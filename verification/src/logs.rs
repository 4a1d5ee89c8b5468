//! The shared log panel's line helpers: numbered lines with an ASCII
//! case-insensitive keyword match, and the total / matching line counts.

use vstd::prelude::*;
use vstd::string::StrSliceExecFns;
use crate::text::{
    ascii_lower_seq, ascii_lowered, chars_of, contains, contains_seq, lemma_ascii_lower_seq_twice, lemma_trim_ascii_lower,
    line_spans, lines_of, slice_chars, trim, trimmed,
};

verus! {

/// The needle a log query searches for: trimmed and ASCII-lowercased.
pub open spec fn ascii_needle(query: Seq<char>) -> Seq<char> {
    ascii_lower_seq(trim(query))
}

/// Whether a line matches `needle` (ASCII case-insensitively); an empty needle matches
/// every line.
pub open spec fn line_hits(line: Seq<char>, needle: Seq<char>) -> bool {
    needle.len() == 0 || contains_seq(ascii_lower_seq(line), needle)
}

/// How many of `lines` match `needle`.
pub open spec fn hit_count(lines: Seq<Seq<char>>, needle: Seq<char>) -> nat
    decreases lines.len(),
{
    if lines.len() == 0 {
        0
    } else {
        hit_count(lines.drop_last(), needle) + if line_hits(lines.last(), needle) {
            1nat
        } else {
            0nat
        }
    }
}

/// `text` split into `(1-based line number, line, matches)` rows, the lines as
/// `str::lines` yields them; a blank query marks every line as matching.
pub fn split_lines<'a>(text: &'a str, query: &str) -> (r: Vec<(usize, &'a str, bool)>)
    ensures
        r@.len() == lines_of(text@).len(),
        forall|i: int|
            0 <= i < r@.len() ==> {
                &&& (#[trigger] r@[i]).0 == i + 1
                &&& r@[i].1@ == lines_of(text@)[i]
                &&& r@[i].2 == line_hits(lines_of(text@)[i], ascii_needle(query@))
            },
{
    let cs = chars_of(text);
    let spans = line_spans(cs.as_slice());
    let q = chars_of(query);
    let t = trimmed(q.as_slice());
    let needle = ascii_lowered(t.as_slice());
    let mut out: Vec<(usize, &'a str, bool)> = Vec::new();
    let mut i: usize = 0;
    while i < spans.len()
        invariant
            i <= spans@.len(),
            cs@ == text@,
            needle@ == ascii_needle(query@),
            spans@.len() == lines_of(text@).len(),
            forall|k: int|
                0 <= k < spans@.len() ==> {
                    &&& (#[trigger] spans@[k]).0 <= spans@[k].1 <= text@.len()
                    &&& text@.subrange(spans@[k].0 as int, spans@[k].1 as int) == lines_of(text@)[k]
                },
            out@.len() == i,
            forall|k: int|
                0 <= k < i ==> {
                    &&& (#[trigger] out@[k]).0 == k + 1
                    &&& out@[k].1@ == lines_of(text@)[k]
                    &&& out@[k].2 == line_hits(lines_of(text@)[k], ascii_needle(query@))
                },
        decreases spans@.len() - i,
    {
        let (from, to) = spans[i];
        let line = text.substring_char(from, to);
        let raw = slice_chars(cs.as_slice(), from, to);
        let lowered = ascii_lowered(raw.as_slice());
        let m = needle.len() == 0 || contains(lowered.as_slice(), needle.as_slice());
        out.push((i + 1, line, m));
        i = i + 1;
    }
    out
}

/// `(total lines, matching lines)` of `text` for `query`; a blank query counts every
/// line as matching.
pub fn line_counts(text: &str, query: &str) -> (r: (usize, usize))
    ensures
        r.0 == lines_of(text@).len(),
        r.1 == hit_count(lines_of(text@), ascii_needle(query@)),
{
    let rows = split_lines(text, query);
    let ghost lines = lines_of(text@);
    let ghost needle = ascii_needle(query@);
    let mut hits: usize = 0;
    let mut i: usize = 0;
    while i < rows.len()
        invariant
            i <= rows@.len(),
            rows@.len() == lines.len(),
            forall|k: int| 0 <= k < rows@.len() ==> (#[trigger] rows@[k]).2 == line_hits(lines[k], needle),
            hits <= i,
            hits == hit_count(lines.take(i as int), needle),
        decreases rows@.len() - i,
    {
        proof {
            assert(lines.take(i + 1).drop_last() =~= lines.take(i as int));
            assert(lines.take(i + 1).last() == lines[i as int]);
        }
        if rows[i].2 {
            hits = hits + 1;
        }
        i = i + 1;
    }
    proof {
        assert(lines.take(lines.len() as int) =~= lines);
    }
    (rows.len(), hits)
}

// ─── Laws ───────────────────────────────────────────────────────────────────

/// A blank query matches every line, so the matching count is the total.
pub proof fn lemma_blank_query_counts_all(lines: Seq<Seq<char>>, needle: Seq<char>)
    requires
        needle.len() == 0,
    ensures
        hit_count(lines, needle) == lines.len(),
    decreases lines.len(),
{
    if lines.len() > 0 {
        lemma_blank_query_counts_all(lines.drop_last(), needle);
    }
}

/// No more lines match than there are.
pub proof fn lemma_hits_at_most_total(lines: Seq<Seq<char>>, needle: Seq<char>)
    ensures
        hit_count(lines, needle) <= lines.len(),
    decreases lines.len(),
{
    if lines.len() > 0 {
        lemma_hits_at_most_total(lines.drop_last(), needle);
    }
}

/// Matching ignores ASCII case on both sides: a query matches the same lines as its
/// ASCII-lowercased form, and a line is matched as its ASCII-lowercased form is, so the
/// matching count of a query is that of its lowercased form.
pub proof fn lemma_matching_ignores_ascii_case(lines: Seq<Seq<char>>, line: Seq<char>, query: Seq<char>)
    ensures
        line_hits(line, ascii_needle(query)) == line_hits(line, ascii_needle(ascii_lower_seq(query))),
        line_hits(line, ascii_needle(query)) == line_hits(ascii_lower_seq(line), ascii_needle(query)),
        hit_count(lines, ascii_needle(query)) == hit_count(lines, ascii_needle(ascii_lower_seq(query))),
{
    lemma_trim_ascii_lower(query);
    lemma_ascii_lower_seq_twice(trim(query));
    lemma_ascii_lower_seq_twice(line);
    assert(ascii_needle(ascii_lower_seq(query)) == ascii_needle(query));
}

} // verus!

