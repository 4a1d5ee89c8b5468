//! The log viewer's search helpers: numbered lines kept by a Unicode
//! case-insensitive query, the hit and line counts, and the split of a line into
//! highlighted and plain segments.

use vstd::prelude::*;
use vstd::string::StrSliceExecFns;
use crate::text::{
    chars_of, contains, contains_seq, line_spans, lines_of, lower_trimmed, lowercase_chars, lowercase_first,
    matches_at, occurs_at, trim, unicode_lowercase, unicode_lowercase_first,
};

verus! {

/// Whether a line survives the query: a blank query keeps every line, otherwise the
/// line's lowercase form must contain the query's trimmed lowercase form.
pub open spec fn keeps_line(line: Seq<char>, query: Seq<char>) -> bool {
    trim(query).len() == 0 || contains_seq(unicode_lowercase(line), unicode_lowercase(trim(query)))
}

/// The `(1-based number, line)` pairs of `lines` that `query` keeps, in order.
pub open spec fn kept_lines(lines: Seq<Seq<char>>, query: Seq<char>) -> Seq<(int, Seq<char>)>
    decreases lines.len(),
{
    if lines.len() == 0 {
        seq![]
    } else {
        let rest = kept_lines(lines.drop_last(), query);
        if keeps_line(lines.last(), query) {
            rest.push((lines.len() as int, lines.last()))
        } else {
            rest
        }
    }
}

/// The lines of `content` that `query` keeps, numbered from one by their place in
/// `content`.
pub fn filter_lines<'a>(content: &'a str, query: &str) -> (r: Vec<(usize, &'a str)>)
    ensures
        r@.len() == kept_lines(lines_of(content@), query@).len(),
        forall|i: int|
            0 <= i < r@.len() ==> (#[trigger] r@[i]).0 == kept_lines(lines_of(content@), query@)[i].0 && r@[i].1@
                == kept_lines(lines_of(content@), query@)[i].1,
{
    let cs = chars_of(content);
    let spans = line_spans(cs.as_slice());
    let needle = lower_trimmed(query);
    let ghost lines = lines_of(content@);
    let mut out: Vec<(usize, &'a str)> = Vec::new();
    let mut i: usize = 0;
    while i < spans.len()
        invariant
            i <= spans@.len(),
            cs@ == content@,
            needle@ == unicode_lowercase(trim(query@)),
            needle@.len() == 0 <==> trim(query@).len() == 0,
            spans@.len() == lines.len(),
            lines == lines_of(content@),
            forall|k: int|
                0 <= k < spans@.len() ==> {
                    &&& (#[trigger] spans@[k]).0 <= spans@[k].1 <= content@.len()
                    &&& content@.subrange(spans@[k].0 as int, spans@[k].1 as int) == lines[k]
                },
            out@.len() == kept_lines(lines.take(i as int), query@).len(),
            forall|k: int|
                0 <= k < out@.len() ==> (#[trigger] out@[k]).0 == kept_lines(lines.take(i as int), query@)[k].0
                    && out@[k].1@ == kept_lines(lines.take(i as int), query@)[k].1,
        decreases spans@.len() - i,
    {
        let (from, to) = spans[i];
        let line = content.substring_char(from, to);
        let keep = if needle.len() == 0 {
            true
        } else {
            let lowered = lowercase_chars(line);
            contains(lowered.as_slice(), needle.as_slice())
        };
        let ghost before = out@;
        proof {
            assert(lines.take(i + 1).drop_last() =~= lines.take(i as int));
            assert(lines.take(i + 1).last() == lines[i as int]);
            assert(keep == keeps_line(lines[i as int], query@));
        }
        if keep {
            out.push((i + 1, line));
        }
        i = i + 1;
    }
    proof {
        assert(lines.take(lines.len() as int) =~= lines);
    }
    out
}

/// How many of `lines` the query keeps.
pub open spec fn kept_count(lines: Seq<Seq<char>>, query: Seq<char>) -> nat
    decreases lines.len(),
{
    if lines.len() == 0 {
        0
    } else {
        kept_count(lines.drop_last(), query) + if keeps_line(lines.last(), query) {
            1nat
        } else {
            0nat
        }
    }
}

proof fn lemma_kept_count_len(lines: Seq<Seq<char>>, query: Seq<char>)
    ensures
        kept_lines(lines, query).len() == kept_count(lines, query),
        kept_count(lines, query) <= lines.len(),
    decreases lines.len(),
{
    if lines.len() > 0 {
        lemma_kept_count_len(lines.drop_last(), query);
    }
}

/// `(matching lines, total lines)` of `content` for `query`; a blank query matches
/// every line.
pub fn match_count(content: &str, query: &str) -> (r: (usize, usize))
    ensures
        r.0 == kept_count(lines_of(content@), query@),
        r.1 == lines_of(content@).len(),
{
    let kept = filter_lines(content, query);
    let cs = chars_of(content);
    let spans = line_spans(cs.as_slice());
    proof {
        lemma_kept_count_len(lines_of(content@), query@);
    }
    (kept.len(), spans.len())
}

/// Each character of `t` replaced by the first character of its lowercase mapping, so
/// positions in the result are positions in `t`.
pub open spec fn folded(t: Seq<char>) -> Seq<char> {
    t.map_values(|c: char| unicode_lowercase_first(c))
}

/// The `(highlighted, from, to)` character spans that cover `lower[last..]` when the
/// scan for `needle` has reached `cursor`: each leftmost occurrence at or after the
/// cursor is highlighted, the scan resuming after it, and the text between occurrences
/// forms plain spans (empty ones left out).
pub open spec fn hl_spans(lower: Seq<char>, needle: Seq<char>, cursor: int, last: int) -> Seq<(bool, int, int)>
    decreases lower.len() - cursor,
{
    if needle.len() == 0 || cursor < 0 || cursor + needle.len() > lower.len() {
        if last < lower.len() {
            seq![(false, last, lower.len() as int)]
        } else {
            seq![]
        }
    } else if occurs_at(lower, needle, cursor) {
        let end = cursor + needle.len();
        let head = if cursor > last { seq![(false, last, cursor)] } else { Seq::<(bool, int, int)>::empty() };
        head + seq![(true, cursor, end)] + hl_spans(lower, needle, end, end)
    } else {
        hl_spans(lower, needle, cursor + 1, last)
    }
}

/// `text` split into `(highlighted, segment)` pairs: the segments concatenate to `text`
/// and the highlighted ones are the non-overlapping case-insensitive occurrences of the
/// trimmed query, found left to right. Matching is done on [`folded`] characters, so
/// every segment boundary falls between characters of `text`. A blank query yields the
/// whole text as one plain segment.
pub fn highlight_segments<'a>(text: &'a str, query: &str) -> (r: Vec<(bool, &'a str)>)
    ensures
        joined(r@.map_values(|p: (bool, &'a str)| p.1@)) == text@,
        trim(query@).len() > 0 ==> forall|i: int| 0 <= i < r@.len() ==> (#[trigger] r@[i]).1@.len() > 0,
        trim(query@).len() > 0 ==> forall|i: int|
            0 <= i < r@.len() && (#[trigger] r@[i]).0 ==> folded(r@[i].1@) == unicode_lowercase(trim(query@)),
        trim(query@).len() == 0 ==> r@.len() == 1 && !r@[0].0 && r@[0].1@ == text@,
        trim(query@).len() > 0 ==> {
            let spans = hl_spans(folded(text@), unicode_lowercase(trim(query@)), 0, 0);
            &&& r@.len() == spans.len()
            &&& forall|i: int|
                0 <= i < r@.len() ==> (#[trigger] r@[i]).0 == spans[i].0 && r@[i].1@ == text@.subrange(
                    spans[i].1,
                    spans[i].2,
                )
        },
{
    let needle = lower_trimmed(query);
    if needle.len() == 0 {
        let mut whole: Vec<(bool, &'a str)> = Vec::new();
        whole.push((false, text));
        proof {
            let parts = whole@.map_values(|p: (bool, &'a str)| p.1@);
            assert(parts.drop_first() =~= Seq::<Seq<char>>::empty());
            assert(joined(parts.drop_first()) =~= Seq::<char>::empty());
            assert(parts[0] + Seq::<char>::empty() =~= text@);
        }
        return whole;
    }
    let cs = chars_of(text);
    let mut lower: Vec<char> = Vec::new();
    let mut k: usize = 0;
    while k < cs.len()
        invariant
            k <= cs@.len(),
            lower@ == folded(cs@.take(k as int)),
        decreases cs@.len() - k,
    {
        lower.push(lowercase_first(cs[k]));
        proof {
            assert(folded(cs@.take(k + 1)) =~= folded(cs@.take(k as int)).push(unicode_lowercase_first(cs@[k as int])));
        }
        k = k + 1;
    }
    proof {
        assert(cs@.take(cs@.len() as int) =~= cs@);
    }
    let ghost total = hl_spans(lower@, needle@, 0, 0);
    let n = lower.len();
    let mut spans: Vec<(bool, usize, usize)> = Vec::new();
    let mut cursor: usize = 0;
    let mut last: usize = 0;
    proof {
        assert(spans@.map_values(|p: (bool, usize, usize)| (p.0, p.1 as int, p.2 as int)) + hl_spans(
            lower@,
            needle@,
            0,
            0,
        ) =~= total);
    }
    while needle.len() <= n - cursor
        invariant
            n == lower@.len(),
            needle@.len() > 0,
            last <= cursor <= n,
            total == hl_spans(lower@, needle@, 0, 0),
            spans@.map_values(|p: (bool, usize, usize)| (p.0, p.1 as int, p.2 as int)) + hl_spans(
                lower@,
                needle@,
                cursor as int,
                last as int,
            ) =~= total,
            forall|j: int| 0 <= j < spans@.len() ==> (#[trigger] spans@[j]).1 <= spans@[j].2 <= n,
        decreases n - cursor,
    {
        let ghost before = spans@;
        if matches_at(lower.as_slice(), needle.as_slice(), cursor) {
            let end = cursor + needle.len();
            if cursor > last {
                spans.push((false, last, cursor));
            }
            spans.push((true, cursor, end));
            proof {
                let m = |p: (bool, usize, usize)| (p.0, p.1 as int, p.2 as int);
                let head = if cursor > last {
                    seq![(false, last as int, cursor as int)]
                } else {
                    Seq::<(bool, int, int)>::empty()
                };
                assert(spans@.map_values(m) =~= before.map_values(m) + head + seq![(true, cursor as int, end as int)]);
            }
            last = end;
            cursor = end;
        } else {
            cursor = cursor + 1;
        }
    }
    if last < n {
        let ghost before = spans@;
        spans.push((false, last, n));
        proof {
            let m = |p: (bool, usize, usize)| (p.0, p.1 as int, p.2 as int);
            assert(spans@.map_values(m) =~= before.map_values(m).push((false, last as int, n as int)));
        }
    } else {
        proof {
            let m = |p: (bool, usize, usize)| (p.0, p.1 as int, p.2 as int);
            assert(spans@.map_values(m) + Seq::<(bool, int, int)>::empty() =~= spans@.map_values(m));
        }
    }
    proof {
        assert(lower@ == folded(text@));
        assert(spans@.map_values(|p: (bool, usize, usize)| (p.0, p.1 as int, p.2 as int)) =~= total);
    }
    let mut out: Vec<(bool, &'a str)> = Vec::new();
    let mut i: usize = 0;
    while i < spans.len()
        invariant
            i <= spans@.len(),
            n == text@.len(),
            spans@.map_values(|p: (bool, usize, usize)| (p.0, p.1 as int, p.2 as int)) == total,
            forall|j: int| 0 <= j < spans@.len() ==> (#[trigger] spans@[j]).1 <= spans@[j].2 <= n,
            out@.len() == i,
            forall|j: int|
                0 <= j < i ==> (#[trigger] out@[j]).0 == total[j].0 && out@[j].1@ == text@.subrange(total[j].1, total[j].2),
        decreases spans@.len() - i,
    {
        let (h, from, to) = spans[i];
        proof {
            assert(spans@.map_values(|p: (bool, usize, usize)| (p.0, p.1 as int, p.2 as int))[i as int] == (
                h,
                from as int,
                to as int,
            ));
        }
        out.push((h, text.substring_char(from, to)));
        i = i + 1;
    }
    proof {
        lemma_hl_spans_tile(lower@, needle@, 0, 0);
        lemma_tiles_bounds(total, 0, n as int);
        let parts = out@.map_values(|p: (bool, &'a str)| p.1@);
        assert(parts =~= total.map_values(|t: (bool, int, int)| text@.subrange(t.1, t.2)));
        lemma_tiles_rebuild(text@, total, 0, n as int);
        assert(text@.subrange(0, n as int) =~= text@);
        assert forall|j: int| 0 <= j < out@.len() && (#[trigger] out@[j]).0 implies folded(out@[j].1@) == needle@ by {
            assert(occurs_at(lower@, needle@, total[j].1));
            assert(folded(out@[j].1@) =~= lower@.subrange(total[j].1, total[j].2));
        }
    }
    out
}

/// The pieces of `parts` one after the other.
pub open spec fn joined(parts: Seq<Seq<char>>) -> Seq<char>
    decreases parts.len(),
{
    if parts.len() == 0 {
        seq![]
    } else {
        parts[0] + joined(parts.drop_first())
    }
}

/// Spans that tile `from..to` lie in order within it, each non-empty.
proof fn lemma_tiles_bounds(spans: Seq<(bool, int, int)>, from: int, to: int)
    requires
        tiles(spans, from, to),
    ensures
        from <= to,
        forall|i: int| 0 <= i < spans.len() ==> from <= (#[trigger] spans[i]).1 < spans[i].2 <= to,
    decreases spans.len(),
{
    if spans.len() > 0 {
        let rest = spans.drop_first();
        lemma_tiles_bounds(rest, spans[0].2, to);
        assert forall|i: int| 0 <= i < spans.len() implies from <= (#[trigger] spans[i]).1 < spans[i].2 <= to by {
            if i > 0 {
                assert(spans[i] == rest[i - 1]);
            }
        }
    }
}

/// The pieces of `text` that spans tiling `from..to` cut out rebuild `text[from..to]`.
proof fn lemma_tiles_rebuild(text: Seq<char>, spans: Seq<(bool, int, int)>, from: int, to: int)
    requires
        tiles(spans, from, to),
        0 <= from,
        to <= text.len(),
    ensures
        joined(spans.map_values(|t: (bool, int, int)| text.subrange(t.1, t.2))) == text.subrange(from, to),
    decreases spans.len(),
{
    let parts = spans.map_values(|t: (bool, int, int)| text.subrange(t.1, t.2));
    lemma_tiles_bounds(spans, from, to);
    if spans.len() == 0 {
        assert(text.subrange(from, to) =~= Seq::<char>::empty());
    } else {
        let rest = spans.drop_first();
        lemma_tiles_rebuild(text, rest, spans[0].2, to);
        assert(parts.drop_first() =~= rest.map_values(|t: (bool, int, int)| text.subrange(t.1, t.2)));
        assert(text.subrange(from, to) =~= text.subrange(from, spans[0].2) + text.subrange(spans[0].2, to));
    }
}

// ─── Laws ───────────────────────────────────────────────────────────────────

/// A blank query keeps every line, numbered in order.
pub proof fn lemma_blank_query_keeps_all(lines: Seq<Seq<char>>, query: Seq<char>)
    requires
        trim(query).len() == 0,
    ensures
        kept_lines(lines, query).len() == lines.len(),
        forall|i: int| 0 <= i < lines.len() ==> #[trigger] kept_lines(lines, query)[i] == (i + 1, lines[i]),
    decreases lines.len(),
{
    if lines.len() > 0 {
        lemma_blank_query_keeps_all(lines.drop_last(), query);
        let rest = kept_lines(lines.drop_last(), query);
        assert forall|i: int| 0 <= i < lines.len() implies #[trigger] kept_lines(lines, query)[i] == (i + 1, lines[i]) by {
            if i < lines.len() - 1 {
                assert(rest[i] == (i + 1, lines.drop_last()[i]));
            }
        }
    }
}


/// `spans` cover the positions `from..to` in order: each span is non-empty and starts
/// where the previous one ended.
pub open spec fn tiles(spans: Seq<(bool, int, int)>, from: int, to: int) -> bool
    decreases spans.len(),
{
    if spans.len() == 0 {
        from == to
    } else {
        spans[0].1 == from && spans[0].1 < spans[0].2 && tiles(spans.drop_first(), spans[0].2, to)
    }
}

proof fn lemma_tiles_concat(a: Seq<(bool, int, int)>, b: Seq<(bool, int, int)>, from: int, mid: int, to: int)
    requires
        tiles(a, from, mid),
        tiles(b, mid, to),
    ensures
        tiles(a + b, from, to),
    decreases a.len(),
{
    if a.len() == 0 {
        assert(a + b =~= b);
    } else {
        lemma_tiles_concat(a.drop_first(), b, a[0].2, mid, to);
        assert((a + b).drop_first() =~= a.drop_first() + b);
    }
}

/// The highlight scan cuts the text into non-empty segments that cover it from the
/// first unemitted position to the end, and every highlighted segment is an
/// occurrence of the needle.
pub proof fn lemma_hl_spans_tile(lower: Seq<char>, needle: Seq<char>, cursor: int, last: int)
    requires
        needle.len() > 0,
        0 <= last <= cursor <= lower.len(),
    ensures
        tiles(hl_spans(lower, needle, cursor, last), last, lower.len() as int),
        forall|i: int|
            0 <= i < hl_spans(lower, needle, cursor, last).len() && (#[trigger] hl_spans(lower, needle, cursor, last)[i]).0
                ==> occurs_at(lower, needle, hl_spans(lower, needle, cursor, last)[i].1) && hl_spans(
                lower,
                needle,
                cursor,
                last,
            )[i].2 == hl_spans(lower, needle, cursor, last)[i].1 + needle.len(),
    decreases lower.len() - cursor,
{
    let spans = hl_spans(lower, needle, cursor, last);
    if cursor + needle.len() > lower.len() {
        if last < lower.len() {
            assert(tiles(seq![(false, last, lower.len() as int)].drop_first(), lower.len() as int, lower.len() as int));
        }
    } else if occurs_at(lower, needle, cursor) {
        let end = cursor + needle.len();
        let head = if cursor > last { seq![(false, last, cursor)] } else { Seq::<(bool, int, int)>::empty() };
        let mid = seq![(true, cursor, end)];
        let tail = hl_spans(lower, needle, end, end);
        lemma_hl_spans_tile(lower, needle, end, end);
        if cursor > last {
            assert(tiles(head.drop_first(), cursor, cursor));
        }
        assert(tiles(head, last, cursor));
        assert(tiles(mid.drop_first(), end, end));
        assert(tiles(mid, cursor, end));
        lemma_tiles_concat(mid, tail, cursor, end, lower.len() as int);
        lemma_tiles_concat(head, mid + tail, last, cursor, lower.len() as int);
        assert(spans =~= head + (mid + tail));
        assert forall|i: int| 0 <= i < spans.len() && (#[trigger] spans[i]).0 implies occurs_at(lower, needle, spans[i].1)
            && spans[i].2 == spans[i].1 + needle.len() by {
            if i >= head.len() + 1 {
                assert(spans[i] == tail[i - head.len() - 1]);
            }
        }
    } else {
        lemma_hl_spans_tile(lower, needle, cursor + 1, last);
    }
}

} // verus!
