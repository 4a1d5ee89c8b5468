//! Character-level text primitives shared by every page: conversions between
//! `str` and character vectors, whitespace trimming, case folding, substring
//! search, line splitting and decimal rendering.

use vstd::prelude::*;

verus! {

// ─── Conversions ─────────────────────────────────────────────────────────────

/// Collects the characters of `s` in order.
pub fn chars_of(s: &str) -> (r: Vec<char>)
    ensures
        r@ == s@,
{
    let mut out: Vec<char> = Vec::new();
    for c in iter: s.chars()
        invariant
            iter.seq() == s@,
            out@ == iter.seq().take(iter.index() as int),
    {
        out.push(c);
    }
    out
}

/// Builds a `String` holding exactly the characters of `v`, in order
/// (`Iterator::collect` into `String`).
#[verifier::external_body]
pub(crate) fn string_of(v: &[char]) -> (r: String)
    ensures
        r@ == v@,
{
    v.iter().collect()
}

/// A `String` holding exactly the characters of `s` (`str::to_string`).
pub fn owned(s: &str) -> (r: String)
    ensures
        r@ == s@,
{
    let v = chars_of(s);
    string_of(v.as_slice())
}

// ─── Unicode character classes (std) ────────────────────────────────────────

/// Whether `c` carries the Unicode `White_Space` property, as `char::is_whitespace` reports
/// it: tab through carriage return, space, next line, no-break space, ogham space mark, en
/// quad through hair space, the line and paragraph separators, narrow no-break space,
/// medium mathematical space and ideographic space.
pub open spec fn unicode_whitespace(c: char) -> bool {
    let u = c as u32;
    ||| 0x09 <= u <= 0x0D
    ||| u == 0x20
    ||| u == 0x85
    ||| u == 0xA0
    ||| u == 0x1680
    ||| 0x2000 <= u <= 0x200A
    ||| u == 0x2028
    ||| u == 0x2029
    ||| u == 0x202F
    ||| u == 0x205F
    ||| u == 0x3000
}

/// Whether `c` is alphabetic or numeric in Unicode's sense, as `char::is_alphanumeric` reports it.
pub uninterp spec fn unicode_alphanumeric(c: char) -> bool;

/// The full Unicode lowercase mapping of a string, as `str::to_lowercase` computes it.
pub uninterp spec fn unicode_lowercase(s: Seq<char>) -> Seq<char>;

/// The first character of the Unicode lowercase mapping of `c` (`char::to_lowercase`),
/// or `c` itself when that mapping is empty.
pub uninterp spec fn unicode_lowercase_first(c: char) -> char;

/// Whether `c` is whitespace (see [`unicode_whitespace`]).
pub fn is_whitespace(c: char) -> (r: bool)
    ensures
        r == unicode_whitespace(c),
{
    let u = c as u32;
    (0x09 <= u && u <= 0x0D) || u == 0x20 || u == 0x85 || u == 0xA0 || u == 0x1680 || (0x2000 <= u && u <= 0x200A)
        || u == 0x2028 || u == 0x2029 || u == 0x202F || u == 0x205F || u == 0x3000
}

/// Whether `c` is an ASCII letter or digit.
pub open spec fn ascii_alphanumeric(c: char) -> bool {
    ||| 'a' <= c <= 'z'
    ||| 'A' <= c <= 'Z'
    ||| '0' <= c <= '9'
}

/// Whether every character of `s` is ASCII.
pub open spec fn all_ascii(s: Seq<char>) -> bool {
    forall|i: int| 0 <= i < s.len() ==> (#[trigger] s[i] as u32) < 128
}

/// `char::is_alphanumeric`: claims that the answer is the Unicode alphabetic-or-numeric
/// property of `c`, named [`unicode_alphanumeric`], and, as std documents for ASCII, that
/// an ASCII character has it exactly when it is a letter or a digit.
#[verifier::external_body]
pub(crate) fn is_alphanumeric(c: char) -> (r: bool)
    ensures
        r == unicode_alphanumeric(c),
        (c as u32) < 128 ==> r == ascii_alphanumeric(c),
{
    c.is_alphanumeric()
}

/// `str::to_lowercase`, returned as its characters: claims that the result is the
/// Unicode lowercase mapping of `s`, named [`unicode_lowercase`], that it is empty exactly
/// when `s` is (each character lowercases to one or more characters), and that ASCII text
/// lowercases as `str::to_ascii_lowercase` does (ASCII `A`–`Z` map to `a`–`z`, every other
/// ASCII character to itself).
#[verifier::external_body]
pub(crate) fn lowercase_chars(s: &str) -> (r: Vec<char>)
    ensures
        r@ == unicode_lowercase(s@),
        r@.len() == 0 <==> s@.len() == 0,
        all_ascii(s@) ==> r@ == ascii_lower_seq(s@),
{
    s.to_lowercase().chars().collect()
}

/// `char::to_lowercase` reduced to its first character (or `c` when it yields
/// none): claims that the result is [`unicode_lowercase_first`] of `c`, and that an ASCII
/// character lowercases as `char::to_ascii_lowercase` does.
#[verifier::external_body]
pub(crate) fn lowercase_first(c: char) -> (r: char)
    ensures
        r == unicode_lowercase_first(c),
        (c as u32) < 128 ==> r == ascii_lower(c),
{
    c.to_lowercase().next().unwrap_or(c)
}

/// Whether `a` and `b` hold the same characters.
pub fn same_text(a: &str, b: &str) -> (r: bool)
    ensures
        r == (a@ == b@),
{
    let x = chars_of(a);
    let y = chars_of(b);
    if x.len() != y.len() {
        return false;
    }
    let mut i: usize = 0;
    while i < x.len()
        invariant
            i <= x@.len(),
            x@.len() == y@.len(),
            x@ == a@,
            y@ == b@,
            forall|k: int| 0 <= k < i ==> x@[k] == y@[k],
        decreases x@.len() - i,
    {
        if x[i] != y[i] {
            return false;
        }
        i = i + 1;
    }
    proof {
        assert(x@ =~= y@);
    }
    true
}

/// The lowercase characters of `s` with leading and trailing whitespace removed first
/// (`s.trim().to_lowercase()`).
pub fn lower_trimmed(s: &str) -> (r: Vec<char>)
    ensures
        r@ == unicode_lowercase(trim(s@)),
        r@.len() == 0 <==> trim(s@).len() == 0,
{
    let all = chars_of(s);
    let t = trimmed(all.as_slice());
    let ts = string_of(t.as_slice());
    lowercase_chars(ts.as_str())
}

// ─── Trimming ────────────────────────────────────────────────────────────────

/// `s` without its leading whitespace.
pub open spec fn trim_start(s: Seq<char>) -> Seq<char>
    decreases s.len(),
{
    if s.len() > 0 && unicode_whitespace(s[0]) {
        trim_start(s.drop_first())
    } else {
        s
    }
}

/// `s` without its trailing whitespace.
pub open spec fn trim_end(s: Seq<char>) -> Seq<char>
    decreases s.len(),
{
    if s.len() > 0 && unicode_whitespace(s.last()) {
        trim_end(s.drop_last())
    } else {
        s
    }
}

/// `s` without leading and trailing whitespace (what `str::trim` returns).
pub open spec fn trim(s: Seq<char>) -> Seq<char> {
    trim_end(trim_start(s))
}

/// Whether `s` is empty or whitespace only.
pub open spec fn is_blank(s: Seq<char>) -> bool {
    forall|i: int| 0 <= i < s.len() ==> unicode_whitespace(#[trigger] s[i])
}

/// Skipping a leading run of `k` whitespace characters, followed by a non-whitespace
/// character or the end, is what `trim_start` does.
pub proof fn lemma_trim_start_skip(s: Seq<char>, k: int)
    requires
        0 <= k <= s.len(),
        forall|i: int| 0 <= i < k ==> unicode_whitespace(#[trigger] s[i]),
        k == s.len() || !unicode_whitespace(s[k]),
    ensures
        trim_start(s) == s.skip(k),
    decreases k,
{
    if k == 0 {
        assert(s.skip(0) =~= s);
    } else {
        assert(unicode_whitespace(s[0]));
        let t = s.drop_first();
        assert forall|i: int| 0 <= i < k - 1 implies unicode_whitespace(#[trigger] t[i]) by {
            assert(t[i] == s[i + 1]);
        }
        if k - 1 < t.len() {
            assert(t[k - 1] == s[k]);
        }
        lemma_trim_start_skip(t, k - 1);
        assert(t.skip(k - 1) =~= s.skip(k));
    }
}

proof fn lemma_trim_end_take(s: Seq<char>, k: int)
    requires
        0 <= k <= s.len(),
        forall|i: int| k <= i < s.len() ==> unicode_whitespace(#[trigger] s[i]),
        k == 0 || !unicode_whitespace(s[k - 1]),
    ensures
        trim_end(s) == s.take(k),
    decreases s.len() - k,
{
    if k == s.len() {
        assert(s.take(k) =~= s);
        if s.len() > 0 {
            assert(s.last() == s[k - 1]);
        }
    } else {
        assert(unicode_whitespace(s[s.len() - 1]));
        let t = s.drop_last();
        assert forall|i: int| k <= i < t.len() implies unicode_whitespace(#[trigger] t[i]) by {
            assert(t[i] == s[i]);
        }
        if k > 0 {
            assert(t[k - 1] == s[k - 1]);
        }
        lemma_trim_end_take(t, k);
        assert(t.take(k) =~= s.take(k));
    }
}

/// The characters of `s` without leading and trailing whitespace.
pub fn trimmed(s: &[char]) -> (r: Vec<char>)
    ensures
        r@ == trim(s@),
        r@.len() == 0 <==> is_blank(s@),
{
    let n = s.len();
    let mut a: usize = 0;
    while a < n && is_whitespace(s[a])
        invariant
            a <= n,
            n == s@.len(),
            forall|i: int| 0 <= i < a ==> unicode_whitespace(#[trigger] s@[i]),
        decreases n - a,
    {
        a = a + 1;
    }
    proof {
        lemma_trim_start_skip(s@, a as int);
    }
    let mut b: usize = n;
    while b > a && is_whitespace(s[b - 1])
        invariant
            a <= b <= n,
            n == s@.len(),
            forall|i: int| b <= i < n ==> unicode_whitespace(#[trigger] s@[i]),
        decreases b,
    {
        b = b - 1;
    }
    let mut out: Vec<char> = Vec::new();
    let mut i = a;
    while i < b
        invariant
            a <= i <= b <= n,
            n == s@.len(),
            out@ == s@.subrange(a as int, i as int),
        decreases b - i,
    {
        out.push(s[i]);
        i = i + 1;
    }
    proof {
        let t = s@.skip(a as int);
        assert forall|j: int| b - a <= j < t.len() implies unicode_whitespace(#[trigger] t[j]) by {
            assert(t[j] == s@[j + a]);
        }
        if b > a {
            assert(t[b - a - 1] == s@[b - 1]);
        }
        lemma_trim_end_take(t, b - a);
        assert(t.take(b - a) =~= out@);
        if out@.len() == 0 {
            assert forall|j: int| 0 <= j < s@.len() implies unicode_whitespace(#[trigger] s@[j]) by {
                if j >= a {
                    assert(j >= b);
                }
            }
        } else {
            assert(!unicode_whitespace(s@[a as int]));
        }
    }
    out
}

/// Whether `s` is empty or whitespace only (`s.trim().is_empty()`).
pub fn blank(s: &[char]) -> (r: bool)
    ensures
        r == is_blank(s@),
        r == (trim(s@).len() == 0),
{
    let t = trimmed(s);
    t.len() == 0
}

// ─── ASCII case folding ─────────────────────────────────────────────────────

/// `c` with `A`–`Z` mapped to `a`–`z` (`char::to_ascii_lowercase`).
pub open spec fn ascii_lower(c: char) -> char {
    if 'A' <= c <= 'Z' {
        ((c as u32) + 32) as char
    } else {
        c
    }
}

/// Every character of `s` through [`ascii_lower`] (`str::to_ascii_lowercase`).
pub open spec fn ascii_lower_seq(s: Seq<char>) -> Seq<char> {
    s.map_values(|c: char| ascii_lower(c))
}

/// The ASCII-lowercase image of `c`.
pub fn to_ascii_lower(c: char) -> (r: char)
    ensures
        r == ascii_lower(c),
{
    if 'A' <= c && c <= 'Z' {
        let code: u8 = (c as u8) + 32;
        code as char
    } else {
        c
    }
}

/// The ASCII-lowercase image of every character of `s`.
pub fn ascii_lowered(s: &[char]) -> (r: Vec<char>)
    ensures
        r@ == ascii_lower_seq(s@),
{
    let mut out: Vec<char> = Vec::new();
    let mut i: usize = 0;
    while i < s.len()
        invariant
            i <= s@.len(),
            out@ == ascii_lower_seq(s@.take(i as int)),
        decreases s@.len() - i,
    {
        out.push(to_ascii_lower(s[i]));
        proof {
            assert(s@.take(i + 1) =~= s@.take(i as int).push(s@[i as int]));
        }
        i = i + 1;
        proof {
            assert(ascii_lower_seq(s@.take(i as int)) =~= out@);
        }
    }
    proof {
        assert(s@.take(s@.len() as int) =~= s@);
    }
    out
}

// ─── Substring search ───────────────────────────────────────────────────────

/// `needle` occurs in `hay` starting at index `i`.
pub open spec fn occurs_at(hay: Seq<char>, needle: Seq<char>, i: int) -> bool {
    0 <= i && i + needle.len() <= hay.len() && hay.subrange(i, i + needle.len()) == needle
}

/// `needle` occurs somewhere in `hay` (`str::contains` with a string pattern).
pub open spec fn contains_seq(hay: Seq<char>, needle: Seq<char>) -> bool {
    exists|i: int| occurs_at(hay, needle, i)
}

/// Whether `needle` matches `hay` at position `i`.
pub fn matches_at(hay: &[char], needle: &[char], i: usize) -> (r: bool)
    requires
        i + needle@.len() <= hay@.len(),
    ensures
        r == occurs_at(hay@, needle@, i as int),
{
    let hl = hay.len();
    let mut k: usize = 0;
    while k < needle.len()
        invariant
            hl == hay@.len(),
            k <= needle@.len(),
            i + needle@.len() <= hay@.len(),
            forall|j: int| 0 <= j < k ==> hay@[i + j] == needle@[j],
        decreases needle@.len() - k,
    {
        if hay[i + k] != needle[k] {
            proof {
                assert(hay@.subrange(i as int, i + needle@.len())[k as int] == hay@[i + k]);
            }
            return false;
        }
        k = k + 1;
    }
    proof {
        assert(hay@.subrange(i as int, i + needle@.len()) =~= needle@);
    }
    true
}

/// Whether `needle` occurs in `hay`.
pub fn contains(hay: &[char], needle: &[char]) -> (r: bool)
    ensures
        r == contains_seq(hay@, needle@),
{
    if needle.len() > hay.len() {
        proof {
            assert forall|i: int| !occurs_at(hay@, needle@, i) by {}
        }
        return false;
    }
    if needle.len() == 0 {
        proof {
            assert(hay@.subrange(0, 0) =~= needle@);
            assert(occurs_at(hay@, needle@, 0));
        }
        return true;
    }
    let hl = hay.len();
    let last = hl - needle.len();
    let mut i: usize = 0;
    while i <= last
        invariant
            needle@.len() > 0,
            last < hl,
            last == hay@.len() - needle@.len(),
            i <= last + 1,
            forall|j: int| 0 <= j < i ==> !occurs_at(hay@, needle@, j),
        decreases last + 1 - i,
    {
        if matches_at(hay, needle, i) {
            return true;
        }
        i = i + 1;
    }
    proof {
        assert forall|j: int| !occurs_at(hay@, needle@, j) by {
            if 0 <= j <= last {
                assert(j < i);
            }
        }
    }
    false
}

// ─── Lines ───────────────────────────────────────────────────────────────────

/// Index of the first `'\n'` in `s`, or `s.len()` when there is none.
pub open spec fn first_newline(s: Seq<char>) -> int
    decreases s.len(),
{
    if s.len() == 0 {
        0
    } else if s[0] == '\n' {
        0
    } else {
        1 + first_newline(s.drop_first())
    }
}

/// [`first_newline`] lies within `s`.
pub proof fn lemma_first_newline_bounds(s: Seq<char>)
    ensures
        0 <= first_newline(s) <= s.len(),
    decreases s.len(),
{
    if s.len() > 0 && s[0] != '\n' {
        lemma_first_newline_bounds(s.drop_first());
    }
}

/// One line's text: `raw` without the `'\r'` of a `"\r\n"` terminator.
pub open spec fn strip_cr(raw: Seq<char>, terminated: bool) -> Seq<char> {
    if terminated && raw.len() > 0 && raw.last() == '\r' {
        raw.drop_last()
    } else {
        raw
    }
}

/// The lines of `s` as `str::lines` yields them: split at `'\n'`, a `'\r'` just
/// before a `'\n'` dropped, and no empty final line after a trailing newline.
pub open spec fn lines_of(s: Seq<char>) -> Seq<Seq<char>>
    decreases s.len(),
{
    if s.len() == 0 {
        seq![]
    } else {
        let k = first_newline(s);
        proof {
            lemma_first_newline_bounds(s);
        }
        if k >= s.len() {
            seq![s]
        } else {
            seq![strip_cr(s.take(k), true)] + lines_of(s.skip(k + 1))
        }
    }
}

proof fn lemma_first_newline(s: Seq<char>, k: int)
    requires
        0 <= k <= s.len(),
        forall|i: int| 0 <= i < k ==> s[i] != '\n',
        k == s.len() || s[k] == '\n',
    ensures
        first_newline(s) == k,
    decreases k,
{
    if k > 0 {
        let t = s.drop_first();
        assert forall|i: int| 0 <= i < k - 1 implies t[i] != '\n' by {
            assert(t[i] == s[i + 1]);
        }
        if k < s.len() {
            assert(t[k - 1] == s[k]);
        }
        lemma_first_newline(t, k - 1);
    }
}

/// The characters of `s` from `from` (inclusive) to `to` (exclusive).
pub fn slice_chars(s: &[char], from: usize, to: usize) -> (r: Vec<char>)
    requires
        from <= to <= s@.len(),
    ensures
        r@ == s@.subrange(from as int, to as int),
{
    let mut out: Vec<char> = Vec::new();
    let mut i = from;
    while i < to
        invariant
            from <= i <= to <= s@.len(),
            out@ == s@.subrange(from as int, i as int),
        decreases to - i,
    {
        out.push(s[i]);
        i = i + 1;
    }
    out
}

/// Where the lines of `s` lie: for each line of [`lines_of`], the character range of
/// `s` that holds it.
pub fn line_spans(s: &[char]) -> (r: Vec<(usize, usize)>)
    ensures
        r@.len() == lines_of(s@).len(),
        forall|i: int|
            0 <= i < r@.len() ==> {
                &&& (#[trigger] r@[i]).0 <= r@[i].1 <= s@.len()
                &&& s@.subrange(r@[i].0 as int, r@[i].1 as int) == lines_of(s@)[i]
            },
{
    let n = s.len();
    let mut out: Vec<(usize, usize)> = Vec::new();
    let mut start: usize = 0;
    proof {
        assert(s@.skip(0) =~= s@);
    }
    while start < n
        invariant
            start <= n,
            n == s@.len(),
            lines_of(s@) =~= out@.map_values(|p: (usize, usize)| s@.subrange(p.0 as int, p.1 as int)) + lines_of(
                s@.skip(start as int),
            ),
            forall|i: int| 0 <= i < out@.len() ==> (#[trigger] out@[i]).0 <= out@[i].1 <= n,
        decreases n - start,
    {
        let ghost rest = s@.skip(start as int);
        let mut end = start;
        while end < n && s[end] != '\n'
            invariant
                start <= end <= n,
                n == s@.len(),
                forall|i: int| start <= i < end ==> s@[i] != '\n',
            decreases n - end,
        {
            end = end + 1;
        }
        proof {
            assert forall|i: int| 0 <= i < end - start implies rest[i] != '\n' by {
                assert(rest[i] == s@[i + start]);
            }
            if end < n {
                assert(rest[end - start] == s@[end as int]);
            }
            lemma_first_newline(rest, end - start);
        }
        let terminated = end < n;
        let mut stop = end;
        if terminated && end > start && s[end - 1] == '\r' {
            stop = end - 1;
        }
        proof {
            let raw = rest.take(end - start);
            let line = s@.subrange(start as int, stop as int);
            assert(raw =~= s@.subrange(start as int, end as int));
            if terminated && end > start && s@[end - 1] == '\r' {
                assert(raw.last() == s@[end - 1]);
                assert(strip_cr(raw, true) =~= line);
            } else if terminated {
                if raw.len() > 0 {
                    assert(raw.last() == s@[end - 1]);
                }
                assert(strip_cr(raw, true) =~= line);
            }
        }
        let ghost before = out@;
        out.push((start, stop));
        proof {
            assert(out@.map_values(|p: (usize, usize)| s@.subrange(p.0 as int, p.1 as int)) =~= before.map_values(
                |p: (usize, usize)| s@.subrange(p.0 as int, p.1 as int),
            ).push(s@.subrange(start as int, stop as int)));
        }
        if terminated {
            proof {
                assert(rest.skip(end - start + 1) =~= s@.skip(end + 1));
            }
            start = end + 1;
        } else {
            proof {
                assert(rest =~= s@.subrange(start as int, stop as int));
                assert(s@.skip(n as int) =~= Seq::<char>::empty());
            }
            start = n;
        }
    }
    proof {
        assert(s@.skip(n as int) =~= Seq::<char>::empty());
        assert forall|i: int| 0 <= i < out@.len() implies s@.subrange(
            (#[trigger] out@[i]).0 as int,
            out@[i].1 as int,
        ) == lines_of(s@)[i] by {
            assert(out@.map_values(|p: (usize, usize)| s@.subrange(p.0 as int, p.1 as int))[i] == s@.subrange(
                out@[i].0 as int,
                out@[i].1 as int,
            ));
        }
    }
    out
}

/// The lines of `s`, as [`lines_of`] describes them.
pub fn split_lines(s: &[char]) -> (r: Vec<Vec<char>>)
    ensures
        r@.len() == lines_of(s@).len(),
        forall|i: int| 0 <= i < r@.len() ==> #[trigger] r@[i]@ == lines_of(s@)[i],
{
    let spans = line_spans(s);
    let mut out: Vec<Vec<char>> = Vec::new();
    let mut i: usize = 0;
    while i < spans.len()
        invariant
            i <= spans@.len(),
            spans@.len() == lines_of(s@).len(),
            forall|k: int|
                0 <= k < spans@.len() ==> {
                    &&& (#[trigger] spans@[k]).0 <= spans@[k].1 <= s@.len()
                    &&& s@.subrange(spans@[k].0 as int, spans@[k].1 as int) == lines_of(s@)[k]
                },
            out@.len() == i,
            forall|k: int| 0 <= k < i ==> #[trigger] out@[k]@ == lines_of(s@)[k],
        decreases spans@.len() - i,
    {
        let (from, to) = spans[i];
        out.push(slice_chars(s, from, to));
        i = i + 1;
    }
    out
}

// ─── Joining ────────────────────────────────────────────────────────────────

/// The pieces of `ws` with `sep` between neighbours (`[String]::join`).
pub open spec fn join_with(ws: Seq<Seq<char>>, sep: Seq<char>) -> Seq<char>
    decreases ws.len(),
{
    if ws.len() == 0 {
        seq![]
    } else if ws.len() == 1 {
        ws[0]
    } else {
        join_with(ws.drop_last(), sep) + sep + ws.last()
    }
}

/// The strings of `ws` joined by `sep`.
pub fn join_strings(ws: &Vec<String>, sep: &str) -> (r: Vec<char>)
    ensures
        r@ == join_with(ws.deep_view(), sep@),
{
    let sp = chars_of(sep);
    let mut out: Vec<char> = Vec::new();
    let mut i: usize = 0;
    while i < ws.len()
        invariant
            i <= ws@.len(),
            sp@ == sep@,
            out@ == join_with(ws.deep_view().take(i as int), sep@),
        decreases ws@.len() - i,
    {
        let ghost prev = ws.deep_view().take(i as int);
        if i > 0 {
            out = concat(out.as_slice(), sp.as_slice());
        }
        let piece = chars_of(ws[i].as_str());
        out = concat(out.as_slice(), piece.as_slice());
        proof {
            let next = ws.deep_view().take(i + 1);
            assert(next.drop_last() =~= prev);
            assert(next.last() == ws@[i as int]@);
            if i == 0 {
                assert(out@ =~= ws@[0]@);
            }
        }
        i = i + 1;
    }
    proof {
        assert(ws.deep_view().take(ws@.len() as int) =~= ws.deep_view());
    }
    out
}

/// The character vectors of `ws` joined by `sep`.
pub fn join_chars(ws: &Vec<Vec<char>>, sep: &[char]) -> (r: Vec<char>)
    ensures
        r@ == join_with(ws@.map_values(|w: Vec<char>| w@), sep@),
{
    let mut out: Vec<char> = Vec::new();
    let mut i: usize = 0;
    while i < ws.len()
        invariant
            i <= ws@.len(),
            out@ == join_with(ws@.take(i as int).map_values(|w: Vec<char>| w@), sep@),
        decreases ws@.len() - i,
    {
        let ghost prev = ws@.take(i as int).map_values(|w: Vec<char>| w@);
        if i > 0 {
            out = concat(out.as_slice(), sep);
        }
        out = concat(out.as_slice(), ws[i].as_slice());
        proof {
            let next = ws@.take(i + 1).map_values(|w: Vec<char>| w@);
            assert(next.drop_last() =~= prev);
            assert(next.last() == ws@[i as int]@);
            if i == 0 {
                assert(out@ =~= ws@[0]@);
            }
        }
        i = i + 1;
    }
    proof {
        assert(ws@.take(ws@.len() as int) =~= ws@);
    }
    out
}

// ─── Decimal rendering ──────────────────────────────────────────────────────

/// The ASCII digit for `d` (`0 <= d < 10`).
pub open spec fn digit_char(d: nat) -> char {
    ((48 + d) as u32) as char
}

/// The decimal representation of `n`, without sign or leading zeros
/// (what `u64`'s `Display` prints).
pub open spec fn decimal(n: nat) -> Seq<char>
    decreases n,
{
    if n < 10 {
        seq![digit_char(n)]
    } else {
        decimal(n / 10).push(digit_char(n % 10))
    }
}

fn digit(d: u64) -> (r: char)
    requires
        d < 10,
    ensures
        r == digit_char(d as nat),
{
    let b: u8 = 48 + (d as u8);
    b as char
}

/// The decimal digits of `n`.
pub fn decimal_chars(n: u64) -> (r: Vec<char>)
    ensures
        r@ == decimal(n as nat),
    decreases n,
{
    if n < 10 {
        let mut v: Vec<char> = Vec::new();
        v.push(digit(n));
        proof {
            assert(v@ =~= seq![digit_char(n as nat)]);
        }
        v
    } else {
        let mut v = decimal_chars(n / 10);
        v.push(digit(n % 10));
        v
    }
}

/// `a` followed by `b`.
pub fn concat(a: &[char], b: &[char]) -> (r: Vec<char>)
    ensures
        r@ == a@ + b@,
{
    let mut out: Vec<char> = Vec::new();
    let mut i: usize = 0;
    while i < a.len()
        invariant
            i <= a@.len(),
            out@ == a@.take(i as int),
        decreases a@.len() - i,
    {
        out.push(a[i]);
        i = i + 1;
        proof {
            assert(out@ =~= a@.take(i as int));
        }
    }
    let mut j: usize = 0;
    while j < b.len()
        invariant
            j <= b@.len(),
            out@ == a@ + b@.take(j as int),
        decreases b@.len() - j,
    {
        out.push(b[j]);
        j = j + 1;
        proof {
            assert(out@ =~= a@ + b@.take(j as int));
        }
    }
    proof {
        assert(a@.take(a@.len() as int) =~= a@);
        assert(b@.take(b@.len() as int) =~= b@);
    }
    out
}

/// Whether `list` holds the string `s`.
pub fn list_has(list: &Vec<String>, s: &str) -> (r: bool)
    ensures
        r == list.deep_view().contains(s@),
{
    let mut i: usize = 0;
    while i < list.len()
        invariant
            i <= list@.len(),
            forall|k: int| 0 <= k < i ==> list@[k]@ != s@,
        decreases list@.len() - i,
    {
        if same_text(list[i].as_str(), s) {
            proof {
                assert(list.deep_view()[i as int] == s@);
            }
            return true;
        }
        i = i + 1;
    }
    proof {
        assert forall|k: int| 0 <= k < list.deep_view().len() implies list.deep_view()[k] != s@ by {
            assert(list.deep_view()[k] == list@[k]@);
        }
    }
    false
}

// ─── Splitting at a character ───────────────────────────────────────────────

/// Index of the first `c` in `s`, or `s.len()` when there is none.
pub open spec fn char_pos(s: Seq<char>, c: char) -> int
    decreases s.len(),
{
    if s.len() == 0 {
        0
    } else if s[0] == c {
        0
    } else {
        1 + char_pos(s.drop_first(), c)
    }
}

/// [`char_pos`] lies within `s`.
pub proof fn lemma_char_pos_bounds(s: Seq<char>, c: char)
    ensures
        0 <= char_pos(s, c) <= s.len(),
    decreases s.len(),
{
    if s.len() > 0 && s[0] != c {
        lemma_char_pos_bounds(s.drop_first(), c);
    }
}

proof fn lemma_char_pos(s: Seq<char>, c: char, k: int)
    requires
        0 <= k <= s.len(),
        forall|i: int| 0 <= i < k ==> s[i] != c,
        k == s.len() || s[k] == c,
    ensures
        char_pos(s, c) == k,
    decreases k,
{
    if k > 0 {
        let t = s.drop_first();
        assert forall|i: int| 0 <= i < k - 1 implies t[i] != c by {
            assert(t[i] == s[i + 1]);
        }
        if k < s.len() {
            assert(t[k - 1] == s[k]);
        }
        lemma_char_pos(t, c, k - 1);
    }
}

/// The pieces of `s` between occurrences of `c` (`str::split` with a `char` pattern):
/// one more piece than there are `c`s, empty pieces kept.
pub open spec fn split_on(s: Seq<char>, c: char) -> Seq<Seq<char>>
    decreases s.len(),
{
    let k = char_pos(s, c);
    proof {
        lemma_char_pos_bounds(s, c);
    }
    if k >= s.len() {
        seq![s]
    } else {
        seq![s.take(k)] + split_on(s.skip(k + 1), c)
    }
}

/// The pieces of `s` between occurrences of `c`, as [`split_on`] describes them.
pub fn split_at_char(s: &[char], c: char) -> (r: Vec<Vec<char>>)
    ensures
        r@.map_values(|p: Vec<char>| p@) == split_on(s@, c),
{
    let n = s.len();
    let mut out: Vec<Vec<char>> = Vec::new();
    let mut start: usize = 0;
    proof {
        assert(s@.skip(0) =~= s@);
        assert(out@.map_values(|p: Vec<char>| p@) =~= Seq::<Seq<char>>::empty());
    }
    loop
        invariant
            start <= n,
            n == s@.len(),
            split_on(s@, c) =~= out@.map_values(|p: Vec<char>| p@) + split_on(s@.skip(start as int), c),
        decreases n - start,
    {
        let ghost rest = s@.skip(start as int);
        let mut end = start;
        while end < n && s[end] != c
            invariant
                start <= end <= n,
                n == s@.len(),
                forall|i: int| start <= i < end ==> s@[i] != c,
            decreases n - end,
        {
            end = end + 1;
        }
        proof {
            assert forall|i: int| 0 <= i < end - start implies rest[i] != c by {
                assert(rest[i] == s@[i + start]);
            }
            if end < n {
                assert(rest[end - start] == s@[end as int]);
            }
            lemma_char_pos(rest, c, end - start);
        }
        let piece = slice_chars(s, start, end);
        let ghost before = out@;
        out.push(piece);
        proof {
            assert(out@.map_values(|p: Vec<char>| p@) =~= before.map_values(|p: Vec<char>| p@).push(piece@));
        }
        if end < n {
            proof {
                assert(rest.take(end - start) =~= piece@);
                assert(rest.skip(end - start + 1) =~= s@.skip(end + 1));
            }
            start = end + 1;
        } else {
            proof {
                assert(rest =~= piece@);
            }
            return out;
        }
    }
}

/// Splitting text that holds no `c` at `c` gives the text itself.
pub proof fn lemma_split_on_whole(a: Seq<char>, c: char)
    requires
        !a.contains(c),
    ensures
        split_on(a, c) == seq![a],
{
    assert forall|i: int| 0 <= i < a.len() implies a[i] != c by {
        if a[i] == c {
            assert(a.contains(c));
        }
    }
    lemma_char_pos(a, c, a.len() as int);
}

/// Splitting `a`, then `c`, then `b` at `c`, where `a` holds no `c`, gives `a` and then
/// the pieces of `b`.
pub proof fn lemma_split_on_front(a: Seq<char>, c: char, b: Seq<char>)
    requires
        !a.contains(c),
    ensures
        split_on(a + seq![c] + b, c) == seq![a] + split_on(b, c),
{
    let s = a + seq![c] + b;
    assert forall|i: int| 0 <= i < a.len() implies s[i] != c by {
        assert(s[i] == a[i]);
        if a[i] == c {
            assert(a.contains(c));
        }
    }
    assert(s[a.len() as int] == c);
    lemma_char_pos(s, c, a.len() as int);
    assert(s.take(a.len() as int) =~= a);
    assert(s.skip(a.len() as int + 1) =~= b);
}

/// Text made of two pieces that hold no `c` holds no `c`.
pub proof fn lemma_concat_lacks(a: Seq<char>, b: Seq<char>, c: char)
    requires
        !a.contains(c),
        !b.contains(c),
    ensures
        !(a + b).contains(c),
{
    if (a + b).contains(c) {
        let i = choose|i: int| 0 <= i < (a + b).len() && (a + b)[i] == c;
        if i < a.len() {
            assert(a[i] == c);
            assert(a.contains(c));
        } else {
            assert(b[i - a.len()] == c);
            assert(b.contains(c));
        }
    }
}

/// Joining two or more strings gives the first, the separator, and the rest joined.
pub proof fn lemma_join_with_front(ws: Seq<Seq<char>>, sep: Seq<char>)
    requires
        ws.len() >= 2,
    ensures
        join_with(ws, sep) == ws[0] + sep + join_with(ws.drop_first(), sep),
    decreases ws.len(),
{
    let rest = ws.drop_first();
    if ws.len() == 2 {
        assert(ws.drop_last().len() == 1);
        assert(rest.len() == 1);
        assert(join_with(ws.drop_last(), sep) == ws[0]);
        assert(join_with(rest, sep) == ws[1]);
    } else {
        let init = ws.drop_last();
        lemma_join_with_front(init, sep);
        assert(init.drop_first() =~= rest.drop_last());
        assert(rest.last() == ws.last());
        assert(join_with(rest, sep) == join_with(rest.drop_last(), sep) + sep + rest.last());
        assert(join_with(ws, sep) == join_with(init, sep) + sep + ws.last());
        assert(join_with(ws, sep) =~= ws[0] + sep + join_with(rest, sep));
    }
}

/// A space in front of text without surrounding whitespace trims away.
pub proof fn lemma_trim_after_space(t: Seq<char>)
    requires
        trim(t) == t,
    ensures
        trim(seq![' '] + t) == t,
{
    let s = seq![' '] + t;
    assert(s[0] == ' ');
    assert(s.drop_first() =~= t);
    assert(trim_start(s) == trim_start(t));
}

/// Text that can stand as one line of [`lines_of`]: not empty, no `'\n'`, and no
/// `'\r'` at its end.
pub open spec fn is_plain_line(a: Seq<char>) -> bool {
    &&& a.len() > 0
    &&& !a.contains('\n')
    &&& a.last() != '\r'
}

/// A plain line, a newline, then more text: the line, then the lines of the rest.
proof fn lemma_lines_of_front(a: Seq<char>, b: Seq<char>)
    requires
        is_plain_line(a),
    ensures
        lines_of(a + seq!['\n'] + b) == seq![a] + lines_of(b),
{
    let s = a + seq!['\n'] + b;
    assert forall|i: int| 0 <= i < a.len() implies s[i] != '\n' by {
        assert(s[i] == a[i]);
        if a[i] == '\n' {
            assert(a.contains('\n'));
        }
    }
    assert(s[a.len() as int] == '\n');
    lemma_first_newline(s, a.len() as int);
    assert(s.take(a.len() as int) =~= a);
    assert(s.skip(a.len() as int + 1) =~= b);
}

/// Plain lines joined by newlines read back as the same lines.
pub proof fn lemma_lines_of_joined(ls: Seq<Seq<char>>)
    requires
        forall|i: int| 0 <= i < ls.len() ==> is_plain_line(#[trigger] ls[i]),
    ensures
        lines_of(join_with(ls, "\n"@)) == ls,
    decreases ls.len(),
{
    reveal_strlit("\n");
    if ls.len() == 0 {
        assert(lines_of(join_with(ls, "\n"@)) =~= ls);
    } else if ls.len() == 1 {
        let a = ls[0];
        assert(is_plain_line(a));
        assert forall|i: int| 0 <= i < a.len() implies a[i] != '\n' by {
            if a[i] == '\n' {
                assert(a.contains('\n'));
            }
        }
        lemma_first_newline(a, a.len() as int);
        assert(lines_of(a) =~= ls);
    } else {
        let rest = ls.drop_first();
        lemma_join_with_front(ls, "\n"@);
        assert(ls[0] + "\n"@ + join_with(rest, "\n"@) =~= ls[0] + seq!['\n'] + join_with(rest, "\n"@));
        assert(is_plain_line(ls[0]));
        lemma_lines_of_front(ls[0], join_with(rest, "\n"@));
        assert forall|i: int| 0 <= i < rest.len() implies is_plain_line(#[trigger] rest[i]) by {
            assert(rest[i] == ls[i + 1]);
        }
        lemma_lines_of_joined(rest);
        assert(seq![ls[0]] + rest =~= ls);
    }
}

/// `trim_start` drops a prefix, and what is left starts with no whitespace.
pub proof fn lemma_trim_start_shape(s: Seq<char>)
    ensures
        trim_start(s).len() <= s.len(),
        trim_start(s) == s.skip(s.len() - trim_start(s).len()),
        trim_start(s).len() > 0 ==> !unicode_whitespace(trim_start(s)[0]),
    decreases s.len(),
{
    if s.len() > 0 && unicode_whitespace(s[0]) {
        lemma_trim_start_shape(s.drop_first());
        assert(s.drop_first().skip(s.drop_first().len() - trim_start(s).len()) =~= s.skip(
            s.len() - trim_start(s).len(),
        ));
    } else {
        assert(s.skip(0) =~= s);
    }
}

/// `trim_end` keeps a prefix, and what is left ends with no whitespace.
proof fn lemma_trim_end_keeps_prefix(s: Seq<char>)
    ensures
        trim_end(s).len() <= s.len(),
        trim_end(s) == s.take(trim_end(s).len() as int),
        trim_end(s).len() > 0 ==> !unicode_whitespace(trim_end(s).last()),
    decreases s.len(),
{
    if s.len() > 0 && unicode_whitespace(s.last()) {
        lemma_trim_end_keeps_prefix(s.drop_last());
        assert(s.drop_last().take(trim_end(s).len() as int) =~= s.take(trim_end(s).len() as int));
    } else {
        assert(s.take(s.len() as int) =~= s);
    }
}

/// Trimming twice trims no more than once.
pub proof fn lemma_trim_idempotent(s: Seq<char>)
    ensures
        trim(trim(s)) == trim(s),
{
    let a = trim_start(s);
    let b = trim_end(a);
    lemma_trim_start_shape(s);
    lemma_trim_end_keeps_prefix(a);
    if b.len() > 0 {
        assert(b[0] == a[0]);
        assert(trim_start(b) == b);
        assert(trim_end(b) == b);
    } else {
        assert(trim_start(b) == b);
        assert(trim_end(b) == b);
    }
}

/// Text found in a piece is found in any text that holds the piece.
pub proof fn lemma_contains_within(x: Seq<char>, a: Seq<char>, y: Seq<char>, needle: Seq<char>)
    requires
        contains_seq(a, needle),
    ensures
        contains_seq(x + a + y, needle),
{
    let i = choose|i: int| occurs_at(a, needle, i);
    let hay = x + a + y;
    assert(hay.subrange(x.len() + i, x.len() + i + needle.len()) =~= a.subrange(i, i + needle.len()));
    assert(occurs_at(hay, needle, x.len() + i));
}

/// Each string of a list stands whole in the list joined by a separator.
pub proof fn lemma_join_with_piece(ws: Seq<Seq<char>>, sep: Seq<char>, i: int)
    requires
        0 <= i < ws.len(),
    ensures
        exists|x: Seq<char>, y: Seq<char>| join_with(ws, sep) == x + ws[i] + y,
    decreases ws.len(),
{
    let j = join_with(ws, sep);
    if ws.len() == 1 {
        assert(j =~= Seq::<char>::empty() + ws[i] + Seq::<char>::empty());
    } else if i == ws.len() - 1 {
        let x = join_with(ws.drop_last(), sep) + sep;
        assert(j =~= x + ws[i] + Seq::<char>::empty());
    } else {
        lemma_join_with_piece(ws.drop_last(), sep, i);
        let (x, y) = choose|x: Seq<char>, y: Seq<char>| join_with(ws.drop_last(), sep) == x + ws.drop_last()[i] + y;
        assert(j =~= x + ws[i] + (y + sep + ws.last()));
    }
}

/// ASCII-lowercasing a character that is already lowercased changes nothing.
proof fn lemma_ascii_lower_twice(c: char)
    ensures
        ascii_lower(ascii_lower(c)) == ascii_lower(c),
        unicode_whitespace(ascii_lower(c)) == unicode_whitespace(c),
{
    if 'A' <= c <= 'Z' {
        let u = c as u32;
        assert(65 <= u <= 90);
        let d = ((c as u32) + 32) as char;
        assert(d as u32 == u + 32);
    }
}

/// ASCII-lowercasing twice lowercases once.
pub proof fn lemma_ascii_lower_seq_twice(s: Seq<char>)
    ensures
        ascii_lower_seq(ascii_lower_seq(s)) == ascii_lower_seq(s),
{
    assert forall|i: int| 0 <= i < s.len() implies ascii_lower_seq(ascii_lower_seq(s))[i] == ascii_lower_seq(s)[i] by {
        lemma_ascii_lower_twice(s[i]);
    }
    assert(ascii_lower_seq(ascii_lower_seq(s)) =~= ascii_lower_seq(s));
}

proof fn lemma_trim_start_ascii_lower(s: Seq<char>)
    ensures
        trim_start(ascii_lower_seq(s)) == ascii_lower_seq(trim_start(s)),
    decreases s.len(),
{
    let l = ascii_lower_seq(s);
    if s.len() > 0 {
        lemma_ascii_lower_twice(s[0]);
        assert(l[0] == ascii_lower(s[0]));
        if unicode_whitespace(s[0]) {
            assert(l.drop_first() =~= ascii_lower_seq(s.drop_first()));
            lemma_trim_start_ascii_lower(s.drop_first());
        }
    } else {
        assert(l =~= s);
    }
}

proof fn lemma_trim_end_ascii_lower(s: Seq<char>)
    ensures
        trim_end(ascii_lower_seq(s)) == ascii_lower_seq(trim_end(s)),
    decreases s.len(),
{
    let l = ascii_lower_seq(s);
    if s.len() > 0 {
        lemma_ascii_lower_twice(s.last());
        assert(l.last() == ascii_lower(s.last()));
        if unicode_whitespace(s.last()) {
            assert(l.drop_last() =~= ascii_lower_seq(s.drop_last()));
            lemma_trim_end_ascii_lower(s.drop_last());
        }
    } else {
        assert(l =~= s);
    }
}

/// Trimming and ASCII-lowercasing can be done in either order.
pub proof fn lemma_trim_ascii_lower(s: Seq<char>)
    ensures
        trim(ascii_lower_seq(s)) == ascii_lower_seq(trim(s)),
{
    lemma_trim_start_ascii_lower(s);
    lemma_trim_end_ascii_lower(trim_start(s));
}

} // verus!




