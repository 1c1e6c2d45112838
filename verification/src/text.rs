//! Character-sequence helpers shared by the text-processing modules.
//!
//! Strings are modelled by their view, a `Seq<char>`; byte lengths (what
//! `str::len` reports) are the length of the UTF-8 encoding of that view.
use vstd::prelude::*;
use vstd::utf8::*;
use vstd::string::StringSliceAdditionalSpecFns;

verus! {

broadcast use vstd::utf8::group_utf8_lib;

// ---------------------------------------------------------------------------
// Byte length
// ---------------------------------------------------------------------------

/// Number of bytes of the UTF-8 encoding of `s` (what `str::len` reports).
pub open spec fn blen(s: Seq<char>) -> nat {
    encode_utf8(s).len()
}

/// Number of bytes that `c` takes in UTF-8.
pub open spec fn char_width(c: char) -> nat {
    if (c as u32) < 0x80 {
        1
    } else if (c as u32) < 0x800 {
        2
    } else if (c as u32) < 0x10000 {
        3
    } else {
        4
    }
}

/// UTF-8 encoding distributes over concatenation.
pub proof fn lemma_encode_concat(a: Seq<char>, b: Seq<char>)
    ensures
        encode_utf8(a + b) == encode_utf8(a) + encode_utf8(b),
    decreases a.len(),
{
    if a.len() == 0 {
        assert(a + b =~= b);
        assert(encode_utf8(a) =~= Seq::<u8>::empty());
        assert(encode_utf8(a) + encode_utf8(b) =~= encode_utf8(b));
    } else {
        lemma_encode_concat(a.drop_first(), b);
        assert((a + b).drop_first() =~= a.drop_first() + b);
        assert((a + b)[0] == a[0]);
        assert(encode_scalar(a[0] as u32) + (encode_utf8(a.drop_first()) + encode_utf8(b))
            =~= (encode_scalar(a[0] as u32) + encode_utf8(a.drop_first())) + encode_utf8(b));
    }
}

/// Byte length is additive.
pub proof fn lemma_blen_concat(a: Seq<char>, b: Seq<char>)
    ensures
        blen(a + b) == blen(a) + blen(b),
{
    lemma_encode_concat(a, b);
}

/// A single character takes `char_width` bytes.
pub proof fn lemma_blen_char(c: char)
    ensures
        blen(seq![c]) == char_width(c),
{
    assert(seq![c].drop_first() =~= Seq::<char>::empty());
    assert(encode_utf8(seq![c]) =~= encode_scalar(c as u32) + encode_utf8(Seq::<char>::empty()));
}

/// Byte length of a sequence extended by one character.
pub proof fn lemma_blen_push(s: Seq<char>, c: char)
    ensures
        blen(s.push(c)) == blen(s) + char_width(c),
{
    assert(s.push(c) =~= s + seq![c]);
    lemma_blen_concat(s, seq![c]);
    lemma_blen_char(c);
}

/// An ASCII-only sequence takes one byte per character.
pub proof fn lemma_blen_ascii(s: Seq<char>)
    requires
        is_ascii_chars(s),
    ensures
        blen(s) == s.len(),
{
}

/// Byte width of one character, as `char::len_utf8` reports it.
pub fn width_of(c: char) -> (w: usize)
    ensures
        w == char_width(c),
{
    let u = c as u32;
    if u < 0x80 {
        1
    } else if u < 0x800 {
        2
    } else if u < 0x10000 {
        3
    } else {
        4
    }
}

/// Byte length of `v[lo..hi]`.
pub fn byte_len(v: &Vec<char>, lo: usize, hi: usize) -> (n: u128)
    requires
        lo <= hi <= v@.len(),
    ensures
        n == blen(v@.subrange(lo as int, hi as int)),
        n <= 4 * (hi - lo),
{
    let mut n: u128 = 0;
    let mut i = lo;
    while i < hi
        invariant
            lo <= i <= hi <= v@.len(),
            n == blen(v@.subrange(lo as int, i as int)),
            n <= 4 * (i - lo),
        decreases hi - i,
    {
        proof {
            assert(v@.subrange(lo as int, i + 1) =~= v@.subrange(lo as int, i as int).push(v@[i as int]));
            lemma_blen_push(v@.subrange(lo as int, i as int), v@[i as int]);
        }
        n = n + width_of(v[i]) as u128;
        i = i + 1;
    }
    n
}

/// Byte length of a string slice (`str::len`).
pub fn str_len(s: &str) -> (n: usize)
    ensures
        n == blen(s@),
{
    let b = s.as_bytes();
    b.len()
}

// ---------------------------------------------------------------------------
// Conversions between `str`/`String` and character vectors
// ---------------------------------------------------------------------------

/// Copies the characters of a string slice into a vector.
pub fn chars_of(s: &str) -> (v: Vec<char>)
    ensures
        v@ == s@,
{
    let mut v: Vec<char> = Vec::new();
    for c in it: s.chars()
        invariant
            v@ == it.seq().take(it.index() as int),
    {
        v.push(c);
    }
    v
}

/// Calls `String::push`. Trusted to append `c`: the string's characters
/// afterwards are the old ones followed by `c` (as std documents it).
#[verifier::external_body]
fn push_char(s: &mut String, c: char)
    ensures
        final(s)@ == old(s)@.push(c),
{
    s.push(c);
}

/// The string made of the characters of `v`, in order.
pub fn string_of(v: &Vec<char>) -> (s: String)
    ensures
        s@ == v@,
{
    let mut s = String::new();
    let mut i: usize = 0;
    while i < v.len()
        invariant
            i <= v@.len(),
            s@ == v@.take(i as int),
        decreases v@.len() - i,
    {
        push_char(&mut s, v[i]);
        assert(v@.take(i + 1) =~= v@.take(i as int).push(v@[i as int]));
        i = i + 1;
    }
    assert(v@.take(i as int) =~= v@);
    s
}

/// A `str` holds valid UTF-8: its byte view is the encoding of its characters.
pub proof fn lemma_str_bytes(s: &str)
    ensures
        s.spec_bytes() == encode_utf8(s@),
        s.spec_bytes().len() == blen(s@),
{
}

// ---------------------------------------------------------------------------
// Whitespace and trimming
// ---------------------------------------------------------------------------

/// Unicode `White_Space`, as `char::is_whitespace` tests it.
pub open spec fn is_ws(c: char) -> bool {
    ||| c == '\t' || c == '\n' || c == '\u{0B}' || c == '\u{0C}' || c == '\r' || c == ' '
    ||| c == '\u{85}' || c == '\u{A0}' || c == '\u{1680}'
    ||| ('\u{2000}' <= c && c <= '\u{200A}')
    ||| c == '\u{2028}' || c == '\u{2029}' || c == '\u{202F}' || c == '\u{205F}' || c == '\u{3000}'
}

/// `char::is_whitespace`.
pub fn is_whitespace(c: char) -> (b: bool)
    ensures
        b == is_ws(c),
{
    c == '\t' || c == '\n' || c == '\u{0B}' || c == '\u{0C}' || c == '\r' || c == ' '
        || c == '\u{85}' || c == '\u{A0}' || c == '\u{1680}'
        || ('\u{2000}' <= c && c <= '\u{200A}')
        || c == '\u{2028}' || c == '\u{2029}' || c == '\u{202F}' || c == '\u{205F}' || c == '\u{3000}'
}

/// `s` without its leading whitespace (`str::trim_start`).
pub open spec fn trim_start(s: Seq<char>) -> Seq<char>
    decreases s.len(),
{
    if s.len() > 0 && is_ws(s[0]) {
        trim_start(s.drop_first())
    } else {
        s
    }
}

/// `s` without its trailing whitespace (`str::trim_end`).
pub open spec fn trim_end(s: Seq<char>) -> Seq<char>
    decreases s.len(),
{
    if s.len() > 0 && is_ws(s.last()) {
        trim_end(s.drop_last())
    } else {
        s
    }
}

/// `s` without leading and trailing whitespace (`str::trim`).
pub open spec fn trim(s: Seq<char>) -> Seq<char> {
    trim_end(trim_start(s))
}

/// Trimming at the end twice is trimming once.
proof fn lemma_trim_end_idem(s: Seq<char>)
    ensures
        trim_end(trim_end(s)) == trim_end(s),
    decreases s.len(),
{
    if s.len() > 0 && is_ws(s.last()) {
        lemma_trim_end_idem(s.drop_last());
    }
}

/// Trimming at the end keeps a non-whitespace first character.
proof fn lemma_trim_end_keeps_start(s: Seq<char>)
    requires
        s.len() == 0 || !is_ws(s[0]),
    ensures
        trim_end(s).len() == 0 || !is_ws(trim_end(s)[0]),
    decreases s.len(),
{
    if s.len() > 0 && is_ws(s.last()) {
        if s.len() > 1 {
            assert(s.drop_last()[0] == s[0]);
        }
        lemma_trim_end_keeps_start(s.drop_last());
    }
}

/// Trimming at the start leaves no leading whitespace.
proof fn lemma_trim_start_first(s: Seq<char>)
    ensures
        trim_start(s).len() == 0 || !is_ws(trim_start(s)[0]),
    decreases s.len(),
{
    if s.len() > 0 && is_ws(s[0]) {
        lemma_trim_start_first(s.drop_first());
    }
}

/// Trimming twice is trimming once.
pub proof fn lemma_trim_idem(s: Seq<char>)
    ensures
        trim(trim(s)) == trim(s),
{
    let t = trim(s);
    lemma_trim_start_first(s);
    lemma_trim_end_keeps_start(trim_start(s));
    assert(trim_start(t) == t);
    lemma_trim_end_idem(trim_start(s));
}

/// First index in `v[lo..hi]` where the leading whitespace ends.
pub fn skip_ws(v: &Vec<char>, lo: usize, hi: usize) -> (r: usize)
    requires
        lo <= hi <= v@.len(),
    ensures
        lo <= r <= hi,
        trim_start(v@.subrange(lo as int, hi as int)) == v@.subrange(r as int, hi as int),
{
    let mut i = lo;
    while i < hi && is_whitespace(v[i])
        invariant
            lo <= i <= hi <= v@.len(),
            trim_start(v@.subrange(lo as int, hi as int)) == trim_start(v@.subrange(i as int, hi as int)),
        decreases hi - i,
    {
        assert(v@.subrange(i as int, hi as int).drop_first() =~= v@.subrange(i + 1, hi as int));
        i = i + 1;
    }
    i
}

/// End index of `v[lo..hi]` once its trailing whitespace is dropped.
pub fn skip_ws_back(v: &Vec<char>, lo: usize, hi: usize) -> (r: usize)
    requires
        lo <= hi <= v@.len(),
    ensures
        lo <= r <= hi,
        trim_end(v@.subrange(lo as int, hi as int)) == v@.subrange(lo as int, r as int),
{
    let mut j = hi;
    while j > lo && is_whitespace(v[j - 1])
        invariant
            lo <= j <= hi <= v@.len(),
            trim_end(v@.subrange(lo as int, hi as int)) == trim_end(v@.subrange(lo as int, j as int)),
        decreases j - lo,
    {
        assert(v@.subrange(lo as int, j as int).drop_last() =~= v@.subrange(lo as int, j - 1));
        j = j - 1;
    }
    j
}

/// `v[lo..hi]` trimmed on both sides, as an index range.
pub fn trim_range(v: &Vec<char>, lo: usize, hi: usize) -> (r: (usize, usize))
    requires
        lo <= hi <= v@.len(),
    ensures
        lo <= r.0 <= r.1 <= hi,
        trim(v@.subrange(lo as int, hi as int)) == v@.subrange(r.0 as int, r.1 as int),
        trim_start(v@.subrange(lo as int, hi as int)) == v@.subrange(r.0 as int, hi as int),
{
    let a = skip_ws(v, lo, hi);
    let b = skip_ws_back(v, a, hi);
    (a, b)
}

// ---------------------------------------------------------------------------
// Prefixes, suffixes, search
// ---------------------------------------------------------------------------

/// `str::starts_with` on characters.
pub open spec fn starts_with(s: Seq<char>, p: Seq<char>) -> bool {
    p.len() <= s.len() && s.subrange(0, p.len() as int) == p
}

/// `str::ends_with` on characters.
pub open spec fn ends_with(s: Seq<char>, p: Seq<char>) -> bool {
    p.len() <= s.len() && s.subrange(s.len() - p.len(), s.len() as int) == p
}

/// Does `v[lo..hi]` start with `p`?
pub fn range_starts_with(v: &Vec<char>, lo: usize, hi: usize, p: &Vec<char>) -> (b: bool)
    requires
        lo <= hi <= v@.len(),
    ensures
        b == starts_with(v@.subrange(lo as int, hi as int), p@),
{
    if p.len() > hi - lo {
        return false;
    }
    let mut k: usize = 0;
    while k < p.len()
        invariant
            lo <= hi <= v@.len(),
            p@.len() <= hi - lo,
            k <= p@.len(),
            forall|t: int| 0 <= t < k ==> v@[lo + t] == p@[t],
        decreases p.len() - k,
    {
        if v[lo + k] != p[k] {
            assert(v@.subrange(lo as int, hi as int).subrange(0, p@.len() as int)[k as int] != p@[k as int]);
            return false;
        }
        k = k + 1;
    }
    assert(v@.subrange(lo as int, hi as int).subrange(0, p@.len() as int) =~= p@);
    true
}

/// Does `v[lo..hi]` end with `p`?
pub fn range_ends_with(v: &Vec<char>, lo: usize, hi: usize, p: &Vec<char>) -> (b: bool)
    requires
        lo <= hi <= v@.len(),
    ensures
        b == ends_with(v@.subrange(lo as int, hi as int), p@),
{
    if p.len() > hi - lo {
        return false;
    }
    let start = hi - p.len();
    let b = range_starts_with(v, start, hi, p);
    proof {
        let s = v@.subrange(lo as int, hi as int);
        assert(s.subrange(s.len() - p@.len(), s.len() as int) =~= v@.subrange(start as int, hi as int));
        assert(v@.subrange(start as int, hi as int).subrange(0, p@.len() as int) =~= v@.subrange(start as int, hi as int));
    }
    b
}

/// Do `v[lo..hi]` and `p` hold the same characters?
pub fn range_eq(v: &Vec<char>, lo: usize, hi: usize, p: &Vec<char>) -> (b: bool)
    requires
        lo <= hi <= v@.len(),
    ensures
        b == (v@.subrange(lo as int, hi as int) == p@),
{
    if p.len() != hi - lo {
        return false;
    }
    let b = range_starts_with(v, lo, hi, p);
    assert(v@.subrange(lo as int, hi as int).subrange(0, p@.len() as int) =~= v@.subrange(lo as int, hi as int));
    b
}

/// Index of the first `c` in `s`, or `s.len()` when there is none.
pub open spec fn find_char(s: Seq<char>, c: char) -> nat
    decreases s.len(),
{
    if s.len() == 0 {
        0
    } else if s[0] == c {
        0
    } else {
        1 + find_char(s.drop_first(), c)
    }
}

/// Characterisation of `find_char` by the index it returns.
pub proof fn lemma_find_char(s: Seq<char>, c: char, k: int)
    requires
        0 <= k <= s.len(),
        forall|i: int| 0 <= i < k ==> s[i] != c,
        k == s.len() || s[k] == c,
    ensures
        find_char(s, c) == k,
    decreases k,
{
    if k > 0 {
        assert forall|i: int| 0 <= i < k - 1 implies s.drop_first()[i] != c by {
            assert(s.drop_first()[i] == s[i + 1]);
        }
        lemma_find_char(s.drop_first(), c, k - 1);
    }
}

/// What `find_char` returns: an index before which `c` does not occur.
pub proof fn lemma_find_char_props(s: Seq<char>, c: char)
    ensures
        find_char(s, c) <= s.len(),
        forall|i: int| 0 <= i < find_char(s, c) ==> s[i] != c,
        find_char(s, c) < s.len() ==> s[find_char(s, c) as int] == c,
    decreases s.len(),
{
    if s.len() > 0 && s[0] != c {
        lemma_find_char_props(s.drop_first(), c);
        assert forall|i: int| 0 <= i < find_char(s, c) implies s[i] != c by {
            if i > 0 {
                assert(s[i] == s.drop_first()[i - 1]);
            }
        }
    }
}

/// Position of the first `c` in `v[lo..hi]`, or `hi` when there is none.
pub fn find_in_range(v: &Vec<char>, lo: usize, hi: usize, c: char) -> (r: usize)
    requires
        lo <= hi <= v@.len(),
    ensures
        lo <= r <= hi,
        r - lo == find_char(v@.subrange(lo as int, hi as int), c),
        forall|i: int| lo <= i < r ==> v@[i] != c,
        r < hi ==> v@[r as int] == c,
{
    let mut i = lo;
    while i < hi && v[i] != c
        invariant
            lo <= i <= hi <= v@.len(),
            forall|t: int| lo <= t < i ==> v@[t] != c,
        decreases hi - i,
    {
        i = i + 1;
    }
    proof {
        lemma_find_char(v@.subrange(lo as int, hi as int), c, (i - lo) as int);
    }
    i
}

/// Does `s` contain `c`?
pub open spec fn has_char(s: Seq<char>, c: char) -> bool {
    exists|i: int| 0 <= i < s.len() && s[i] == c
}

// ---------------------------------------------------------------------------
// Lines and joining
// ---------------------------------------------------------------------------

/// A line without its `\r` terminator remnant.
pub open spec fn strip_cr(l: Seq<char>) -> Seq<char> {
    if l.len() > 0 && l.last() == '\r' {
        l.drop_last()
    } else {
        l
    }
}

/// `str::lines`: pieces split at `\n`, each without a trailing `\r` when the
/// `\n` followed it; no final empty piece after a trailing `\n`.
pub open spec fn lines(s: Seq<char>) -> Seq<Seq<char>>
    decreases s.len(),
{
    if s.len() == 0 {
        seq![]
    } else {
        let i = find_char(s, '\n');
        if i >= s.len() {
            seq![s]
        } else {
            seq![strip_cr(s.take(i as int))] + lines(s.skip((i + 1) as int))
        }
    }
}

/// A non-empty text has at least one line.
pub proof fn lemma_lines_nonempty(s: Seq<char>)
    requires
        s.len() > 0,
    ensures
        lines(s).len() > 0,
{
}

/// Concatenation of `parts` with `sep` between neighbours (`[T]::join`).
pub open spec fn join(parts: Seq<Seq<char>>, sep: Seq<char>) -> Seq<char>
    decreases parts.len(),
{
    if parts.len() == 0 {
        seq![]
    } else if parts.len() == 1 {
        parts[0]
    } else {
        join(parts.drop_last(), sep) + sep + parts.last()
    }
}

/// The pieces of `s[lo..]` as ranges: `lines(s[lo..])` element-wise.
pub open spec fn ranges_match(v: Seq<char>, rs: Seq<(usize, usize)>, ls: Seq<Seq<char>>) -> bool {
    &&& rs.len() == ls.len()
    &&& forall|i: int| 0 <= i < rs.len() ==> {
        &&& (#[trigger] rs[i]).0 <= rs[i].1 <= v.len()
        &&& v.subrange(rs[i].0 as int, rs[i].1 as int) == ls[i]
    }
}

/// Unfolds `lines` at a `\n` position.
proof fn lemma_lines_step(s: Seq<char>, k: int)
    requires
        0 <= k < s.len(),
        s[k] == '\n',
        forall|i: int| 0 <= i < k ==> s[i] != '\n',
    ensures
        lines(s) == seq![strip_cr(s.take(k))] + lines(s.skip(k + 1)),
{
    lemma_find_char(s, '\n', k);
}

/// Unfolds `lines` when there is no `\n`.
proof fn lemma_lines_last(s: Seq<char>)
    requires
        s.len() > 0,
        forall|i: int| 0 <= i < s.len() ==> s[i] != '\n',
    ensures
        lines(s) == seq![s],
{
    lemma_find_char(s, '\n', s.len() as int);
}

/// The lines of `v`, as index ranges into `v`.
pub fn line_ranges(v: &Vec<char>) -> (rs: Vec<(usize, usize)>)
    ensures
        ranges_match(v@, rs@, lines(v@)),
{
    let mut rs: Vec<(usize, usize)> = Vec::new();
    let mut start: usize = 0;
    let n = v.len();
    proof {
        assert(v@.skip(0) =~= v@);
        assert(lines(v@).take(0) + lines(v@) =~= lines(v@));
    }
    while start < n
        invariant
            n == v@.len(),
            start <= n,
            forall|i: int| 0 <= i < rs@.len() ==> (#[trigger] rs@[i]).0 <= rs@[i].1 <= n,
            ranges_match(v@, rs@, lines(v@).take(rs@.len() as int)),
            rs@.len() <= lines(v@).len(),
            lines(v@) == lines(v@).take(rs@.len() as int) + lines(v@.skip(start as int)),
        decreases n - start,
    {
        let j = find_in_range(v, start, n, '\n');
        let ghost s = v@.skip(start as int);
        let ghost old_rs = rs@;
        if j < n {
            let mut e = j;
            if e > start && v[e - 1] == '\r' {
                e = e - 1;
            }
            proof {
                assert forall|i: int| 0 <= i < j - start implies s[i] != '\n' by {
                    assert(s[i] == v@[start + i]);
                }
                lemma_lines_step(s, (j - start) as int);
                assert(s.take((j - start) as int) =~= v@.subrange(start as int, j as int));
                assert(s.skip((j - start) + 1) =~= v@.skip(j + 1));
                assert(strip_cr(v@.subrange(start as int, j as int)) =~= v@.subrange(start as int, e as int));
            }
            rs.push((start, e));
            proof {
                let ls = lines(v@);
                let t = old_rs.len() as int;
                assert(ls == ls.take(t) + (seq![v@.subrange(start as int, e as int)] + lines(v@.skip(j + 1))));
                assert(ls.take(t + 1) =~= ls.take(t).push(v@.subrange(start as int, e as int)));
                assert(ls =~= ls.take(t + 1) + lines(v@.skip(j + 1)));
                assert(ls.len() >= t + 1);
            }
            start = j + 1;
        } else {
            proof {
                assert forall|i: int| 0 <= i < s.len() implies s[i] != '\n' by {
                    assert(s[i] == v@[start + i]);
                }
                lemma_lines_last(s);
                assert(s =~= v@.subrange(start as int, n as int));
                let ls = lines(v@);
                let t = old_rs.len() as int;
                assert(ls =~= ls.take(t).push(s));
            }
            rs.push((start, n));
            proof {
                let ls = lines(v@);
                let t = old_rs.len() as int;
                assert(ls.take(t + 1) =~= ls);
                assert(v@.skip(n as int) =~= Seq::<char>::empty());
            }
            start = n;
        }
    }
    proof {
        assert(v@.skip(n as int) =~= Seq::<char>::empty());
        assert(lines(v@).take(rs@.len() as int) =~= lines(v@));
    }
    rs
}

/// Appends `v[lo..hi]` to `out`.
pub fn push_range(out: &mut Vec<char>, v: &Vec<char>, lo: usize, hi: usize)
    requires
        lo <= hi <= v@.len(),
    ensures
        final(out)@ == old(out)@ + v@.subrange(lo as int, hi as int),
{
    let mut i = lo;
    while i < hi
        invariant
            lo <= i <= hi <= v@.len(),
            out@ == old(out)@ + v@.subrange(lo as int, i as int),
        decreases hi - i,
    {
        out.push(v[i]);
        assert(v@.subrange(lo as int, i + 1) =~= v@.subrange(lo as int, i as int).push(v@[i as int]));
        i = i + 1;
    }
}

/// Appends all of `v` to `out`.
pub fn push_all(out: &mut Vec<char>, v: &Vec<char>)
    ensures
        final(out)@ == old(out)@ + v@,
{
    push_range(out, v, 0, v.len());
    assert(v@.subrange(0, v@.len() as int) =~= v@);
}

/// The texts of a list of character vectors.
pub open spec fn vtexts(s: Seq<Vec<char>>) -> Seq<Seq<char>> {
    s.map_values(|v: Vec<char>| v@)
}

/// Appends `parts` joined by `sep`.
pub fn push_joined(out: &mut Vec<char>, parts: &Vec<Vec<char>>, sep: &str)
    ensures
        final(out)@ == old(out)@ + join(vtexts(parts@), sep@),
{
    let ghost ss = vtexts(parts@);
    let mut acc: Vec<char> = Vec::new();
    let mut i: usize = 0;
    assert(ss.take(0) =~= Seq::<Seq<char>>::empty());
    while i < parts.len()
        invariant
            ss == vtexts(parts@),
            i <= parts@.len(),
            acc@ == join(ss.take(i as int), sep@),
        decreases parts@.len() - i,
    {
        if i > 0 {
            push_str(&mut acc, sep);
        }
        push_all(&mut acc, &parts[i]);
        proof {
            let t = ss.take(i + 1);
            assert(t.drop_last() =~= ss.take(i as int));
            assert(t.last() == parts@[i as int]@);
            if i == 0 {
                assert(t =~= seq![parts@[0]@]);
                assert(acc@ =~= parts@[0]@);
            }
        }
        i = i + 1;
    }
    assert(ss.take(i as int) =~= ss);
    push_all(out, &acc);
}

/// Appends the characters of `s` to `out`.
pub fn push_str(out: &mut Vec<char>, s: &str)
    ensures
        final(out)@ == old(out)@ + s@,
{
    let v = chars_of(s);
    push_all(out, &v);
}

// ---------------------------------------------------------------------------
// Case mapping (std's Unicode lower-casing)
// ---------------------------------------------------------------------------

/// What `str::to_lowercase` returns for the characters `s` (Unicode's
/// lower-case mapping, applied character by character with the final-sigma
/// rule).
pub uninterp spec fn lowercase(s: Seq<char>) -> Seq<char>;

/// Calls `str::to_lowercase`. Trusted only to give the same result for the
/// same characters: the result is named by [`lowercase`], and nothing more
/// about it is claimed (the Unicode mapping is not written out).
#[verifier::external_body]
fn str_to_lowercase(s: &str) -> (r: String)
    ensures
        r@ == lowercase(s@),
{
    s.to_lowercase()
}

/// Lower-cased copy of `v[lo..hi]`.
pub fn lower_range(v: &Vec<char>, lo: usize, hi: usize) -> (r: Vec<char>)
    requires
        lo <= hi <= v@.len(),
    ensures
        r@ == lowercase(v@.subrange(lo as int, hi as int)),
{
    let mut part: Vec<char> = Vec::new();
    push_range(&mut part, v, lo, hi);
    let s = string_of(&part);
    let l = str_to_lowercase(s.as_str());
    chars_of(l.as_str())
}

/// ASCII lower-casing of one character (`u8::to_ascii_lowercase` on ASCII).
pub open spec fn ascii_lower(c: char) -> char {
    if 'A' <= c && c <= 'Z' {
        ((c as u32) + 32) as char
    } else {
        c
    }
}

pub fn to_ascii_lower(c: char) -> (r: char)
    ensures
        r == ascii_lower(c),
{
    if 'A' <= c && c <= 'Z' {
        ((c as u8) + 32) as char
    } else {
        c
    }
}

// ---------------------------------------------------------------------------
// Decimal numbers
// ---------------------------------------------------------------------------

/// The ASCII digit for `d < 10`.
pub open spec fn digit(d: nat) -> char {
    if d == 0 { '0' }
    else if d == 1 { '1' }
    else if d == 2 { '2' }
    else if d == 3 { '3' }
    else if d == 4 { '4' }
    else if d == 5 { '5' }
    else if d == 6 { '6' }
    else if d == 7 { '7' }
    else if d == 8 { '8' }
    else { '9' }
}

/// Decimal representation of `n` without leading zeros (`usize::to_string`).
pub open spec fn dec(n: nat) -> Seq<char>
    decreases n,
{
    if n < 10 {
        seq![digit(n)]
    } else {
        dec(n / 10).push(digit(n % 10))
    }
}

fn digit_char(d: usize) -> (c: char)
    requires
        d < 10,
    ensures
        c == digit(d as nat),
{
    if d == 0 { '0' }
    else if d == 1 { '1' }
    else if d == 2 { '2' }
    else if d == 3 { '3' }
    else if d == 4 { '4' }
    else if d == 5 { '5' }
    else if d == 6 { '6' }
    else if d == 7 { '7' }
    else if d == 8 { '8' }
    else { '9' }
}

/// Appends the decimal digits of `n` to `out`.
pub fn push_decimal(out: &mut Vec<char>, n: usize)
    ensures
        final(out)@ == old(out)@ + dec(n as nat),
    decreases n,
{
    if n >= 10 {
        push_decimal(out, n / 10);
    }
    out.push(digit_char(n % 10));
    proof {
        if n >= 10 {
            assert(old(out)@ + dec(n as nat) =~= old(out)@ + dec((n / 10) as nat) + seq![digit((n % 10) as nat)]);
        } else {
            assert(dec(n as nat) =~= seq![digit(n as nat)]);
        }
    }
}

/// Decimal digits are ASCII.
pub proof fn lemma_dec_ascii(n: nat)
    ensures
        is_ascii_chars(dec(n)),
        dec(n).len() >= 1,
    decreases n,
{
    if n >= 10 {
        lemma_dec_ascii(n / 10);
    }
}

/// Value of the ASCII digit `c`, if it is one.
pub open spec fn digit_value(c: char) -> Option<nat> {
    if '0' <= c && c <= '9' {
        Some((c as nat - '0' as nat) as nat)
    } else {
        None
    }
}

/// All characters of `s` are ASCII digits.
pub open spec fn all_digits(s: Seq<char>) -> bool {
    forall|i: int| 0 <= i < s.len() ==> digit_value(#[trigger] s[i]) is Some
}

/// Value of a run of ASCII digits (most significant first).
pub open spec fn digits_value(s: Seq<char>) -> nat
    decreases s.len(),
{
    if s.len() == 0 {
        0
    } else {
        10 * digits_value(s.drop_last()) + digit_value(s.last()).unwrap_or(0)
    }
}

/// `<usize as FromStr>::from_str`: an optional `+`, then one or more ASCII
/// digits whose value fits in `usize`.
pub open spec fn parse_usize(s: Seq<char>) -> Option<nat> {
    let body = if s.len() > 0 && s[0] == '+' { s.drop_first() } else { s };
    if body.len() > 0 && all_digits(body) && digits_value(body) <= usize::MAX {
        Some(digits_value(body))
    } else {
        None
    }
}

/// Parses `v[lo..hi]` as a run of digits bounded by `limit`.
fn parse_digits(v: &Vec<char>, lo: usize, hi: usize, limit: u128) -> (r: Option<u128>)
    requires
        lo < hi <= v@.len(),
        limit <= u64::MAX,
    ensures
        r is Some <==> (all_digits(v@.subrange(lo as int, hi as int))
            && digits_value(v@.subrange(lo as int, hi as int)) <= limit),
        r matches Some(x) ==> x == digits_value(v@.subrange(lo as int, hi as int)),
{
    let mut acc: u128 = 0;
    let mut i = lo;
    let mut over = false;
    while i < hi
        invariant
            lo <= i <= hi <= v@.len(),
            limit <= u64::MAX,
            all_digits(v@.subrange(lo as int, i as int)),
            !over ==> acc == digits_value(v@.subrange(lo as int, i as int)) && acc <= limit,
            over ==> digits_value(v@.subrange(lo as int, i as int)) > limit,
        decreases hi - i,
    {
        let c = v[i];
        let ghost pre = v@.subrange(lo as int, i as int);
        let ghost next = v@.subrange(lo as int, i + 1);
        proof {
            assert(next.drop_last() =~= pre);
            assert(next.last() == c);
        }
        if !('0' <= c && c <= '9') {
            proof {
                assert(!all_digits(v@.subrange(lo as int, hi as int))) by {
                    assert(v@.subrange(lo as int, hi as int)[i - lo] == c);
                }
            }
            return None;
        }
        let d = (c as u32 - '0' as u32) as u128;
        proof {
            assert(digit_value(c) == Some(d as nat));
            assert forall|t: int| 0 <= t < next.len() implies digit_value(#[trigger] next[t]) is Some by {
                if t < pre.len() {
                    assert(next[t] == pre[t]);
                }
            }
        }
        if over {
            proof {
                assert(digits_value(next) == 10 * digits_value(pre) + d);
            }
        } else {
            let nv = acc * 10 + d;
            proof {
                assert(digits_value(next) == 10 * digits_value(pre) + d);
            }
            if nv > limit {
                over = true;
            } else {
                acc = nv;
            }
        }
        i = i + 1;
    }
    if over {
        None
    } else {
        Some(acc)
    }
}

/// `str::parse::<usize>` on `v[lo..hi]`.
pub fn parse_usize_range(v: &Vec<char>, lo: usize, hi: usize) -> (r: Option<usize>)
    requires
        lo <= hi <= v@.len(),
    ensures
        r is Some <==> parse_usize(v@.subrange(lo as int, hi as int)) is Some,
        r matches Some(x) ==> parse_usize(v@.subrange(lo as int, hi as int)) == Some(x as nat),
{
    let ghost s = v@.subrange(lo as int, hi as int);
    let mut start = lo;
    if start < hi && v[start] == '+' {
        start = start + 1;
    }
    proof {
        let body = if s.len() > 0 && s[0] == '+' { s.drop_first() } else { s };
        assert(body =~= v@.subrange(start as int, hi as int));
    }
    if start >= hi {
        return None;
    }
    match parse_digits(v, start, hi, usize::MAX as u128) {
        Some(x) => Some(x as usize),
        None => None,
    }
}


/// `<i64 as FromStr>::from_str`: an optional `+` or `-`, then one or more
/// ASCII digits whose signed value fits in `i64`.
pub open spec fn parse_i64(s: Seq<char>) -> Option<int> {
    let neg = s.len() > 0 && s[0] == '-';
    let body = if s.len() > 0 && (s[0] == '+' || s[0] == '-') { s.drop_first() } else { s };
    if body.len() > 0 && all_digits(body) {
        let v = digits_value(body) as int;
        if neg {
            if v <= 0x8000_0000_0000_0000 { Some(-v) } else { None }
        } else {
            if v <= 0x7FFF_FFFF_FFFF_FFFF { Some(v) } else { None }
        }
    } else {
        None
    }
}

/// `str::parse::<i64>` on `v[lo..hi]`.
pub fn parse_i64_range(v: &Vec<char>, lo: usize, hi: usize) -> (r: Option<i64>)
    requires
        lo <= hi <= v@.len(),
    ensures
        r is Some <==> parse_i64(v@.subrange(lo as int, hi as int)) is Some,
        r matches Some(x) ==> parse_i64(v@.subrange(lo as int, hi as int)) == Some(x as int),
{
    let ghost s = v@.subrange(lo as int, hi as int);
    let neg = lo < hi && v[lo] == '-';
    let mut start = lo;
    if start < hi && (v[start] == '+' || v[start] == '-') {
        start = start + 1;
    }
    proof {
        let body = if s.len() > 0 && (s[0] == '+' || s[0] == '-') { s.drop_first() } else { s };
        assert(body =~= v@.subrange(start as int, hi as int));
    }
    if start >= hi {
        return None;
    }
    let limit: u128 = if neg { 0x8000_0000_0000_0000 } else { 0x7FFF_FFFF_FFFF_FFFF };
    match parse_digits(v, start, hi, limit) {
        Some(x) => {
            if neg {
                if x == 0x8000_0000_0000_0000 {
                    Some(i64::MIN)
                } else {
                    Some(-(x as i64))
                }
            } else {
                Some(x as i64)
            }
        },
        None => {
            proof {
                let body = v@.subrange(start as int, hi as int);
                if all_digits(body) {
                    assert(digits_value(body) > limit);
                }
            }
            None
        },
    }
}
} // verus!
