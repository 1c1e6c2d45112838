//! Token estimation by byte length.
//!
//! A token is taken to be 3.2 bytes of text; estimates round up. The
//! estimate is conservative on purpose: a provider that still rejects the
//! prompt triggers a retry with a smaller diff.
use vstd::prelude::*;
use vstd::utf8::*;
use vstd::string::StringSliceAdditionalSpecFns;
use crate::text::{blen, lemma_str_bytes, str_len};

verus! {

broadcast use vstd::utf8::group_utf8_lib;

/// Estimated tokens for `n` bytes: `ceil(n / 3.2)`, that is `ceil(5n / 16)`.
pub open spec fn est(n: nat) -> nat {
    (5 * n + 15) / 16
}

/// Estimated tokens for a text.
pub open spec fn tokens(s: Seq<char>) -> nat {
    est(blen(s))
}

/// Most bytes that `max` tokens allow: `floor(max * 3.2)`.
pub open spec fn byte_budget(max: nat) -> nat {
    max * 16 / 5
}

/// Estimates are monotone in the byte count.
pub proof fn lemma_est_mono(a: nat, b: nat)
    requires
        a <= b,
    ensures
        est(a) <= est(b),
{
    assert((5 * a + 15) / 16 <= (5 * b + 15) / 16) by (nonlinear_arith)
        requires a <= b;
}

/// Estimates are subadditive: `est(a + b) <= est(a) + est(b)`.
pub proof fn lemma_est_add(a: nat, b: nat)
    ensures
        est(a + b) <= est(a) + est(b),
        est(a) <= est(a + b),
{
    assert((5 * (a + b) + 15) / 16 <= (5 * a + 15) / 16 + (5 * b + 15) / 16) by (nonlinear_arith);
    lemma_est_mono(a, a + b);
}

/// A byte budget of `max` tokens is estimated at no more than `max` tokens.
pub proof fn lemma_budget_fits(max: nat, n: nat)
    requires
        n <= byte_budget(max),
    ensures
        est(n) <= max,
{
    assert((5 * n + 15) / 16 <= max) by (nonlinear_arith)
        requires n <= max * 16 / 5;
}

/// More bytes than the budget means more tokens than `max`, and the other way.
pub proof fn lemma_over_budget(max: nat, n: nat)
    requires
        est(n) > max,
    ensures
        byte_budget(max) < n,
{
    assert(max * 16 / 5 < n) by (nonlinear_arith)
        requires (5 * n + 15) / 16 > max;
}

/// `est` computed on a machine integer.
pub fn est_of(n: u128) -> (t: u128)
    requires
        n <= 4 * 0xFFFF_FFFF_FFFF_FFFFu128,
    ensures
        t == est(n as nat),
        t <= n,
{
    assert((5 * n as nat + 15) / 16 <= n) by (nonlinear_arith);
    (5 * n + 15) / 16
}

/// Estimate the number of tokens of `text`: its byte length divided by 3.2,
/// rounded up; 0 for the empty text.
pub fn estimate_tokens(text: &str) -> (n: usize)
    ensures
        n == tokens(text@),
        n <= blen(text@),
{
    let len = str_len(text);
    let q = len / 16;
    let r = len % 16;
    proof {
        let n = len as nat;
        assert(n == 16 * q + r);
        assert((5 * n + 15) / 16 == 5 * q + (5 * r + 15) / 16) by (nonlinear_arith)
            requires n == 16 * q + r, r < 16;
        assert(5 * q <= n) by (nonlinear_arith)
            requires n == 16 * q + r;
        assert((5 * n + 15) / 16 <= n) by (nonlinear_arith);
    }
    q * 5 + (r * 5 + 15) / 16
}

/// Last index of the byte `x` in `b`, if any.
pub open spec fn rfind_byte(b: Seq<u8>, x: u8) -> Option<nat>
    decreases b.len(),
{
    if b.len() == 0 {
        None
    } else if b.last() == x {
        Some((b.len() - 1) as nat)
    } else {
        rfind_byte(b.drop_last(), x)
    }
}

/// Where `truncate_to_tokens` cuts a text of `len` bytes.
pub open spec fn cut_point(len: nat, max: nat) -> nat {
    if byte_budget(max) < len { byte_budget(max) } else { len }
}

/// The bytes that `truncate_to_tokens` keeps of `b`: all of them when they
/// fit `max` tokens; otherwise the first `floor(3.2 * max)` bytes, shortened
/// to end just after their last newline when there is one.
pub open spec fn truncate_bytes(b: Seq<u8>, max: nat) -> Seq<u8> {
    if est(b.len()) <= max {
        b
    } else {
        let t = b.take(cut_point(b.len(), max) as int);
        match rfind_byte(t, 10u8) {
            Some(p) => t.take((p + 1) as int),
            None => t,
        }
    }
}

/// The characters that `truncate_to_tokens` keeps of `s`.
pub open spec fn truncate_chars(s: Seq<char>, max: nat) -> Seq<char> {
    decode_utf8(truncate_bytes(encode_utf8(s), max))
}

/// `truncate_to_tokens` slices its input at the byte budget; that slice must
/// fall on a character boundary (slicing elsewhere panics).
pub open spec fn truncation_safe(s: Seq<char>, max: nat) -> bool {
    est(blen(s)) > max ==> is_char_boundary(encode_utf8(s), cut_point(blen(s), max) as int)
}

/// The index after an ASCII byte that starts a character starts a character too.
pub proof fn lemma_boundary_after_ascii(b: Seq<u8>, k: int)
    requires
        valid_utf8(b),
        0 <= k < b.len(),
        is_char_boundary(b, k),
        b[k] < 0x80,
    ensures
        is_char_boundary(b, k + 1),
    decreases b.len(),
{
    let l = length_of_first_scalar(b);
    let p = pop_first_scalar(b);
    assert(valid_first_scalar(b) && valid_utf8(p));
    if k == 0 {
        assert(l == 1);
        assert(is_char_boundary(p, 0));
    } else {
        assert(is_char_boundary(p, k - l));
        assert(k - l >= 0);
        assert(p[k - l] == b[k]);
        lemma_boundary_after_ascii(p, k - l);
    }
}

proof fn lemma_rfind_props(b: Seq<u8>, x: u8)
    ensures
        rfind_byte(b, x) matches Some(p) ==> p < b.len() && b[p as int] == x,
    decreases b.len(),
{
    if b.len() > 0 && b.last() != x {
        lemma_rfind_props(b.drop_last(), x);
    }
}

/// Truncated text fits the budget and is no longer than the text it came
/// from.
pub proof fn lemma_truncate_props(s: Seq<char>, max: nat)
    requires
        truncation_safe(s, max),
    ensures
        tokens(truncate_chars(s, max)) <= max,
        blen(truncate_chars(s, max)) <= blen(s),
        truncate_bytes(encode_utf8(s), max) == encode_utf8(truncate_chars(s, max)),
{
    let b = encode_utf8(s);
    let n = b.len();
    if est(n) <= max {
    } else {
        lemma_over_budget(max, n);
        let c = cut_point(n, max) as int;
        let t = b.take(c);
        valid_utf8_split(b, c);
        assert(t == b.subrange(0, c));
        lemma_rfind_props(t, 10u8);
        match rfind_byte(t, 10u8) {
            Some(p) => {
                assert(b[p as int] == 10u8);
                is_char_boundary_iff_not_is_continuation_byte(b, p as int);
                lemma_boundary_after_ascii(b, p as int);
                valid_utf8_split(b, (p + 1) as int);
                assert(t.take((p + 1) as int) =~= b.subrange(0, (p + 1) as int));
                lemma_budget_fits(max, (p + 1) as nat);
            },
            None => {
                lemma_budget_fits(max, c as nat);
            },
        }
        let r = truncate_bytes(b, max);
        decode_utf8_encode_utf8(r);
    }
}

/// Does `truncate_to_tokens(text, max_tokens)` cut on a character boundary?
pub fn truncation_is_safe(text: &str, max_tokens: usize) -> (b: bool)
    ensures
        b == truncation_safe(text@, max_tokens as nat),
{
    proof {
        lemma_str_bytes(text);
    }
    if estimate_tokens(text) <= max_tokens {
        return true;
    }
    let len = str_len(text);
    let budget: u128 = (max_tokens as u128) * 16 / 5;
    let cut: usize = if budget < len as u128 { budget as usize } else { len };
    text.is_char_boundary(cut)
}

/// Cut `text` so that it fits `max_tokens`: unchanged when it already fits;
/// otherwise its first `floor(3.2 * max_tokens)` bytes, ending after their
/// last newline when they hold one.
pub fn truncate_to_tokens(text: &str, max_tokens: usize) -> (r: String)
    requires
        truncation_safe(text@, max_tokens as nat),
    ensures
        r@ == truncate_chars(text@, max_tokens as nat),
        encode_utf8(r@) == truncate_bytes(encode_utf8(text@), max_tokens as nat),
        tokens(r@) <= max_tokens,
{
    proof {
        lemma_str_bytes(text);
        lemma_truncate_props(text@, max_tokens as nat);
    }
    if estimate_tokens(text) <= max_tokens {
        return text.to_owned();
    }
    let len = str_len(text);
    let budget: u128 = (max_tokens as u128) * 16 / 5;
    let cut: usize = if budget < len as u128 { budget as usize } else { len };
    let bytes = text.as_bytes();
    let ghost b = encode_utf8(text@);
    let mut i = cut;
    while i > 0 && bytes[i - 1] != 10u8
        invariant
            i <= cut <= len,
            bytes@ == b,
            b.len() == len,
            rfind_byte(b.take(cut as int), 10u8) == rfind_byte(b.take(i as int), 10u8),
        decreases i,
    {
        assert(b.take(i as int).drop_last() =~= b.take(i - 1));
        i = i - 1;
    }
    proof {
        assert(cut == cut_point(len as nat, max_tokens as nat));
        if i > 0 {
            assert(b.take(i as int).last() == 10u8);
            assert(rfind_byte(b.take(i as int), 10u8) == Some((i - 1) as nat));
            assert(b.take(cut as int).take(i as int) =~= b.subrange(0, i as int));
            is_char_boundary_iff_not_is_continuation_byte(b, i - 1);
            lemma_boundary_after_ascii(b, i - 1);
        } else {
            assert(b.take(0) =~= Seq::<u8>::empty());
            assert(b.take(cut as int) =~= b.subrange(0, cut as int));
        }
    }
    let end = if i > 0 { i } else { cut };
    let (head, _tail) = text.split_at(end);
    proof {
        decode_utf8_encode_utf8(head.spec_bytes());
        decode_utf8_encode_utf8(b.subrange(0, end as int));
    }
    head.to_owned()
}

} // verus!
