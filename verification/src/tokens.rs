//! Whitespace-separated tokens of a text and the decimal integers they spell.
//!
//! Text is handled as the bytes of its UTF-8 encoding; a separator is a
//! character with the Unicode `White_Space` property, as `char::is_whitespace`
//! has it.
use vstd::prelude::*;

verus! {

/// Tab, line feed, vertical tab, form feed, carriage return or space.
pub open spec fn is_space(b: u8) -> bool {
    b == 9 || b == 10 || b == 11 || b == 12 || b == 13 || b == 32
}

/// Whether `b` is one of the ASCII whitespace bytes.
pub fn is_space_byte(b: u8) -> (res: bool)
    ensures
        res == is_space(b),
{
    b == 9 || b == 10 || b == 11 || b == 12 || b == 13 || b == 32
}

/// The three-byte encodings of the whitespace characters U+1680,
/// U+2000 to U+200A, U+2028, U+2029, U+202F, U+205F and U+3000.
pub open spec fn is_wide_space(a: u8, b: u8, c: u8) -> bool {
    ||| a == 0xE1 && b == 0x9A && c == 0x80
    ||| a == 0xE2 && b == 0x80 && ((0x80 <= c && c <= 0x8A) || c == 0xA8 || c == 0xA9 || c == 0xAF)
    ||| a == 0xE2 && b == 0x81 && c == 0x9F
    ||| a == 0xE3 && b == 0x80 && c == 0x80
}

/// The length in bytes of the whitespace character that starts at `i` in
/// `s`: 1 for the ASCII ones, 2 for U+0085 and U+00A0, 3 for the
/// three-byte ones; 0 when no whitespace character starts there.
pub open spec fn space_len(s: Seq<u8>, i: int) -> int {
    if !(0 <= i < s.len()) {
        0
    } else if is_space(s[i]) {
        1
    } else if i + 1 < s.len() && s[i] == 0xC2 && (s[i + 1] == 0x85 || s[i + 1] == 0xA0) {
        2
    } else if i + 2 < s.len() && is_wide_space(s[i], s[i + 1], s[i + 2]) {
        3
    } else {
        0
    }
}

/// A whitespace character fits in the text.
pub proof fn lemma_space_len(s: Seq<u8>, i: int)
    ensures
        0 <= space_len(s, i) <= 3,
        space_len(s, i) > 0 ==> 0 <= i && i + space_len(s, i) <= s.len(),
{
}

/// `space_len(s, i)`.
pub fn space_len_at(s: &[u8], i: usize) -> (r: usize)
    ensures
        r == space_len(s@, i as int),
{
    if i >= s.len() {
        return 0;
    }
    let a = s[i];
    if is_space_byte(a) {
        return 1;
    }
    if s.len() - i > 1 && a == 0xC2 && (s[i + 1] == 0x85 || s[i + 1] == 0xA0) {
        return 2;
    }
    if s.len() - i > 2 {
        let b = s[i + 1];
        let c = s[i + 2];
        if (a == 0xE1 && b == 0x9A && c == 0x80)
            || (a == 0xE2 && b == 0x80 && ((0x80 <= c && c <= 0x8A) || c == 0xA8 || c == 0xA9 || c == 0xAF))
            || (a == 0xE2 && b == 0x81 && c == 0x9F)
            || (a == 0xE3 && b == 0x80 && c == 0x80) {
            return 3;
        }
    }
    0
}

/// The first position at or after `i` where no whitespace character
/// starts, or the end.
pub open spec fn skip_spaces(s: Seq<u8>, i: int) -> int
    decreases s.len() - i,
{
    if 0 <= i < s.len() && space_len(s, i) > 0 {
        proof {
            lemma_space_len(s, i);
        }
        skip_spaces(s, i + space_len(s, i))
    } else {
        i
    }
}

/// The first position at or after `i` where a whitespace character starts,
/// or the end.
pub open spec fn word_end(s: Seq<u8>, i: int) -> int
    decreases s.len() - i,
{
    if 0 <= i < s.len() && space_len(s, i) == 0 {
        word_end(s, i + 1)
    } else {
        i
    }
}

pub proof fn lemma_skip_spaces(s: Seq<u8>, i: int)
    requires
        0 <= i <= s.len(),
    ensures
        i <= skip_spaces(s, i) <= s.len(),
        skip_spaces(s, i) < s.len() ==> space_len(s, skip_spaces(s, i)) == 0,
    decreases s.len() - i,
{
    lemma_space_len(s, i);
    if i < s.len() && space_len(s, i) > 0 {
        lemma_skip_spaces(s, i + space_len(s, i));
    }
}

pub proof fn lemma_word_end(s: Seq<u8>, i: int)
    requires
        0 <= i <= s.len(),
    ensures
        i <= word_end(s, i) <= s.len(),
        word_end(s, i) < s.len() ==> space_len(s, word_end(s, i)) > 0,
        forall|k: int| i <= k < word_end(s, i) ==> #[trigger] space_len(s, k) == 0,
    decreases s.len() - i,
{
    if i < s.len() && space_len(s, i) == 0 {
        lemma_word_end(s, i + 1);
    }
}

/// The tokens of `s` from position `i` on, in order.
pub open spec fn tokens_from(s: Seq<u8>, i: int) -> Seq<Seq<u8>>
    decreases s.len() - i,
{
    if i < 0 || i >= s.len() {
        Seq::empty()
    } else {
        let j = skip_spaces(s, i);
        if j >= s.len() {
            Seq::empty()
        } else {
            proof {
                lemma_skip_spaces(s, i);
                lemma_word_end(s, j);
            }
            let e = word_end(s, j);
            if e <= i {
                Seq::empty()
            } else {
                seq![s.subrange(j, e)] + tokens_from(s, e)
            }
        }
    }
}

/// The tokens of `s`: its maximal runs without whitespace.
pub open spec fn tokens(s: Seq<u8>) -> Seq<Seq<u8>> {
    tokens_from(s, 0)
}

/// One step of tokenizing: the token found at or after `i`, if any.
pub proof fn lemma_tokens_step(s: Seq<u8>, i: int)
    requires
        0 <= i <= s.len(),
    ensures
        skip_spaces(s, i) >= s.len() ==> tokens_from(s, i) =~= Seq::<Seq<u8>>::empty(),
        skip_spaces(s, i) < s.len() ==> {
            let j = skip_spaces(s, i);
            let e = word_end(s, j);
            &&& j < e <= s.len()
            &&& tokens_from(s, i) =~= seq![s.subrange(j, e)] + tokens_from(s, e)
        },
{
    lemma_skip_spaces(s, i);
    let j = skip_spaces(s, i);
    if j < s.len() {
        lemma_word_end(s, j);
        assert(space_len(s, j) == 0);
        assert(word_end(s, j) > j) by {
            reveal_with_fuel(word_end, 2);
        }
    }
}

/// The position after the next token at or after `pos`, with where that token
/// starts; both are `s.len()` when only whitespace remains.
pub fn next_token(s: &[u8], pos: usize) -> (range: (usize, usize))
    requires
        pos <= s@.len(),
    ensures
        range.0 == skip_spaces(s@, pos as int),
        range.1 == word_end(s@, range.0 as int),
        pos <= range.0 <= range.1 <= s@.len(),
{
    let slen = s.len();
    let mut j = pos;
    let mut l = space_len_at(s, j);
    while l > 0
        invariant
            slen == s@.len(),
            pos <= j <= s@.len(),
            l == space_len(s@, j as int),
            skip_spaces(s@, j as int) == skip_spaces(s@, pos as int),
        decreases s@.len() - j,
    {
        proof {
            lemma_space_len(s@, j as int);
            assert(j + l <= s@.len());
        }
        j += l;
        l = space_len_at(s, j);
    }
    let mut e = j;
    while e < s.len() && space_len_at(s, e) == 0
        invariant
            j <= e <= s@.len(),
            word_end(s@, e as int) == word_end(s@, j as int),
        decreases s@.len() - e,
    {
        e += 1;
    }
    (j, e)
}

/// An ASCII decimal digit.
pub open spec fn is_digit(b: u8) -> bool {
    48 <= b <= 57
}

/// Every byte of `t` is a decimal digit.
pub open spec fn all_digits(t: Seq<u8>) -> bool {
    forall|k: int| 0 <= k < t.len() ==> is_digit(#[trigger] t[k])
}

/// The number that the digits of `t` spell.
pub open spec fn digits_value(t: Seq<u8>) -> nat
    decreases t.len(),
{
    if t.len() == 0 {
        0
    } else {
        digits_value(t.drop_last()) * 10 + (t.last() - 48) as nat
    }
}

/// `t` without a leading sign byte (`+`, or also `-` when `signed`).
pub open spec fn unsigned_part(t: Seq<u8>, signed: bool) -> Seq<u8> {
    if t.len() > 0 && (t[0] == 43 || (signed && t[0] == 45)) {
        t.drop_first()
    } else {
        t
    }
}

/// `t` is a `usize` in decimal: an optional `+`, one or more digits, and a
/// value that fits.
pub open spec fn usize_token(t: Seq<u8>) -> bool {
    let d = unsigned_part(t, false);
    &&& d.len() > 0
    &&& all_digits(d)
    &&& digits_value(d) <= usize::MAX
}

/// The value of a `usize` token.
pub open spec fn usize_token_value(t: Seq<u8>) -> int {
    digits_value(unsigned_part(t, false)) as int
}

/// The signed value spelled by `t`: its digits, negated after a leading `-`.
pub open spec fn signed_token_value(t: Seq<u8>) -> int {
    let v = digits_value(unsigned_part(t, true)) as int;
    if t.len() > 0 && t[0] == 45 { -v } else { v }
}

/// `t` is an `i64` in decimal: an optional sign, one or more digits, and a
/// value that fits.
pub open spec fn i64_token(t: Seq<u8>) -> bool {
    let d = unsigned_part(t, true);
    &&& d.len() > 0
    &&& all_digits(d)
    &&& i64::MIN <= signed_token_value(t) <= i64::MAX
}

/// A longer run of digits spells at least as much as its prefix.
pub proof fn lemma_digits_prefix(t: Seq<u8>, k: int)
    requires
        0 <= k <= t.len(),
        all_digits(t),
    ensures
        digits_value(t.subrange(0, k)) <= digits_value(t),
    decreases t.len() - k,
{
    if k < t.len() {
        lemma_digits_prefix(t, k + 1);
        let p = t.subrange(0, k + 1);
        assert(p.drop_last() =~= t.subrange(0, k));
        assert(is_digit(t[k]));
    } else {
        assert(t.subrange(0, k) =~= t);
    }
}

/// Reads the digits of `t[from..]`, returning their value if it is at most
/// `limit`.
fn digits_up_to(t: &[u8], from: usize, limit: u64) -> (res: Option<u64>)
    requires
        from <= t@.len(),
    ensures
        match res {
            Some(v) => all_digits(t@.subrange(from as int, t@.len() as int))
                && v == digits_value(t@.subrange(from as int, t@.len() as int))
                && v <= limit,
            None => !all_digits(t@.subrange(from as int, t@.len() as int))
                || digits_value(t@.subrange(from as int, t@.len() as int)) > limit,
        },
{
    let ghost d = t@.subrange(from as int, t@.len() as int);
    let mut acc: u64 = 0;
    let mut k = from;
    while k < t.len()
        invariant
            from <= k <= t@.len(),
            d == t@.subrange(from as int, t@.len() as int),
            all_digits(d.subrange(0, k - from)),
            acc == digits_value(d.subrange(0, k - from)),
            acc <= limit,
        decreases t@.len() - k,
    {
        let b = t[k];
        if b < 48 || b > 57 {
            proof {
                assert(d[k - from] == b);
            }
            return None;
        }
        let digit = (b - 48) as u64;
        let ghost p = d.subrange(0, k + 1 - from);
        proof {
            assert(p.drop_last() =~= d.subrange(0, k - from));
            assert(p.last() == b);
            assert forall|q: int| 0 <= q < p.len() implies is_digit(#[trigger] p[q]) by {
                if q < p.len() - 1 {
                    assert(p[q] == d.subrange(0, k - from)[q]);
                }
            }
        }
        if digit > limit || acc > (limit - digit) / 10 {
            proof {
                if digit <= limit {
                    assert(acc * 10 + digit > limit) by (nonlinear_arith)
                        requires acc > (limit - digit) / 10, digit <= limit;
                }
                assert(digits_value(p) == acc * 10 + digit);
                if all_digits(d) {
                    lemma_digits_prefix(d, k + 1 - from);
                }
            }
            return None;
        }
        proof {
            assert(acc * 10 + digit <= limit) by (nonlinear_arith)
                requires acc <= (limit - digit) / 10, digit <= limit;
        }
        acc = acc * 10 + digit;
        k += 1;
    }
    proof {
        assert(d.subrange(0, k - from) =~= d);
    }
    Some(acc)
}

/// Reads `t` as a `usize` in decimal, as `str::parse::<usize>` does.
pub fn parse_usize(t: &[u8]) -> (res: Option<usize>)
    ensures
        res is Some <==> usize_token(t@),
        res is Some ==> res->0 == usize_token_value(t@),
{
    let from: usize = if t.len() > 0 && t[0] == 43 { 1 } else { 0 };
    proof {
        assert(t@.subrange(from as int, t@.len() as int) =~= unsigned_part(t@, false));
    }
    if from == t.len() {
        return None;
    }
    match digits_up_to(t, from, usize::MAX as u64) {
        Some(v) => Some(v as usize),
        None => None,
    }
}

/// Reads `t` as an `i64` in decimal, as `str::parse::<i64>` does.
pub fn parse_i64(t: &[u8]) -> (res: Option<i64>)
    ensures
        res is Some <==> i64_token(t@),
        res is Some ==> res->0 == signed_token_value(t@),
{
    let negative = t.len() > 0 && t[0] == 45;
    let from: usize = if t.len() > 0 && (t[0] == 43 || t[0] == 45) { 1 } else { 0 };
    proof {
        assert(t@.subrange(from as int, t@.len() as int) =~= unsigned_part(t@, true));
    }
    if from == t.len() {
        return None;
    }
    let limit: u64 = if negative { 0x8000_0000_0000_0000 } else { 0x7fff_ffff_ffff_ffff };
    match digits_up_to(t, from, limit) {
        Some(v) => {
            if negative {
                if v == 0x8000_0000_0000_0000 {
                    Some(i64::MIN)
                } else {
                    Some(-(v as i64))
                }
            } else {
                Some(v as i64)
            }
        },
        None => None,
    }
}

} // verus!
