//! Bit boards of a 10 by 10 grid packed into a `u128`.
//!
//! Cell `(x, y)` lives at bit `x * 11 + y`; the column `y == 10` of every row
//! is a guard column that is never part of the grid, so a shift by one or by
//! eleven moves a bit to its horizontal or vertical neighbour.
use vstd::prelude::*;

verus! {

/// Side of the board.
pub const N: usize = 10;

/// Stride of a row inside the bit board (one guard column).
pub const N1: usize = 11;

/// The bits that stand for cells of the grid.
pub const IN_GRID: u128 = 0x1ffbff7feffdffbff7feffdffbff;

/// Bit `p` of `b` is set.
pub open spec fn has_bit(b: u128, p: int) -> bool {
    0 <= p < 128 && (b >> (p as u128)) & 1u128 == 1u128
}

/// `a` is a subset of `b`, as sets of bits.
pub open spec fn subset(a: u128, b: u128) -> bool {
    a & !b == 0
}

/// One step of growth: every set cell together with its four neighbours,
/// restricted to the grid.
pub open spec fn expand_spec(b: u128) -> u128 {
    (b | (b >> 11u128) | (b << 11u128) | (b >> 1u128) | (b << 1u128)) & IN_GRID
}

/// `c` is closed under growth inside `valid`.
pub open spec fn closed_in(c: u128, valid: u128) -> bool {
    subset(expand_spec(c) & valid, c)
}

/// Growth is monotone.
pub proof fn lemma_expand_monotone(a: u128, b: u128)
    requires
        subset(a, b),
    ensures
        subset(expand_spec(a), expand_spec(b)),
{
    assert(a & !b == 0 ==> ((a | (a >> 11u128) | (a << 11u128) | (a >> 1u128) | (a << 1u128))
        & 0x1ffbff7feffdffbff7feffdffbffu128) & !((b | (b >> 11u128) | (b << 11u128) | (b
        >> 1u128) | (b << 1u128)) & 0x1ffbff7feffdffbff7feffdffbffu128) == 0) by (bit_vector);
}

/// Growth keeps every cell of the grid that was set.
pub proof fn lemma_expand_grows(a: u128)
    ensures
        subset(a & IN_GRID, expand_spec(a)),
{
    assert((a & 0x1ffbff7feffdffbff7feffdffbffu128) & !((a | (a >> 11u128) | (a << 11u128) | (
    a >> 1u128) | (a << 1u128)) & 0x1ffbff7feffdffbff7feffdffbffu128) == 0) by (bit_vector);
}

/// The cells reachable from `(sx, sy)` through 4-neighbour steps inside
/// `valid`: the least set that holds the start and is closed under growth
/// inside `valid`.
pub fn bfs128(sx: usize, sy: usize, valid: u128) -> (res: u128)
    requires
        sx * N1 + sy < 128,
    ensures
        expand_spec(res) & valid == res,
        forall|c: u128|
            has_bit(c, sx * N1 + sy) && #[trigger] closed_in(c, valid) ==> subset(res, c),
        has_bit(valid & IN_GRID, sx * N1 + sy) ==> has_bit(res, sx * N1 + sy),
{
    let s: u32 = (sx * N1 + sy) as u32;
    let mut res: u128 = 1u128 << s;
    let ghost g: u128 = IN_GRID;
    assert(has_bit(res, s as int)) by {
        assert(s < 128 ==> ((1u128 << s) >> (s as u128)) & 1u128 == 1u128) by (bit_vector);
    }
    assert forall|c: u128| has_bit(c, s as int) implies subset(res, c) by {
        assert(s < 128 && (c >> (s as u128)) & 1u128 == 1u128 ==> (1u128 << s) & !c == 0)
            by (bit_vector);
    }
    loop
        invariant
            s < 128,
            s == sx * N1 + sy,
            forall|c: u128| has_bit(c, s as int) && #[trigger] closed_in(c, valid) ==> subset(res, c),
            has_bit(valid & IN_GRID, s as int) ==> has_bit(res, s as int),
        decreases (if subset(res, valid & IN_GRID) { 0int } else { 1int }), u128::MAX - res,
    {
        let next = expand128(res) & valid;
        proof {
            assert forall|c: u128| has_bit(c, s as int) && #[trigger] closed_in(c, valid) implies subset(next, c) by {
                lemma_expand_monotone(res, c);
                assert(subset(res, c) && subset(expand_spec(res), expand_spec(c))
                    && subset(expand_spec(c) & valid, c) ==> subset(expand_spec(res) & valid, c))
                    by {
                    let e = expand_spec(res);
                    let f = expand_spec(c);
                    assert(e & !f == 0 && (f & valid) & !c == 0 ==> (e & valid) & !c == 0)
                        by (bit_vector);
                }
            }
            if has_bit(valid & IN_GRID, s as int) {
                lemma_expand_grows(res);
                let e = expand_spec(res);
                let v = valid;
                let r = res;
                assert(s < 128 && (((v & 0x1ffbff7feffdffbff7feffdffbffu128) >> (s as u128)) & 1u128
                    == 1u128) && ((r >> (s as u128)) & 1u128 == 1u128) && (r
                    & 0x1ffbff7feffdffbff7feffdffbffu128) & !e == 0 ==> (((e & v) >> (s as u128))
                    & 1u128 == 1u128)) by (bit_vector);
            }
        }
        if res == next {
            return res;
        }
        proof {
            let e = expand_spec(res);
            let v = valid;
            let r = res;
            lemma_expand_grows(res);
            assert((((r | (r >> 11u128) | (r << 11u128) | (r >> 1u128) | (r << 1u128))
                & 0x1ffbff7feffdffbff7feffdffbffu128) & v) & !(v
                & 0x1ffbff7feffdffbff7feffdffbffu128) == 0) by (bit_vector);
            if subset(res, valid & IN_GRID) {
                assert(r & !(v & 0x1ffbff7feffdffbff7feffdffbffu128) == 0 && (r
                    & 0x1ffbff7feffdffbff7feffdffbffu128) & !e == 0 && r != (e & v) ==> (e & v) > r)
                    by (bit_vector);
            }
        }
        res = next;
    }
}

/// The cells of `b` together with their 4-neighbours, restricted to the grid.
pub fn expand128(b: u128) -> (res: u128)
    ensures
        res == expand_spec(b),
{
    let mut res = b;
    res |= b >> N1;
    res |= b << N1;
    res |= b >> 1;
    res |= b << 1;
    res & IN_GRID
}

/// Whether bit `pos` of `b` is set.
pub fn get128(b: u128, pos: usize) -> (res: bool)
    requires
        pos < 128,
    ensures
        res == has_bit(b, pos as int),
{
    let p: u32 = pos as u32;
    proof {
        assert(p < 128 ==> ((b & (1u128 << p)) != 0 <==> (b >> (p as u128)) & 1u128 == 1u128))
            by (bit_vector);
    }
    (b & (1u128 << p)) != 0
}

/// Sets bit `pos` of `b` to `enabled`, leaving the other bits as they were.
pub fn set128(b: &mut u128, pos: usize, enabled: bool)
    requires
        pos < 128,
    ensures
        forall|q: int|
            0 <= q < 128 ==> #[trigger] has_bit(*final(b), q) == (if q == pos {
                enabled
            } else {
                has_bit(*old(b), q)
            }),
{
    let p: u32 = pos as u32;
    if enabled {
        *b |= 1u128 << p;
    } else {
        *b &= !(1u128 << p);
    }
    proof {
        let x = *old(b);
        assert forall|q: int| 0 <= q < 128 implies #[trigger] has_bit(*final(b), q) == (if q == pos {
            enabled
        } else {
            has_bit(x, q)
        }) by {
            let qq = q as u128;
            let pp = p as u128;
            if enabled {
                assert(pp < 128 && qq < 128 ==> ((((x | (1u128 << pp)) >> qq) & 1u128 == 1u128) == (
                if qq == pp {
                    true
                } else {
                    (x >> qq) & 1u128 == 1u128
                }))) by (bit_vector);
            } else {
                assert(pp < 128 && qq < 128 ==> ((((x & !(1u128 << pp)) >> qq) & 1u128 == 1u128)
                    == (if qq == pp {
                    false
                } else {
                    (x >> qq) & 1u128 == 1u128
                }))) by (bit_vector);
            }
        }
    }
}


/// Bit `q` of the 32-bit word `b` is set.
pub open spec fn bit32(b: u32, q: int) -> bool {
    0 <= q < 32 && (b >> (q as u32)) & 1u32 == 1u32
}

/// Bit `q` of the 64-bit word `b` is set.
pub open spec fn bit64(b: u64, q: int) -> bool {
    0 <= q < 64 && (b >> (q as u64)) & 1u64 == 1u64
}

/// Number of set bits of `b` below position `p`.
pub open spec fn ones32(b: u32, p: int) -> nat
    decreases p,
{
    if p <= 0 {
        0
    } else {
        ones32(b, p - 1) + if bit32(b, p - 1) {
            1nat
        } else {
            0nat
        }
    }
}

/// Number of set bits of `b` below position `p`.
pub open spec fn ones64(b: u64, p: int) -> nat
    decreases p,
{
    if p <= 0 {
        0
    } else {
        ones64(b, p - 1) + if bit64(b, p - 1) {
            1nat
        } else {
            0nat
        }
    }
}

/// Number of set bits of `b` below position `p`.
pub open spec fn ones128(b: u128, p: int) -> nat
    decreases p,
{
    if p <= 0 {
        0
    } else {
        ones128(b, p - 1) + if has_bit(b, p - 1) {
            1nat
        } else {
            0nat
        }
    }
}

pub assume_specification[ u32::count_ones ](x: u32) -> (r: u32)
    ensures
        r == ones32(x, 32),
;

pub assume_specification[ u64::count_ones ](x: u64) -> (r: u32)
    ensures
        r == ones64(x, 64),
;

pub assume_specification[ u128::trailing_zeros ](x: u128) -> (r: u32)
    ensures
        r <= 128,
        (x == 0) == (r == 128),
        r < 128 ==> has_bit(x, r as int),
        forall|q: int| 0 <= q < r ==> !#[trigger] has_bit(x, q),
;

proof fn lemma_ones32_monotone(b: u32, p: int, q: int)
    requires
        0 <= p <= q,
    ensures
        ones32(b, p) + (if p < q && bit32(b, p) {
            1int
        } else {
            0int
        }) <= ones32(b, q),
    decreases q - p,
{
    if p < q {
        lemma_ones32_monotone(b, p, q - 1);
    }
}

proof fn lemma_ones32_witness(b: u32, t: int, k: nat)
    requires
        0 <= t,
        ones32(b, t) > k,
    ensures
        exists|q: int| 0 <= q < t && bit32(b, q) && ones32(b, q) == k,
    decreases t,
{
    if t > 0 {
        if bit32(b, t - 1) && ones32(b, t - 1) == k {
        } else {
            lemma_ones32_witness(b, t - 1, k);
        }
    }
}

proof fn lemma_ones32_bounded(b: u32, p: int)
    requires
        0 <= p,
    ensures
        ones32(b, p) <= p,
    decreases p,
{
    if p > 0 {
        lemma_ones32_bounded(b, p - 1);
    }
}

proof fn lemma_ones32_full(b: u32, p: int)
    requires
        32 <= p,
    ensures
        ones32(b, p) == ones32(b, 32),
    decreases p,
{
    if p > 32 {
        lemma_ones32_full(b, p - 1);
    }
}

/// Position of the `i`-th (from 0) set bit of `b`.
pub fn select32(b: u32, i: usize) -> (pos: usize)
    requires
        i < ones32(b, 32),
    ensures
        pos < 32,
        bit32(b, pos as int),
        ones32(b, pos as int) == i,
{
    let ghost b0 = b;
    let mut b = b;
    let mut k: usize = 0;
    while k < i
        invariant
            k <= i,
            i < ones32(b0, 32),
            forall|q: int| 0 <= q < 32 ==> #[trigger] bit32(b, q) == (bit32(b0, q) && ones32(b0, q) >= k),
        decreases i - k,
    {
        proof {
            lemma_ones32_witness(b0, 32, k as nat);
            let w = choose|q: int| 0 <= q < 32 && bit32(b0, q) && ones32(b0, q) == k;
            assert(bit32(b, w));
            assert(b != 0) by {
                let ww = w as u32;
                assert((b >> ww) & 1u32 == 1u32 ==> b != 0) by (bit_vector);
            }
        }
        let ghost c = b;
        let ghost t = c.trailing_zeros();
        proof {
            vstd::std_specs::bits::axiom_u32_trailing_zeros(c);
            assert(bit32(c, t as int));
            assert(bit32(b0, t as int) && ones32(b0, t as int) >= k);
            let s = (32 - t) as u32;
            assert(c << s == 0);
            let d = (c - 1) as u32;
            assert forall|q: int| 0 <= q < 32 implies #[trigger] bit32(c & d, q) == (bit32(c, q) && q != t) by {
                let qq = q as u32;
                assert(c != 0 && t < 32 && (c >> t) & 1u32 == 1u32 && s == 32 - t && c << s == 0
                    && d == c - 1 && qq < 32 ==> ((((c & d) >> qq) & 1u32 == 1u32) == ((c >> qq)
                    & 1u32 == 1u32 && qq != t))) by (bit_vector);
            }
            // the lowest remaining bit is exactly the `k`-th set bit of `b0`
            assert(ones32(b0, t as int) == k) by {
                if ones32(b0, t as int) > k {
                    lemma_ones32_witness(b0, t as int, k as nat);
                    let w = choose|q: int| 0 <= q < t && bit32(b0, q) && ones32(b0, q) == k;
                    assert(bit32(c, w));
                    assert((c >> (w as u32)) & 1u32 == 0u32);
                }
            }
            assert forall|q: int| 0 <= q < 32 && bit32(c, q) && q != t implies ones32(b0, q) >= k + 1 by {
                if q < t {
                    assert((c >> (q as u32)) & 1u32 == 0u32);
                } else {
                    lemma_ones32_monotone(b0, t as int, q);
                }
            }
        }
        b &= b - 1;
        k += 1;
    }
    proof {
        lemma_ones32_witness(b0, 32, i as nat);
        let w = choose|q: int| 0 <= q < 32 && bit32(b0, q) && ones32(b0, q) == i;
        assert(bit32(b, w));
        assert(b != 0) by {
            let ww = w as u32;
            assert((b >> ww) & 1u32 == 1u32 ==> b != 0) by (bit_vector);
        }
        vstd::std_specs::bits::axiom_u32_trailing_zeros(b);
        let t = b.trailing_zeros();
        assert(bit32(b, t as int));
        assert(bit32(b0, t as int) && ones32(b0, t as int) >= i);
        assert(ones32(b0, t as int) == i) by {
            if ones32(b0, t as int) > i {
                lemma_ones32_witness(b0, t as int, i as nat);
                let w = choose|q: int| 0 <= q < t && bit32(b0, q) && ones32(b0, q) == i;
                assert(bit32(b, w));
                assert((b >> (w as u32)) & 1u32 == 0u32);
            }
        }
    }
    b.trailing_zeros() as usize
}


proof fn lemma_split64(b: u64)
    ensures
        forall|q: int| 0 <= q < 32 ==> #[trigger] bit64(b, q) == bit32(b as u32, q),
        forall|q: int| 0 <= q < 32 ==> #[trigger] bit64(b, q + 32) == bit32((b >> 32u64) as u32, q),
        forall|p: int| 0 <= p <= 32 ==> #[trigger] ones64(b, p) == ones32(b as u32, p),
        forall|p: int| 0 <= p <= 32 ==> #[trigger] ones64(b, p + 32) == ones32(b as u32, 32) + ones32((b >> 32u64) as u32, p),
{
    assert forall|q: int| 0 <= q < 32 implies #[trigger] bit64(b, q) == bit32(b as u32, q) by {
        let qq = q as u32;
        let q64 = q as u64;
        assert(qq < 32 && q64 == qq ==> (((b >> q64) & 1u64 == 1u64) == (((b as u32) >> qq) & 1u32 == 1u32))) by (bit_vector);
    }
    assert forall|q: int| 0 <= q < 32 implies #[trigger] bit64(b, q + 32) == bit32((b >> 32u64) as u32, q) by {
        let qq = q as u32;
        let q64 = (q + 32) as u64;
        assert(qq < 32 && q64 == qq + 32 ==> (((b >> q64) & 1u64 == 1u64) == ((((b >> 32u64) as u32) >> qq) & 1u32 == 1u32))) by (bit_vector);
    }
    lemma_ones64_low(b, 32);
    lemma_ones64_high(b, 32);
}

proof fn lemma_ones64_low(b: u64, p: int)
    requires
        0 <= p <= 32,
        forall|q: int| 0 <= q < 32 ==> #[trigger] bit64(b, q) == bit32(b as u32, q),
    ensures
        forall|r: int| 0 <= r <= p ==> #[trigger] ones64(b, r) == ones32(b as u32, r),
    decreases p,
{
    if p > 0 {
        lemma_ones64_low(b, p - 1);
        assert(bit64(b, p - 1) == bit32(b as u32, p - 1));
        assert(ones64(b, p - 1) == ones32(b as u32, p - 1));
        assert(ones64(b, p) == ones32(b as u32, p));
    }
}

proof fn lemma_ones64_high(b: u64, p: int)
    requires
        0 <= p <= 32,
        forall|q: int| 0 <= q < 32 ==> #[trigger] bit64(b, q) == bit32(b as u32, q),
        forall|q: int| 0 <= q < 32 ==> #[trigger] bit64(b, q + 32) == bit32((b >> 32u64) as u32, q),
    ensures
        forall|r: int| 0 <= r <= p ==> #[trigger] ones64(b, r + 32) == ones32(b as u32, 32) + ones32((b >> 32u64) as u32, r),
    decreases p,
{
    if p > 0 {
        lemma_ones64_high(b, p - 1);
        assert(ones64(b, p + 32) == ones64(b, p - 1 + 32) + if bit64(b, p - 1 + 32) { 1nat } else { 0nat });
    } else {
        lemma_ones64_low(b, 32);
    }
}

proof fn lemma_split128(b: u128)
    ensures
        forall|q: int| 0 <= q < 64 ==> #[trigger] has_bit(b, q) == bit64(b as u64, q),
        forall|q: int| 0 <= q < 64 ==> #[trigger] has_bit(b, q + 64) == bit64((b >> 64u128) as u64, q),
        forall|p: int| 0 <= p <= 64 ==> #[trigger] ones128(b, p) == ones64(b as u64, p),
        forall|p: int| 0 <= p <= 64 ==> #[trigger] ones128(b, p + 64) == ones64(b as u64, 64) + ones64((b >> 64u128) as u64, p),
{
    assert forall|q: int| 0 <= q < 64 implies #[trigger] has_bit(b, q) == bit64(b as u64, q) by {
        let qq = q as u64;
        let q128 = q as u128;
        assert(qq < 64 && q128 == qq ==> (((b >> q128) & 1u128 == 1u128) == (((b as u64) >> qq) & 1u64 == 1u64))) by (bit_vector);
    }
    assert forall|q: int| 0 <= q < 64 implies #[trigger] has_bit(b, q + 64) == bit64((b >> 64u128) as u64, q) by {
        let qq = q as u64;
        let q128 = (q + 64) as u128;
        assert(qq < 64 && q128 == qq + 64 ==> (((b >> q128) & 1u128 == 1u128) == ((((b >> 64u128) as u64) >> qq) & 1u64 == 1u64))) by (bit_vector);
    }
    lemma_ones128_low(b, 64);
    lemma_ones128_high(b, 64);
}

proof fn lemma_ones128_low(b: u128, p: int)
    requires
        0 <= p <= 64,
        forall|q: int| 0 <= q < 64 ==> #[trigger] has_bit(b, q) == bit64(b as u64, q),
    ensures
        forall|r: int| 0 <= r <= p ==> #[trigger] ones128(b, r) == ones64(b as u64, r),
    decreases p,
{
    if p > 0 {
        lemma_ones128_low(b, p - 1);
        assert(has_bit(b, p - 1) == bit64(b as u64, p - 1));
        assert(ones128(b, p - 1) == ones64(b as u64, p - 1));
        assert(ones128(b, p) == ones64(b as u64, p));
    }
}

proof fn lemma_ones128_high(b: u128, p: int)
    requires
        0 <= p <= 64,
        forall|q: int| 0 <= q < 64 ==> #[trigger] has_bit(b, q) == bit64(b as u64, q),
        forall|q: int| 0 <= q < 64 ==> #[trigger] has_bit(b, q + 64) == bit64((b >> 64u128) as u64, q),
    ensures
        forall|r: int| 0 <= r <= p ==> #[trigger] ones128(b, r + 64) == ones64(b as u64, 64) + ones64((b >> 64u128) as u64, r),
    decreases p,
{
    if p > 0 {
        lemma_ones128_high(b, p - 1);
        assert(ones128(b, p + 64) == ones128(b, p - 1 + 64) + if has_bit(b, p - 1 + 64) { 1nat } else { 0nat });
    } else {
        lemma_ones128_low(b, 64);
    }
}

/// Position of the `i`-th (from 0) set bit of `b`.
pub fn select64(b: u64, i: usize) -> (pos: usize)
    requires
        i < ones64(b, 64),
    ensures
        pos < 64,
        bit64(b, pos as int),
        ones64(b, pos as int) == i,
{
    proof {
        lemma_split64(b);
        assert(ones64(b, 0int + 32) == ones64(b, 32));
        assert(ones64(b, 32int + 32) == ones64(b, 64));
    }
    let low32 = b as u32;
    let low32_cnt = low32.count_ones() as usize;
    if i < low32_cnt {
        select32(low32, i)
    } else {
        let high32 = (b >> 32u64) as u32;
        let p = select32(high32, i - low32_cnt);
        proof {
            assert(bit64(b, p as int + 32));
            assert(ones64(b, p as int + 32) == ones32(low32, 32) + ones32(high32, p as int));
        }
        p + 32
    }
}

/// Position of the `i`-th (from 0) set bit of `b`.
pub fn select128(b: u128, i: usize) -> (pos: usize)
    requires
        i < ones128(b, 128),
    ensures
        pos < 128,
        has_bit(b, pos as int),
        ones128(b, pos as int) == i,
{
    proof {
        lemma_split128(b);
        assert(ones128(b, 0int + 64) == ones128(b, 64));
        assert(ones128(b, 64int + 64) == ones128(b, 128));
    }
    let low64 = b as u64;
    let low64_cnt = low64.count_ones() as usize;
    if i < low64_cnt {
        select64(low64, i)
    } else {
        let high64 = (b >> 64u128) as u64;
        let p = select64(high64, i - low64_cnt);
        proof {
            assert(has_bit(b, p as int + 64));
            assert(ones128(b, p as int + 64) == ones64(low64, 64) + ones64(high64, p as int));
        }
        p + 64
    }
}

/// Removes the lowest set bit of `b` and returns its position.
pub fn pop128(b: &mut u128) -> (pos: usize)
    requires
        *old(b) != 0,
    ensures
        pos < 128,
        has_bit(*old(b), pos as int),
        forall|q: int| 0 <= q < pos ==> !#[trigger] has_bit(*old(b), q),
        forall|q: int|
            0 <= q < 128 ==> #[trigger] has_bit(*final(b), q) == (q != pos && has_bit(*old(b), q)),
{
    let pos = b.trailing_zeros();
    let ghost x = *b;
    *b ^= 1u128 << pos;
    proof {
        assert forall|q: int| 0 <= q < 128 implies #[trigger] has_bit(*b, q) == (q != pos && has_bit(x, q)) by {
            let qq = q as u128;
            let pp = pos as u128;
            let m = 1u128 << pos;
            assert(m == 1u128 << pp);
            assert(has_bit(x, pos as int));
            assert(pp < 128 && qq < 128 && m == 1u128 << pp && (x >> pp) & 1u128 == 1u128 ==> ((((x ^ m) >> qq) & 1u128 == 1u128) == (qq != pp && (x >> qq) & 1u128 == 1u128))) by (bit_vector);
        }
    }
    pos as usize
}

} // verus!
