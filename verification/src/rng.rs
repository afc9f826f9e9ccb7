//! Small deterministic pseudo random generators.
use vstd::prelude::*;

verus! {

pub assume_specification<Elem>[ <[Elem]>::swap ](s: &mut [Elem], a: usize, b: usize)
    requires
        a < old(s)@.len(),
        b < old(s)@.len(),
    ensures
        final(s)@ == old(s)@.update(a as int, old(s)@[b as int]).update(b as int, old(s)@[a as int]),
;

/// One step of Marsaglia's xorshift with the shifts 13, 17, 5.
pub open spec fn xorshift32_step(x: u32) -> u32 {
    let a = x ^ (x << 13u32);
    let b = a ^ (a >> 17u32);
    b ^ (b << 5u32)
}

/// A step never maps a non-zero state to zero.
pub proof fn lemma_xorshift32_nonzero(x: u32)
    requires
        x != 0,
    ensures
        xorshift32_step(x) != 0,
{
    assert(x != 0 ==> ((x ^ (x << 13u32)) ^ ((x ^ (x << 13u32)) >> 17u32)) ^ (((x ^ (x << 13u32))
        ^ ((x ^ (x << 13u32)) >> 17u32)) << 5u32) != 0) by (bit_vector);
}

/// The value `l + floor((r - l) * x / 2^32)` that a draw `x` maps to in `l..r`.
pub open spec fn scale_to_range(l: int, r: int, x: u32) -> int {
    l + ((r - l) * x) / 0x1_0000_0000
}

/// The xorshift generator with a 32-bit state.
#[derive(Clone, Copy)]
pub struct XorShift32 {
    state: u32,
}

impl XorShift32 {
    /// The current state.
    pub closed spec fn view(&self) -> u32 {
        self.state
    }

    /// The state is never zero (zero is a fixed point of xorshift).
    pub closed spec fn wf(&self) -> bool {
        self.state != 0
    }

    /// A generator seeded with `seed`; the seed `0` is replaced by `u32::MAX`.
    pub fn new(seed: u32) -> (rng: Self)
        ensures
            rng@ == (if seed == 0 { u32::MAX } else { seed }),
            rng.wf(),
    {
        let mut seed = seed;
        if seed == 0 {
            seed = u32::MAX;
        }
        Self { state: seed }
    }

    /// Advances the state by one step and returns the new state, in `1..=u32::MAX`.
    pub fn gen_u32(&mut self) -> (x: u32)
        requires
            old(self).wf(),
        ensures
            x == xorshift32_step(old(self)@),
            final(self)@ == x,
            final(self).wf(),
            x != 0,
    {
        proof {
            lemma_xorshift32_nonzero(self.state);
        }
        let mut x = self.state;
        x ^= x << 13u32;
        x ^= x >> 17u32;
        x ^= x << 5u32;
        self.state = x;
        x
    }

    /// A draw in `l..r`: `l + floor((r - l) * x / 2^32)` for the next state `x`.
    pub fn gen_range(&mut self, l: usize, r: usize) -> (res: usize)
        requires
            old(self).wf(),
            l < r,
            r as int <= 0x1_0000_0000,
        ensures
            final(self)@ == xorshift32_step(old(self)@),
            final(self).wf(),
            res == scale_to_range(l as int, r as int, final(self)@),
            l <= res < r,
    {
        let x = self.gen_u32();
        let d: u64 = (r - l) as u64;
        proof {
            assert(d * (x as int) < d * 0x1_0000_0000) by (nonlinear_arith)
                requires d > 0, (x as int) < 0x1_0000_0000;
            assert(d * (x as int) <= 0xffff_ffff * 0x1_0000_0000) by (nonlinear_arith)
                requires d <= 0x1_0000_0000, (x as int) < 0x1_0000_0000, d * (x as int) < d * 0x1_0000_0000;
        }
        let prod: u64 = d * (x as u64);
        let q: u64 = prod >> 32u64;
        proof {
            assert(prod >> 32u64 == prod / 0x1_0000_0000) by (bit_vector);
            assert((d * (x as int)) / 0x1_0000_0000 < d) by (nonlinear_arith)
                requires d * (x as int) < d * 0x1_0000_0000, d > 0;
        }
        l + q as usize
    }

    /// Fisher-Yates shuffle: for `i` from `len - 1` down to `1`, swaps `v[i]`
    /// with `v[j]` for a draw `j` in `0..i + 1`.
    pub fn shuffle<T>(&mut self, v: &mut [T])
        requires
            old(self).wf(),
            old(v)@.len() <= 0x1_0000_0000,
        ensures
            final(self).wf(),
            final(v)@.to_multiset() == old(v)@.to_multiset(),
            (final(self)@, final(v)@) == shuffle_spec(old(self)@, old(v)@, old(v)@.len() as int),
    {
        let n = v.len();
        let mut i = n;
        while i > 1
            invariant
                self.wf(),
                0 <= i <= n,
                n == v@.len(),
                n <= 0x1_0000_0000,
                v@.to_multiset() == old(v)@.to_multiset(),
                shuffle_spec(old(self)@, old(v)@, n as int) == shuffle_spec(self@, v@, i as int),
            decreases i,
        {
            i -= 1;
            let ghost s0 = self@;
            let ghost v0 = v@;
            let j = self.gen_range(0, i + 1);
            v.swap(i, j);
            proof {
                lemma_swap_multiset(v0, i as int, j as int);
                assert(shuffle_spec(s0, v0, i + 1) == shuffle_spec(self@, v@, i as int));
            }
        }
    }

    /// Partial Fisher-Yates: for `i` in `0..n`, swaps `v[i]` with `v[j]` for a
    /// draw `j` in `i..len`, so that `v[..n]` becomes a random selection.
    pub fn partial_shuffle<T>(&mut self, v: &mut [T], n: usize)
        requires
            old(self).wf(),
            n <= old(v)@.len(),
            old(v)@.len() <= 0x1_0000_0000,
        ensures
            final(self).wf(),
            final(v)@.to_multiset() == old(v)@.to_multiset(),
            (final(self)@, final(v)@) == partial_shuffle_spec(old(self)@, old(v)@, 0, n as int),
    {
        let m = v.len();
        let mut i: usize = 0;
        while i < n
            invariant
                self.wf(),
                0 <= i <= n,
                n <= m,
                m == v@.len(),
                m <= 0x1_0000_0000,
                v@.to_multiset() == old(v)@.to_multiset(),
                partial_shuffle_spec(old(self)@, old(v)@, 0, n as int) == partial_shuffle_spec(self@, v@, i as int, n as int),
            decreases n - i,
        {
            let ghost s0 = self@;
            let ghost v0 = v@;
            let j = self.gen_range(i, m);
            v.swap(i, j);
            proof {
                lemma_swap_multiset(v0, i as int, j as int);
            }
            i += 1;
        }
    }
}

/// The generator state and the sequence after the Fisher-Yates steps for
/// the positions `i - 1, i - 2, ..., 1`.
pub open spec fn shuffle_spec<T>(state: u32, v: Seq<T>, i: int) -> (u32, Seq<T>)
    decreases i,
{
    if i <= 1 {
        (state, v)
    } else {
        let x = xorshift32_step(state);
        let j = scale_to_range(0, i, x);
        shuffle_spec(x, v.update(i - 1, v[j]).update(j, v[i - 1]), i - 1)
    }
}

/// The generator state and the sequence after the partial Fisher-Yates steps
/// for the positions `i, i + 1, ..., n - 1`.
pub open spec fn partial_shuffle_spec<T>(state: u32, v: Seq<T>, i: int, n: int) -> (u32, Seq<T>)
    decreases n - i,
{
    if i >= n {
        (state, v)
    } else {
        let x = xorshift32_step(state);
        let j = scale_to_range(i, v.len() as int, x);
        partial_shuffle_spec(x, v.update(i, v[j]).update(j, v[i]), i + 1, n)
    }
}

/// Swapping two entries keeps the multiset of entries.
pub proof fn lemma_swap_multiset<T>(v: Seq<T>, a: int, b: int)
    requires
        0 <= a < v.len(),
        0 <= b < v.len(),
    ensures
        v.update(a, v[b]).update(b, v[a]).to_multiset() == v.to_multiset(),
{
    broadcast use vstd::seq_lib::group_to_multiset_ensures;
    let w = v.update(a, v[b]);
    assert(w.to_multiset() == v.to_multiset().remove(v[a]).insert(v[b]));
    assert(w.update(b, v[a]).to_multiset() == w.to_multiset().remove(w[b]).insert(v[a]));
    if a == b {
    } else {
        assert(w[b] == v[b]);
    }
}


/// One step of the 64-bit xorshift with the shifts 7 and 9.
pub open spec fn xorshift64_step(x: u64) -> u64 {
    let a = x ^ (x << 7u64);
    a ^ (a >> 9u64)
}

/// A step never maps a non-zero state to zero.
pub proof fn lemma_xorshift64_nonzero(x: u64)
    requires
        x != 0,
    ensures
        xorshift64_step(x) != 0,
{
    assert(x != 0 ==> (x ^ (x << 7u64)) ^ ((x ^ (x << 7u64)) >> 9u64) != 0) by (bit_vector);
}

/// The seed that replaces `0`.
pub const XORSHIFT64_DEFAULT_SEED: u64 = 0x9E37_79B9_7F4A_7C15;

/// The xorshift generator with a 64-bit state and the shifts 7 and 9.
#[derive(Clone)]
pub struct XorShift64 {
    x: u64,
}

impl XorShift64 {
    /// The current state.
    pub closed spec fn view(&self) -> u64 {
        self.x
    }

    /// The state is never zero.
    pub closed spec fn wf(&self) -> bool {
        self.x != 0
    }

    /// A generator seeded with `seed`; the seed `0` is replaced by a fixed odd constant.
    pub fn new(seed: u64) -> (rng: Self)
        ensures
            rng@ == (if seed == 0 { XORSHIFT64_DEFAULT_SEED } else { seed }),
            rng.wf(),
    {
        let init = if seed == 0 {
            XORSHIFT64_DEFAULT_SEED
        } else {
            seed
        };
        Self { x: init }
    }

    /// Advances the state by one step and returns the new state.
    pub fn next_u64(&mut self) -> (x: u64)
        requires
            old(self).wf(),
        ensures
            x == xorshift64_step(old(self)@),
            final(self)@ == x,
            final(self).wf(),
    {
        proof {
            lemma_xorshift64_nonzero(self.x);
        }
        let mut x = self.x;
        x ^= x << 7u64;
        x ^= x >> 9u64;
        self.x = x;
        x
    }

    /// A draw in `0..upper` (`0` when `upper <= 1`, without advancing the state).
    pub fn gen_usize(&mut self, upper: usize) -> (res: usize)
        requires
            old(self).wf(),
        ensures
            final(self).wf(),
            upper <= 1 ==> res == 0 && final(self)@ == old(self)@,
            upper > 1 ==> final(self)@ == xorshift64_step(old(self)@) && res == (final(self)@ as usize) % upper,
            upper > 1 ==> res < upper,
    {
        if upper <= 1 {
            0
        } else {
            (self.next_u64() as usize) % upper
        }
    }

    /// The lowest bit of the next state.
    pub fn gen_bool(&mut self) -> (res: bool)
        requires
            old(self).wf(),
        ensures
            final(self).wf(),
            final(self)@ == xorshift64_step(old(self)@),
            res == (final(self)@ & 1u64 == 1u64),
    {
        (self.next_u64() & 1u64) == 1u64
    }

    /// A draw in `0..upper`: the next state modulo `upper`.
    pub fn gen_range(&mut self, upper: usize) -> (res: usize)
        requires
            old(self).wf(),
            upper > 0,
        ensures
            final(self).wf(),
            final(self)@ == xorshift64_step(old(self)@),
            res == final(self)@ % (upper as u64),
            res < upper,
    {
        (self.next_u64() % (upper as u64)) as usize
    }
}

} // verus!
