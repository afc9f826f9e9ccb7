//! Which sets of cells of a 3 x 3 block are connected, side by side, as a
//! table over the 512 subsets (bit `3 * row + col` for cell `(row, col)`).
use vstd::prelude::*;
use fixedbitset::FixedBitSet;

verus! {

#[verifier::external_type_specification]
#[verifier::external_body]
pub struct ExFixedBitSet(FixedBitSet);

/// The bits of a `FixedBitSet`: entry `i` tells whether bit `i` is set; the
/// length is the set's capacity.
pub uninterp spec fn bitset_bits(s: FixedBitSet) -> Seq<bool>;

/// `FixedBitSet::with_capacity`: a set of `bits` bits, all clear.
#[verifier::external_body]
fn bitset_with_capacity(bits: usize) -> (s: FixedBitSet)
    ensures
        bitset_bits(s) == Seq::new(bits as nat, |i: int| false),
{
    FixedBitSet::with_capacity(bits)
}

/// `FixedBitSet::set`: sets bit `bit` to `enabled`; the capacity is kept
/// (it panics beyond the capacity, which the `requires` rules out).
#[verifier::external_body]
fn bitset_set(s: &mut FixedBitSet, bit: usize, enabled: bool)
    requires
        bit < bitset_bits(*old(s)).len(),
    ensures
        bitset_bits(*final(s)) == bitset_bits(*old(s)).update(bit as int, enabled),
{
    s.set(bit, enabled)
}

/// The cells next to some cell of `m` (above, below, left or right) within
/// the block.
pub open spec fn nbr(m: u32) -> u32 {
    (m >> 3u32) | ((m << 3u32) & 511u32) | ((m >> 1u32) & 0xDBu32) | ((m << 1u32) & 0x1B6u32)
}

/// `c` is closed within `s`: every cell of `s` next to a cell of `c` is in `c`.
pub open spec fn closed_in(s: u32, c: u32) -> bool {
    nbr(c) & s & !c == 0
}

/// The cells of `s` (a nonempty subset of the block) are connected: the only
/// subset of `s` that holds the lowest cell of `s` and is closed within `s`
/// is `s` itself.
pub open spec fn connected3x3(s: u32) -> bool {
    &&& 0 < s < 512
    &&& forall|c: u32| #![trigger closed_in(s, c)] c & !s == 0 && c & (s & !((s - 1) as u32)) != 0 && closed_in(s, c) ==> c == s
}

/// One step of the search: `lb`, a cell waiting in `pending`, is expanded.
proof fn lemma_expand_step(s: u32, visited: u32, pending: u32, lb: u32)
    by (bit_vector)
    requires
        s < 512,
        visited & !s == 0,
        pending & !visited == 0,
        pending != 0,
        lb == pending & !((pending - 1) as u32),
        nbr(visited & !pending) & s & !visited == 0,
    ensures
        lb != 0,
        lb & !pending == 0,
        lb & !visited == 0,
        ({
            let nb = nbr(lb) & s & !visited;
            let v2 = visited | nb;
            let t2 = (pending ^ lb) | nb;
            &&& v2 & !s == 0
            &&& t2 & !v2 == 0
            &&& nbr(v2 & !t2) & s & !v2 == 0
            &&& (nb != 0 ==> (s & !v2) < (s & !visited))
            &&& (nb == 0 ==> v2 == visited && t2 < pending)
            &&& visited & !v2 == 0
        }),
{
}

/// Each step keeps the searched cells inside every closed set that holds
/// the first of them.
proof fn lemma_expand_inside(s: u32, visited: u32, lb: u32, c: u32)
    by (bit_vector)
    requires
        visited & !c == 0,
        lb & !visited == 0,
        nbr(c) & s & !c == 0,
    ensures
        (visited | (nbr(lb) & s & !visited)) & !c == 0,
{
}

/// The lowest cell of a nonempty block subset.
proof fn lemma_low_cell(s: u32)
    by (bit_vector)
    requires
        0 < s < 512,
    ensures
        (s & !((s - 1) as u32)) != 0,
        (s & !((s - 1) as u32)) & !s == 0,
        nbr(0) == 0,
{
}

/// The lowest cell is a single cell: a set meeting it holds it.
proof fn lemma_low_single(s: u32, c: u32)
    by (bit_vector)
    requires
        0 < s < 512,
    ensures
        c & (s & !((s - 1) as u32)) != 0 ==> (s & !((s - 1) as u32)) & !c == 0,
{
}

/// Whether subset `s` of the block is connected, by a search from its
/// lowest cell.
fn is_connected3x3(s: u32) -> (ok: bool)
    requires
        0 < s < 512,
    ensures
        ok == connected3x3(s),
{
    let root = s & !(s - 1);
    proof {
        lemma_low_cell(s);
        assert((root & !root) == 0u32 && root & !s == 0u32 && nbr(root & !root) & s & !root == 0u32) by (bit_vector)
            requires root & !s == 0u32, nbr(0) == 0u32;
    }
    proof {
        assert forall|c: u32| #![trigger closed_in(s, c)] c & !s == 0 && c & root != 0 && closed_in(s, c)
            implies root & !c == 0 by {
            lemma_low_single(s, c);
        }
    }
    let mut visited: u32 = root;
    let mut pending: u32 = root;
    while pending != 0
        invariant
            0 < s < 512,
            root == s & !((s - 1) as u32),
            root != 0,
            visited & !s == 0,
            pending & !visited == 0,
            root & !visited == 0,
            nbr(visited & !pending) & s & !visited == 0,
            forall|c: u32| #![trigger closed_in(s, c)] c & !s == 0 && c & root != 0 && closed_in(s, c) ==> visited & !c == 0,
        decreases s & !visited, pending,
    {
        let lb = pending & !(pending - 1);
        proof {
            lemma_expand_step(s, visited, pending, lb);
            assert forall|c: u32| #![trigger closed_in(s, c)] c & !s == 0 && c & root != 0 && closed_in(s, c)
                implies (visited | (nbr(lb) & s & !visited)) & !c == 0 by {
                assert(visited & !c == 0);
                lemma_expand_inside(s, visited, lb, c);
            }
        }
        let nb = (((lb >> 3) | ((lb << 3) & 511) | ((lb >> 1) & 0xDB) | ((lb << 1) & 0x1B6)) & s) & !visited;
        proof {
            assert(nb == nbr(lb) & s & !visited);
            let v2 = visited | nb;
            assert(root & !v2 == 0) by (bit_vector)
                requires root & !visited == 0u32, v2 == visited | nb;
        }
        visited = visited | nb;
        pending = (pending ^ lb) | nb;
    }
    proof {
        assert(visited & !pending == visited) by (bit_vector)
            requires pending == 0u32;
        assert(closed_in(s, visited));
        if visited == s {
            assert forall|c: u32| #![trigger closed_in(s, c)] c & !s == 0 && c & (s & !((s - 1) as u32)) != 0 && closed_in(s, c)
                implies c == s by {
                assert(visited & !c == 0);
                assert(c == s) by (bit_vector)
                    requires c & !s == 0u32, s & !c == 0u32;
            }
        } else {
            assert(visited & root != 0) by (bit_vector)
                requires root & !visited == 0u32, root != 0u32;
            assert(visited & !s == 0 && visited & (s & !((s - 1) as u32)) != 0 && closed_in(s, visited));
        }
    }
    visited == s
}

/// The table of connected subsets of a 3 x 3 block: bit `s` is set when the
/// cells of `s` are connected side by side, and for the empty set.
pub fn make_connected3x3() -> (t: FixedBitSet)
    ensures
        bitset_bits(t).len() == 512,
        forall|s: int| 0 <= s < 512 ==> #[trigger] bitset_bits(t)[s] == (s == 0 || connected3x3(s as u32)),
{
    let mut t = bitset_with_capacity(512);
    bitset_set(&mut t, 0, true);
    let mut s: u32 = 1;
    while s < 512
        invariant
            1 <= s <= 512,
            bitset_bits(t).len() == 512,
            forall|j: int| 0 <= j < 512 ==> #[trigger] bitset_bits(t)[j] == (j < s && (j == 0 || connected3x3(j as u32))),
        decreases 512 - s,
    {
        if is_connected3x3(s) {
            bitset_set(&mut t, s as usize, true);
        }
        s += 1;
    }
    t
}

} // verus!
