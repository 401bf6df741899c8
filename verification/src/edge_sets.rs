//! Sets of pattern edges as integers: bit `i` of the integer says whether
//! the edge with index `i` belongs to the set. All subsets of a list of
//! edge indices come from `itertools`.

use itertools::Itertools;
use vstd::arithmetic::power2::pow2;
use vstd::prelude::*;

verus! {

/// A set of pattern edges as an integer.
pub type EdgeList = u64;

/// The largest number of edges that an integer can hold.
pub const MAX_EDGES: usize = 64;

/// Bit `i` of `m` is set.
pub open spec fn has_bit(m: EdgeList, i: nat) -> bool {
    i < 64 && (m >> (i as u64)) & 1 == 1
}

/// Every edge of the set `m` belongs to the set `u`.
pub open spec fn within(m: EdgeList, u: EdgeList) -> bool {
    forall|i: nat| has_bit(m, i) ==> has_bit(u, i)
}

/// The integer whose bits are the indices of the list.
pub open spec fn bits_of(indices: Seq<usize>) -> EdgeList
    decreases indices.len(),
{
    if indices.len() == 0 {
        0
    } else {
        bits_of(indices.drop_last()) | (1u64 << (indices.last() as u64))
    }
}

/// All indices of the list are below the number of edges that an integer
/// can hold.
pub open spec fn small_indices(indices: Seq<usize>) -> bool {
    forall|k: int| 0 <= k < indices.len() ==> #[trigger] indices[k] < MAX_EDGES
}

/// The elements of `items` at the places that `keep` marks, in their
/// order.
pub open spec fn pick(items: Seq<usize>, keep: Seq<bool>) -> Seq<usize>
    decreases items.len(),
{
    if items.len() == 0 || keep.len() != items.len() {
        Seq::empty()
    } else if keep.last() {
        pick(items.drop_last(), keep.drop_last()).push(items.last())
    } else {
        pick(items.drop_last(), keep.drop_last())
    }
}

/// Two integers with the same bits are equal.
pub proof fn lemma_bits_equal(a: EdgeList, b: EdgeList)
    requires
        forall|i: nat| i < 64 ==> has_bit(a, i) == has_bit(b, i),
    ensures
        a == b,
{
    lemma_low_bits_equal(a, b, 64);
    assert(a & 0xffff_ffff_ffff_ffffu64 == a) by (bit_vector);
    assert(b & 0xffff_ffff_ffff_ffffu64 == b) by (bit_vector);
}

/// The integer with the lowest `n` bits set.
pub open spec fn low_mask(n: nat) -> u64 {
    if n >= 64 {
        0xffff_ffff_ffff_ffffu64
    } else {
        (((1u64 << (n as u64)) - 1) as u64)
    }
}

proof fn lemma_low_bits_equal(a: EdgeList, b: EdgeList, n: nat)
    requires
        n <= 64,
        forall|i: nat| i < n ==> has_bit(a, i) == has_bit(b, i),
    ensures
        a & low_mask(n) == b & low_mask(n),
    decreases n,
{
    if n == 0 {
        assert(a & (((1u64 << 0u64) - 1) as u64) == b & (((1u64 << 0u64) - 1) as u64))
            by (bit_vector);
    } else {
        let m = (n - 1) as nat;
        lemma_low_bits_equal(a, b, m);
        let k = m as u64;
        assert(has_bit(a, m) == has_bit(b, m));
        let bit_a = (a >> k) & 1;
        let bit_b = (b >> k) & 1;
        assert(bit_a == 0 || bit_a == 1) by (bit_vector)
            requires
                bit_a == (a >> k) & 1,
        ;
        assert(bit_b == 0 || bit_b == 1) by (bit_vector)
            requires
                bit_b == (b >> k) & 1,
        ;
        assert(bit_a == bit_b);
        if n == 64 {
            assert(a == b) by (bit_vector)
                requires
                    k == 63,
                    a & (((1u64 << k) - 1) as u64) == b & (((1u64 << k) - 1) as u64),
                    (a >> k) & 1 == (b >> k) & 1,
            ;
        } else {
            let k1 = n as u64;
            assert(a & (((1u64 << k1) - 1) as u64) == b & (((1u64 << k1) - 1) as u64))
                by (bit_vector)
                requires
                    k < 63,
                    k1 == k + 1,
                    a & (((1u64 << k) - 1) as u64) == b & (((1u64 << k) - 1) as u64),
                    (a >> k) & 1 == (b >> k) & 1,
            ;
        }
    }
}

/// Setting bit `e` sets that bit and changes no other.
pub proof fn lemma_set_bit(m: EdgeList, e: nat, i: nat)
    requires
        e < 64,
    ensures
        has_bit(m | (1u64 << (e as u64)), i) <==> has_bit(m, i) || i == e,
{
    if i < 64 {
        let ee = e as u64;
        let ii = i as u64;
        assert(((m | (1u64 << ee)) >> ii) & 1 == 1 <==> ((m >> ii) & 1 == 1 || ii == ee))
            by (bit_vector)
            requires
                ee < 64,
                ii < 64,
        ;
    }
}

/// The bits of an intersection are the bits that both integers have.
pub proof fn lemma_and_bit(a: EdgeList, b: EdgeList, i: nat)
    ensures
        has_bit(a & b, i) <==> has_bit(a, i) && has_bit(b, i),
{
    if i < 64 {
        let ii = i as u64;
        assert(((a & b) >> ii) & 1 == 1 <==> ((a >> ii) & 1 == 1 && (b >> ii) & 1 == 1))
            by (bit_vector)
            requires
                ii < 64,
        ;
    }
}

/// The integer 0 has no bit.
pub proof fn lemma_no_bit(i: nat)
    ensures
        !has_bit(0, i),
{
    if i < 64 {
        let ii = i as u64;
        assert((0u64 >> ii) & 1 == 0) by (bit_vector);
    }
}

/// The bits of `bits_of` are the indices of the list.
pub proof fn lemma_bits_of(indices: Seq<usize>, i: nat)
    requires
        small_indices(indices),
    ensures
        has_bit(bits_of(indices), i) <==> exists|k: int|
            0 <= k < indices.len() && #[trigger] indices[k] == i,
    decreases indices.len(),
{
    if indices.len() == 0 {
        lemma_no_bit(i);
    } else {
        let head = indices.drop_last();
        lemma_bits_of(head, i);
        assert(indices[indices.len() - 1] < MAX_EDGES);
        lemma_set_bit(bits_of(head), indices.last() as nat, i);
        if exists|k: int| 0 <= k < head.len() && #[trigger] head[k] == i {
            let k = choose|k: int| 0 <= k < head.len() && #[trigger] head[k] == i;
            assert(indices[k] == i);
        }
        if exists|k: int| 0 <= k < indices.len() && #[trigger] indices[k] == i {
            let k = choose|k: int| 0 <= k < indices.len() && #[trigger] indices[k] == i;
            if k < head.len() {
                assert(head[k] == i);
            }
        }
    }
}

/// What `pick` keeps: an element is picked exactly if it stands at a
/// marked place.
pub proof fn lemma_pick(items: Seq<usize>, keep: Seq<bool>, x: usize)
    requires
        keep.len() == items.len(),
    ensures
        (exists|j: int| 0 <= j < pick(items, keep).len() && #[trigger] pick(items, keep)[j] == x)
            <==> (exists|k: int| 0 <= k < items.len() && keep[k] && #[trigger] items[k] == x),
        pick(items, keep).len() <= items.len(),
    decreases items.len(),
{
    let picked = pick(items, keep);
    if items.len() > 0 {
        let head = items.drop_last();
        let marks = keep.drop_last();
        let before = pick(head, marks);
        lemma_pick(head, marks, x);
        if exists|k: int| 0 <= k < head.len() && marks[k] && #[trigger] head[k] == x {
            let k = choose|k: int| 0 <= k < head.len() && marks[k] && #[trigger] head[k] == x;
            assert(keep[k] && items[k] == x);
        }
        if exists|j: int| 0 <= j < before.len() && #[trigger] before[j] == x {
            let j = choose|j: int| 0 <= j < before.len() && #[trigger] before[j] == x;
            assert(picked[j] == x);
        }
        if exists|k: int| 0 <= k < items.len() && keep[k] && #[trigger] items[k] == x {
            let k = choose|k: int| 0 <= k < items.len() && keep[k] && #[trigger] items[k] == x;
            if k < head.len() {
                assert(marks[k] && head[k] == x);
            } else {
                assert(picked[picked.len() - 1] == x);
            }
        }
        if exists|j: int| 0 <= j < picked.len() && #[trigger] picked[j] == x {
            let j = choose|j: int| 0 <= j < picked.len() && #[trigger] picked[j] == x;
            if j < before.len() {
                assert(before[j] == x);
            } else {
                assert(keep[items.len() - 1] && items[items.len() - 1] == x);
            }
        }
    }
}

/// The picked elements of a list of small indices are small indices.
pub proof fn lemma_pick_small(items: Seq<usize>, keep: Seq<bool>)
    requires
        keep.len() == items.len(),
        small_indices(items),
    ensures
        small_indices(pick(items, keep)),
{
    let picked = pick(items, keep);
    assert forall|j: int| 0 <= j < picked.len() implies #[trigger] picked[j] < MAX_EDGES by {
        lemma_pick(items, keep, picked[j]);
        let k = choose|k: int| 0 <= k < items.len() && keep[k] && #[trigger] items[k] == picked[j];
    }
}

/// Every subset of the list's indices is the set of a selection from the
/// list: the selection of the indices that the subset holds.
pub proof fn lemma_subset_is_picked(items: Seq<usize>, m: EdgeList) -> (keep: Seq<bool>)
    requires
        small_indices(items),
        within(m, bits_of(items)),
    ensures
        keep.len() == items.len(),
        bits_of(pick(items, keep)) == m,
{
    let keep = Seq::new(items.len(), |k: int| has_bit(m, items[k] as nat));
    let picked = pick(items, keep);
    lemma_pick_small(items, keep);
    assert forall|i: nat| i < 64 implies has_bit(bits_of(picked), i) == has_bit(m, i) by {
        lemma_bits_of(picked, i);
        lemma_bits_of(items, i);
        lemma_pick(items, keep, i as usize);
        if has_bit(m, i) {
            assert(has_bit(bits_of(items), i));
            let k = choose|k: int| 0 <= k < items.len() && #[trigger] items[k] == i;
            assert(keep[k] && items[k] == i as usize);
        }
        if has_bit(bits_of(picked), i) {
            let j = choose|j: int| 0 <= j < picked.len() && #[trigger] picked[j] == i;
            assert(picked[j] == i as usize);
            let k = choose|k: int|
                0 <= k < items.len() && keep[k] && #[trigger] items[k] == i as usize;
        }
    }
    lemma_bits_equal(bits_of(picked), m);
    keep
}

/// The set of a selection from the list is a subset of the list's indices.
pub proof fn lemma_picked_is_subset(items: Seq<usize>, keep: Seq<bool>)
    requires
        small_indices(items),
        keep.len() == items.len(),
    ensures
        within(bits_of(pick(items, keep)), bits_of(items)),
{
    let picked = pick(items, keep);
    lemma_pick_small(items, keep);
    assert forall|i: nat| has_bit(bits_of(picked), i) implies has_bit(bits_of(items), i) by {
        lemma_bits_of(picked, i);
        lemma_bits_of(items, i);
        lemma_pick(items, keep, i as usize);
        let j = choose|j: int| 0 <= j < picked.len() && #[trigger] picked[j] == i;
        assert(picked[j] == i as usize);
        let k = choose|k: int|
            0 <= k < items.len() && keep[k] && #[trigger] items[k] == i as usize;
        assert(items[k] == i);
    }
}

/// The list `s` is a selection from `items`.
pub open spec fn is_selection(items: Seq<usize>, s: Seq<usize>) -> bool {
    exists|keep: Seq<bool>| keep.len() == items.len() && s == #[trigger] pick(items, keep)
}

/// The list `s` is one of the subsets.
pub open spec fn has_selection(subsets: Seq<Vec<usize>>, s: Seq<usize>) -> bool {
    exists|t: int| 0 <= t < subsets.len() && (#[trigger] subsets[t])@ == s
}

/// The subsets are the selections from `items`: each of them is a
/// selection, and every selection is one of them.
pub open spec fn all_selections(items: Seq<usize>, subsets: Seq<Vec<usize>>) -> bool {
    &&& forall|t: int| 0 <= t < subsets.len() ==> is_selection(items, (#[trigger] subsets[t])@)
    &&& forall|keep: Seq<bool>|
        keep.len() == items.len() ==> has_selection(subsets, #[trigger] pick(items, keep))
}

/// `Itertools::powerset`, collected: all selections from `items`, each as
/// the vector of the selected elements in their order. There are `2^n` of
/// them for `n` elements (so many vectors must be addressable), every one
/// is a selection, and every selection is among them.
#[verifier::external_body]
pub(crate) fn powerset_of(items: &Vec<usize>) -> (subsets: Vec<Vec<usize>>)
    requires
        pow2(items@.len()) <= usize::MAX,
    ensures
        subsets@.len() == pow2(items@.len()),
        all_selections(items@, subsets@),
{
    items.iter().copied().powerset().collect()
}

/// The set of the edges with the given indices, as an integer.
pub fn indices_to_bits(indices: &Vec<usize>) -> (r: EdgeList)
    requires
        small_indices(indices@),
    ensures
        r == bits_of(indices@),
{
    let mut sum: u64 = 0;
    let mut j: usize = 0;
    assert(indices@.take(0) == Seq::<usize>::empty());
    while j < indices.len()
        invariant
            j <= indices.len(),
            small_indices(indices@),
            sum == bits_of(indices@.take(j as int)),
        decreases indices.len() - j,
    {
        let e: usize = indices[j];
        assert(indices@.take(j + 1).drop_last() == indices@.take(j as int));
        assert(indices@.take(j + 1).last() == e);
        assert(e < MAX_EDGES);
        sum = sum | (1u64 << (e as u64));
        j = j + 1;
    }
    assert(indices@.take(indices@.len() as int) == indices@);
    sum
}

/// Whether the edge with index `i` belongs to the set `m`.
pub fn bit_is_set(m: EdgeList, i: usize) -> (r: bool)
    ensures
        r == has_bit(m, i as nat),
{
    if i < MAX_EDGES {
        (m >> (i as u64)) & 1 == 1
    } else {
        false
    }
}

} // verus!
