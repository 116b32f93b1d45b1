//! Stable ordering of a batch by string keys.

use vstd::prelude::*;
use vstd::seq_lib::seq_to_set_is_finite;
use vstd::set_lib::{lemma_int_range, lemma_subset_equality, set_int_range};
use crate::text::{
    lemma_lex_le_antisymmetric, lemma_lex_le_reflexive, lemma_lex_le_total, lemma_lex_le_transitive,
    lex_le, lex_le_exec,
};

verus! {

/// The keys held by a vector of character vectors.
pub open spec fn key_seqs(keys: Seq<Vec<char>>) -> Seq<Seq<char>> {
    Seq::new(keys.len(), |i: int| keys[i]@)
}

/// Item `i` goes before item `j`: its key is smaller, or the keys are equal
/// and `i` is the earlier of the two.
pub open spec fn precedes(keys: Seq<Seq<char>>, i: int, j: int) -> bool {
    lex_le(keys[i], keys[j]) && (lex_le(keys[j], keys[i]) ==> i < j)
}

/// Item `i` goes before item `j` exactly when its key comes first, or the two
/// keys are the same and `i` is the earlier.
pub proof fn lemma_precedes_by_key_then_place(keys: Seq<Seq<char>>, i: int, j: int)
    ensures
        precedes(keys, i, j) == (lex_le(keys[i], keys[j]) && (keys[i] == keys[j] ==> i < j)),
{
    lemma_lex_le_reflexive(keys[i]);
    if lex_le(keys[i], keys[j]) && lex_le(keys[j], keys[i]) {
        lemma_lex_le_antisymmetric(keys[i], keys[j]);
    }
}

/// `order` lists positions of `keys`, each within range, every earlier entry
/// preceding every later one.
pub open spec fn is_ordered(keys: Seq<Seq<char>>, order: Seq<usize>) -> bool {
    &&& forall|a: int| 0 <= a < order.len() ==> (#[trigger] order[a]) < keys.len()
    &&& forall|a: int, b: int|
        0 <= a < b < order.len() ==> precedes(
            keys,
            (#[trigger] order[a]) as int,
            (#[trigger] order[b]) as int,
        )
}

/// `order` is the stable ascending order of `keys`: it lists every position
/// once, by ascending key, positions of equal keys in their first order.
pub open spec fn is_stable_order(keys: Seq<Seq<char>>, order: Seq<usize>) -> bool {
    order.len() == keys.len() && is_ordered(keys, order)
}

/// Of two items at most one goes before the other.
pub open spec fn asymmetric(before: spec_fn(int, int) -> bool) -> bool {
    forall|i: int, j: int| #[trigger] before(i, j) ==> !before(j, i)
}

/// `p` lists `n` positions below `n`, every earlier entry `before` every
/// later one.
pub open spec fn is_chain(n: nat, before: spec_fn(int, int) -> bool, p: Seq<usize>) -> bool {
    &&& p.len() == n
    &&& forall|a: int| 0 <= a < p.len() ==> (#[trigger] p[a]) < n
    &&& forall|a: int, b: int|
        0 <= a < b < p.len() ==> before((#[trigger] p[a]) as int, (#[trigger] p[b]) as int)
}

/// A chain of `n` positions holds every position below `n`.
pub proof fn lemma_chain_covers(n: nat, before: spec_fn(int, int) -> bool, p: Seq<usize>, i: int)
    requires
        asymmetric(before),
        is_chain(n, before, p),
        0 <= i < n,
    ensures
        exists|a: int| 0 <= a < p.len() && p[a] == i,
{
    let ints = Seq::new(p.len(), |a: int| p[a] as int);
    assert forall|a: int, b: int| 0 <= a < ints.len() && 0 <= b < ints.len() && a != b implies ints[a]
        != ints[b] by {
        if a < b {
            assert(before(p[a] as int, p[b] as int));
        } else {
            assert(before(p[b] as int, p[a] as int));
        }
    }
    ints.unique_seq_to_set();
    seq_to_set_is_finite(ints);
    lemma_int_range(0, n as int);
    assert forall|x: int| ints.to_set().contains(x) implies set_int_range(0, n as int).contains(
        x,
    ) by {
        let a = choose|a: int| 0 <= a < ints.len() && ints[a] == x;
        assert(p[a] < n);
    }
    lemma_subset_equality(ints.to_set(), set_int_range(0, n as int));
    assert(set_int_range(0, n as int).contains(i));
    assert(ints.contains(i));
    let a = choose|a: int| 0 <= a < ints.len() && ints[a] == i;
    assert(p[a] == i);
}

/// Two chains of the same positions agree on their first `k` entries.
pub proof fn lemma_chains_agree(
    n: nat,
    before: spec_fn(int, int) -> bool,
    p: Seq<usize>,
    q: Seq<usize>,
    k: int,
)
    requires
        asymmetric(before),
        is_chain(n, before, p),
        is_chain(n, before, q),
        0 <= k <= n,
    ensures
        forall|j: int| 0 <= j < k ==> p[j] == q[j],
    decreases k,
{
    if k > 0 {
        let c = k - 1;
        lemma_chains_agree(n, before, p, q, c);
        lemma_chain_covers(n, before, q, p[c] as int);
        lemma_chain_covers(n, before, p, q[c] as int);
        let m = choose|m: int| 0 <= m < q.len() && q[m] == p[c] as int;
        let w = choose|w: int| 0 <= w < p.len() && p[w] == q[c] as int;
        if m < c {
            assert(p[m] == q[m]);
            assert(before(p[m] as int, p[c] as int));
        }
        if w < c {
            assert(p[w] == q[w]);
            assert(before(q[w] as int, q[c] as int));
        }
        if m > c && w > c {
            assert(before(q[c] as int, q[m] as int));
            assert(before(p[c] as int, p[w] as int));
        }
    }
}

/// An order in which of two items at most one goes first admits one chain
/// only.
pub proof fn lemma_chain_unique(
    n: nat,
    before: spec_fn(int, int) -> bool,
    p: Seq<usize>,
    q: Seq<usize>,
)
    requires
        asymmetric(before),
        is_chain(n, before, p),
        is_chain(n, before, q),
    ensures
        p == q,
{
    lemma_chains_agree(n, before, p, q, n as int);
    assert(p =~= q);
}

/// A list of keys has one stable ascending order only: sorting is a function
/// of the keys.
pub proof fn lemma_stable_order_unique(keys: Seq<Seq<char>>, p: Seq<usize>, q: Seq<usize>)
    requires
        is_stable_order(keys, p),
        is_stable_order(keys, q),
    ensures
        p == q,
{
    let before = |i: int, j: int| precedes(keys, i, j);
    assert(is_chain(keys.len(), before, p));
    assert(is_chain(keys.len(), before, q));
    lemma_chain_unique(keys.len(), before, p, q);
}

/// The keys in the order that `order` gives.
pub open spec fn arranged(keys: Seq<Seq<char>>, order: Seq<usize>) -> Seq<Seq<char>> {
    Seq::new(order.len(), |k: int| keys[order[k] as int])
}

/// Sorting what is sorted changes nothing: the stable ascending order of
/// keys that stand in stable ascending order leaves each where it is.
pub proof fn lemma_sorted_stays(keys: Seq<Seq<char>>, order: Seq<usize>, again: Seq<usize>)
    requires
        is_stable_order(keys, order),
        is_stable_order(arranged(keys, order), again),
    ensures
        forall|k: int| 0 <= k < again.len() ==> again[k] == k,
        arranged(arranged(keys, order), again) == arranged(keys, order),
{
    let sorted = arranged(keys, order);
    let same = Seq::new(order.len(), |k: int| k as usize);
    assert forall|a: int| 0 <= a < same.len() implies (#[trigger] same[a]) == a by {
        let before = |i: int, j: int| precedes(keys, i, j);
        lemma_chain_covers(keys.len(), before, order, a);
    }
    assert forall|a: int, b: int| 0 <= a < b < same.len() implies precedes(
        sorted,
        (#[trigger] same[a]) as int,
        (#[trigger] same[b]) as int,
    ) by {
        assert(precedes(keys, order[a] as int, order[b] as int));
    }
    lemma_stable_order_unique(sorted, same, again);
    assert(arranged(sorted, again) =~= sorted);
}

/// The positions of `keys` in stable ascending order of the keys.
pub fn stable_order(keys: &Vec<Vec<char>>) -> (order: Vec<usize>)
    ensures
        is_stable_order(key_seqs(keys@), order@),
{
    let ghost ks = key_seqs(keys@);
    let mut order: Vec<usize> = Vec::new();
    let mut i: usize = 0;
    while i < keys.len()
        invariant
            i <= keys.len(),
            order.len() == i,
            ks == key_seqs(keys@),
            is_ordered(ks.take(i as int), order@),
        decreases keys.len() - i,
    {
        let mut p: usize = 0;
        while p < order.len() && lex_le_exec(&keys[order[p]], &keys[i])
            invariant
                p <= order.len(),
                order.len() == i,
                i < keys.len(),
                ks == key_seqs(keys@),
                is_ordered(ks.take(i as int), order@),
                forall|a: int| 0 <= a < p ==> lex_le(ks[(#[trigger] order[a]) as int], ks[i as int]),
            decreases order.len() - p,
        {
            p = p + 1;
        }
        let ghost before = order@;
        proof {
            assert forall|b: int| p <= b < before.len() implies precedes(
                ks,
                i as int,
                (#[trigger] before[b]) as int,
            ) by {
                let first = before[p as int] as int;
                let later = before[b] as int;
                lemma_lex_le_total(ks[first], ks[i as int]);
                if p < b {
                    assert(precedes(ks.take(i as int), first, later));
                } else {
                    lemma_lex_le_reflexive(ks[first]);
                }
                lemma_lex_le_transitive(ks[i as int], ks[first], ks[later]);
                if lex_le(ks[later], ks[i as int]) {
                    lemma_lex_le_transitive(ks[first], ks[later], ks[i as int]);
                }
            }
        }
        order.insert(p, i);
        proof {
            let next = ks.take(i + 1);
            assert forall|a: int, b: int| 0 <= a < b < order@.len() implies precedes(
                next,
                (#[trigger] order@[a]) as int,
                (#[trigger] order@[b]) as int,
            ) by {
                if b < p {
                    assert(precedes(ks.take(i as int), before[a] as int, before[b] as int));
                } else if b == p {
                    assert(lex_le(ks[before[a] as int], ks[i as int]));
                } else if a < p {
                    assert(precedes(ks.take(i as int), before[a] as int, before[b - 1] as int));
                } else if a == p {
                    assert(precedes(ks, i as int, before[b - 1] as int));
                } else {
                    assert(precedes(ks.take(i as int), before[a - 1] as int, before[b - 1] as int));
                }
            }
            assert forall|a: int| 0 <= a < order@.len() implies (#[trigger] order@[a]) < next.len() by {
                if a < p {
                    assert(before[a] < i);
                } else if a > p {
                    assert(before[a - 1] < i);
                }
            }
        }
        i = i + 1;
    }
    assert(ks.take(i as int) =~= ks);
    order
}

} // verus!
