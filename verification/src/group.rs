//! Grouping a batch of domain names by top-level domain, so that each
//! registry is asked by one task.

use vstd::prelude::*;
use vstd::string::*;
use itertools::Itertools;
use crate::extension::{ext, has_tld, tld};
use crate::order::{
    arranged, is_stable_order, key_seqs, lemma_sorted_stays, lemma_stable_order_unique, stable_order,
};
use crate::order::precedes;
use crate::text::{chars_of, lemma_lex_le_antisymmetric, lemma_lex_le_reflexive};

verus! {

/// The names held by a list of strings.
pub open spec fn names_of(domains: Seq<String>) -> Seq<Seq<char>> {
    Seq::new(domains.len(), |i: int| domains[i]@)
}

/// The top-level domain of each name.
pub open spec fn tlds_of(names: Seq<Seq<char>>) -> Seq<Seq<char>> {
    Seq::new(names.len(), |i: int| tld(names[i]))
}

/// Every name of the list holds a `.`.
pub open spec fn all_have_tld(names: Seq<Seq<char>>) -> bool {
    forall|i: int| 0 <= i < names.len() ==> has_tld(#[trigger] names[i])
}

/// The positions held by a list of groups.
pub open spec fn group_seqs(groups: Seq<Vec<usize>>) -> Seq<Seq<usize>> {
    Seq::new(groups.len(), |g: int| groups[g]@)
}

/// The positions of all groups, one group after the other.
pub open spec fn flat(groups: Seq<Vec<usize>>) -> Seq<usize> {
    group_seqs(groups).flatten()
}

/// `groups` cuts `items` into its runs of equal key: the groups in a row give
/// `items` back, none is empty, a group's items share one key, and a group's
/// key differs from that of the group before it.
pub open spec fn is_runs(keys: Seq<Seq<char>>, items: Seq<usize>, groups: Seq<Vec<usize>>) -> bool {
    &&& flat(groups) == items
    &&& forall|g: int| 0 <= g < groups.len() ==> (#[trigger] groups[g])@.len() > 0
    &&& forall|g: int, a: int|
        0 <= g < groups.len() && 0 <= a < groups[g]@.len() ==> keys[(#[trigger] groups[g]@[a]) as int]
            == keys[groups[g]@[0] as int]
    &&& forall|g: int|
        0 <= g < groups.len() - 1 ==> keys[(#[trigger] groups[g])@.last() as int] != keys[groups[g
            + 1]@[0] as int]
}

/// `groups` is the batch grouped by top-level domain: in a row the groups
/// list the batch in stable ascending order of top-level domain, and they cut
/// that list into its runs of equal top-level domain.
pub open spec fn is_grouping(names: Seq<Seq<char>>, groups: Seq<Vec<usize>>) -> bool {
    &&& is_stable_order(tlds_of(names), flat(groups))
    &&& is_runs(tlds_of(names), flat(groups), groups)
}

/// The positions of the first `n` groups are the start of the positions of
/// all groups.
pub proof fn lemma_flat_prefix(groups: Seq<Vec<usize>>, n: int)
    requires
        0 <= n <= groups.len(),
    ensures
        flat(groups.take(n)).is_prefix_of(flat(groups)),
    decreases groups.len() - n,
{
    if n < groups.len() {
        lemma_flat_prefix(groups, n + 1);
        assert(group_seqs(groups.take(n + 1)) =~= group_seqs(groups.take(n)).push(groups[n]@));
        group_seqs(groups.take(n)).lemma_flatten_push(groups[n]@);
    } else {
        assert(groups.take(n) =~= groups);
    }
}

/// How many positions the first `g` groups hold.
pub open spec fn offset(groups: Seq<Vec<usize>>, g: int) -> int {
    flat(groups.take(g)).len() as int
}

/// The items of a group stand in the row of all groups in the group's order,
/// behind the items of the groups before it.
pub proof fn lemma_group_in_flat(groups: Seq<Vec<usize>>, g: int, a: int)
    requires
        0 <= g < groups.len(),
        0 <= a < groups[g]@.len(),
    ensures
        0 <= offset(groups, g) + a < flat(groups).len(),
        flat(groups)[offset(groups, g) + a] == groups[g]@[a],
        offset(groups, g + 1) == offset(groups, g) + groups[g]@.len(),
{
    assert(group_seqs(groups.take(g + 1)) =~= group_seqs(groups.take(g)).push(groups[g]@));
    group_seqs(groups.take(g)).lemma_flatten_push(groups[g]@);
    lemma_flat_prefix(groups, g + 1);
    let next = flat(groups.take(g + 1));
    let at = offset(groups, g) + a;
    assert(next[at] == groups[g]@[a]);
    assert(flat(groups).subrange(0, next.len() as int)[at] == flat(groups)[at]);
}

/// Later groups stand further back in the row of all groups.
pub proof fn lemma_offsets_grow(groups: Seq<Vec<usize>>, g: int, h: int)
    requires
        0 <= g <= h <= groups.len(),
    ensures
        offset(groups, g) <= offset(groups, h),
{
    lemma_flat_prefix(groups.take(h), g);
    assert(groups.take(h).take(g) =~= groups.take(g));
}

/// Each top-level domain has one group: no two groups share one.
pub proof fn lemma_groups_differ(names: Seq<Seq<char>>, groups: Seq<Vec<usize>>, g: int, h: int)
    requires
        is_grouping(names, groups),
        0 <= g < h < groups.len(),
    ensures
        tlds_of(names)[groups[g]@[0] as int] != tlds_of(names)[groups[h]@[0] as int],
{
    let keys = tlds_of(names);
    let row = flat(groups);
    let last = groups[g]@.len() - 1;
    assert(groups[g]@.len() > 0 && groups[g + 1]@.len() > 0 && groups[h]@.len() > 0);
    lemma_group_in_flat(groups, g, last);
    lemma_group_in_flat(groups, g + 1, 0);
    lemma_group_in_flat(groups, h, 0);
    lemma_offsets_grow(groups, g + 1, h);
    let i1 = offset(groups, g) + last;
    let i2 = offset(groups, g + 1);
    let i3 = offset(groups, h);
    let k1 = keys[row[i1] as int];
    let k2 = keys[row[i2] as int];
    let k3 = keys[row[i3] as int];
    assert(precedes(keys, row[i1] as int, row[i2] as int));
    if i2 < i3 {
        assert(precedes(keys, row[i2] as int, row[i3] as int));
    } else {
        lemma_lex_le_reflexive(k2);
    }
    assert(keys[groups[g]@[last] as int] == keys[groups[g]@[0] as int]);
    assert(k1 != k2);
    if k1 == k3 {
        lemma_lex_le_antisymmetric(k1, k2);
    }
}

/// Grouping loses and reorders nothing: the groups in a row are the batch
/// sorted by top-level domain, and sorting that row by top-level domain once
/// more leaves every name where it is.
pub proof fn lemma_grouping_is_sorting(
    names: Seq<Seq<char>>,
    groups: Seq<Vec<usize>>,
    direct: Seq<usize>,
    again: Seq<usize>,
)
    requires
        is_grouping(names, groups),
        is_stable_order(tlds_of(names), direct),
        is_stable_order(arranged(tlds_of(names), flat(groups)), again),
    ensures
        flat(groups) == direct,
        forall|k: int| 0 <= k < again.len() ==> again[k] == k,
{
    lemma_stable_order_unique(tlds_of(names), flat(groups), direct);
    lemma_sorted_stays(tlds_of(names), flat(groups), again);
}

/// The top-level domain of the name at position `i`.
pub fn extension_at(domains: &[String], i: usize) -> (r: &str)
    requires
        i < domains.len(),
        has_tld(domains[i as int]@),
    ensures
        r@ == tld(domains[i as int]@),
{
    ext(domains[i].as_str())
}

/// Whether every name of the batch holds a `.`, as grouping asks.
pub fn all_have_extension(domains: &[String]) -> (r: bool)
    ensures
        r == all_have_tld(names_of(domains@)),
{
    let mut i: usize = 0;
    while i < domains.len()
        invariant
            i <= domains.len(),
            forall|j: int| 0 <= j < i ==> has_tld(#[trigger] names_of(domains@)[j]),
        decreases domains.len() - i,
    {
        if !crate::extension::has_extension(domains[i].as_str()) {
            assert(!has_tld(names_of(domains@)[i as int]));
            return false;
        }
        i = i + 1;
    }
    true
}

/// Calls `group_by` of itertools on the positions in `order`, keyed by the
/// top-level domain of the name at each position, and collects each run.
/// Believed of it: consecutive positions whose names have the same top-level
/// domain form one group, in order, and nothing else does.
#[verifier::external_body]
fn runs_by_extension(domains: &[String], order: &Vec<usize>) -> (groups: Vec<Vec<usize>>)
    requires
        all_have_tld(names_of(domains@)),
        forall|a: int| 0 <= a < order.len() ==> (#[trigger] order[a]) < domains.len(),
    ensures
        is_runs(tlds_of(names_of(domains@)), order@, groups@),
{
    let runs = order.iter().group_by(|i| extension_at(domains, **i));
    let groups: Vec<Vec<usize>> = (&runs).into_iter().map(|(_, run)| run.copied().collect()).collect();
    groups
}

/// The top-level domain of each name of the batch, as characters.
pub fn extension_keys(domains: &[String]) -> (keys: Vec<Vec<char>>)
    requires
        all_have_tld(names_of(domains@)),
    ensures
        key_seqs(keys@) == tlds_of(names_of(domains@)),
{
    let mut keys: Vec<Vec<char>> = Vec::new();
    let mut i: usize = 0;
    while i < domains.len()
        invariant
            i <= domains.len(),
            keys.len() == i,
            all_have_tld(names_of(domains@)),
            forall|j: int| 0 <= j < i ==> (#[trigger] keys[j])@ == tld(domains[j]@),
        decreases domains.len() - i,
    {
        assert(has_tld(names_of(domains@)[i as int]));
        keys.push(chars_of(extension_at(domains, i)));
        i = i + 1;
    }
    assert(key_seqs(keys@) =~= tlds_of(names_of(domains@)));
    keys
}

/// The batch grouped by top-level domain: the positions of the names, sorted
/// by top-level domain (names of one top-level domain in their first order),
/// one group for each top-level domain.
pub fn extension_groups(domains: &[String]) -> (groups: Vec<Vec<usize>>)
    requires
        all_have_tld(names_of(domains@)),
    ensures
        is_grouping(names_of(domains@), groups@),
{
    let keys = extension_keys(domains);
    let order = stable_order(&keys);
    runs_by_extension(domains, &order)
}

} // verus!
