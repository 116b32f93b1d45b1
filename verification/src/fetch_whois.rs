//! The records of a batch: one for each domain name, made from what its
//! registry answered, the batch ordered by expiration date.

use vstd::prelude::*;
use vstd::string::*;
use crate::group::{
    all_have_tld, extension_groups, flat, group_seqs, lemma_flat_prefix, names_of, tlds_of,
};
use crate::order::{
    is_chain, lemma_chain_covers, is_stable_order, key_seqs, lemma_chain_unique, lemma_stable_order_unique,
    precedes, stable_order,
};
use crate::parse::{expiration_of, parse_expiration, parse_registrar, registrar_of};
use crate::text::{chars_of, lex_le};

verus! {

/// What is known of one domain name after its lookup.
#[derive(Debug, Clone)]
pub struct DomainInfo {
    pub name: String,
    pub expire: String,
    pub registrar: String,
    pub error: String,
}

/// A record as plain values.
pub struct Record {
    pub name: Seq<char>,
    pub expire: Seq<char>,
    pub registrar: Seq<char>,
    pub error: Seq<char>,
}

impl View for DomainInfo {
    type V = Record;

    open spec fn view(&self) -> Record {
        Record {
            name: self.name@,
            expire: self.expire@,
            registrar: self.registrar@,
            error: self.error@,
        }
    }
}

impl Record {
    /// A record that carries an error carries no data.
    pub open spec fn well_formed(self) -> bool {
        self.error.len() > 0 ==> self.expire.len() == 0 && self.registrar.len() == 0
    }
}

/// The error that the record of a failed lookup carries.
pub open spec fn lookup_failure() -> Seq<char> {
    "whois call failed"@
}

/// The record of `name`, given what its lookup came to: the answer's text, or
/// nothing where the lookup failed.
pub open spec fn record_of(name: Seq<char>, answer: Option<Seq<char>>) -> Record {
    match answer {
        Some(text) => Record {
            name,
            expire: expiration_of(text),
            registrar: registrar_of(text),
            error: Seq::empty(),
        },
        None => Record {
            name,
            expire: Seq::empty(),
            registrar: Seq::empty(),
            error: lookup_failure(),
        },
    }
}

/// The answers held by a list of lookup results.
pub open spec fn answers_of(responses: Seq<Option<String>>) -> Seq<Option<Seq<char>>> {
    Seq::new(
        responses.len(),
        |i: int|
            match responses[i] {
                Some(text) => Some(text@),
                None => None,
            },
    )
}

/// The records held by a list of `DomainInfo`.
pub open spec fn records_of(infos: Seq<DomainInfo>) -> Seq<Record> {
    Seq::new(infos.len(), |i: int| infos[i]@)
}

/// The expiration dates of a list of records.
pub open spec fn expirations_of(records: Seq<Record>) -> Seq<Seq<char>> {
    Seq::new(records.len(), |i: int| records[i].expire)
}

/// `sorted` holds the records of `records` in stable ascending order of
/// expiration date, `order` telling where each came from.
pub open spec fn is_sorted_by_expiration(
    records: Seq<Record>,
    order: Seq<usize>,
    sorted: Seq<Record>,
) -> bool {
    &&& is_stable_order(expirations_of(records), order)
    &&& sorted.len() == records.len()
    &&& forall|k: int| 0 <= k < sorted.len() ==> #[trigger] sorted[k] == records[order[k] as int]
}

/// In the result of a batch, the record of the name at `i` stands before that
/// of the name at `j`: by expiration date, then by top-level domain, then by
/// place in the batch.
pub open spec fn comes_before(
    names: Seq<Seq<char>>,
    answers: Seq<Option<Seq<char>>>,
    i: int,
    j: int,
) -> bool {
    let ei = record_of(names[i], answers[i]).expire;
    let ej = record_of(names[j], answers[j]).expire;
    lex_le(ei, ej) && (lex_le(ej, ei) ==> precedes(tlds_of(names), i, j))
}

/// `out` is the resolution of the batch `names` under the lookup results
/// `answers`, `from` telling which name each record belongs to: one record
/// for each name, made from that name's own answer, the records ordered by
/// expiration date, then top-level domain, then place in the batch.
pub open spec fn is_resolution(
    names: Seq<Seq<char>>,
    answers: Seq<Option<Seq<char>>>,
    from: Seq<usize>,
    out: Seq<Record>,
) -> bool {
    &&& from.len() == names.len()
    &&& out.len() == names.len()
    &&& forall|k: int| 0 <= k < from.len() ==> (#[trigger] from[k]) < names.len()
    &&& forall|k: int|
        0 <= k < out.len() ==> #[trigger] out[k] == record_of(
            names[from[k] as int],
            answers[from[k] as int],
        )
    &&& forall|a: int, b: int|
        0 <= a < b < from.len() ==> comes_before(
            names,
            answers,
            (#[trigger] from[a]) as int,
            (#[trigger] from[b]) as int,
        )
}

/// A failed lookup gives a record with an error and no data, an answer gives
/// one without error, and either way the record says nothing of any other
/// name's lookup.
pub proof fn lemma_failure_is_isolated(name: Seq<char>, text: Seq<char>)
    ensures
        record_of(name, None).error.len() > 0,
        record_of(name, None).expire.len() == 0,
        record_of(name, None).registrar.len() == 0,
        record_of(name, Some(text)).error.len() == 0,
        record_of(name, Some(text)).expire == expiration_of(text),
        record_of(name, Some(text)).registrar == registrar_of(text),
        record_of(name, None).well_formed(),
        record_of(name, Some(text)).well_formed(),
{
    reveal_strlit("whois call failed");
}

/// A batch has one resolution only: resolving the same names under the same
/// answers gives the same records in the same order.
pub proof fn lemma_resolution_unique(
    names: Seq<Seq<char>>,
    answers: Seq<Option<Seq<char>>>,
    from: Seq<usize>,
    out: Seq<Record>,
    from_again: Seq<usize>,
    out_again: Seq<Record>,
)
    requires
        is_resolution(names, answers, from, out),
        is_resolution(names, answers, from_again, out_again),
    ensures
        from == from_again,
        out == out_again,
{
    let before = |i: int, j: int| comes_before(names, answers, i, j);
    assert(is_chain(names.len(), before, from));
    assert(is_chain(names.len(), before, from_again));
    lemma_chain_unique(names.len(), before, from, from_again);
    assert(out =~= out_again);
}

/// No name is dropped and none is answered twice: the name at any place `i`
/// of the batch has its record in the resolution, and no two records belong
/// to one place.
pub proof fn lemma_resolution_is_complete(
    names: Seq<Seq<char>>,
    answers: Seq<Option<Seq<char>>>,
    from: Seq<usize>,
    out: Seq<Record>,
    i: int,
)
    requires
        is_resolution(names, answers, from, out),
        0 <= i < names.len(),
    ensures
        exists|k: int|
            0 <= k < out.len() && from[k] == i && #[trigger] out[k] == record_of(
                names[i],
                answers[i],
            ),
        forall|a: int, b: int| 0 <= a < b < from.len() ==> from[a] != from[b],
{
    let before = |i: int, j: int| comes_before(names, answers, i, j);
    assert(is_chain(names.len(), before, from));
    lemma_chain_covers(names.len(), before, from, i);
    let k = choose|k: int| 0 <= k < from.len() && from[k] == i;
    assert(out[k] == record_of(names[i], answers[i]));
    assert forall|a: int, b: int| 0 <= a < b < from.len() implies from[a] != from[b] by {
        assert(before(from[a] as int, from[b] as int));
    }
}

/// A resolution holds as many records as the batch holds names, in ascending
/// order of expiration date, so that records without one come first.
pub proof fn lemma_resolution_is_sorted(
    names: Seq<Seq<char>>,
    answers: Seq<Option<Seq<char>>>,
    from: Seq<usize>,
    out: Seq<Record>,
)
    requires
        is_resolution(names, answers, from, out),
    ensures
        out.len() == names.len(),
        forall|a: int, b: int| 0 <= a < b < out.len() ==> lex_le(out[a].expire, out[b].expire),
        forall|a: int, b: int|
            0 <= a < b < out.len() && out[b].expire.len() == 0 ==> out[a].expire.len() == 0,
{
    assert forall|a: int, b: int| 0 <= a < b < out.len() implies lex_le(
        out[a].expire,
        out[b].expire,
    ) by {
        assert(comes_before(names, answers, from[a] as int, from[b] as int));
    }
}

/// A list of records has one arrangement by expiration date only.
pub proof fn lemma_sorted_by_expiration_unique(
    records: Seq<Record>,
    order: Seq<usize>,
    sorted: Seq<Record>,
    order_again: Seq<usize>,
    sorted_again: Seq<Record>,
)
    requires
        is_sorted_by_expiration(records, order, sorted),
        is_sorted_by_expiration(records, order_again, sorted_again),
    ensures
        sorted == sorted_again,
{
    lemma_stable_order_unique(expirations_of(records), order, order_again);
    assert(sorted =~= sorted_again);
}

/// The record of one domain name, given what its lookup came to: the text
/// that the registry answered, or nothing where the lookup failed. A failed
/// lookup gives a record with an error and no data; an answer gives a record
/// without error, with what the answer states, as far as it states it.
pub fn resolve_domain(domain: &str, whois_result: Option<&str>) -> (info: DomainInfo)
    ensures
        info@ == record_of(
            domain@,
            match whois_result {
                Some(text) => Some(text@),
                None => None,
            },
        ),
        info@.well_formed(),
        whois_result is None ==> info.error@.len() > 0 && info.expire@.len() == 0
            && info.registrar@.len() == 0,
        whois_result is Some ==> info.error@.len() == 0,
{
    let name = String::from_str(domain);
    match whois_result {
        Some(text) => DomainInfo {
            name,
            expire: parse_expiration(text),
            registrar: parse_registrar(text),
            error: String::new(),
        },
        None => {
            proof {
                reveal_strlit("whois call failed");
            }
            DomainInfo {
                name,
                expire: String::new(),
                registrar: String::new(),
                error: String::from_str("whois call failed"),
            }
        },
    }
}

/// The records of one group of the batch, in the group's order.
pub fn resolve_extension(domains: &[String], responses: &[Option<String>], group: &Vec<usize>) -> (result:
    Vec<DomainInfo>)
    requires
        domains.len() == responses.len(),
        forall|a: int| 0 <= a < group.len() ==> (#[trigger] group[a]) < domains.len(),
    ensures
        result.len() == group.len(),
        forall|a: int|
            0 <= a < group.len() ==> (#[trigger] result[a])@ == record_of(
                names_of(domains@)[group[a] as int],
                answers_of(responses@)[group[a] as int],
            ),
{
    let mut result: Vec<DomainInfo> = Vec::with_capacity(group.len());
    let mut a: usize = 0;
    while a < group.len()
        invariant
            a <= group.len(),
            result.len() == a,
            domains.len() == responses.len(),
            forall|a: int| 0 <= a < group.len() ==> (#[trigger] group[a]) < domains.len(),
            forall|b: int|
                0 <= b < a ==> (#[trigger] result[b])@ == record_of(
                    names_of(domains@)[group[b] as int],
                    answers_of(responses@)[group[b] as int],
                ),
        decreases group.len() - a,
    {
        let i = group[a];
        let info = match &responses[i] {
            Some(text) => resolve_domain(domains[i].as_str(), Some(text.as_str())),
            None => resolve_domain(domains[i].as_str(), None),
        };
        result.push(info);
        a = a + 1;
    }
    result
}

/// A copy of a record.
pub fn copy_of(info: &DomainInfo) -> (copy: DomainInfo)
    ensures
        copy@ == info@,
{
    DomainInfo {
        name: info.name.clone(),
        expire: info.expire.clone(),
        registrar: info.registrar.clone(),
        error: info.error.clone(),
    }
}

/// The records in ascending order of expiration date, compared as strings:
/// records without one come first, and records with the same one keep their
/// order.
pub fn sort_by_expiration(records: &Vec<DomainInfo>) -> (sorted: Vec<DomainInfo>)
    ensures
        sorted.len() == records.len(),
        exists|order: Seq<usize>|
            is_sorted_by_expiration(records_of(records@), order, records_of(sorted@)),
{
    let mut keys: Vec<Vec<char>> = Vec::new();
    let mut i: usize = 0;
    while i < records.len()
        invariant
            i <= records.len(),
            keys.len() == i,
            forall|j: int| 0 <= j < i ==> (#[trigger] keys[j])@ == records[j].expire@,
        decreases records.len() - i,
    {
        keys.push(chars_of(records[i].expire.as_str()));
        i = i + 1;
    }
    assert(key_seqs(keys@) =~= expirations_of(records_of(records@)));
    let order = stable_order(&keys);
    let mut sorted: Vec<DomainInfo> = Vec::with_capacity(records.len());
    let mut k: usize = 0;
    while k < order.len()
        invariant
            k <= order.len(),
            sorted.len() == k,
            order.len() == records.len(),
            is_stable_order(expirations_of(records_of(records@)), order@),
            forall|j: int| 0 <= j < k ==> (#[trigger] sorted[j])@ == records[order[j] as int]@,
        decreases order.len() - k,
    {
        sorted.push(copy_of(&records[order[k]]));
        k = k + 1;
    }
    assert(is_sorted_by_expiration(records_of(records@), order@, records_of(sorted@)));
    sorted
}

impl DomainInfo {
    /// Resolves a batch: `responses[i]` is what the lookup of
    /// `config_domains[i]` came to, its text or nothing where it failed. The
    /// result holds one record for each name, whatever failed, each made from
    /// its own name's lookup alone, in ascending order of expiration date;
    /// records with the same date stand by top-level domain, then by place in
    /// the batch.
    pub fn fetch_info(config_domains: &[String], responses: &[Option<String>]) -> (res: Vec<
        DomainInfo,
    >)
        requires
            config_domains.len() == responses.len(),
            all_have_tld(names_of(config_domains@)),
        ensures
            res.len() == config_domains.len(),
            forall|k: int| 0 <= k < res.len() ==> (#[trigger] res[k])@.well_formed(),
            exists|from: Seq<usize>|
                is_resolution(
                    names_of(config_domains@),
                    answers_of(responses@),
                    from,
                    records_of(res@),
                ),
    {
        let ghost names = names_of(config_domains@);
        let ghost answers = answers_of(responses@);
        let groups = extension_groups(config_domains);
        let ghost by_tld = flat(groups@);
        let mut resolved: Vec<DomainInfo> = Vec::new();
        let mut g: usize = 0;
        assert(group_seqs(groups@.take(0)) =~= Seq::<Seq<usize>>::empty());
        while g < groups.len()
            invariant
                g <= groups.len(),
                config_domains.len() == responses.len(),
                names == names_of(config_domains@),
                answers == answers_of(responses@),
                by_tld == flat(groups@),
                is_stable_order(tlds_of(names), by_tld),
                resolved@.len() == flat(groups@.take(g as int)).len(),
                flat(groups@.take(g as int)).is_prefix_of(by_tld),
                forall|k: int|
                    0 <= k < resolved.len() ==> (#[trigger] resolved[k])@ == record_of(
                        names[by_tld[k] as int],
                        answers[by_tld[k] as int],
                    ),
            decreases groups.len() - g,
        {
            let ghost done = flat(groups@.take(g as int));
            proof {
                assert(group_seqs(groups@.take(g + 1)) =~= group_seqs(groups@.take(g as int)).push(
                    groups[g as int]@,
                ));
                group_seqs(groups@.take(g as int)).lemma_flatten_push(groups[g as int]@);
                lemma_flat_prefix(groups@, g + 1);
                assert forall|a: int| 0 <= a < groups[g as int].len() implies (
                #[trigger] groups[g as int][a]) < config_domains.len() by {
                    let next = flat(groups@.take(g + 1));
                    assert(next[done.len() + a] == groups[g as int][a]);
                    assert(by_tld.subrange(0, next.len() as int)[done.len() + a] == by_tld[done.len()
                        + a]);
                }
            }
            let mut part = resolve_extension(config_domains, responses, &groups[g]);
            let ghost part_before = part@;
            let ghost resolved_before = resolved@;
            resolved.append(&mut part);
            proof {
                assert forall|k: int| 0 <= k < resolved.len() implies (#[trigger] resolved[k])@
                    == record_of(names[by_tld[k] as int], answers[by_tld[k] as int]) by {
                    if k >= done.len() {
                        let a = k - done.len();
                        assert(resolved[k] == part_before[a]);
                        let next = flat(groups@.take(g + 1));
                        assert(next[k] == groups[g as int][a]);
                        assert(by_tld.subrange(0, next.len() as int)[k] == by_tld[k]);
                    } else {
                        assert(resolved[k] == resolved_before[k]);
                    }
                }
            }
            g = g + 1;
        }
        assert(groups@.take(g as int) =~= groups@);
        let res = sort_by_expiration(&resolved);
        proof {
            let order = choose|order: Seq<usize>|
                is_sorted_by_expiration(records_of(resolved@), order, records_of(res@));
            let from = Seq::new(order.len(), |k: int| by_tld[order[k] as int]);
            let out = records_of(res@);
            assert forall|k: int| 0 <= k < out.len() implies #[trigger] out[k] == record_of(
                names[from[k] as int],
                answers[from[k] as int],
            ) by {
                assert(out[k] == records_of(resolved@)[order[k] as int]);
            }
            assert forall|a: int, b: int| 0 <= a < b < from.len() implies comes_before(
                names,
                answers,
                (#[trigger] from[a]) as int,
                (#[trigger] from[b]) as int,
            ) by {
                let x = order[a] as int;
                let y = order[b] as int;
                assert(precedes(expirations_of(records_of(resolved@)), x, y));
                assert(records_of(resolved@)[x] == resolved[x]@);
                assert(records_of(resolved@)[y] == resolved[y]@);
                if x < y {
                    assert(precedes(tlds_of(names), by_tld[x] as int, by_tld[y] as int));
                }
            }
            assert forall|k: int| 0 <= k < res.len() implies (#[trigger] res[k])@.well_formed() by {
                assert(out[k] == res[k]@);
                reveal_strlit("whois call failed");
            }
            assert(is_resolution(names, answers, from, out));
        }
        res
    }
}

} // verus!
