//! The top-level domain of a domain name: what follows its last `.`.

use vstd::prelude::*;
use vstd::string::*;
use crate::text::chars_of;

verus! {

/// Where the top-level domain of `s` starts: just behind the last `.`, or at
/// 0 where `s` holds none.
pub open spec fn tld_start(s: Seq<char>) -> int
    decreases s.len(),
{
    if s.len() == 0 {
        0
    } else if s.last() == '.' {
        s.len() as int
    } else {
        tld_start(s.drop_last())
    }
}

/// The top-level domain of `s`: the part of `s` strictly behind its last `.`.
pub open spec fn tld(s: Seq<char>) -> Seq<char> {
    s.skip(tld_start(s))
}

/// A name is well formed when it holds a `.`.
pub open spec fn has_tld(s: Seq<char>) -> bool {
    s.contains('.')
}

/// A position `k` that has no `.` from it on, and a `.` just before it unless
/// it is 0, is where the top-level domain starts.
pub proof fn lemma_tld_start_unique(s: Seq<char>, k: int)
    requires
        0 <= k <= s.len(),
        k > 0 ==> s[k - 1] == '.',
        forall|j: int| k <= j < s.len() ==> s[j] != '.',
    ensures
        tld_start(s) == k,
    decreases s.len(),
{
    if s.len() > 0 && s.last() != '.' {
        lemma_tld_start_unique(s.drop_last(), k);
    }
}

/// The top-level domain of a well-formed name holds no `.`, and the name is
/// some prefix, one `.`, and the top-level domain.
pub proof fn lemma_tld_follows_last_dot(s: Seq<char>)
    requires
        has_tld(s),
    ensures
        1 <= tld_start(s) <= s.len(),
        s[tld_start(s) - 1] == '.',
        !tld(s).contains('.'),
        s == s.take(tld_start(s) - 1).push('.') + tld(s),
    decreases s.len(),
{
    let k = tld_start(s);
    lemma_tld_start_bounds(s);
    if k == 0 {
        let j = choose|j: int| 0 <= j < s.len() && s[j] == '.';
        assert(false);
    }
    assert(s =~= s.take(k - 1).push('.') + tld(s));
    if tld(s).contains('.') {
        let j = choose|j: int| 0 <= j < tld(s).len() && tld(s)[j] == '.';
        assert(s[k + j] == '.');
    }
}

/// The start of the top-level domain lies within the name, behind a `.`
/// unless it is 0, and no `.` follows it.
pub proof fn lemma_tld_start_bounds(s: Seq<char>)
    ensures
        0 <= tld_start(s) <= s.len(),
        tld_start(s) > 0 ==> s[tld_start(s) - 1] == '.',
        forall|j: int| tld_start(s) <= j < s.len() ==> s[j] != '.',
    decreases s.len(),
{
    if s.len() > 0 && s.last() != '.' {
        lemma_tld_start_bounds(s.drop_last());
        assert forall|j: int| tld_start(s) <= j < s.len() implies s[j] != '.' by {
            if j < s.len() - 1 {
                assert(s.drop_last()[j] == s[j]);
            }
        }
    }
}

/// Whether a name holds a `.`, and so has a top-level domain.
pub fn has_extension(s: &str) -> (r: bool)
    ensures
        r == has_tld(s@),
{
    let chars = chars_of(s);
    let mut i: usize = 0;
    while i < chars.len()
        invariant
            i <= chars.len(),
            chars@ == s@,
            forall|j: int| 0 <= j < i ==> s@[j] != '.',
        decreases chars.len() - i,
    {
        if chars[i] == '.' {
            return true;
        }
        i = i + 1;
    }
    false
}

/// The top-level domain of a domain name, its case kept.
pub fn ext(s: &str) -> (r: &str)
    requires
        has_tld(s@),
    ensures
        r@ == tld(s@),
        !r@.contains('.'),
        r@.len() < s@.len(),
        s@ == s@.take(s@.len() - r@.len() - 1).push('.') + r@,
{
    let chars = chars_of(s);
    let n = chars.len();
    let mut i: usize = n;
    while i > 0 && chars[i - 1] != '.'
        invariant
            i <= n,
            n == chars.len(),
            chars@ == s@,
            forall|j: int| i <= j < n ==> s@[j] != '.',
        decreases i,
    {
        i = i - 1;
    }
    proof {
        lemma_tld_start_unique(s@, i as int);
        lemma_tld_follows_last_dot(s@);
    }
    s.substring_char(i, n)
}

} // verus!
