//! The local domain policy and the normalization of the domains it names.
use vstd::prelude::*;

use crate::compiler::domains::{normalize_domain, spec_normalize_domain};
use crate::compiler::error::{CompilerError, CompilerErrorView};
use crate::external::string_from_chars;
use crate::text::{chars_equal, chars_of, concat_chars};

verus! {

/// A reviewed domain outside the namespace roots, with the organization it
/// belongs to.
#[derive(Debug)]
pub struct ExternalDomain {
    pub domain: String,
    pub gc_org_id: u32,
    pub include_subdomains: bool,
}

/// The local domain policy.
#[derive(Debug)]
pub struct Policy {
    pub namespace_roots: Vec<String>,
    pub recognize_namespace_roots: bool,
    pub excluded_domains: Vec<String>,
    pub external_domains: Vec<ExternalDomain>,
}

/// The path that policy errors name.
pub open spec fn policy_path() -> Seq<char> {
    "data/domain-policy.yaml"@
}

/// The error for a policy domain that is not a valid domain.
pub open spec fn invalid_policy_domain(domain: Seq<char>) -> CompilerErrorView {
    CompilerErrorView::MissingColumn {
        column: "valid domain value ("@ + domain + ")"@,
        path: policy_path(),
    }
}

fn invalid_policy_domain_error(domain: &str) -> (e: CompilerError)
    ensures
        e@ == invalid_policy_domain(domain@),
{
    let column = concat_chars(
        &concat_chars(&chars_of("valid domain value ("), &chars_of(domain)),
        &chars_of(")"),
    );
    CompilerError::MissingColumn {
        column: string_from_chars(&column),
        path: "data/domain-policy.yaml".to_owned(),
    }
}

/// The normalized domains of a policy list, or the error for its first invalid domain.
pub open spec fn spec_normalize_policy_domains(domains: Seq<Seq<char>>) -> Result<
    Seq<Seq<char>>,
    CompilerErrorView,
>
    decreases domains.len(),
{
    if domains.len() == 0 {
        Ok(Seq::empty())
    } else {
        match spec_normalize_policy_domains(domains.drop_last()) {
            Err(e) => Err(e),
            Ok(v) => match spec_normalize_domain(domains.last()) {
                Some(d) => Ok(v.push(d)),
                None => Err(invalid_policy_domain(domains.last())),
            },
        }
    }
}

/// The character sequences of a list of strings.
pub open spec fn string_views(v: Seq<String>) -> Seq<Seq<char>> {
    v.map_values(|s: String| s@)
}

/// Normalizes every domain of a policy list, or reports the first that is invalid.
pub fn normalize_policy_domains(domains: &Vec<String>) -> (r: Result<Vec<String>, CompilerError>)
    ensures
        match r {
            Ok(v) => spec_normalize_policy_domains(string_views(domains@)) == Ok::<
                Seq<Seq<char>>,
                CompilerErrorView,
            >(string_views(v@)),
            Err(e) => spec_normalize_policy_domains(string_views(domains@)) == Err::<
                Seq<Seq<char>>,
                CompilerErrorView,
            >(e@),
        },
{
    let ghost all = string_views(domains@);
    let mut v: Vec<String> = Vec::new();
    let mut i: usize = 0;
    assert(all.take(0) =~= Seq::<Seq<char>>::empty());
    assert(string_views(v@) =~= Seq::<Seq<char>>::empty());
    while i < domains.len()
        invariant
            i <= domains.len(),
            all == string_views(domains@),
            spec_normalize_policy_domains(all.take(i as int)) == Ok::<
                Seq<Seq<char>>,
                CompilerErrorView,
            >(string_views(v@)),
        decreases domains.len() - i,
    {
        assert(all.take(i + 1).drop_last() =~= all.take(i as int));
        assert(all.take(i + 1).last() == domains@[i as int]@);
        match normalize_domain(domains[i].as_str()) {
            Some(d) => {
                let ghost prev = v@;
                v.push(d);
                assert(string_views(v@) =~= string_views(prev).push(v@.last()@));
            },
            None => {
                let e = invalid_policy_domain_error(domains[i].as_str());
                proof {
                    lemma_policy_error_persists(all, i + 1);
                }
                return Err(e);
            },
        }
        i = i + 1;
    }
    assert(all.take(domains.len() as int) =~= all);
    Ok(v)
}

proof fn lemma_policy_error_persists(domains: Seq<Seq<char>>, k: int)
    requires
        0 <= k <= domains.len(),
        spec_normalize_policy_domains(domains.take(k)) is Err,
    ensures
        spec_normalize_policy_domains(domains) == spec_normalize_policy_domains(domains.take(k)),
    decreases domains.len() - k,
{
    if k < domains.len() {
        assert(domains.drop_last().take(k) =~= domains.take(k));
        lemma_policy_error_persists(domains.drop_last(), k);
    } else {
        assert(domains.take(k) =~= domains);
    }
}

/// The normalized external domains keyed by domain, with organization ID and
/// whether subdomains are included, a later entry replacing an earlier one; or
/// the error for the first entry whose domain is invalid.
pub open spec fn spec_normalize_external_domains(domains: Seq<ExternalDomain>) -> Result<
    Map<Seq<char>, (u32, bool)>,
    CompilerErrorView,
>
    decreases domains.len(),
{
    if domains.len() == 0 {
        Ok(Map::empty())
    } else {
        match spec_normalize_external_domains(domains.drop_last()) {
            Err(e) => Err(e),
            Ok(m) => {
                let last = domains.last();
                match spec_normalize_domain(last.domain@) {
                    Some(d) => Ok(m.insert(d, (last.gc_org_id, last.include_subdomains))),
                    None => Err(invalid_policy_domain(last.domain@)),
                }
            },
        }
    }
}

proof fn lemma_external_error_persists(domains: Seq<ExternalDomain>, k: int)
    requires
        0 <= k <= domains.len(),
        spec_normalize_external_domains(domains.take(k)) is Err,
    ensures
        spec_normalize_external_domains(domains) == spec_normalize_external_domains(domains.take(k)),
    decreases domains.len() - k,
{
    if k < domains.len() {
        assert(domains.drop_last().take(k) =~= domains.take(k));
        lemma_external_error_persists(domains.drop_last(), k);
    } else {
        assert(domains.take(k) =~= domains);
    }
}

/// External domains keyed by their normalized domain, with no domain twice.
pub struct ExternalDomains {
    entries: Vec<ExternalDomain>,
}

/// No two entries have the same domain.
pub open spec fn distinct_domains(entries: Seq<ExternalDomain>) -> bool {
    forall|i: int, j: int|
        0 <= i < entries.len() && 0 <= j < entries.len() && i != j ==> #[trigger] entries[i].domain@
            != #[trigger] entries[j].domain@
}

/// The entries keyed by domain.
pub open spec fn entries_map(entries: Seq<ExternalDomain>) -> Map<Seq<char>, (u32, bool)> {
    Map::new(
        |d: Seq<char>| exists|i: int| 0 <= i < entries.len() && #[trigger] entries[i].domain@ == d,
        |d: Seq<char>|
            {
                let i = choose|i: int| 0 <= i < entries.len() && #[trigger] entries[i].domain@ == d;
                (entries[i].gc_org_id, entries[i].include_subdomains)
            },
    )
}

impl ExternalDomains {
    pub closed spec fn wf(&self) -> bool {
        distinct_domains(self.entries@)
    }

    /// The entries keyed by domain.
    pub closed spec fn view(&self) -> Map<Seq<char>, (u32, bool)> {
        entries_map(self.entries@)
    }

    pub fn new() -> (r: ExternalDomains)
        ensures
            r.wf(),
            r@ == Map::<Seq<char>, (u32, bool)>::empty(),
    {
        let r = ExternalDomains { entries: Vec::new() };
        assert(r@ =~= Map::<Seq<char>, (u32, bool)>::empty());
        r
    }

    /// The index of the entry for `domain`.
    fn index_of(&self, domain: &Vec<char>) -> (r: Option<usize>)
        requires
            self.wf(),
        ensures
            match r {
                Some(i) => i < self.entries.len() && self.entries@[i as int].domain@ == domain@,
                None => !self@.contains_key(domain@),
            },
    {
        let mut i: usize = 0;
        while i < self.entries.len()
            invariant
                i <= self.entries.len(),
                forall|j: int| 0 <= j < i ==> #[trigger] self.entries@[j].domain@ != domain@,
            decreases self.entries.len() - i,
        {
            let here = chars_of(self.entries[i].domain.as_str());
            if chars_equal(&here, domain) {
                return Some(i);
            }
            i = i + 1;
        }
        None
    }

    /// The organization ID and subdomain setting of `domain`.
    pub fn get(&self, domain: &Vec<char>) -> (r: Option<(u32, bool)>)
        requires
            self.wf(),
        ensures
            match r {
                Some(v) => self@.contains_key(domain@) && self@[domain@] == v,
                None => !self@.contains_key(domain@),
            },
    {
        match self.index_of(domain) {
            Some(i) => {
                proof {
                    self.lemma_value_at(i as int);
                }
                Some((self.entries[i].gc_org_id, self.entries[i].include_subdomains))
            },
            None => None,
        }
    }

    proof fn lemma_value_at(&self, i: int)
        requires
            self.wf(),
            0 <= i < self.entries@.len(),
        ensures
            self@.contains_key(self.entries@[i].domain@),
            self@[self.entries@[i].domain@] == (
                self.entries@[i].gc_org_id,
                self.entries@[i].include_subdomains,
            ),
    {
        let d = self.entries@[i].domain@;
        assert(0 <= i < self.entries@.len() && self.entries@[i].domain@ == d);
    }

    /// Sets the entry for `entry.domain`, replacing any earlier one.
    pub fn insert(&mut self, entry: ExternalDomain)
        requires
            old(self).wf(),
        ensures
            final(self).wf(),
            final(self)@ == old(self)@.insert(
                entry.domain@,
                (entry.gc_org_id, entry.include_subdomains),
            ),
    {
        let key = chars_of(entry.domain.as_str());
        let ghost before = self.entries@;
        let ghost d = entry.domain@;
        let ghost v = (entry.gc_org_id, entry.include_subdomains);
        match self.index_of(&key) {
            Some(i) => {
                self.entries.set(i, entry);
                proof {
                    let after = self.entries@;
                    assert forall|a: int, b: int|
                        0 <= a < after.len() && 0 <= b < after.len() && a != b implies #[trigger] after[a].domain@
                        != #[trigger] after[b].domain@ by {
                        if a != i as int && b != i as int {
                            assert(before[a] == after[a] && before[b] == after[b]);
                        } else if a == i as int {
                            assert(before[b] == after[b]);
                            assert(before[a].domain@ == d);
                        } else {
                            assert(before[a] == after[a]);
                            assert(before[b].domain@ == d);
                        }
                    }
                    self.lemma_value_at(i as int);
                    assert forall|k: Seq<char>| #[trigger] entries_map(after).contains_key(k) <==> entries_map(before).insert(d, v).contains_key(k) by {
                        if entries_map(before).contains_key(k) && k != d {
                            let j = choose|j: int| 0 <= j < before.len() && #[trigger] before[j].domain@ == k;
                            assert(after[j] == before[j]);
                        }
                        if entries_map(after).contains_key(k) && k != d {
                            let j = choose|j: int| 0 <= j < after.len() && #[trigger] after[j].domain@ == k;
                            assert(after[j] == before[j]);
                        }
                    }
                    assert forall|k: Seq<char>| #[trigger] entries_map(after).contains_key(k) implies entries_map(after)[k] == entries_map(before).insert(d, v)[k] by {
                        let j = choose|j: int| 0 <= j < after.len() && #[trigger] after[j].domain@ == k;
                        if k != d {
                            assert(after[j] == before[j]);
                            let j2 = choose|j2: int| 0 <= j2 < before.len() && #[trigger] before[j2].domain@ == k;
                            assert(j2 == j);
                        } else {
                            assert(j == i);
                        }
                    }
                    assert(entries_map(after) =~= entries_map(before).insert(d, v));
                }
            },
            None => {
                self.entries.push(entry);
                proof {
                    let after = self.entries@;
                    assert forall|a: int, b: int|
                        0 <= a < after.len() && 0 <= b < after.len() && a != b implies #[trigger] after[a].domain@
                        != #[trigger] after[b].domain@ by {
                        if a < before.len() && b < before.len() {
                            assert(before[a] == after[a] && before[b] == after[b]);
                        } else if a < before.len() {
                            assert(before[a] == after[a]);
                            assert(0 <= a < before.len() && before[a].domain@ == before[a].domain@);
                        } else {
                            assert(before[b] == after[b]);
                            assert(0 <= b < before.len() && before[b].domain@ == before[b].domain@);
                        }
                    }
                    let n = before.len() as int;
                    assert forall|k: Seq<char>| #[trigger] entries_map(after).contains_key(k) <==> entries_map(before).insert(d, v).contains_key(k) by {
                        if entries_map(before).contains_key(k) {
                            let j = choose|j: int| 0 <= j < before.len() && #[trigger] before[j].domain@ == k;
                            assert(after[j] == before[j]);
                        }
                        if entries_map(after).contains_key(k) && k != d {
                            let j = choose|j: int| 0 <= j < after.len() && #[trigger] after[j].domain@ == k;
                            assert(j != n);
                            assert(after[j] == before[j]);
                        }
                        if k == d {
                            assert(after[n].domain@ == d);
                        }
                    }
                    assert forall|k: Seq<char>| #[trigger] entries_map(after).contains_key(k) implies entries_map(after)[k] == entries_map(before).insert(d, v)[k] by {
                        let j = choose|j: int| 0 <= j < after.len() && #[trigger] after[j].domain@ == k;
                        if k != d {
                            assert(j != n);
                            assert(after[j] == before[j]);
                            let j2 = choose|j2: int| 0 <= j2 < before.len() && #[trigger] before[j2].domain@ == k;
                            assert(after[j2] == before[j2]);
                            assert(j2 == j);
                        } else {
                            assert(after[n].domain@ == d);
                            assert(j == n);
                        }
                    }
                    assert(entries_map(after) =~= entries_map(before).insert(d, v));
                }
            },
        }
    }

    /// The domains of the entries.
    pub fn domains(&self) -> (r: Vec<String>)
        requires
            self.wf(),
        ensures
            forall|d: Seq<char>| self@.contains_key(d) <==> exists|i: int| 0 <= i < r.len() && #[trigger] r[i]@ == d,
    {
        let mut r: Vec<String> = Vec::new();
        let mut i: usize = 0;
        while i < self.entries.len()
            invariant
                i <= self.entries.len(),
                r.len() == i,
                forall|j: int| 0 <= j < i ==> #[trigger] r[j]@ == self.entries@[j].domain@,
            decreases self.entries.len() - i,
        {
            let d = self.entries[i].domain.as_str().to_owned();
            r.push(d);
            i = i + 1;
        }
        assert forall|d: Seq<char>| self@.contains_key(d) <==> exists|i: int| 0 <= i < r.len() && #[trigger] r[i]@ == d by {
            if self@.contains_key(d) {
                let j = choose|j: int| 0 <= j < self.entries@.len() && #[trigger] self.entries@[j].domain@ == d;
                assert(r[j]@ == d);
            }
            if exists|i: int| 0 <= i < r.len() && #[trigger] r[i]@ == d {
                let j = choose|j: int| 0 <= j < r.len() && #[trigger] r[j]@ == d;
                assert(self.entries@[j].domain@ == d);
            }
        }
        r
    }
}

/// Normalizes the external domains of the policy, keyed by normalized domain,
/// a later entry for a domain replacing an earlier one; or reports the first
/// entry whose domain is invalid.
pub fn normalize_external_domains(domains: &Vec<ExternalDomain>) -> (r: Result<
    ExternalDomains,
    CompilerError,
>)
    ensures
        match r {
            Ok(m) => m.wf() && spec_normalize_external_domains(domains@) == Ok::<
                Map<Seq<char>, (u32, bool)>,
                CompilerErrorView,
            >(m@),
            Err(e) => spec_normalize_external_domains(domains@) == Err::<
                Map<Seq<char>, (u32, bool)>,
                CompilerErrorView,
            >(e@),
        },
{
    let mut normalized = ExternalDomains::new();
    let mut i: usize = 0;
    assert(domains@.take(0) =~= Seq::<ExternalDomain>::empty());
    while i < domains.len()
        invariant
            i <= domains.len(),
            normalized.wf(),
            spec_normalize_external_domains(domains@.take(i as int)) == Ok::<
                Map<Seq<char>, (u32, bool)>,
                CompilerErrorView,
            >(normalized@),
        decreases domains.len() - i,
    {
        let domain = &domains[i];
        assert(domains@.take(i + 1).drop_last() =~= domains@.take(i as int));
        assert(domains@.take(i + 1).last() == domains@[i as int]);
        match normalize_domain(domain.domain.as_str()) {
            Some(name) => {
                normalized.insert(
                    ExternalDomain {
                        domain: name,
                        gc_org_id: domain.gc_org_id,
                        include_subdomains: domain.include_subdomains,
                    },
                );
            },
            None => {
                proof {
                    lemma_external_error_persists(domains@, i + 1);
                }
                return Err(invalid_policy_domain_error(domain.domain.as_str()));
            },
        }
        i = i + 1;
    }
    assert(domains@.take(domains.len() as int) =~= domains@);
    Ok(normalized)
}

} // verus!
