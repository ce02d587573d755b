//! Classification of a validated domain against the embedded dataset.
use vstd::prelude::*;

use crate::dataset::{
    namespace_roots, rules, rules_sorted, spec_namespace_roots, spec_rules, DomainRule,
    DATASET_VERSION,
};
use crate::email::{extract_domain, spec_extract_domain, ValidationError};
use crate::text::{
    chars_equal, chars_of, compare_chars, domain_is_domain_or_child, find_first,
    first_index_of, is_domain_or_child, lemma_first_index_of, lemma_seq_lt_irreflexive,
    lemma_seq_lt_transitive, seq_lt, sub_chars, SeqOrder,
};

verus! {

/// How a domain matched the dataset.
#[derive(Debug, Clone, Copy, PartialEq, Eq, Structural)]
pub enum MatchType {
    RecognizedDomain,
    NamespaceOnly,
    NoMatch,
}

/// The organization that owns a recognized domain.
#[derive(Debug, Clone, Copy, PartialEq, Eq)]
pub struct Organization {
    pub gc_org_id: u32,
    pub name_en: &'static str,
    pub name_fr: &'static str,
}

/// The classification of an email's domain.
#[derive(Debug, Clone, PartialEq, Eq)]
pub struct Classification {
    pub is_government_of_canada: bool,
    pub is_government_controlled_namespace: bool,
    pub domain: String,
    pub matched_domain: Option<&'static str>,
    pub match_type: MatchType,
    pub organization: Option<Organization>,
    pub dataset_version: &'static str,
}

/// The index of the rule whose domain is `cand`, if there is one.
pub open spec fn rule_index(rules: Seq<DomainRule>, cand: Seq<char>) -> Option<int> {
    if exists|i: int| 0 <= i < rules.len() && #[trigger] rules[i].domain@ == cand {
        Some(choose|i: int| 0 <= i < rules.len() && #[trigger] rules[i].domain@ == cand)
    } else {
        None
    }
}

/// The rule that applies to domain `d`, looking at `cand` and then at each
/// shorter suffix of `cand` that follows a dot: the first candidate with a rule
/// that is either `d` itself or includes its subdomains.
pub open spec fn lookup_from(rules: Seq<DomainRule>, d: Seq<char>, cand: Seq<char>) -> Option<int>
    decreases cand.len(),
{
    let here = rule_index(rules, cand);
    if here is Some && (cand == d || rules[here->0].include_subdomains) {
        here
    } else {
        match first_index_of(cand, '.') {
            Some(k) => {
                proof {
                    lemma_first_index_of(cand, '.');
                }
                lookup_from(rules, d, cand.skip(k + 1))
            },
            None => None,
        }
    }
}

/// The rule that applies to domain `d`: the rule for `d` itself, or else the
/// rule of its nearest parent domain that includes subdomains.
pub open spec fn find_rule_spec(rules: Seq<DomainRule>, d: Seq<char>) -> Option<int> {
    lookup_from(rules, d, d)
}

/// `d` is one of the roots or lies beneath one of them.
pub open spec fn in_namespace(roots: Seq<&'static str>, d: Seq<char>) -> bool {
    exists|i: int| 0 <= i < roots.len() && is_domain_or_child(d, #[trigger] roots[i]@)
}

/// The organization of a rule, where it has one.
pub open spec fn rule_organization(rule: DomainRule) -> Option<Organization> {
    match rule.gc_org_id {
        Some(id) => Some(
            Organization {
                gc_org_id: id,
                name_en: match rule.organization_en {
                    Some(n) => n,
                    None => "",
                },
                name_fr: match rule.organization_fr {
                    Some(n) => n,
                    None => "",
                },
            },
        ),
        None => None,
    }
}

/// `c` is the classification of domain `d` against `rules` and `roots`.
pub open spec fn classifies(
    c: Classification,
    d: Seq<char>,
    rules: Seq<DomainRule>,
    roots: Seq<&'static str>,
) -> bool {
    let ns = in_namespace(roots, d);
    &&& c.domain@ == d
    &&& c.is_government_controlled_namespace == ns
    &&& c.dataset_version == DATASET_VERSION
    &&& match find_rule_spec(rules, d) {
        Some(i) => {
            &&& c.is_government_of_canada
            &&& c.matched_domain == Some(rules[i].domain)
            &&& c.match_type == MatchType::RecognizedDomain
            &&& c.organization == rule_organization(rules[i])
        },
        None => {
            &&& !c.is_government_of_canada
            &&& c.matched_domain is None
            &&& c.organization is None
            &&& c.match_type == if ns {
                MatchType::NamespaceOnly
            } else {
                MatchType::NoMatch
            }
        },
    }
}

/// In sorted rules, the rule with a given domain is the one `rule_index` finds.
pub proof fn lemma_rule_index_unique(rules: Seq<DomainRule>, i: int, cand: Seq<char>)
    requires
        rules_sorted(rules),
        0 <= i < rules.len(),
        rules[i].domain@ == cand,
    ensures
        rule_index(rules, cand) == Some(i),
{
    assert(0 <= i < rules.len() && rules[i].domain@ == cand);
    let j = rule_index(rules, cand)->0;
    if j < i {
        assert(seq_lt(rules[j].domain@, rules[i].domain@));
        lemma_seq_lt_irreflexive(cand);
    } else if i < j {
        assert(seq_lt(rules[i].domain@, rules[j].domain@));
        lemma_seq_lt_irreflexive(cand);
    }
}

/// Binary search of the rules for the one whose domain is `key`.
fn search_rules(rules: &Vec<DomainRule>, key: &Vec<char>) -> (r: Option<usize>)
    requires
        rules_sorted(rules@),
    ensures
        match r {
            Some(i) => i < rules.len() && rule_index(rules@, key@) == Some(i as int),
            None => rule_index(rules@, key@) is None,
        },
{
    let mut lo: usize = 0;
    let mut hi: usize = rules.len();
    while lo < hi
        invariant
            lo <= hi <= rules.len(),
            rules_sorted(rules@),
            forall|i: int| 0 <= i < lo ==> seq_lt(#[trigger] rules@[i].domain@, key@),
            forall|i: int| hi <= i < rules.len() ==> seq_lt(key@, #[trigger] rules@[i].domain@),
        decreases hi - lo,
    {
        let mid = lo + (hi - lo) / 2;
        let probe = chars_of(rules[mid].domain);
        match compare_chars(&probe, key) {
            SeqOrder::Equal => {
                proof {
                    lemma_rule_index_unique(rules@, mid as int, key@);
                }
                return Some(mid);
            },
            SeqOrder::Less => {
                proof {
                    assert forall|i: int| 0 <= i < mid + 1 implies seq_lt(
                        #[trigger] rules@[i].domain@,
                        key@,
                    ) by {
                        if i < mid {
                            assert(seq_lt(rules@[i].domain@, rules@[mid as int].domain@));
                            lemma_seq_lt_transitive(
                                rules@[i].domain@,
                                rules@[mid as int].domain@,
                                key@,
                            );
                        }
                    }
                }
                lo = mid + 1;
            },
            SeqOrder::Greater => {
                proof {
                    assert forall|i: int| mid <= i < rules.len() implies seq_lt(
                        key@,
                        #[trigger] rules@[i].domain@,
                    ) by {
                        if i > mid {
                            assert(seq_lt(rules@[mid as int].domain@, rules@[i].domain@));
                            lemma_seq_lt_transitive(
                                key@,
                                rules@[mid as int].domain@,
                                rules@[i].domain@,
                            );
                        }
                    }
                }
                hi = mid;
            },
        }
    }
    proof {
        if exists|i: int| 0 <= i < rules@.len() && #[trigger] rules@[i].domain@ == key@ {
            let i = choose|i: int| 0 <= i < rules@.len() && #[trigger] rules@[i].domain@ == key@;
            lemma_seq_lt_irreflexive(key@);
            if i < lo {
                assert(seq_lt(rules@[i].domain@, key@));
            } else {
                assert(seq_lt(key@, rules@[i].domain@));
            }
        }
    }
    None
}

/// The index of the rule that applies to `domain`: the rule for the domain
/// itself, or else that of its nearest parent that includes subdomains.
pub fn find_rule_index(rules: &Vec<DomainRule>, domain: &Vec<char>) -> (r: Option<usize>)
    requires
        rules_sorted(rules@),
    ensures
        match r {
            Some(i) => i < rules.len() && find_rule_spec(rules@, domain@) == Some(i as int),
            None => find_rule_spec(rules@, domain@) is None,
        },
{
    let mut candidate = sub_chars(domain, 0, domain.len());
    assert(candidate@ =~= domain@);
    loop
        invariant
            rules_sorted(rules@),
            find_rule_spec(rules@, domain@) == lookup_from(rules@, domain@, candidate@),
        decreases candidate.len(),
    {
        match search_rules(rules, &candidate) {
            Some(index) => {
                if chars_equal(&candidate, domain) || rules[index].include_subdomains {
                    return Some(index);
                }
            },
            None => {},
        }
        match find_first(&candidate, '.') {
            Some(k) => {
                let ghost prev = candidate@;
                proof {
                    lemma_first_index_of(candidate@, '.');
                }
                candidate = sub_chars(&candidate, k + 1, candidate.len());
                assert(candidate@ =~= prev.skip(k + 1));
            },
            None => {
                return None;
            },
        }
    }
}

/// Whether `domain` is one of `roots` or lies beneath one of them.
pub fn in_roots(roots: &Vec<&'static str>, domain: &Vec<char>) -> (r: bool)
    ensures
        r == in_namespace(roots@, domain@),
{
    let mut i: usize = 0;
    while i < roots.len()
        invariant
            i <= roots.len(),
            forall|j: int| 0 <= j < i ==> !is_domain_or_child(domain@, #[trigger] roots@[j]@),
        decreases roots.len() - i,
    {
        let root = chars_of(roots[i]);
        if domain_is_domain_or_child(domain, &root) {
            return true;
        }
        i = i + 1;
    }
    false
}

/// Whether `domain` lies in a namespace of the embedded dataset: it is one of
/// the namespace roots or a subdomain of one.
pub fn is_in_namespace(domain: &str) -> (r: bool)
    ensures
        r == in_namespace(spec_namespace_roots(), domain@),
{
    in_roots(&namespace_roots(), &chars_of(domain))
}

/// The rule of the embedded dataset that applies to `domain`: the rule for
/// the domain itself, or else that of its nearest parent that includes
/// subdomains.
pub fn find_rule(domain: &str) -> (r: Option<DomainRule>)
    ensures
        match r {
            Some(rule) => find_rule_spec(spec_rules(), domain@) matches Some(i) && rule
                == spec_rules()[i],
            None => find_rule_spec(spec_rules(), domain@) is None,
        },
{
    let rules = rules();
    match find_rule_index(&rules, &chars_of(domain)) {
        Some(index) => Some(rules[index]),
        None => None,
    }
}

/// Classifies a validated domain against the embedded dataset.
pub fn classify_domain(domain: String) -> (c: Classification)
    ensures
        classifies(c, domain@, spec_rules(), spec_namespace_roots()),
{
    let chars = chars_of(domain.as_str());
    let roots = namespace_roots();
    let namespace_controlled = in_roots(&roots, &chars);
    let rules = rules();
    match find_rule_index(&rules, &chars) {
        Some(index) => {
            let rule = rules[index];
            let organization = match rule.gc_org_id {
                Some(gc_org_id) => Some(
                    Organization {
                        gc_org_id,
                        name_en: rule.organization_en.unwrap_or(""),
                        name_fr: rule.organization_fr.unwrap_or(""),
                    },
                ),
                None => None,
            };
            Classification {
                is_government_of_canada: true,
                is_government_controlled_namespace: namespace_controlled,
                domain,
                matched_domain: Some(rule.domain),
                match_type: MatchType::RecognizedDomain,
                organization,
                dataset_version: DATASET_VERSION,
            }
        },
        None => {
            let match_type = if namespace_controlled {
                MatchType::NamespaceOnly
            } else {
                MatchType::NoMatch
            };
            Classification {
                is_government_of_canada: false,
                is_government_controlled_namespace: namespace_controlled,
                domain,
                matched_domain: None,
                match_type,
                organization: None,
                dataset_version: DATASET_VERSION,
            }
        },
    }
}

/// Classifies an email without DNS or network access.
///
/// `is_government_of_canada` means the domain matched the reviewed dataset.
/// `is_government_controlled_namespace` is broader: it also covers otherwise
/// unknown subdomains beneath a configured Government of Canada namespace.
pub fn classify_email(email: &str) -> (r: Result<Classification, ValidationError>)
    ensures
        match r {
            Ok(c) => {
                &&& spec_extract_domain(email) is Ok
                &&& classifies(
                    c,
                    spec_extract_domain(email)->Ok_0,
                    spec_rules(),
                    spec_namespace_roots(),
                )
            },
            Err(e) => spec_extract_domain(email) == Err::<Seq<char>, ValidationError>(e),
        },
{
    let domain = extract_domain(email)?;
    Ok(classify_domain(domain))
}

} // verus!
