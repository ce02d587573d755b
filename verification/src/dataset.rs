//! The embedded, reviewed domain dataset: namespace roots and domain rules,
//! sorted by domain. Each organization domain is recognized as an exact domain;
//! `statcan.gc.ca` is the one whose subdomains the local policy approved.
use vstd::prelude::*;

use crate::text::{lemma_seq_lt_transitive, seq_lt};

verus! {

/// A reviewed domain: either a recognized namespace root (without an
/// organization) or an email domain of one organization.
#[derive(Debug, Clone, Copy)]
pub struct DomainRule {
    pub domain: &'static str,
    pub include_subdomains: bool,
    pub gc_org_id: Option<u32>,
    pub organization_en: Option<&'static str>,
    pub organization_fr: Option<&'static str>,
}

/// The version of the embedded dataset.
pub const DATASET_VERSION: &'static str =
    "sha256:41f0a3069e19a4f45eb84d7f55052ed268d8eebdb5980a87ff28b316851814d4";

/// The namespace roots of the embedded dataset.
pub open spec fn spec_namespace_roots() -> Seq<&'static str> {
    seq!["canada.ca", "gc.ca"]
}

/// The rules of the embedded dataset, in increasing order of domain.
pub open spec fn spec_rules() -> Seq<DomainRule> {
    seq![
        DomainRule {
            domain: "canada.ca",
            include_subdomains: false,
            gc_org_id: None,
            organization_en: None,
            organization_fr: None,
        },
        DomainRule {
            domain: "cra-arc.gc.ca",
            include_subdomains: false,
            gc_org_id: Some(2236u32),
            organization_en: Some("Canada Revenue Agency"),
            organization_fr: Some("Agence du revenu du Canada"),
        },
        DomainRule {
            domain: "inspection.gc.ca",
            include_subdomains: false,
            gc_org_id: Some(2254u32),
            organization_en: Some("Canadian Food Inspection Agency"),
            organization_fr: Some("Agence canadienne d'inspection des aliments"),
        },
        DomainRule {
            domain: "statcan.gc.ca",
            include_subdomains: true,
            gc_org_id: Some(2293u32),
            organization_en: Some("Statistics Canada"),
            organization_fr: Some("Statistique Canada"),
        },
        DomainRule {
            domain: "tbs-sct.gc.ca",
            include_subdomains: false,
            gc_org_id: Some(2311u32),
            organization_en: Some("Treasury Board of Canada Secretariat"),
            organization_fr: Some("Secrétariat du Conseil du Trésor du Canada"),
        },
    ]
}

/// Rules are in strictly increasing order of domain, so no domain occurs twice.
pub open spec fn rules_sorted(rules: Seq<DomainRule>) -> bool {
    forall|i: int, j: int|
        0 <= i < j < rules.len() ==> seq_lt(#[trigger] rules[i].domain@, #[trigger] rules[j].domain@)
}

/// The namespace roots of the embedded dataset.
pub fn namespace_roots() -> (r: Vec<&'static str>)
    ensures
        r@ == spec_namespace_roots(),
{
    let mut r: Vec<&'static str> = Vec::new();
    r.push("canada.ca");
    r.push("gc.ca");
    assert(r@ =~= spec_namespace_roots());
    r
}

/// The rules of the embedded dataset.
pub fn rules() -> (r: Vec<DomainRule>)
    ensures
        r@ == spec_rules(),
        rules_sorted(r@),
{
    let mut r: Vec<DomainRule> = Vec::new();
    r.push(
        DomainRule {
            domain: "canada.ca",
            include_subdomains: false,
            gc_org_id: None,
            organization_en: None,
            organization_fr: None,
        },
    );
    r.push(
        DomainRule {
            domain: "cra-arc.gc.ca",
            include_subdomains: false,
            gc_org_id: Some(2236u32),
            organization_en: Some("Canada Revenue Agency"),
            organization_fr: Some("Agence du revenu du Canada"),
        },
    );
    r.push(
        DomainRule {
            domain: "inspection.gc.ca",
            include_subdomains: false,
            gc_org_id: Some(2254u32),
            organization_en: Some("Canadian Food Inspection Agency"),
            organization_fr: Some("Agence canadienne d'inspection des aliments"),
        },
    );
    r.push(
        DomainRule {
            domain: "statcan.gc.ca",
            include_subdomains: true,
            gc_org_id: Some(2293u32),
            organization_en: Some("Statistics Canada"),
            organization_fr: Some("Statistique Canada"),
        },
    );
    r.push(
        DomainRule {
            domain: "tbs-sct.gc.ca",
            include_subdomains: false,
            gc_org_id: Some(2311u32),
            organization_en: Some("Treasury Board of Canada Secretariat"),
            organization_fr: Some("Secrétariat du Conseil du Trésor du Canada"),
        },
    );
    assert(r@ =~= spec_rules());
    proof {
        lemma_embedded_rules_sorted();
    }
    r
}

/// Consecutive order implies order.
proof fn lemma_sorted_from_consecutive(rules: Seq<DomainRule>)
    requires
        forall|i: int| 0 <= i < rules.len() - 1 ==> seq_lt(#[trigger] rules[i].domain@, rules[i + 1].domain@),
    ensures
        rules_sorted(rules),
{
    assert forall|i: int, j: int| 0 <= i < j < rules.len() implies seq_lt(
        #[trigger] rules[i].domain@,
        #[trigger] rules[j].domain@,
    ) by {
        lemma_sorted_pair(rules, i, j);
    }
}

proof fn lemma_sorted_pair(rules: Seq<DomainRule>, i: int, j: int)
    requires
        forall|k: int| 0 <= k < rules.len() - 1 ==> seq_lt(#[trigger] rules[k].domain@, rules[k + 1].domain@),
        0 <= i < j < rules.len(),
    ensures
        seq_lt(rules[i].domain@, rules[j].domain@),
    decreases j - i,
{
    if j > i + 1 {
        lemma_sorted_pair(rules, i, j - 1);
        assert(seq_lt(rules[j - 1].domain@, rules[j].domain@));
        lemma_seq_lt_transitive(rules[i].domain@, rules[j - 1].domain@, rules[j].domain@);
    }
}

/// The embedded rules are sorted by domain.
pub proof fn lemma_embedded_rules_sorted()
    ensures
        rules_sorted(spec_rules()),
{
    reveal_strlit("canada.ca");
    reveal_strlit("cra-arc.gc.ca");
    reveal_strlit("inspection.gc.ca");
    reveal_strlit("statcan.gc.ca");
    reveal_strlit("tbs-sct.gc.ca");
    let rs = spec_rules();
    reveal_with_fuel(seq_lt, 3);
    assert(seq_lt(rs[0].domain@, rs[1].domain@));
    assert(seq_lt(rs[1].domain@, rs[2].domain@));
    assert(seq_lt(rs[2].domain@, rs[3].domain@));
    assert(seq_lt(rs[3].domain@, rs[4].domain@));
    lemma_sorted_from_consecutive(rs);
}

} // verus!
