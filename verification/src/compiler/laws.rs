//! Properties of the dataset compiler that hold for every input.
use vstd::prelude::*;

use crate::compiler::aliases::{apply_alias_rows, AliasSources};
use crate::compiler::compile::{is_least_unmatched, least_unmatched, spec_compile};
use crate::compiler::domains::{ascii_form, spec_normalize_alias_domain, spec_normalize_domain};
use crate::compiler::policy::{
    spec_normalize_external_domains, spec_normalize_policy_domains, string_views, ExternalDomain,
    Policy,
};
use crate::compiler::rules::RuleView;
use crate::compiler::sources::{
    organization_map, spec_active_organizations, spec_concordance_ids, TableView,
};
use crate::email::{passthrough_domain, valid_domain};
use crate::text::{
    ascii_lower_char, ascii_lowercase, is_white_space, lemma_seq_lt_total,
    lemma_seq_lt_transitive, seq_lt, strip_trailing, trim_end_white_space,
    trim_start_white_space, trim_white_space,
};

verus! {

/// A normalized domain is a valid domain, and so is the domain of an alias.
pub proof fn law_normalized_domains_are_valid(value: Seq<char>)
    ensures
        spec_normalize_domain(value) matches Some(d) ==> valid_domain(d),
        spec_normalize_alias_domain(value) matches Some(d) ==> valid_domain(d),
{
}

/// Reading alias rows only adds domains, and every external domain an alias
/// matched has a rule.
proof fn lemma_alias_rows_keep_domains(
    src: AliasSources,
    rows: Seq<Seq<Seq<char>>>,
    name_index: int,
    id_index: int,
    path: Seq<char>,
    rules: Map<Seq<char>, RuleView>,
)
    ensures
        apply_alias_rows(src, rows, name_index, id_index, path, rules) matches Ok((m, matched)) ==> {
            &&& forall|d: Seq<char>| rules.contains_key(d) ==> m.contains_key(d)
            &&& forall|d: Seq<char>| matched.contains(d) ==> m.contains_key(d)
        },
    decreases rows.len(),
{
    if rows.len() > 0 {
        lemma_alias_rows_keep_domains(src, rows.drop_last(), name_index, id_index, path, rules);
    }
}

/// The domains of the normalized external domains are finitely many.
proof fn lemma_external_domains_finite(domains: Seq<ExternalDomain>)
    ensures
        spec_normalize_external_domains(domains) matches Ok(m) ==> m.dom().finite(),
    decreases domains.len(),
{
    if domains.len() > 0 {
        lemma_external_domains_finite(domains.drop_last());
    }
}

/// A finite non-empty set of domains has a least one.
proof fn lemma_least_exists(s: Set<Seq<char>>)
    requires
        s.finite(),
        s.len() > 0,
    ensures
        exists|d: Seq<char>|
            s.contains(d) && forall|o: Seq<char>| #[trigger] s.contains(o) && o != d ==> seq_lt(d, o),
    decreases s.len(),
{
    let x = s.choose();
    let t = s.remove(x);
    if t.len() == 0 {
        assert forall|o: Seq<char>| #[trigger] s.contains(o) && o != x implies seq_lt(x, o) by {
            assert(t.contains(o));
        }
    } else {
        lemma_least_exists(t);
        let m = choose|d: Seq<char>|
            t.contains(d) && forall|o: Seq<char>| #[trigger] t.contains(o) && o != d ==> seq_lt(d, o);
        lemma_seq_lt_total(x, m);
        if seq_lt(x, m) {
            assert forall|o: Seq<char>| #[trigger] s.contains(o) && o != x implies seq_lt(x, o) by {
                if o != m {
                    assert(t.contains(o));
                    lemma_seq_lt_transitive(x, m, o);
                }
            }
        } else {
            assert forall|o: Seq<char>| #[trigger] s.contains(o) && o != m implies seq_lt(m, o) by {
                if o != x {
                    assert(t.contains(o));
                }
            }
        }
    }
}

/// Where no external domain is the least unmatched one, every external domain is matched.
proof fn lemma_no_least_unmatched(external: Map<Seq<char>, (u32, bool)>, matched: Set<Seq<char>>)
    requires
        external.dom().finite(),
        least_unmatched(external, matched) is None,
    ensures
        forall|d: Seq<char>| external.contains_key(d) ==> matched.contains(d),
{
    let unmatched = external.dom().difference(matched);
    if unmatched.len() > 0 {
        lemma_least_exists(unmatched);
        let d = choose|d: Seq<char>|
            unmatched.contains(d) && forall|o: Seq<char>| #[trigger] unmatched.contains(o) && o != d ==> seq_lt(d, o);
        assert forall|o: Seq<char>| #[trigger] external.contains_key(o) && !matched.contains(o) && o != d implies seq_lt(d, o) by {
            assert(unmatched.contains(o));
        }
        assert(is_least_unmatched(external, matched, d));
    } else {
        assert forall|d: Seq<char>| external.contains_key(d) implies matched.contains(d) by {
            if !matched.contains(d) {
                assert(unmatched.contains(d));
            }
        }
    }
}

/// Every external domain of the policy is a rule of the compiled dataset: the
/// compiler accepts an external domain only where an alias of its organization
/// names it.
pub proof fn law_external_domains_have_rules(
    policy: Policy,
    concordance: Option<TableView>,
    concordance_path: Seq<char>,
    org_info: Option<TableView>,
    org_info_path: Seq<char>,
    aliases: Option<TableView>,
    aliases_path: Seq<char>,
)
    requires
        spec_compile(
            policy,
            concordance,
            concordance_path,
            org_info,
            org_info_path,
            aliases,
            aliases_path,
        ) is Ok,
    ensures
        forall|d: Seq<char>|
            #[trigger] spec_normalize_external_domains(policy.external_domains@)->Ok_0.contains_key(d)
                ==> spec_compile(
                policy,
                concordance,
                concordance_path,
                org_info,
                org_info_path,
                aliases,
                aliases_path,
            )->Ok_0.1.contains_key(d),
{
    let external = spec_normalize_external_domains(policy.external_domains@)->Ok_0;
    lemma_external_domains_finite(policy.external_domains@);
    let ids = crate::compiler::sources::spec_concordance_ids(concordance->Some_0, concordance_path)->Ok_0;
    let orgs = crate::compiler::sources::spec_active_organizations(org_info->Some_0, org_info_path)->Ok_0;
    let roots = crate::compiler::compile::sorted_set_of(
        crate::compiler::policy::spec_normalize_policy_domains(
            crate::compiler::policy::string_views(policy.namespace_roots@),
        )->Ok_0,
    );
    let excluded = crate::compiler::policy::spec_normalize_policy_domains(
        crate::compiler::policy::string_views(policy.excluded_domains@),
    )->Ok_0;
    let src = AliasSources {
        orgs: crate::compiler::sources::organization_map(orgs),
        ids: ids.to_set(),
        roots,
        external,
        excluded: crate::compiler::compile::set_of(excluded),
    };
    let seeded = if policy.recognize_namespace_roots {
        crate::compiler::compile::root_rules(roots, crate::compiler::compile::set_of(excluded))
    } else {
        Map::empty()
    };
    let table = aliases->Some_0;
    let loaded = crate::compiler::aliases::spec_load_alias_rules(src, table, aliases_path, seeded);
    let (rules, matched) = loaded->Ok_0;
    let name_index = crate::compiler::sources::spec_column(table.headers, "name"@, aliases_path)->Ok_0;
    let id_index = crate::compiler::sources::spec_column(table.headers, "gc_orgID"@, aliases_path)->Ok_0;
    let compiled = spec_compile(
        policy,
        concordance,
        concordance_path,
        org_info,
        org_info_path,
        aliases,
        aliases_path,
    );
    assert(concordance is Some && org_info is Some && aliases is Some);
    assert(loaded is Ok);
    assert(least_unmatched(external, matched) is None);
    assert(compiled == Ok::<(Seq<Seq<char>>, Map<Seq<char>, RuleView>), crate::compiler::error::CompilerErrorView>((roots, rules)));
    assert(loaded == apply_alias_rows(src, table.records, name_index, id_index, aliases_path, seeded));
    lemma_alias_rows_keep_domains(src, table.records, name_index, id_index, aliases_path, seeded);
    lemma_no_least_unmatched(external, matched);
    assert forall|d: Seq<char>| #[trigger] external.contains_key(d) implies rules.contains_key(d) by {
        assert(matched.contains(d));
    }
}

/// Normalizing is idempotent on every domain whose labels IDNA processing
/// copies through unchanged (each label starts with a lowercase letter, holds
/// only lowercase letters, digits and hyphens, does not end with a hyphen and
/// has no hyphens as its third and fourth characters): such a normalized
/// domain normalizes to itself.
pub proof fn law_passthrough_domains_normalize_to_themselves(value: Seq<char>)
    requires
        spec_normalize_domain(value) is Some,
        passthrough_domain(spec_normalize_domain(value)->Some_0),
    ensures
        spec_normalize_domain(spec_normalize_domain(value)->Some_0) == spec_normalize_domain(value),
{
    let d = spec_normalize_domain(value)->Some_0;
    law_normalized_domains_are_valid(value);
    assert(valid_domain(d));
    crate::laws::law_valid_domain_has_no_at(d);
    assert(d[0] == '.' || d[0] == '-' || crate::text::is_ascii_alphanumeric(d[0]));
    assert(d[d.len() - 1] == '.' || d[d.len() - 1] == '-' || crate::text::is_ascii_alphanumeric(
        d[d.len() - 1],
    ));
    assert(!is_white_space(d[0]));
    assert(!is_white_space(d.last()));
    assert(trim_start_white_space(d) == d);
    assert(trim_end_white_space(d) == d);
    assert(trim_white_space(d) == d);
    assert(strip_trailing(d, '.') == d);
    let ascii = ascii_form(strip_trailing(trim_white_space(value), '.'))->Some_0;
    assert(d == ascii_lowercase(ascii));
    assert(ascii_lowercase(d) =~= d) by {
        assert forall|i: int| 0 <= i < d.len() implies ascii_lowercase(d)[i] == d[i] by {
            assert(d[i] == ascii_lower_char(ascii[i]));
        }
    }
}

/// An alias rule includes the subdomains of its domain only where the policy
/// names the domain as an external domain that includes them: every other
/// alias, such as one beneath `gc.ca` or `canada.ca`, is recognized as an exact
/// domain.
pub proof fn law_alias_rules_include_subdomains_only_by_policy(
    src: AliasSources,
    rows: Seq<Seq<Seq<char>>>,
    name_index: int,
    id_index: int,
    path: Seq<char>,
    rules: Map<Seq<char>, RuleView>,
)
    ensures
        apply_alias_rows(src, rows, name_index, id_index, path, rules) matches Ok((m, _)) ==> forall|
            d: Seq<char>,
        |
            #![trigger m.contains_key(d)]
            m.contains_key(d) && !rules.contains_key(d) ==> m[d].include_subdomains == (
            src.external.contains_key(d) && src.external[d].1),
    decreases rows.len(),
{
    if rows.len() > 0 {
        law_alias_rules_include_subdomains_only_by_policy(
            src,
            rows.drop_last(),
            name_index,
            id_index,
            path,
            rules,
        );
    }
}

/// Reading alias rows keeps every rule already there as it was, and every rule
/// it adds names an organization of the concordance that is eligible, with
/// that organization's names.
proof fn lemma_alias_rows_origin(
    src: AliasSources,
    rows: Seq<Seq<Seq<char>>>,
    name_index: int,
    id_index: int,
    path: Seq<char>,
    rules: Map<Seq<char>, RuleView>,
)
    ensures
        apply_alias_rows(src, rows, name_index, id_index, path, rules) matches Ok((m, _)) ==> forall|
            d: Seq<char>,
        |
            #![trigger m.contains_key(d)]
            m.contains_key(d) ==> {
                ||| rules.contains_key(d) && m[d] == rules[d]
                ||| m[d].organization matches Some((id, en, fr)) && src.ids.contains(id)
                    && src.orgs.contains_key(id) && src.orgs[id] == (en, fr)
            },
    decreases rows.len(),
{
    if rows.len() > 0 {
        lemma_alias_rows_origin(src, rows.drop_last(), name_index, id_index, path, rules);
    }
}

/// What the compiled rules are made of: a rule without an organization is a
/// namespace root, and occurs only where the policy recognizes the roots; a
/// rule with an organization names one that occurs in the concordance and is
/// eligible in the organization table, with the names of its last eligible row.
proof fn lemma_compiled_rules(
    policy: Policy,
    concordance: Option<TableView>,
    concordance_path: Seq<char>,
    org_info: Option<TableView>,
    org_info_path: Seq<char>,
    aliases: Option<TableView>,
    aliases_path: Seq<char>,
)
    requires
        spec_compile(
            policy,
            concordance,
            concordance_path,
            org_info,
            org_info_path,
            aliases,
            aliases_path,
        ) is Ok,
    ensures
        ({
            let compiled = spec_compile(
                policy,
                concordance,
                concordance_path,
                org_info,
                org_info_path,
                aliases,
                aliases_path,
            )->Ok_0;
            let ids = spec_concordance_ids(concordance->Some_0, concordance_path)->Ok_0;
            let orgs = spec_active_organizations(org_info->Some_0, org_info_path)->Ok_0;
            let excluded = spec_normalize_policy_domains(string_views(policy.excluded_domains@))->Ok_0;
            &&& concordance is Some
            &&& org_info is Some
            &&& spec_concordance_ids(concordance->Some_0, concordance_path) is Ok
            &&& spec_active_organizations(org_info->Some_0, org_info_path) is Ok
            &&& spec_normalize_policy_domains(string_views(policy.excluded_domains@)) is Ok
            &&& forall|d: Seq<char>|
                #![trigger compiled.1.contains_key(d)]
                compiled.1.contains_key(d) ==> match compiled.1[d].organization {
                    None => policy.recognize_namespace_roots && compiled.0.contains(d),
                    Some((id, en, fr)) => {
                        &&& ids.contains(id)
                        &&& exists|k: int| 0 <= k < orgs.len() && #[trigger] orgs[k].0 == id
                        &&& organization_map(orgs).contains_key(id)
                        &&& organization_map(orgs)[id] == (en, fr)
                    },
                }
            &&& policy.recognize_namespace_roots ==> forall|d: Seq<char>|
                #![trigger compiled.0.contains(d)]
                compiled.0.contains(d) && !excluded.contains(d) ==> compiled.1.contains_key(d)
        }),
{
    let external = spec_normalize_external_domains(policy.external_domains@)->Ok_0;
    let ids = spec_concordance_ids(concordance->Some_0, concordance_path)->Ok_0;
    let orgs = spec_active_organizations(org_info->Some_0, org_info_path)->Ok_0;
    let roots = crate::compiler::compile::sorted_set_of(
        spec_normalize_policy_domains(string_views(policy.namespace_roots@))->Ok_0,
    );
    let excluded = spec_normalize_policy_domains(string_views(policy.excluded_domains@))->Ok_0;
    let src = AliasSources {
        orgs: organization_map(orgs),
        ids: ids.to_set(),
        roots,
        external,
        excluded: crate::compiler::compile::set_of(excluded),
    };
    let seeded = if policy.recognize_namespace_roots {
        crate::compiler::compile::root_rules(roots, crate::compiler::compile::set_of(excluded))
    } else {
        Map::empty()
    };
    let table = aliases->Some_0;
    let loaded = crate::compiler::aliases::spec_load_alias_rules(src, table, aliases_path, seeded);
    let (rules, matched) = loaded->Ok_0;
    let name_index = crate::compiler::sources::spec_column(table.headers, "name"@, aliases_path)->Ok_0;
    let id_index = crate::compiler::sources::spec_column(table.headers, "gc_orgID"@, aliases_path)->Ok_0;
    let compiled = spec_compile(
        policy,
        concordance,
        concordance_path,
        org_info,
        org_info_path,
        aliases,
        aliases_path,
    );
    assert(concordance is Some && org_info is Some && aliases is Some);
    assert(loaded is Ok);
    assert(least_unmatched(external, matched) is None);
    assert(compiled == Ok::<(Seq<Seq<char>>, Map<Seq<char>, RuleView>), crate::compiler::error::CompilerErrorView>((roots, rules)));
    assert(loaded == apply_alias_rows(src, table.records, name_index, id_index, aliases_path, seeded));
    lemma_alias_rows_origin(src, table.records, name_index, id_index, aliases_path, seeded);
    lemma_alias_rows_keep_domains(src, table.records, name_index, id_index, aliases_path, seeded);
    assert forall|d: Seq<char>| #![trigger rules.contains_key(d)] rules.contains_key(d) implies match rules[d].organization {
        None => policy.recognize_namespace_roots && roots.contains(d),
        Some((id, en, fr)) => {
            &&& ids.contains(id)
            &&& exists|k: int| 0 <= k < orgs.len() && #[trigger] orgs[k].0 == id
            &&& organization_map(orgs).contains_key(id)
            &&& organization_map(orgs)[id] == (en, fr)
        },
    } by {
        if let Some((id, en, fr)) = rules[d].organization {
            if !(seeded.contains_key(d) && rules[d] == seeded[d]) {
                assert(ids.to_set().contains(id));
                lemma_organization_map_keys(orgs, id);
            }
        }
    }
}

/// The IDs that the organization map holds are those of the rows.
proof fn lemma_organization_map_keys(orgs: Seq<(u32, Seq<char>, Seq<char>)>, id: u32)
    ensures
        organization_map(orgs).contains_key(id) <==> exists|k: int| 0 <= k < orgs.len() && #[trigger] orgs[k].0 == id,
    decreases orgs.len(),
{
    if orgs.len() > 0 {
        lemma_organization_map_keys(orgs.drop_last(), id);
        if organization_map(orgs.drop_last()).contains_key(id) {
            let k = choose|k: int| 0 <= k < orgs.drop_last().len() && #[trigger] orgs.drop_last()[k].0 == id;
            assert(orgs[k].0 == id);
        }
        if exists|k: int| 0 <= k < orgs.len() && #[trigger] orgs[k].0 == id {
            let k = choose|k: int| 0 <= k < orgs.len() && #[trigger] orgs[k].0 == id;
            if k < orgs.len() - 1 {
                assert(orgs.drop_last()[k].0 == id);
            }
        }
    }
}

/// Every rule of the compiled dataset that names an organization names one
/// whose ID occurs in the concordance table and that is eligible (not marked
/// terminated) in the organization table, with the English and French names of
/// its last eligible row: an alias of any other organization is left out.
pub proof fn law_rule_organizations_are_in_the_concordance(
    policy: Policy,
    concordance: Option<TableView>,
    concordance_path: Seq<char>,
    org_info: Option<TableView>,
    org_info_path: Seq<char>,
    aliases: Option<TableView>,
    aliases_path: Seq<char>,
    d: Seq<char>,
)
    requires
        spec_compile(
            policy,
            concordance,
            concordance_path,
            org_info,
            org_info_path,
            aliases,
            aliases_path,
        ) is Ok,
        spec_compile(
            policy,
            concordance,
            concordance_path,
            org_info,
            org_info_path,
            aliases,
            aliases_path,
        )->Ok_0.1.contains_key(d),
        spec_compile(
            policy,
            concordance,
            concordance_path,
            org_info,
            org_info_path,
            aliases,
            aliases_path,
        )->Ok_0.1[d].organization is Some,
    ensures
        ({
            let (id, en, fr) = spec_compile(
                policy,
                concordance,
                concordance_path,
                org_info,
                org_info_path,
                aliases,
                aliases_path,
            )->Ok_0.1[d].organization->Some_0;
            let ids = spec_concordance_ids(concordance->Some_0, concordance_path)->Ok_0;
            let orgs = spec_active_organizations(org_info->Some_0, org_info_path)->Ok_0;
            &&& ids.contains(id)
            &&& exists|k: int| 0 <= k < orgs.len() && #[trigger] orgs[k].0 == id
            &&& organization_map(orgs)[id] == (en, fr)
        }),
{
    lemma_compiled_rules(
        policy,
        concordance,
        concordance_path,
        org_info,
        org_info_path,
        aliases,
        aliases_path,
    );
}

/// Namespace roots are recognized domains only where the policy says so:
/// without `recognize_namespace_roots` every rule of the compiled dataset names
/// an organization, and with it every root that is not excluded is a rule.
pub proof fn law_roots_are_recognized_only_by_policy(
    policy: Policy,
    concordance: Option<TableView>,
    concordance_path: Seq<char>,
    org_info: Option<TableView>,
    org_info_path: Seq<char>,
    aliases: Option<TableView>,
    aliases_path: Seq<char>,
    d: Seq<char>,
)
    requires
        spec_compile(
            policy,
            concordance,
            concordance_path,
            org_info,
            org_info_path,
            aliases,
            aliases_path,
        ) is Ok,
    ensures
        ({
            let compiled = spec_compile(
                policy,
                concordance,
                concordance_path,
                org_info,
                org_info_path,
                aliases,
                aliases_path,
            )->Ok_0;
            let excluded = spec_normalize_policy_domains(string_views(policy.excluded_domains@))->Ok_0;
            &&& !policy.recognize_namespace_roots && compiled.1.contains_key(d)
                ==> compiled.1[d].organization is Some
            &&& policy.recognize_namespace_roots && compiled.0.contains(d) && !excluded.contains(d)
                ==> compiled.1.contains_key(d)
        }),
{
    lemma_compiled_rules(
        policy,
        concordance,
        concordance_path,
        org_info,
        org_info_path,
        aliases,
        aliases_path,
    );
}

} // verus!
