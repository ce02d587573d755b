//! Turning the upstream alias table into rules.
use std::collections::{BTreeSet, HashMap};
use vstd::prelude::*;

use crate::compiler::domains::{normalize_alias_domain, spec_normalize_alias_domain};
use crate::compiler::error::{CompilerError, CompilerErrorView};
use crate::compiler::policy::ExternalDomains;
use crate::compiler::rules::{insert_outcome, insert_rule, rule_map, Organization, Rule, RuleSet, RuleView};
use crate::compiler::sources::{
    after_all_records, contains_id, find_column, find_organization, names_view, spec_column,
    Table, TableView,
};
use crate::compiler::table::{cell, parse_u32, row_view, spec_parse_u32};
use crate::text::{chars_equal, chars_of, domain_is_domain_or_child, is_domain_or_child};

verus! {

/// What the alias table is read against: the eligible organizations, the
/// concordance IDs, the namespace roots, the external domains and the
/// excluded domains.
pub struct AliasSources {
    pub orgs: Map<u32, (Seq<char>, Seq<char>)>,
    pub ids: Set<u32>,
    pub roots: Seq<Seq<char>>,
    pub external: Map<Seq<char>, (u32, bool)>,
    pub excluded: Set<Seq<char>>,
}

/// What one alias row contributes.
pub enum AliasOutcome {
    /// The row is not an eligible email domain.
    Skip,
    /// The rule the row yields, and whether its domain is an external domain.
    Add(RuleView, bool),
}

/// The outcome of one alias row: its domain is skipped where it names no
/// domain, is excluded, its organization is not eligible or not in the
/// concordance, or it is neither beneath a root nor an external domain of the
/// same organization; otherwise it yields a rule for the organization. The rule
/// is for the exact domain, and includes its subdomains only where the domain is
/// an external domain whose policy entry approves them. An invalid
/// organization ID of a row that names an eligible domain is an error.
pub open spec fn alias_row(
    src: AliasSources,
    row: Seq<Seq<char>>,
    name_index: int,
    id_index: int,
    path: Seq<char>,
) -> Result<AliasOutcome, CompilerErrorView> {
    let domain = if 0 <= name_index < row.len() {
        spec_normalize_alias_domain(row[name_index])
    } else {
        None
    };
    match domain {
        None => Ok(AliasOutcome::Skip),
        Some(domain) => if src.excluded.contains(domain) {
            Ok(AliasOutcome::Skip)
        } else {
            match spec_parse_u32(cell(row, id_index)) {
                None => Err(
                    CompilerErrorView::InvalidInteger {
                        value: cell(row, id_index),
                        column: "gc_orgID"@,
                        path,
                    },
                ),
                Some(id) => if !src.orgs.contains_key(id) {
                    Ok(AliasOutcome::Skip)
                } else {
                    let names = src.orgs[id];
                    if !src.ids.contains(id) {
                        Ok(AliasOutcome::Skip)
                    } else {
                        let in_namespace = exists|i: int|
                            0 <= i < src.roots.len() && is_domain_or_child(
                                domain,
                                #[trigger] src.roots[i],
                            );
                        let external = src.external.contains_key(domain);
                        if !in_namespace && !external {
                            Ok(AliasOutcome::Skip)
                        } else if external && src.external[domain].0 != id {
                            Ok(AliasOutcome::Skip)
                        } else {
                            Ok(
                                AliasOutcome::Add(
                                    RuleView {
                                        domain,
                                        include_subdomains: external
                                            && src.external[domain].1,
                                        organization: Some((id, names.0, names.1)),
                                    },
                                    external,
                                ),
                            )
                        }
                    }
                },
            }
        },
    }
}

/// The rules and the matched external domains after reading `rows` in order,
/// or the first error.
pub open spec fn apply_alias_rows(
    src: AliasSources,
    rows: Seq<Seq<Seq<char>>>,
    name_index: int,
    id_index: int,
    path: Seq<char>,
    rules: Map<Seq<char>, RuleView>,
) -> Result<(Map<Seq<char>, RuleView>, Set<Seq<char>>), CompilerErrorView>
    decreases rows.len(),
{
    if rows.len() == 0 {
        Ok((rules, Set::empty()))
    } else {
        match apply_alias_rows(src, rows.drop_last(), name_index, id_index, path, rules) {
            Err(e) => Err(e),
            Ok((m, matched)) => match alias_row(src, rows.last(), name_index, id_index, path) {
                Err(e) => Err(e),
                Ok(AliasOutcome::Skip) => Ok((m, matched)),
                Ok(AliasOutcome::Add(rule, external)) => {
                    let matched2 = if external {
                        matched.insert(rule.domain)
                    } else {
                        matched
                    };
                    match insert_outcome(m, rule) {
                        Err(e) => Err(e),
                        Ok(m2) => Ok((m2, matched2)),
                    }
                },
            },
        }
    }
}

/// The rules after reading `rows` in order up to the first row that fails:
/// a failing row leaves the rules as the rows before it made them.
pub open spec fn alias_rules_read(
    src: AliasSources,
    rows: Seq<Seq<Seq<char>>>,
    name_index: int,
    id_index: int,
    path: Seq<char>,
    rules: Map<Seq<char>, RuleView>,
) -> Map<Seq<char>, RuleView>
    decreases rows.len(),
{
    if rows.len() == 0 {
        rules
    } else {
        match apply_alias_rows(src, rows.drop_last(), name_index, id_index, path, rules) {
            Err(_) => alias_rules_read(src, rows.drop_last(), name_index, id_index, path, rules),
            Ok((m, _)) => match alias_row(src, rows.last(), name_index, id_index, path) {
                Ok(AliasOutcome::Add(rule, _)) => match insert_outcome(m, rule) {
                    Ok(m2) => m2,
                    Err(_) => m,
                },
                _ => m,
            },
        }
    }
}

/// Reading the alias table: its `name` and `gc_orgID` columns, then its rows,
/// then `MalformedTable` where a record could not be read.
pub open spec fn spec_load_alias_rules(
    src: AliasSources,
    table: TableView,
    path: Seq<char>,
    rules: Map<Seq<char>, RuleView>,
) -> Result<(Map<Seq<char>, RuleView>, Set<Seq<char>>), CompilerErrorView> {
    match spec_column(table.headers, "name"@, path) {
        Err(e) => Err(e),
        Ok(name_index) => match spec_column(table.headers, "gc_orgID"@, path) {
            Err(e) => Err(e),
            Ok(id_index) => after_all_records(
                table,
                path,
                apply_alias_rows(src, table.records, name_index, id_index, path, rules),
            ),
        },
    }
}

/// The rules after reading the alias table, whether or not reading it
/// succeeds: nothing changes where a column is missing, and otherwise the rows
/// before the first failing one have added theirs.
pub open spec fn loaded_alias_rules(
    src: AliasSources,
    table: TableView,
    path: Seq<char>,
    rules: Map<Seq<char>, RuleView>,
) -> Map<Seq<char>, RuleView> {
    match spec_column(table.headers, "name"@, path) {
        Err(_) => rules,
        Ok(name_index) => match spec_column(table.headers, "gc_orgID"@, path) {
            Err(_) => rules,
            Ok(id_index) => alias_rules_read(src, table.records, name_index, id_index, path, rules),
        },
    }
}

/// The sources as the specifications see them.
pub open spec fn alias_sources(
    organizations: Map<u32, (String, String)>,
    concordance_ids: Set<u32>,
    roots: Seq<String>,
    external: Map<Seq<char>, (u32, bool)>,
    excluded: Seq<String>,
) -> AliasSources {
    AliasSources {
        orgs: names_view(organizations),
        ids: concordance_ids,
        roots: roots.map_values(|r: String| r@),
        external,
        excluded: Set::new(|d: Seq<char>| exists|i: int| 0 <= i < excluded.len() && #[trigger] excluded[i]@ == d),
    }
}

/// Whether `domain` is one of `list`.
fn list_contains(list: &Vec<String>, domain: &Vec<char>) -> (r: bool)
    ensures
        r == exists|i: int| 0 <= i < list.len() && #[trigger] list[i]@ == domain@,
{
    let mut i: usize = 0;
    while i < list.len()
        invariant
            i <= list.len(),
            forall|j: int| 0 <= j < i ==> #[trigger] list[j]@ != domain@,
        decreases list.len() - i,
    {
        if chars_equal(&chars_of(list[i].as_str()), domain) {
            return true;
        }
        i = i + 1;
    }
    false
}

/// Whether `domain` is one of `roots` or beneath one of them.
fn beneath_roots(roots: &Vec<String>, domain: &Vec<char>) -> (r: bool)
    ensures
        r == exists|i: int| 0 <= i < roots.len() && is_domain_or_child(domain@, #[trigger] roots@[i]@),
{
    let mut i: usize = 0;
    while i < roots.len()
        invariant
            i <= roots.len(),
            forall|j: int| 0 <= j < i ==> !is_domain_or_child(domain@, #[trigger] roots@[j]@),
        decreases roots.len() - i,
    {
        if domain_is_domain_or_child(domain, &chars_of(roots[i].as_str())) {
            return true;
        }
        i = i + 1;
    }
    false
}

/// Reads one alias row: the rule it yields, if any, and whether its domain is external.
fn read_alias_row(
    row: &Vec<String>,
    name_index: usize,
    id_index: usize,
    path: &str,
    organizations: &HashMap<u32, (String, String)>,
    concordance_ids: &BTreeSet<u32>,
    roots: &Vec<String>,
    external: &ExternalDomains,
    excluded: &Vec<String>,
) -> (r: Result<Option<(Rule, bool)>, CompilerError>)
    requires
        external.wf(),
    ensures
        match r {
            Err(e) => alias_row(
                alias_sources(organizations@, concordance_ids@, roots@, external@, excluded@),
                row_view(row@),
                name_index as int,
                id_index as int,
                path@,
            ) == Err::<AliasOutcome, CompilerErrorView>(e@),
            Ok(None) => alias_row(
                alias_sources(organizations@, concordance_ids@, roots@, external@, excluded@),
                row_view(row@),
                name_index as int,
                id_index as int,
                path@,
            ) == Ok::<AliasOutcome, CompilerErrorView>(AliasOutcome::Skip),
            Ok(Some((rule, ext))) => alias_row(
                alias_sources(organizations@, concordance_ids@, roots@, external@, excluded@),
                row_view(row@),
                name_index as int,
                id_index as int,
                path@,
            ) == Ok::<AliasOutcome, CompilerErrorView>(AliasOutcome::Add(rule@, ext)),
        },
{
    let ghost src = alias_sources(organizations@, concordance_ids@, roots@, external@, excluded@);
    let domain = if name_index < row.len() {
        assert(row_view(row@)[name_index as int] == row@[name_index as int]@);
        normalize_alias_domain(row[name_index].as_str())
    } else {
        None
    };
    let domain = match domain {
        Some(d) => d,
        None => {
            return Ok(None);
        },
    };
    let domain_chars = chars_of(domain.as_str());
    if list_contains(excluded, &domain_chars) {
        assert(src.excluded.contains(domain@));
        return Ok(None);
    }
    assert(!src.excluded.contains(domain@));
    let gc_org_id = parse_u32(row, id_index, "gc_orgID", path)?;
    let (name_en, name_fr) = match find_organization(organizations, gc_org_id) {
        Some(names) => names,
        None => {
            return Ok(None);
        },
    };
    if !contains_id(concordance_ids, gc_org_id) {
        return Ok(None);
    }
    let in_namespace = beneath_roots(roots, &domain_chars);
    proof {
        let rs = roots@.map_values(|s: String| s@);
        assert(src.roots == rs);
        if in_namespace {
            let k = choose|k: int| 0 <= k < roots.len() && is_domain_or_child(domain@, #[trigger] roots@[k]@);
            assert(rs[k] == roots@[k]@);
        }
        if exists|k: int| 0 <= k < rs.len() && is_domain_or_child(domain@, #[trigger] rs[k]) {
            let k = choose|k: int| 0 <= k < rs.len() && is_domain_or_child(domain@, #[trigger] rs[k]);
            assert(rs[k] == roots@[k]@);
        }
    }
    let external_specification = external.get(&domain_chars);
    if !in_namespace && external_specification.is_none() {
        return Ok(None);
    }
    let mut is_external = false;
    let mut include_subdomains = false;
    if let Some((spec_org_id, spec_include)) = external_specification {
        if spec_org_id != gc_org_id {
            return Ok(None);
        }
        is_external = true;
        include_subdomains = spec_include;
    }
    let rule = Rule {
        domain,
        include_subdomains,
        organization: Some(Organization { gc_org_id, name_en, name_fr }),
    };
    Ok(Some((rule, is_external)))
}

/// Reads the alias table into `rules`; returns the external domains that some
/// alias matched.
pub fn load_alias_rules(
    table: &Table,
    path: &str,
    organizations: &HashMap<u32, (String, String)>,
    concordance_ids: &BTreeSet<u32>,
    roots: &Vec<String>,
    external: &ExternalDomains,
    excluded: &Vec<String>,
    rules: &mut RuleSet,
) -> (r: Result<Vec<String>, CompilerError>)
    requires
        external.wf(),
        old(rules).wf(),
    ensures
        final(rules).wf(),
        rule_map(final(rules).view()) == loaded_alias_rules(
            alias_sources(organizations@, concordance_ids@, roots@, external@, excluded@),
            table@,
            path@,
            rule_map(old(rules).view()),
        ),
        match r {
            Ok(matched) => spec_load_alias_rules(
                alias_sources(organizations@, concordance_ids@, roots@, external@, excluded@),
                table@,
                path@,
                rule_map(old(rules).view()),
            ) == Ok::<(Map<Seq<char>, RuleView>, Set<Seq<char>>), CompilerErrorView>(
                (
                    rule_map(final(rules).view()),
                    Set::new(|d: Seq<char>| exists|i: int| 0 <= i < matched.len() && #[trigger] matched[i]@ == d),
                ),
            ),
            Err(e) => spec_load_alias_rules(
                alias_sources(organizations@, concordance_ids@, roots@, external@, excluded@),
                table@,
                path@,
                rule_map(old(rules).view()),
            ) == Err::<(Map<Seq<char>, RuleView>, Set<Seq<char>>), CompilerErrorView>(e@),
        },
{
    let ghost src = alias_sources(organizations@, concordance_ids@, roots@, external@, excluded@);
    let ghost initial = rule_map(rules.view());
    let name_index = find_column(table, "name", path)?;
    let id_index = find_column(table, "gc_orgID", path)?;
    let ghost records = table@.records;
    let mut matched: Vec<String> = Vec::new();
    let mut i: usize = 0;
    assert(records.take(0) =~= Seq::<Seq<Seq<char>>>::empty());
    assert(Set::new(|d: Seq<char>| exists|k: int| 0 <= k < matched.len() && #[trigger] matched[k]@ == d) =~= Set::<Seq<char>>::empty());
    while i < table.records.len()
        invariant
            i <= table.records.len(),
            records == table@.records,
            records.len() == table.records.len(),
            external.wf(),
            rules.wf(),
            initial == rule_map(old(rules).view()),
            src == alias_sources(organizations@, concordance_ids@, roots@, external@, excluded@),
            spec_load_alias_rules(src, table@, path@, initial) == after_all_records(
                table@,
                path@,
                apply_alias_rows(src, records, name_index as int, id_index as int, path@, initial),
            ),
            loaded_alias_rules(src, table@, path@, initial) == alias_rules_read(
                src,
                records,
                name_index as int,
                id_index as int,
                path@,
                initial,
            ),
            apply_alias_rows(
                src,
                records.take(i as int),
                name_index as int,
                id_index as int,
                path@,
                initial,
            ) == Ok::<(Map<Seq<char>, RuleView>, Set<Seq<char>>), CompilerErrorView>(
                (
                    rule_map(rules.view()),
                    Set::new(|d: Seq<char>| exists|k: int| 0 <= k < matched.len() && #[trigger] matched[k]@ == d),
                ),
            ),
        decreases table.records.len() - i,
    {
        assert(records.take(i + 1).drop_last() =~= records.take(i as int));
        assert(records.take(i + 1).last() == row_view(table.records@[i as int]@));
        let ghost before = rule_map(rules.view());
        let outcome = read_alias_row(
            &table.records[i],
            name_index,
            id_index,
            path,
            organizations,
            concordance_ids,
            roots,
            external,
            excluded,
        );
        match outcome {
            Err(e) => {
                proof {
                    assert(apply_alias_rows(src, records.take(i + 1), name_index as int, id_index as int, path@, initial) == Err::<(Map<Seq<char>, RuleView>, Set<Seq<char>>), CompilerErrorView>(e@));
                    assert(alias_rules_read(src, records.take(i + 1), name_index as int, id_index as int, path@, initial) == before);
                    lemma_alias_error_persists(src, records, i as int + 1, name_index as int, id_index as int, path@, initial);
                }
                return Err(e);
            },
            Ok(None) => {},
            Ok(Some((rule, is_external))) => {
                let ghost old_matched = matched@;
                let ghost before_matched = Set::new(|d: Seq<char>| exists|k: int| 0 <= k < old_matched.len() && #[trigger] old_matched[k]@ == d);
                let ghost rule_view = rule@;
                if is_external {
                    matched.push(rule.domain.as_str().to_owned());
                    assert(Set::new(|d: Seq<char>| exists|k: int| 0 <= k < matched.len() && #[trigger] matched[k]@ == d) =~= before_matched.insert(rule_view.domain)) by {
                        assert forall|d: Seq<char>| (exists|k: int| 0 <= k < matched.len() && #[trigger] matched[k]@ == d) <==> before_matched.insert(rule_view.domain).contains(d) by {
                            if exists|k: int| 0 <= k < matched.len() && #[trigger] matched[k]@ == d {
                                let k = choose|k: int| 0 <= k < matched.len() && #[trigger] matched[k]@ == d;
                                if k < old_matched.len() {
                                    assert(old_matched[k] == matched[k]);
                                    assert(before_matched.contains(d));
                                }
                            }
                            if before_matched.contains(d) {
                                let k = choose|k: int| 0 <= k < old_matched.len() && #[trigger] old_matched[k]@ == d;
                                assert(old_matched[k] == matched[k]);
                                assert(matched[k]@ == d);
                            }
                            if d == rule_view.domain {
                                assert(matched[matched.len() - 1]@ == d);
                            }
                        }
                    }
                }
                let inserted = insert_rule(rules, rule);
                match inserted {
                    Ok(()) => {},
                    Err(e) => {
                        proof {
                            assert(rule_map(rules.view()) == before);
                            assert(alias_rules_read(src, records.take(i + 1), name_index as int, id_index as int, path@, initial) == before);
                            lemma_alias_error_persists(src, records, i as int + 1, name_index as int, id_index as int, path@, initial);
                        }
                        return Err(e);
                    },
                }
            },
        }
        i = i + 1;
    }
    assert(records.take(table.records.len() as int) =~= records);
    proof {
        lemma_alias_rules_read_ok(src, records, name_index as int, id_index as int, path@, initial);
    }
    if !table.complete {
        return Err(CompilerError::MalformedTable { path: path.to_owned() });
    }
    Ok(matched)
}

/// Where reading the rows succeeds, the rules read are those it yields.
proof fn lemma_alias_rules_read_ok(
    src: AliasSources,
    rows: Seq<Seq<Seq<char>>>,
    name_index: int,
    id_index: int,
    path: Seq<char>,
    rules: Map<Seq<char>, RuleView>,
)
    requires
        apply_alias_rows(src, rows, name_index, id_index, path, rules) is Ok,
    ensures
        alias_rules_read(src, rows, name_index, id_index, path, rules) == apply_alias_rows(
            src,
            rows,
            name_index,
            id_index,
            path,
            rules,
        )->Ok_0.0,
{
}

proof fn lemma_alias_error_persists(
    src: AliasSources,
    rows: Seq<Seq<Seq<char>>>,
    k: int,
    name_index: int,
    id_index: int,
    path: Seq<char>,
    rules: Map<Seq<char>, RuleView>,
)
    requires
        0 <= k <= rows.len(),
        apply_alias_rows(src, rows.take(k), name_index, id_index, path, rules) is Err,
    ensures
        apply_alias_rows(src, rows, name_index, id_index, path, rules) == apply_alias_rows(
            src,
            rows.take(k),
            name_index,
            id_index,
            path,
            rules,
        ),
        alias_rules_read(src, rows, name_index, id_index, path, rules) == alias_rules_read(
            src,
            rows.take(k),
            name_index,
            id_index,
            path,
            rules,
        ),
    decreases rows.len() - k,
{
    if k < rows.len() {
        assert(rows.drop_last().take(k) =~= rows.take(k));
        lemma_alias_error_persists(src, rows.drop_last(), k, name_index, id_index, path, rules);
    } else {
        assert(rows.take(k) =~= rows);
    }
}

} // verus!
