//! Compiling the dataset from its sources: the organization tables, the alias
//! table and the policy.
use vstd::prelude::*;

use crate::compiler::aliases::{alias_sources, load_alias_rules, spec_load_alias_rules, AliasSources};
use crate::compiler::error::{CompilerError, CompilerErrorView};
use crate::compiler::policy::{
    normalize_external_domains, normalize_policy_domains, spec_normalize_external_domains,
    spec_normalize_policy_domains, string_views, ExternalDomains, Policy,
};
use crate::compiler::rules::{insert_rule, rule_map, Rule, RuleSet, RuleView};
use crate::compiler::sources::{
    load_active_organizations, load_concordance_ids, optional_table_view, organization_map,
    spec_active_organizations, spec_concordance_ids, Table, TableView,
};
use crate::external::{csv_table, parse_csv_table};
use crate::text::{
    chars_equal, chars_of, compare_chars, lemma_seq_lt_asymmetric, lemma_seq_lt_irreflexive,
    lemma_seq_lt_total, lemma_seq_lt_transitive, seq_lt, SeqOrder,
};

verus! {

/// Strictly increasing, so that nothing occurs twice.
pub open spec fn strictly_sorted(s: Seq<Seq<char>>) -> bool {
    forall|i: int, j: int| 0 <= i < j < s.len() ==> seq_lt(#[trigger] s[i], #[trigger] s[j])
}

/// `r` holds the elements of `v`, sorted and without repetition.
pub open spec fn is_sorted_set_of(r: Seq<Seq<char>>, v: Seq<Seq<char>>) -> bool {
    strictly_sorted(r) && forall|d: Seq<char>| r.contains(d) <==> v.contains(d)
}

proof fn lemma_take_push_contains(s: Seq<Seq<char>>, i: int)
    requires
        0 <= i < s.len(),
    ensures
        forall|d: Seq<char>| s.take(i + 1).contains(d) <==> (s.take(i).contains(d) || d == s[i]),
{
    assert forall|d: Seq<char>| s.take(i + 1).contains(d) <==> (s.take(i).contains(d) || d == s[i]) by {
        if s.take(i + 1).contains(d) {
            let j = choose|j: int| 0 <= j < s.take(i + 1).len() && #[trigger] s.take(i + 1)[j] == d;
            if j < i {
                assert(s.take(i)[j] == d);
            }
        }
        if s.take(i).contains(d) {
            let j = choose|j: int| 0 <= j < s.take(i).len() && #[trigger] s.take(i)[j] == d;
            assert(s.take(i + 1)[j] == d);
        }
        if d == s[i] {
            assert(s.take(i + 1)[i] == d);
        }
    }
}

/// The elements of `s` as a set.
pub open spec fn set_of(s: Seq<Seq<char>>) -> Set<Seq<char>> {
    Set::new(|d: Seq<char>| s.contains(d))
}

/// The elements of `v`, sorted and without repetition.
pub open spec fn sorted_set_of(v: Seq<Seq<char>>) -> Seq<Seq<char>> {
    choose|r: Seq<Seq<char>>| is_sorted_set_of(r, v)
}

/// Two strictly sorted sequences with the same elements are equal.
pub proof fn lemma_sorted_set_unique(a: Seq<Seq<char>>, b: Seq<Seq<char>>)
    requires
        strictly_sorted(a),
        strictly_sorted(b),
        forall|d: Seq<char>| a.contains(d) <==> b.contains(d),
    ensures
        a == b,
    decreases a.len(),
{
    if a.len() == 0 {
        if b.len() > 0 {
            assert(b.contains(b[0]));
        }
        assert(a =~= b);
    } else {
        assert(a.contains(a[0]));
        assert(b.len() > 0);
        assert(b.contains(b[0]));
        let k = choose|k: int| 0 <= k < b.len() && b[k] == a[0];
        let m = choose|m: int| 0 <= m < a.len() && a[m] == b[0];
        if k > 0 {
            assert(seq_lt(b[0], b[k]));
            if m > 0 {
                assert(seq_lt(a[0], a[m]));
                lemma_seq_lt_asymmetric(a[0], b[0]);
            } else {
                lemma_seq_lt_irreflexive(a[0]);
            }
        }
        let ta = a.drop_first();
        let tb = b.drop_first();
        assert forall|d: Seq<char>| ta.contains(d) <==> tb.contains(d) by {
            if ta.contains(d) {
                let i = choose|i: int| 0 <= i < ta.len() && ta[i] == d;
                assert(a[i + 1] == d);
                assert(seq_lt(a[0], a[i + 1]));
                lemma_seq_lt_irreflexive(d);
                assert(a.contains(d));
                let j = choose|j: int| 0 <= j < b.len() && b[j] == d;
                assert(j != 0);
                assert(tb[j - 1] == d);
            }
            if tb.contains(d) {
                let i = choose|i: int| 0 <= i < tb.len() && tb[i] == d;
                assert(b[i + 1] == d);
                assert(seq_lt(b[0], b[i + 1]));
                lemma_seq_lt_irreflexive(d);
                assert(b.contains(d));
                let j = choose|j: int| 0 <= j < a.len() && a[j] == d;
                assert(j != 0);
                assert(ta[j - 1] == d);
            }
        }
        assert forall|i: int, j: int| 0 <= i < j < ta.len() implies seq_lt(#[trigger] ta[i], #[trigger] ta[j]) by {
            assert(seq_lt(a[i + 1], a[j + 1]));
        }
        assert forall|i: int, j: int| 0 <= i < j < tb.len() implies seq_lt(#[trigger] tb[i], #[trigger] tb[j]) by {
            assert(seq_lt(b[i + 1], b[j + 1]));
        }
        lemma_sorted_set_unique(ta, tb);
        assert(a =~= seq![a[0]] + ta);
        assert(b =~= seq![b[0]] + tb);
    }
}

/// Where `x` is or would be in the sorted `r`: after every element below it.
fn sorted_position(r: &Vec<String>, x: &Vec<char>) -> (res: (usize, bool))
    requires
        strictly_sorted(string_views(r@)),
    ensures
        res.0 <= r.len(),
        forall|j: int| 0 <= j < res.0 ==> seq_lt(#[trigger] string_views(r@)[j], x@),
        res.1 ==> res.0 < r.len() && string_views(r@)[res.0 as int] == x@,
        !res.1 ==> res.0 == r.len() || (!seq_lt(string_views(r@)[res.0 as int], x@)
            && string_views(r@)[res.0 as int] != x@),
{
    let ghost rs = string_views(r@);
    let mut p: usize = 0;
    while p < r.len()
        invariant
            p <= r.len(),
            rs == string_views(r@),
            forall|j: int| 0 <= j < p ==> seq_lt(#[trigger] rs[j], x@),
        decreases r.len() - p,
    {
        let here = chars_of(r[p].as_str());
        assert(rs[p as int] == r@[p as int]@);
        match compare_chars(&here, x) {
            SeqOrder::Less => {
                p = p + 1;
            },
            SeqOrder::Equal => {
                return (p, true);
            },
            SeqOrder::Greater => {
                proof {
                    lemma_seq_lt_asymmetric(here@, x@);
                    lemma_seq_lt_irreflexive(x@);
                }
                return (p, false);
            },
        }
    }
    (p, false)
}

/// The domains of `v` sorted and without repetition, as `sort` then `dedup` leave them.
pub fn sort_unique_domains(v: Vec<String>) -> (r: Vec<String>)
    ensures
        is_sorted_set_of(string_views(r@), string_views(v@)),
        string_views(r@) == sorted_set_of(string_views(v@)),
{
    let ghost all = string_views(v@);
    let mut r: Vec<String> = Vec::new();
    let mut i: usize = 0;
    while i < v.len()
        invariant
            i <= v.len(),
            all == string_views(v@),
            strictly_sorted(string_views(r@)),
            forall|d: Seq<char>| string_views(r@).contains(d) <==> all.take(i as int).contains(d),
        decreases v.len() - i,
    {
        let x = chars_of(v[i].as_str());
        let ghost rs = string_views(r@);
        let (p, found) = sorted_position(&r, &x);
        proof {
            assert(all.take(i + 1) =~= all.take(i as int).push(x@));
            assert forall|d: Seq<char>| all.take(i + 1).contains(d) <==> (all.take(i as int).contains(d) || d == x@) by {
                if all.take(i + 1).contains(d) {
                    let j = choose|j: int| 0 <= j < all.take(i + 1).len() && #[trigger] all.take(i + 1)[j] == d;
                    if j < i {
                        assert(all.take(i as int)[j] == d);
                    }
                }
                if all.take(i as int).contains(d) {
                    let j = choose|j: int| 0 <= j < all.take(i as int).len() && #[trigger] all.take(i as int)[j] == d;
                    assert(all.take(i + 1)[j] == d);
                }
                if d == x@ {
                    assert(all.take(i + 1)[i as int] == d);
                }
            }
        }
        if !found {
            let s = v[i].as_str().to_owned();
            r.insert(p, s);
            proof {
                let after = string_views(r@);
                assert(after =~= rs.insert(p as int, x@));
                // Every element at or after `p` is above `x`.
                assert forall|j: int| p <= j < rs.len() implies seq_lt(x@, #[trigger] rs[j]) by {
                    lemma_seq_lt_total(rs[p as int], x@);
                    if j > p {
                        assert(seq_lt(rs[p as int], rs[j]));
                        lemma_seq_lt_transitive(x@, rs[p as int], rs[j]);
                    }
                }
                assert forall|a: int, b: int| 0 <= a < b < after.len() implies seq_lt(#[trigger] after[a], #[trigger] after[b]) by {
                    if b < p {
                        assert(seq_lt(rs[a], rs[b]));
                    } else if b == p {
                        assert(seq_lt(rs[a], x@));
                    } else if a < p {
                        lemma_seq_lt_transitive(rs[a], x@, rs[b - 1]);
                    } else if a == p {
                    } else {
                        assert(seq_lt(rs[a - 1], rs[b - 1]));
                    }
                }
                assert forall|d: Seq<char>| after.contains(d) <==> all.take(i + 1).contains(d) by {
                    if after.contains(d) {
                        let j = choose|j: int| 0 <= j < after.len() && after[j] == d;
                        if j < p {
                            assert(rs[j] == d);
                            assert(rs.contains(d));
                        } else if j > p {
                            assert(rs[j - 1] == d);
                            assert(rs.contains(d));
                        }
                    }
                    if rs.contains(d) {
                        let j = choose|j: int| 0 <= j < rs.len() && rs[j] == d;
                        if j < p {
                            assert(after[j] == d);
                        } else {
                            assert(after[j + 1] == d);
                        }
                    }
                    if d == x@ {
                        assert(after[p as int] == d);
                    }
                }
            }
        } else {
            proof {
                assert(rs[p as int] == x@);
                assert(rs.contains(x@));
            }
        }
        i = i + 1;
    }
    assert(all.take(v.len() as int) =~= all);
    proof {
        assert(is_sorted_set_of(string_views(r@), all));
        lemma_sorted_set_unique(string_views(r@), sorted_set_of(all));
    }
    r
}

/// The rules that the namespace roots seed: each root that is not excluded,
/// without subdomains and without an organization.
pub open spec fn root_rules(roots: Seq<Seq<char>>, excluded: Set<Seq<char>>) -> Map<Seq<char>, RuleView> {
    Map::new(
        |d: Seq<char>| roots.contains(d) && !excluded.contains(d),
        |d: Seq<char>| RuleView { domain: d, include_subdomains: false, organization: None },
    )
}

/// Whether `domain` is one of `list`.
fn list_contains(list: &Vec<String>, domain: &Vec<char>) -> (r: bool)
    ensures
        r == string_views(list@).contains(domain@),
{
    let mut i: usize = 0;
    while i < list.len()
        invariant
            i <= list.len(),
            forall|j: int| 0 <= j < i ==> #[trigger] list@[j]@ != domain@,
        decreases list.len() - i,
    {
        if chars_equal(&chars_of(list[i].as_str()), domain) {
            assert(string_views(list@)[i as int] == domain@);
            return true;
        }
        i = i + 1;
    }
    proof {
        if string_views(list@).contains(domain@) {
            let j = choose|j: int| 0 <= j < list@.len() && string_views(list@)[j] == domain@;
            assert(list@[j]@ == domain@);
        }
    }
    false
}

/// Seeds `rules` with the namespace roots that are not excluded.
fn seed_root_rules(rules: &mut RuleSet, roots: &Vec<String>, excluded: &Vec<String>)
    requires
        old(rules).wf(),
        rule_map(old(rules).view()) == Map::<Seq<char>, RuleView>::empty(),
    ensures
        final(rules).wf(),
        rule_map(final(rules).view()) == root_rules(
            string_views(roots@),
            set_of(string_views(excluded@)),
        ),
{
    let ghost rs = string_views(roots@);
    let ghost ex = set_of(string_views(excluded@));
    let mut i: usize = 0;
    assert(root_rules(rs.take(0), ex) =~= Map::<Seq<char>, RuleView>::empty());
    while i < roots.len()
        invariant
            i <= roots.len(),
            rs == string_views(roots@),
            ex == set_of(string_views(excluded@)),
            rules.wf(),
            rule_map(rules.view()) == root_rules(rs.take(i as int), ex),
        decreases roots.len() - i,
    {
        let root = chars_of(roots[i].as_str());
        assert(rs[i as int] == root@);
        let is_excluded = list_contains(excluded, &root);
        let ghost before = rule_map(rules.view());
        if !is_excluded {
            let rule = Rule {
                domain: roots[i].as_str().to_owned(),
                include_subdomains: false,
                organization: None,
            };
            match insert_rule(rules, rule) {
                Ok(()) => {},
                Err(_) => {
                    proof {
                        assert(false);
                    }
                },
            }
            proof {
                let rv = RuleView { domain: root@, include_subdomains: false, organization: None };
                if before.contains_key(root@) {
                    assert(rule_map(rules.view()) == before);
                    assert(before[root@] == rv);
                } else {
                    assert(rule_map(rules.view()) == before.insert(root@, rv));
                }
                assert(root_rules(rs.take(i + 1), ex) =~= before.insert(root@, rv)) by {
                    lemma_take_push_contains(rs, i as int);
                    assert(!ex.contains(root@));
                }
                assert(rule_map(rules.view()) =~= root_rules(rs.take(i + 1), ex));
            }
        } else {
            proof {
                assert(string_views(excluded@).contains(root@));
                assert(root_rules(rs.take(i + 1), ex) =~= before) by {
                    lemma_take_push_contains(rs, i as int);
                    assert(ex.contains(root@));
                }
            }
        }
        i = i + 1;
    }
    assert(rs.take(roots.len() as int) =~= rs);
}

/// `d` is the least external domain that no alias matched.
pub open spec fn is_least_unmatched(
    external: Map<Seq<char>, (u32, bool)>,
    matched: Set<Seq<char>>,
    d: Seq<char>,
) -> bool {
    &&& external.contains_key(d)
    &&& !matched.contains(d)
    &&& forall|o: Seq<char>|
        #[trigger] external.contains_key(o) && !matched.contains(o) && o != d ==> seq_lt(d, o)
}

/// The least external domain that no alias matched, if there is one.
pub open spec fn least_unmatched(external: Map<Seq<char>, (u32, bool)>, matched: Set<Seq<char>>) -> Option<Seq<char>> {
    if exists|d: Seq<char>| is_least_unmatched(external, matched, d) {
        Some(choose|d: Seq<char>| is_least_unmatched(external, matched, d))
    } else {
        None
    }
}

/// Finds the least external domain that no alias matched, with its organization ID.
fn find_unmatched_external(external: &ExternalDomains, matched: &Vec<String>) -> (r: Option<(String, u32)>)
    requires
        external.wf(),
    ensures
        match r {
            Some((d, id)) => least_unmatched(external@, set_of(string_views(matched@))) == Some(d@)
                && external@[d@].0 == id,
            None => least_unmatched(external@, set_of(string_views(matched@))) is None && forall|d: Seq<char>|
                external@.contains_key(d) ==> set_of(string_views(matched@)).contains(d),
        },
{
    let ghost ms = set_of(string_views(matched@));
    let domains = external.domains();
    let mut best: Option<(String, u32)> = None;
    let mut i: usize = 0;
    while i < domains.len()
        invariant
            i <= domains.len(),
            external.wf(),
            ms == set_of(string_views(matched@)),
            forall|d: Seq<char>| external@.contains_key(d) <==> exists|k: int| 0 <= k < domains.len() && #[trigger] domains[k]@ == d,
            match best {
                Some((b, id)) => {
                    &&& external@.contains_key(b@)
                    &&& !ms.contains(b@)
                    &&& external@[b@].0 == id
                    &&& forall|k: int| 0 <= k < i && !ms.contains(#[trigger] domains[k]@) && domains[k]@ != b@ ==> seq_lt(b@, domains[k]@)
                },
                None => forall|k: int| 0 <= k < i ==> ms.contains(#[trigger] domains[k]@),
            },
        decreases domains.len() - i,
    {
        let d = chars_of(domains[i].as_str());
        assert(external@.contains_key(d@));
        if !list_contains(matched, &d) {
            let ghost prev_best = best;
            let replace = match &best {
                None => true,
                Some((b, _)) => match compare_chars(&d, &chars_of(b.as_str())) {
                    SeqOrder::Less => true,
                    _ => false,
                },
            };
            if replace {
                match external.get(&d) {
                    Some((id, _)) => {
                        best = Some((domains[i].as_str().to_owned(), id));
                        proof {
                            assert forall|k: int| 0 <= k < i + 1 && !ms.contains(#[trigger] domains[k]@) && domains[k]@ != d@ implies seq_lt(d@, domains[k]@) by {
                                if let Some((b, _)) = prev_best {
                                    if domains[k]@ != b@ {
                                        lemma_seq_lt_transitive(d@, b@, domains[k]@);
                                    }
                                }
                            }
                        }
                    },
                    None => {},
                }
            } else {
                proof {
                    if let Some((b, _)) = prev_best {
                        if d@ != b@ {
                            lemma_seq_lt_total(d@, b@);
                        }
                    }
                }
            }
        }
        i = i + 1;
    }
    match best {
        Some((b, id)) => {
            proof {
                assert forall|o: Seq<char>| #[trigger] external@.contains_key(o) && !ms.contains(o) && o != b@ implies seq_lt(b@, o) by {
                    let k = choose|k: int| 0 <= k < domains.len() && #[trigger] domains[k]@ == o;
                }
                assert(is_least_unmatched(external@, ms, b@));
                let c = choose|c: Seq<char>| is_least_unmatched(external@, ms, c);
                if c != b@ {
                    assert(seq_lt(c, b@));
                    assert(seq_lt(b@, c));
                    lemma_seq_lt_asymmetric(c, b@);
                }
            }
            Some((b, id))
        },
        None => {
            proof {
                assert forall|d: Seq<char>| external@.contains_key(d) implies ms.contains(d) by {
                    let k = choose|k: int| 0 <= k < domains.len() && #[trigger] domains[k]@ == d;
                }
            }
            None
        },
    }
}

/// The namespace roots and the rules of a compiled dataset.
pub struct CompiledDataset {
    pub roots: Vec<String>,
    pub rules: RuleSet,
}

/// Reading a table whose header row may have been unreadable: `MalformedTable`
/// where it was, else what `read` makes of the table.
pub open spec fn readable<T>(
    table: Option<TableView>,
    path: Seq<char>,
    read: spec_fn(TableView) -> Result<T, CompilerErrorView>,
) -> Result<T, CompilerErrorView> {
    match table {
        None => Err(CompilerErrorView::MalformedTable { path }),
        Some(t) => read(t),
    }
}

/// Compiling the dataset: read the concordance, the eligible organizations and
/// the policy; seed the rules with the namespace roots where the policy
/// recognizes them; add the rules of the alias table; and require every
/// external domain of the policy to have been matched by an alias. The result
/// is the sorted roots and the rules, or the first error.
pub open spec fn spec_compile(
    policy: Policy,
    concordance: Option<TableView>,
    concordance_path: Seq<char>,
    org_info: Option<TableView>,
    org_info_path: Seq<char>,
    aliases: Option<TableView>,
    aliases_path: Seq<char>,
) -> Result<(Seq<Seq<char>>, Map<Seq<char>, RuleView>), CompilerErrorView> {
    match readable(concordance, concordance_path, |t: TableView| spec_concordance_ids(t, concordance_path)) {
        Err(e) => Err(e),
        Ok(ids) => match readable(org_info, org_info_path, |t: TableView| spec_active_organizations(t, org_info_path)) {
            Err(e) => Err(e),
            Ok(orgs) => match spec_normalize_policy_domains(string_views(policy.namespace_roots@)) {
                Err(e) => Err(e),
                Ok(normalized_roots) => {
                    let roots = sorted_set_of(normalized_roots);
                    match spec_normalize_policy_domains(string_views(policy.excluded_domains@)) {
                        Err(e) => Err(e),
                        Ok(excluded) => match spec_normalize_external_domains(policy.external_domains@) {
                            Err(e) => Err(e),
                            Ok(external) => {
                                let src = AliasSources {
                                    orgs: organization_map(orgs),
                                    ids: ids.to_set(),
                                    roots,
                                    external,
                                    excluded: set_of(excluded),
                                };
                                let seeded = if policy.recognize_namespace_roots {
                                    root_rules(roots, set_of(excluded))
                                } else {
                                    Map::empty()
                                };
                                match readable(aliases, aliases_path, |t: TableView| spec_load_alias_rules(src, t, aliases_path, seeded)) {
                                    Err(e) => Err(e),
                                    Ok((rules, matched)) => match least_unmatched(external, matched) {
                                        Some(d) => Err(
                                            CompilerErrorView::UnverifiedExternalDomain {
                                                domain: d,
                                                gc_org_id: external[d].0,
                                            },
                                        ),
                                        None => Ok((roots, rules)),
                                    },
                                }
                            },
                        },
                    }
                },
            },
        },
    }
}

/// Compiles the dataset from its parsed tables; `None` stands for a table
/// whose header row could not be read.
pub fn compile_tables(
    policy: &Policy,
    concordance: &Option<Table>,
    concordance_path: &str,
    org_info: &Option<Table>,
    org_info_path: &str,
    aliases: &Option<Table>,
    aliases_path: &str,
) -> (r: Result<CompiledDataset, CompilerError>)
    ensures
        match r {
            Ok(ds) => {
                &&& ds.rules.wf()
                &&& spec_compile(
                    *policy,
                    optional_table_view(*concordance),
                    concordance_path@,
                    optional_table_view(*org_info),
                    org_info_path@,
                    optional_table_view(*aliases),
                    aliases_path@,
                ) == Ok::<(Seq<Seq<char>>, Map<Seq<char>, RuleView>), CompilerErrorView>(
                    (string_views(ds.roots@), rule_map(ds.rules.view())),
                )
            },
            Err(e) => spec_compile(
                *policy,
                optional_table_view(*concordance),
                concordance_path@,
                optional_table_view(*org_info),
                org_info_path@,
                optional_table_view(*aliases),
                aliases_path@,
            ) == Err::<(Seq<Seq<char>>, Map<Seq<char>, RuleView>), CompilerErrorView>(e@),
        },
{
    let concordance = match concordance {
        Some(t) => t,
        None => {
            return Err(CompilerError::MalformedTable { path: concordance_path.to_owned() });
        },
    };
    let ids = load_concordance_ids(concordance, concordance_path)?;
    let org_info = match org_info {
        Some(t) => t,
        None => {
            return Err(CompilerError::MalformedTable { path: org_info_path.to_owned() });
        },
    };
    let organizations = load_active_organizations(org_info, org_info_path)?;
    let normalized_roots = normalize_policy_domains(&policy.namespace_roots)?;
    let roots = sort_unique_domains(normalized_roots);
    let excluded = normalize_policy_domains(&policy.excluded_domains)?;
    let external = normalize_external_domains(&policy.external_domains)?;
    let mut rules = RuleSet::new();
    proof {
        assert(rule_map(rules.view()) =~= Map::<Seq<char>, RuleView>::empty());
    }
    if policy.recognize_namespace_roots {
        seed_root_rules(&mut rules, &roots, &excluded);
    }
    let ghost seeded = rule_map(rules.view());
    proof {
        let src = alias_sources(organizations@, ids@, roots@, external@, excluded@);
        assert(src.excluded =~= set_of(string_views(excluded@))) by {
            assert forall|d: Seq<char>| src.excluded.contains(d) <==> string_views(excluded@).contains(d) by {
                if src.excluded.contains(d) {
                    let k = choose|k: int| 0 <= k < excluded@.len() && #[trigger] excluded@[k]@ == d;
                    assert(string_views(excluded@)[k] == d);
                }
                if string_views(excluded@).contains(d) {
                    let k = choose|k: int| 0 <= k < excluded@.len() && string_views(excluded@)[k] == d;
                    assert(excluded@[k]@ == d);
                }
            }
        }
        assert(src.roots =~= string_views(roots@));
    }
    let aliases = match aliases {
        Some(t) => t,
        None => {
            return Err(CompilerError::MalformedTable { path: aliases_path.to_owned() });
        },
    };
    let matched = load_alias_rules(
        aliases,
        aliases_path,
        &organizations,
        &ids,
        &roots,
        &external,
        &excluded,
        &mut rules,
    )?;
    proof {
        assert(Set::new(|d: Seq<char>| exists|i: int| 0 <= i < matched.len() && #[trigger] matched[i]@ == d) =~= set_of(string_views(matched@))) by {
            assert forall|d: Seq<char>| (exists|i: int| 0 <= i < matched.len() && #[trigger] matched[i]@ == d) <==> string_views(matched@).contains(d) by {
                if exists|i: int| 0 <= i < matched.len() && #[trigger] matched[i]@ == d {
                    let k = choose|k: int| 0 <= k < matched.len() && #[trigger] matched[k]@ == d;
                    assert(string_views(matched@)[k] == d);
                }
                if string_views(matched@).contains(d) {
                    let k = choose|k: int| 0 <= k < matched@.len() && string_views(matched@)[k] == d;
                    assert(matched[k]@ == d);
                }
            }
        }
    }
    match find_unmatched_external(&external, &matched) {
        Some((domain, gc_org_id)) => {
            return Err(CompilerError::UnverifiedExternalDomain { domain, gc_org_id });
        },
        None => {},
    }
    Ok(CompiledDataset { roots, rules })
}

/// Compiles the dataset from the bytes of its three CSV tables, read as the
/// csv crate reads them.
pub fn compile_dataset(
    policy: &Policy,
    concordance: &[u8],
    concordance_path: &str,
    org_info: &[u8],
    org_info_path: &str,
    aliases: &[u8],
    aliases_path: &str,
) -> (r: Result<CompiledDataset, CompilerError>)
    ensures
        match r {
            Ok(ds) => {
                &&& ds.rules.wf()
                &&& spec_compile(
                    *policy,
                    csv_table(concordance@),
                    concordance_path@,
                    csv_table(org_info@),
                    org_info_path@,
                    csv_table(aliases@),
                    aliases_path@,
                ) == Ok::<(Seq<Seq<char>>, Map<Seq<char>, RuleView>), CompilerErrorView>(
                    (string_views(ds.roots@), rule_map(ds.rules.view())),
                )
            },
            Err(e) => spec_compile(
                *policy,
                csv_table(concordance@),
                concordance_path@,
                csv_table(org_info@),
                org_info_path@,
                csv_table(aliases@),
                aliases_path@,
            ) == Err::<(Seq<Seq<char>>, Map<Seq<char>, RuleView>), CompilerErrorView>(e@),
        },
{
    let concordance_table = parse_csv_table(concordance);
    let org_info_table = parse_csv_table(org_info);
    let aliases_table = parse_csv_table(aliases);
    compile_tables(
        policy,
        &concordance_table,
        concordance_path,
        &org_info_table,
        org_info_path,
        &aliases_table,
        aliases_path,
    )
}

} // verus!
