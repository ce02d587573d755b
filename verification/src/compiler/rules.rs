//! The compiled rules, kept in increasing order of domain with no domain twice.
use vstd::prelude::*;

use crate::compiler::error::{CompilerError, CompilerErrorView};
use crate::text::{
    chars_of, compare_chars, lemma_seq_lt_irreflexive, lemma_seq_lt_transitive, seq_lt,
    SeqOrder,
};

verus! {

/// The organization that a compiled rule belongs to.
#[derive(Debug)]
pub struct Organization {
    pub gc_org_id: u32,
    pub name_en: String,
    pub name_fr: String,
}

/// A compiled rule.
#[derive(Debug)]
pub struct Rule {
    pub domain: String,
    pub include_subdomains: bool,
    pub organization: Option<Organization>,
}

/// The contents of a rule, with its strings as character sequences; the
/// organization is its ID, English name and French name.
pub struct RuleView {
    pub domain: Seq<char>,
    pub include_subdomains: bool,
    pub organization: Option<(u32, Seq<char>, Seq<char>)>,
}

impl View for Rule {
    type V = RuleView;

    open spec fn view(&self) -> RuleView {
        RuleView {
            domain: self.domain@,
            include_subdomains: self.include_subdomains,
            organization: match self.organization {
                Some(o) => Some((o.gc_org_id, o.name_en@, o.name_fr@)),
                None => None,
            },
        }
    }
}

/// The rules keyed by domain.
pub open spec fn rule_map(rules: Seq<Rule>) -> Map<Seq<char>, RuleView> {
    Map::new(
        |d: Seq<char>| index_of_domain(rules, d) is Some,
        |d: Seq<char>| rules[index_of_domain(rules, d)->0]@,
    )
}

/// What adding `rule` does to a rule map: nothing where its domain has a rule,
/// an error where that rule names another organization, and otherwise adds it.
pub open spec fn insert_outcome(m: Map<Seq<char>, RuleView>, rule: RuleView) -> Result<
    Map<Seq<char>, RuleView>,
    CompilerErrorView,
> {
    if m.contains_key(rule.domain) {
        match (m[rule.domain].organization, rule.organization) {
            (Some(first), Some(second)) => if first.0 != second.0 {
                Err(
                    CompilerErrorView::ConflictingOrganizations {
                        domain: rule.domain,
                        first: first.0,
                        second: second.0,
                    },
                )
            } else {
                Ok(m)
            },
            _ => Ok(m),
        }
    } else {
        Ok(m.insert(rule.domain, rule))
    }
}

/// Rules in strictly increasing order of domain.
pub open spec fn sorted_by_domain(rules: Seq<Rule>) -> bool {
    forall|i: int, j: int|
        0 <= i < j < rules.len() ==> seq_lt(#[trigger] rules[i].domain@, #[trigger] rules[j].domain@)
}

/// The index of the rule for `domain`.
pub open spec fn index_of_domain(rules: Seq<Rule>, domain: Seq<char>) -> Option<int> {
    if exists|i: int| 0 <= i < rules.len() && #[trigger] rules[i].domain@ == domain {
        Some(choose|i: int| 0 <= i < rules.len() && #[trigger] rules[i].domain@ == domain)
    } else {
        None
    }
}

/// A new rule conflicts with an existing one for the same domain when both
/// name an organization and the organizations differ.
pub open spec fn conflicts(existing: Rule, new: Rule) -> bool {
    existing.organization matches Some(first) && new.organization matches Some(second)
        && first.gc_org_id != second.gc_org_id
}

/// `e` reports the conflict between `existing` and `new`: their domain and the
/// organization IDs of the existing and the new rule.
pub open spec fn is_conflict_error(existing: Rule, new: Rule, e: CompilerError) -> bool {
    match (existing.organization, new.organization, e) {
        (
            Some(o1),
            Some(o2),
            CompilerError::ConflictingOrganizations { domain, first, second },
        ) => domain@ == new.domain@ && first == o1.gc_org_id && second == o2.gc_org_id,
        _ => false,
    }
}

/// A set of rules keyed by domain, iterated in increasing order of domain.
pub struct RuleSet {
    rules: Vec<Rule>,
}

impl RuleSet {
    /// The rules, in increasing order of domain.
    pub closed spec fn view(&self) -> Seq<Rule> {
        self.rules@
    }

    /// The rules are sorted by domain, so that no domain occurs twice.
    pub closed spec fn wf(&self) -> bool {
        sorted_by_domain(self.rules@)
    }

    /// The rules of a well-formed set are in strictly increasing order of
    /// domain, so that no domain has two rules.
    pub proof fn lemma_wf(&self)
        requires
            self.wf(),
        ensures
            sorted_by_domain(self.view()),
    {
    }

    /// An empty set.
    pub fn new() -> (r: RuleSet)
        ensures
            r.wf(),
            r.view() == Seq::<Rule>::empty(),
    {
        RuleSet { rules: Vec::new() }
    }

    /// The number of rules.
    pub fn len(&self) -> (n: usize)
        ensures
            n == self.view().len(),
    {
        self.rules.len()
    }

    /// The rules, in increasing order of domain.
    pub fn rules(&self) -> (r: &Vec<Rule>)
        ensures
            r@ == self.view(),
    {
        &self.rules
    }

    /// Where `domain` is or would be: the first rule whose domain is not below it.
    fn position(&self, domain: &Vec<char>) -> (r: (usize, bool))
        requires
            self.wf(),
        ensures
            r.0 <= self.view().len(),
            forall|i: int| 0 <= i < r.0 ==> seq_lt(#[trigger] self.view()[i].domain@, domain@),
            forall|i: int|
                r.0 <= i < self.view().len() ==> !seq_lt(#[trigger] self.view()[i].domain@, domain@),
            r.1 <==> (r.0 < self.view().len() && self.view()[r.0 as int].domain@ == domain@),
    {
        let mut i: usize = 0;
        while i < self.rules.len()
            invariant
                i <= self.rules.len(),
                sorted_by_domain(self.rules@),
                forall|j: int| 0 <= j < i ==> seq_lt(#[trigger] self.rules@[j].domain@, domain@),
            decreases self.rules.len() - i,
        {
            let here = chars_of(self.rules[i].domain.as_str());
            match compare_chars(&here, domain) {
                SeqOrder::Less => {
                    i = i + 1;
                },
                SeqOrder::Equal => {
                    proof {
                        lemma_seq_lt_irreflexive(domain@);
                        self.lemma_not_below_from(i as int, domain@);
                    }
                    return (i, true);
                },
                SeqOrder::Greater => {
                    proof {
                        self.lemma_not_below_from(i as int, domain@);
                        lemma_seq_lt_irreflexive(domain@);
                    }
                    return (i, false);
                },
            }
        }
        (i, false)
    }

    proof fn lemma_not_below_from(&self, i: int, domain: Seq<char>)
        requires
            sorted_by_domain(self.rules@),
            0 <= i < self.rules@.len(),
            !seq_lt(self.rules@[i].domain@, domain),
        ensures
            forall|j: int|
                i <= j < self.rules@.len() ==> !seq_lt(#[trigger] self.rules@[j].domain@, domain),
    {
        assert forall|j: int| i <= j < self.rules@.len() implies !seq_lt(
            #[trigger] self.rules@[j].domain@,
            domain,
        ) by {
            if j > i && seq_lt(self.rules@[j].domain@, domain) {
                assert(seq_lt(self.rules@[i].domain@, self.rules@[j].domain@));
                lemma_seq_lt_transitive(self.rules@[i].domain@, self.rules@[j].domain@, domain);
            }
        }
    }
}

/// Adds `rule` unless a rule for its domain exists. An existing rule is never
/// replaced; where the existing and the new rule name different
/// organizations, the result is `ConflictingOrganizations`.
pub fn insert_rule(rules: &mut RuleSet, rule: Rule) -> (r: Result<(), CompilerError>)
    requires
        old(rules).wf(),
    ensures
        final(rules).wf(),
        match r {
            Ok(()) => insert_outcome(rule_map(old(rules).view()), rule@) == Ok::<
                Map<Seq<char>, RuleView>,
                CompilerErrorView,
            >(rule_map(final(rules).view())),
            Err(e) => insert_outcome(rule_map(old(rules).view()), rule@) == Err::<
                Map<Seq<char>, RuleView>,
                CompilerErrorView,
            >(e@),
        },
        match index_of_domain(old(rules).view(), rule.domain@) {
            Some(i) => {
                &&& final(rules).view() == old(rules).view()
                &&& if conflicts(old(rules).view()[i], rule) {
                    match r {
                        Err(e) => is_conflict_error(old(rules).view()[i], rule, e),
                        Ok(_) => false,
                    }
                } else {
                    r is Ok
                }
            },
            None => {
                &&& r is Ok
                &&& exists|p: int|
                    0 <= p <= old(rules).view().len() && final(rules).view() == old(
                        rules,
                    ).view().insert(p, rule)
            },
        },
{
    let key = chars_of(rule.domain.as_str());
    let (p, found) = rules.position(&key);
    let ghost before = rules.rules@;
    if found {
        proof {
            assert(0 <= p < before.len() && before[p as int].domain@ == rule.domain@);
            let i = index_of_domain(before, rule.domain@)->0;
            if i < p {
                lemma_seq_lt_irreflexive(key@);
            } else if i > p {
                assert(seq_lt(before[p as int].domain@, before[i].domain@));
                lemma_seq_lt_irreflexive(key@);
            }
        }
        proof {
            lemma_index_of_sorted(before, p as int);
            assert(rule_map(before).contains_key(rule.domain@));
        }
        let existing = &rules.rules[p];
        match (&existing.organization, &rule.organization) {
            (Some(first), Some(second)) => {
                if first.gc_org_id != second.gc_org_id {
                    let first_id = first.gc_org_id;
                    let second_id = second.gc_org_id;
                    return Err(
                        CompilerError::ConflictingOrganizations {
                            domain: rule.domain,
                            first: first_id,
                            second: second_id,
                        },
                    );
                }
                return Ok(());
            },
            _ => {
                return Ok(());
            },
        }
    }
    proof {
        lemma_seq_lt_irreflexive(key@);
        assert forall|k: int| 0 <= k < before.len() implies #[trigger] before[k].domain@ != key@ by {
            if k > p {
                assert(seq_lt(before[p as int].domain@, before[k].domain@));
            }
        }
    }
    rules.rules.insert(p, rule);
    proof {
        let after = rules.rules@;
        assert(after == before.insert(p as int, rule));
        assert forall|i: int, j: int| 0 <= i < j < after.len() implies seq_lt(
            #[trigger] after[i].domain@,
            #[trigger] after[j].domain@,
        ) by {
            if j < p {
                assert(seq_lt(before[i].domain@, before[j].domain@));
            } else if j == p {
                assert(seq_lt(before[i].domain@, key@));
            } else if i < p {
                // before[i] < key < before[j - 1]
                assert(!seq_lt(before[j - 1].domain@, key@));
                lemma_total_at(before[j - 1].domain@, key@);
                lemma_seq_lt_transitive(before[i].domain@, key@, before[j - 1].domain@);
            } else if i == p {
                assert(!seq_lt(before[j - 1].domain@, key@));
                lemma_total_at(before[j - 1].domain@, key@);
            } else {
                assert(seq_lt(before[i - 1].domain@, before[j - 1].domain@));
            }
        }
        assert(index_of_domain(before, rule.domain@) is None);
        lemma_rule_map_insert(before, p as int, rule);
    }
    Ok(())
}

/// In sorted rules, the rule with a given domain is the only one.
pub proof fn lemma_index_of_sorted(rules: Seq<Rule>, i: int)
    requires
        sorted_by_domain(rules),
        0 <= i < rules.len(),
    ensures
        index_of_domain(rules, rules[i].domain@) == Some(i),
{
    let d = rules[i].domain@;
    assert(0 <= i < rules.len() && rules[i].domain@ == d);
    let j = index_of_domain(rules, d)->0;
    if j < i {
        assert(seq_lt(rules[j].domain@, rules[i].domain@));
        lemma_seq_lt_irreflexive(d);
    } else if i < j {
        assert(seq_lt(rules[i].domain@, rules[j].domain@));
        lemma_seq_lt_irreflexive(d);
    }
}

/// Inserting a rule for a new domain adds it to the rule map.
proof fn lemma_rule_map_insert(before: Seq<Rule>, p: int, rule: Rule)
    requires
        sorted_by_domain(before),
        sorted_by_domain(before.insert(p, rule)),
        0 <= p <= before.len(),
        index_of_domain(before, rule.domain@) is None,
    ensures
        rule_map(before.insert(p, rule)) =~= rule_map(before).insert(rule.domain@, rule@),
{
    let after = before.insert(p, rule);
    assert(after[p] == rule);
    lemma_index_of_sorted(after, p);
    assert forall|d: Seq<char>| #[trigger] rule_map(after).contains_key(d) <==> rule_map(
        before,
    ).insert(rule.domain@, rule@).contains_key(d) by {
        if index_of_domain(after, d) is Some {
            let k = index_of_domain(after, d)->0;
            assert(0 <= k < after.len() && after[k].domain@ == d);
            if k < p {
                assert(before[k] == after[k]);
                assert(0 <= k < before.len() && before[k].domain@ == d);
            } else if k > p {
                assert(before[k - 1] == after[k]);
                assert(0 <= k - 1 < before.len() && before[k - 1].domain@ == d);
            }
        }
        if index_of_domain(before, d) is Some {
            let k = index_of_domain(before, d)->0;
            assert(0 <= k < before.len() && before[k].domain@ == d);
            if k < p {
                assert(after[k] == before[k]);
                assert(0 <= k < after.len() && after[k].domain@ == d);
            } else {
                assert(after[k + 1] == before[k]);
                assert(0 <= k + 1 < after.len() && after[k + 1].domain@ == d);
            }
        }
    }
    assert forall|d: Seq<char>| #[trigger] rule_map(after).contains_key(d) implies rule_map(
        after,
    )[d] == rule_map(before).insert(rule.domain@, rule@)[d] by {
        if d != rule.domain@ {
            let k = index_of_domain(before, d)->0;
            assert(0 <= k < before.len() && before[k].domain@ == d);
            lemma_index_of_sorted(before, k);
            if k < p {
                assert(after[k] == before[k]);
                lemma_index_of_sorted(after, k);
            } else {
                assert(after[k + 1] == before[k]);
                lemma_index_of_sorted(after, k + 1);
            }
        }
    }
}

/// Where `a` is not below `b` and differs from it, `b` is below `a`.
proof fn lemma_total_at(a: Seq<char>, b: Seq<char>)
    ensures
        !seq_lt(a, b) && a != b ==> seq_lt(b, a),
{
    crate::text::lemma_seq_lt_total(a, b);
}

} // verus!
