//! Properties of the classification that hold for every input.
use vstd::prelude::*;

use crate::classify::{
    classifies, find_rule_spec, lemma_rule_index_unique, lookup_from, rule_index,
    Classification, MatchType,
};
use crate::dataset::{rules_sorted, spec_namespace_roots, spec_rules, DomainRule};
use crate::email::{
    labels, malformed_email, raw_domain, spec_extract_domain, valid_domain, valid_label,
    valid_local_byte,
};
use crate::text::{
    ascii_lower_char, ascii_lowercase, first_index_of, is_ascii_upper, is_domain_or_child,
    lemma_first_index_of,
};

verus! {

/// The match type agrees with the two flags: a recognized domain is
/// `RecognizedDomain`, an unrecognized domain beneath a namespace is
/// `NamespaceOnly`, and any other domain is `NoMatch`.
pub proof fn law_match_type_agrees_with_flags(
    c: Classification,
    d: Seq<char>,
    rules: Seq<DomainRule>,
    roots: Seq<&'static str>,
)
    requires
        classifies(c, d, rules, roots),
    ensures
        c.is_government_of_canada <==> c.match_type == MatchType::RecognizedDomain,
        c.match_type == MatchType::NamespaceOnly <==> !c.is_government_of_canada
            && c.is_government_controlled_namespace,
        c.match_type == MatchType::NoMatch <==> !c.is_government_of_canada
            && !c.is_government_controlled_namespace,
        c.is_government_of_canada <==> c.matched_domain is Some,
{
}

/// Proof by induction over the candidates that `lookup_from` visits.
proof fn lemma_lookup_from(rules: Seq<DomainRule>, d: Seq<char>, cand: Seq<char>)
    requires
        rules_sorted(rules),
        is_domain_or_child(d, cand),
    ensures
        match lookup_from(rules, d, cand) {
            Some(i) => {
                &&& 0 <= i < rules.len()
                &&& is_domain_or_child(d, rules[i].domain@)
                &&& (rules[i].domain@ == d || rules[i].include_subdomains)
            },
            None => forall|i: int|
                0 <= i < rules.len() && is_domain_or_child(cand, #[trigger] rules[i].domain@)
                    ==> !(rules[i].domain@ == d || rules[i].include_subdomains),
        },
    decreases cand.len(),
{
    let here = rule_index(rules, cand);
    if here is Some {
        let h = here->0;
        assert(0 <= h < rules.len() && rules[h].domain@ == cand);
    }
    if here is Some && (cand == d || rules[here->0].include_subdomains) {
    } else {
        lemma_first_index_of(cand, '.');
        match first_index_of(cand, '.') {
            Some(k) => {
                let next = cand.skip(k + 1);
                // `next` is again `d` or a parent domain of it.
                if cand == d {
                    assert(d.skip(d.len() - next.len()) =~= next);
                    assert(d[d.len() - next.len() - 1] == cand[k]);
                } else {
                    assert(d.skip(d.len() - next.len()) =~= next);
                    assert(d[d.len() - next.len() - 1] == cand[k]);
                }
                lemma_lookup_from(rules, d, next);
                if lookup_from(rules, d, next) is None {
                    assert forall|i: int|
                        0 <= i < rules.len() && is_domain_or_child(
                            cand,
                            #[trigger] rules[i].domain@,
                        ) implies !(rules[i].domain@ == d || rules[i].include_subdomains) by {
                        let r = rules[i].domain@;
                        if r == cand {
                            lemma_rule_index_unique(rules, i, cand);
                        } else {
                            lemma_parent_of_next(cand, r, k);
                        }
                    }
                }
            },
            None => {
                assert forall|i: int|
                    0 <= i < rules.len() && is_domain_or_child(cand, #[trigger] rules[i].domain@)
                        implies !(rules[i].domain@ == d || rules[i].include_subdomains) by {
                    let r = rules[i].domain@;
                    if r == cand {
                        lemma_rule_index_unique(rules, i, cand);
                    } else {
                        assert(cand.contains(cand[cand.len() - r.len() - 1]));
                    }
                }
            },
        }
    }
}

/// A parent domain `r` of `cand` other than `cand` is `r` or a parent of what
/// follows the first dot of `cand`.
proof fn lemma_parent_of_next(cand: Seq<char>, r: Seq<char>, k: int)
    requires
        is_domain_or_child(cand, r),
        r != cand,
        first_index_of(cand, '.') == Some(k),
        0 <= k < cand.len(),
        cand[k] == '.',
        forall|j: int| 0 <= j < k ==> cand[j] != '.',
    ensures
        is_domain_or_child(cand.skip(k + 1), r),
{
    let next = cand.skip(k + 1);
    let p = cand.len() - r.len() - 1;
    assert(cand[p] == '.');
    assert(p >= k);
    if p == k {
        assert(next =~= r) by {
            assert(cand.skip(cand.len() - r.len()) == r);
        }
    } else {
        assert(next.skip(next.len() - r.len()) =~= r) by {
            assert(cand.skip(cand.len() - r.len()) == r);
        }
        assert(next[next.len() - r.len() - 1] == cand[p]);
    }
}

/// A domain is recognized exactly when some rule is for the domain itself, or
/// is for a parent domain and includes its subdomains; a recognized domain is
/// matched by such a rule, at a label boundary.
pub proof fn law_recognized_iff_rule_applies(rules: Seq<DomainRule>, d: Seq<char>)
    requires
        rules_sorted(rules),
    ensures
        find_rule_spec(rules, d) is Some <==> exists|i: int|
            0 <= i < rules.len() && (#[trigger] rules[i].domain@ == d || (
            rules[i].include_subdomains && is_domain_or_child(d, rules[i].domain@))),
        match find_rule_spec(rules, d) {
            Some(i) => {
                &&& 0 <= i < rules.len()
                &&& is_domain_or_child(d, rules[i].domain@)
                &&& (rules[i].domain@ == d || rules[i].include_subdomains)
            },
            None => true,
        },
{
    lemma_lookup_from(rules, d, d);
    if let Some(i) = find_rule_spec(rules, d) {
        assert(rules[i].domain@ == d || (rules[i].include_subdomains && is_domain_or_child(
            d,
            rules[i].domain@,
        )));
    } else {
        if exists|i: int|
            0 <= i < rules.len() && (#[trigger] rules[i].domain@ == d || (
            rules[i].include_subdomains && is_domain_or_child(d, rules[i].domain@))) {
            let i = choose|i: int|
                0 <= i < rules.len() && (#[trigger] rules[i].domain@ == d || (
                rules[i].include_subdomains && is_domain_or_child(d, rules[i].domain@)));
            assert(is_domain_or_child(d, rules[i].domain@));
        }
    }
}

/// A rule for the exact domain always wins over any parent rule.
pub proof fn law_exact_rule_wins(rules: Seq<DomainRule>, d: Seq<char>, i: int)
    requires
        rules_sorted(rules),
        0 <= i < rules.len(),
        rules[i].domain@ == d,
    ensures
        find_rule_spec(rules, d) == Some(i),
{
    lemma_rule_index_unique(rules, i, d);
}

/// A recognized domain's matched domain is the domain itself or one of its
/// parents, and where the matching rule does not include subdomains it is the
/// domain itself.
pub proof fn law_match_is_domain_or_parent(
    c: Classification,
    d: Seq<char>,
    rules: Seq<DomainRule>,
    roots: Seq<&'static str>,
)
    requires
        rules_sorted(rules),
        classifies(c, d, rules, roots),
        c.is_government_of_canada,
    ensures
        exists|i: int|
            0 <= i < rules.len() && c.matched_domain == Some(#[trigger] rules[i].domain) && (
            rules[i].domain@ == d || rules[i].include_subdomains) && is_domain_or_child(
                d,
                rules[i].domain@,
            ),
{
    law_recognized_iff_rule_applies(rules, d);
    let i = find_rule_spec(rules, d)->0;
    assert(c.matched_domain == Some(rules[i].domain));
}

/// An accepted address yields a valid domain without ASCII capitals.
pub proof fn law_extracted_domain_is_valid_lowercase(email: &str)
    requires
        spec_extract_domain(email) is Ok,
    ensures
        valid_domain(spec_extract_domain(email)->Ok_0),
        forall|i: int|
            0 <= i < spec_extract_domain(email)->Ok_0.len() ==> !is_ascii_upper(
                #[trigger] spec_extract_domain(email)->Ok_0[i],
            ),
{
    let d = spec_extract_domain(email)->Ok_0;
    assert forall|i: int| 0 <= i < d.len() implies !is_ascii_upper(#[trigger] d[i]) by {
        let c = d[i];
        if is_ascii_upper(c) {
            // `d` is a lowercase mapping, and no mapped character is a capital.
            let ascii = crate::external::idna_domain_to_ascii(raw_domain(email@))->0;
            assert(d == ascii_lowercase(ascii));
            assert(c == ascii_lower_char(ascii[i]));
        }
    }
}

/// Every character of `s` other than a dot is a character of one of its labels.
proof fn lemma_labels_cover(s: Seq<char>)
    ensures
        forall|k: int|
            0 <= k < s.len() && s[k] != '.' ==> exists|i: int, j: int|
                0 <= i < labels(s).len() && 0 <= j < labels(s)[i].len() && #[trigger] labels(s)[i][j]
                    == #[trigger] s[k],
    decreases s.len(),
{
    if s.len() > 0 {
        let p = s.drop_last();
        lemma_labels_cover(p);
        let prev = labels(p);
        let cur = labels(s);
        assert forall|k: int| 0 <= k < s.len() && s[k] != '.' implies exists|i: int, j: int|
            0 <= i < cur.len() && 0 <= j < cur[i].len() && #[trigger] cur[i][j] == #[trigger] s[k] by {
            if k == s.len() - 1 {
                let i = cur.len() - 1;
                let j = prev.last().len() as int;
                assert(cur[i] == prev.last().push(s.last()));
                assert(cur[i][j] == s[k]);
            } else {
                assert(p[k] == s[k]);
                let (i, j) = choose|i: int, j: int|
                    0 <= i < prev.len() && 0 <= j < prev[i].len() && #[trigger] prev[i][j] == #[trigger] p[k];
                if s.last() == '.' {
                    assert(cur[i] == prev[i]);
                } else if i < prev.len() - 1 {
                    assert(cur[i] == prev[i]);
                } else {
                    assert(cur[i] == prev.last().push(s.last()));
                    assert(cur[i][j] == prev[i][j]);
                }
            }
        }
    }
}

/// A valid domain holds only ASCII letters, digits, hyphens and dots; in
/// particular no `@`, so a classification never repeats the local part.
pub proof fn law_valid_domain_has_no_at(d: Seq<char>)
    requires
        valid_domain(d),
    ensures
        forall|k: int| 0 <= k < d.len() ==> d[k] == '.' || d[k] == '-' || crate::text::is_ascii_alphanumeric(#[trigger] d[k]),
        !d.contains('@'),
{
    lemma_labels_cover(d);
    assert forall|k: int| 0 <= k < d.len() implies d[k] == '.' || d[k] == '-' || crate::text::is_ascii_alphanumeric(#[trigger] d[k]) by {
        if d[k] != '.' {
            let (i, j) = choose|i: int, j: int|
                0 <= i < labels(d).len() && 0 <= j < labels(d)[i].len() && #[trigger] labels(d)[i][j] == #[trigger] d[k];
            assert(valid_label(labels(d)[i]));
        }
    }
    if d.contains('@') {
        let k = choose|k: int| 0 <= k < d.len() && d[k] == '@';
        assert(d[k] == '.' || d[k] == '-' || crate::text::is_ascii_alphanumeric(d[k]));
    }
}

/// The local part of an address does not affect its classification: two
/// accepted addresses with the same domain part give the same domain.
pub proof fn law_local_part_is_irrelevant(a: &str, b: &str)
    requires
        a.len() <= 254,
        b.len() <= 254,
        !malformed_email(a@),
        !malformed_email(b@),
        raw_domain(a@) == raw_domain(b@),
    ensures
        spec_extract_domain(a) == spec_extract_domain(b),
{
}

/// Neither the local part nor the case of the ASCII letters of the domain part
/// affects the domain of an accepted address: two accepted addresses whose
/// domain parts agree once ASCII capitals are lowered give the same domain,
/// and so the same classification.
pub proof fn law_local_part_and_domain_case_are_irrelevant(
    a: &str,
    b: &str,
    c1: Classification,
    c2: Classification,
)
    requires
        spec_extract_domain(a) is Ok,
        spec_extract_domain(b) is Ok,
        ascii_lowercase(raw_domain(a@)) == ascii_lowercase(raw_domain(b@)),
        classifies(c1, spec_extract_domain(a)->Ok_0, spec_rules(), spec_namespace_roots()),
        classifies(c2, spec_extract_domain(b)->Ok_0, spec_rules(), spec_namespace_roots()),
    ensures
        spec_extract_domain(a) == spec_extract_domain(b),
        c1.is_government_of_canada == c2.is_government_of_canada,
        c1.is_government_controlled_namespace == c2.is_government_controlled_namespace,
        c1.domain@ == c2.domain@,
        c1.matched_domain == c2.matched_domain,
        c1.match_type == c2.match_type,
        c1.organization == c2.organization,
        c1.dataset_version == c2.dataset_version,
{
    law_classification_is_determined(
        c1,
        c2,
        spec_extract_domain(a)->Ok_0,
        spec_rules(),
        spec_namespace_roots(),
    );
}

/// Two classifications of one domain against one dataset agree in every field.
pub proof fn law_classification_is_determined(
    c1: Classification,
    c2: Classification,
    d: Seq<char>,
    rules: Seq<DomainRule>,
    roots: Seq<&'static str>,
)
    requires
        classifies(c1, d, rules, roots),
        classifies(c2, d, rules, roots),
    ensures
        c1.is_government_of_canada == c2.is_government_of_canada,
        c1.is_government_controlled_namespace == c2.is_government_controlled_namespace,
        c1.domain@ == c2.domain@,
        c1.matched_domain == c2.matched_domain,
        c1.match_type == c2.match_type,
        c1.organization == c2.organization,
        c1.dataset_version == c2.dataset_version,
{
}

/// The bytes allowed in the local part of an address are exactly the ASCII
/// letters (65 to 90 and 97 to 122) and digits (48 to 57), the dot (46), and
/// the twenty-one specials of RFC 5322 `atext`: exclamation mark, number
/// sign, dollar, percent, ampersand, apostrophe, asterisk, plus, hyphen,
/// slash, equals sign, question mark, caret, underscore, backtick, braces,
/// vertical bar and tilde (33, 35 to 39, 42, 43, 45, 47, 61, 63, 94 to 96,
/// 123 to 126).
pub proof fn law_local_part_bytes(b: u8)
    ensures
        valid_local_byte(b) <==> {
            ||| 48 <= b <= 57
            ||| 65 <= b <= 90
            ||| 97 <= b <= 122
            ||| b == 46
            ||| b == 33
            ||| 35 <= b <= 39
            ||| b == 42 || b == 43 || b == 45 || b == 47
            ||| b == 61 || b == 63
            ||| 94 <= b <= 96
            ||| 123 <= b <= 126
        },
{
}

} // verus!
