//! Rendering the compiled dataset as Rust source for the embedded dataset.
use vstd::prelude::*;

use crate::compiler::rules::{Rule, RuleView};
use crate::external::{debug_quote, debug_quoted, string_from_chars};
use crate::text::{decimal, decimal_chars, first_index_of, push_chars, push_str};

verus! {

/// The value of an ASCII hexadecimal digit.
pub open spec fn hex_digit_value(c: char) -> Option<nat> {
    if '0' <= c <= '9' {
        Some((c as nat - 48) as nat)
    } else if 'a' <= c <= 'f' {
        Some((c as nat - 87) as nat)
    } else if 'A' <= c <= 'F' {
        Some((c as nat - 55) as nat)
    } else {
        None
    }
}

/// The value of a sequence of hexadecimal digits.
pub open spec fn hex_value(s: Seq<char>) -> Option<nat>
    decreases s.len(),
{
    if s.len() == 0 {
        Some(0)
    } else {
        match (hex_value(s.drop_last()), hex_digit_value(s.last())) {
            (Some(v), Some(d)) => Some(v * 16 + d),
            _ => None,
        }
    }
}

/// The character with code point `v`, where `v` is a Unicode scalar value.
pub open spec fn scalar_char(v: nat) -> Option<char> {
    if v <= 0xD7FF || (0xE000 <= v && v <= 0x10FFFF) {
        Some(v as char)
    } else {
        None
    }
}

/// The character that a one-character escape `\e` of a Rust string literal stands for.
pub open spec fn simple_escape(e: char) -> Option<char> {
    if e == 'n' {
        Some('\n')
    } else if e == 'r' {
        Some('\r')
    } else if e == 't' {
        Some('\t')
    } else if e == '\\' {
        Some('\\')
    } else if e == '0' {
        Some('\0')
    } else if e == '\'' {
        Some('\'')
    } else if e == '"' {
        Some('"')
    } else {
        None
    }
}

/// `c` followed by the characters `rest` stands for, where it stands for any.
pub open spec fn prefixed(c: char, rest: Option<Seq<char>>) -> Option<Seq<char>> {
    match rest {
        Some(r) => Some(seq![c] + r),
        None => None,
    }
}

/// The characters that the inside of a Rust string literal stands for: plain
/// characters stand for themselves, and the escapes `\n`, `\r`, `\t`, `\\`,
/// `\0`, `\'`, `\"` and `\u{..}` (one to six hexadecimal digits) for the
/// character they name; `None` where the text holds an unescaped `"` or
/// carriage return, or an escape that is not one of these.
pub open spec fn unescape(body: Seq<char>) -> Option<Seq<char>>
    decreases body.len(),
{
    if body.len() == 0 {
        Some(Seq::empty())
    } else if body[0] == '"' || body[0] == '\r' {
        None
    } else if body[0] != '\\' {
        prefixed(body[0], unescape(body.drop_first()))
    } else if body.len() < 2 {
        None
    } else if body[1] == 'u' {
        match first_index_of(body, '}') {
            Some(k) => if 4 <= k <= 9 && k < body.len() && body[2] == '{' {
                match hex_value(body.subrange(3, k)) {
                    Some(v) => match scalar_char(v) {
                        Some(c) => prefixed(c, unescape(body.skip(k + 1))),
                        None => None,
                    },
                    None => None,
                }
            } else {
                None
            },
            None => None,
        }
    } else {
        match simple_escape(body[1]) {
            Some(c) => prefixed(c, unescape(body.skip(2))),
            None => None,
        }
    }
}

/// The string a Rust string literal `q` (in double quotes) stands for, if `q`
/// is one.
pub open spec fn literal_value(q: Seq<char>) -> Option<Seq<char>> {
    if q.len() >= 2 && q[0] == '"' && q.last() == '"' {
        unescape(q.subrange(1, q.len() - 1))
    } else {
        None
    }
}

/// `s` written with `{:?}` is a Rust string literal that stands for `s`.
pub open spec fn reads_back(s: Seq<char>) -> bool {
    literal_value(debug_quoted(s)) == Some(s)
}

/// Every string that the block of `rule` quotes reads back as itself.
pub open spec fn rule_reads_back(rule: RuleView) -> bool {
    &&& reads_back(rule.domain)
    &&& match rule.organization {
        Some((_, en, fr)) => reads_back(en) && reads_back(fr),
        None => true,
    }
}

/// How `{}` writes a `bool`.
pub open spec fn bool_text(b: bool) -> Seq<char> {
    if b {
        "true"@
    } else {
        "false"@
    }
}

/// The line of one namespace root.
pub open spec fn root_line(root: Seq<char>) -> Seq<char> {
    "    "@ + debug_quoted(root) + ",\n"@
}

/// The lines of the namespace roots.
pub open spec fn root_lines(roots: Seq<Seq<char>>) -> Seq<char>
    decreases roots.len(),
{
    if roots.len() == 0 {
        Seq::empty()
    } else {
        root_lines(roots.drop_last()) + root_line(roots.last())
    }
}

/// The organization fields of a rule.
pub open spec fn organization_lines(organization: Option<(u32, Seq<char>, Seq<char>)>) -> Seq<char> {
    match organization {
        Some((id, en, fr)) => "        gc_org_id: Some("@ + decimal(id as nat)
            + "),\n        organization_en: Some("@ + debug_quoted(en)
            + "),\n        organization_fr: Some("@ + debug_quoted(fr) + "),\n"@,
        None => "        gc_org_id: None,\n        organization_en: None,\n        organization_fr: None,\n"@,
    }
}

/// The block of one rule.
pub open spec fn rule_block(rule: RuleView) -> Seq<char> {
    "    DomainRule {\n"@ + "        domain: "@ + debug_quoted(rule.domain) + ",\n"@
        + "        include_subdomains: "@ + bool_text(rule.include_subdomains) + ",\n"@
        + organization_lines(rule.organization) + "    },\n"@
}

/// The blocks of the rules.
pub open spec fn rule_blocks(rules: Seq<RuleView>) -> Seq<char>
    decreases rules.len(),
{
    if rules.len() == 0 {
        Seq::empty()
    } else {
        rule_blocks(rules.drop_last()) + rule_block(rules.last())
    }
}

/// The generated source: the dataset version, the namespace roots and the
/// rules, in the given order.
pub open spec fn rendered(version: Seq<char>, roots: Seq<Seq<char>>, rules: Seq<RuleView>) -> Seq<char> {
    "// @generated by domain-compiler. Do not edit by hand.\n\nuse crate::DomainRule;\n\n"@
        + "pub const DATASET_VERSION: &str = "@ + debug_quoted(version) + ";\n\n"@
        + "pub static NAMESPACE_ROOTS: &[&str] = &[\n"@ + root_lines(roots)
        + "];\n\npub static RULES: &[DomainRule] = &[\n"@ + rule_blocks(rules) + "];\n"@
}

fn push_debug(out: &mut Vec<char>, s: &str)
    ensures
        final(out)@ == old(out)@ + debug_quoted(s@),
        reads_back(s@),
{
    let quoted = debug_quote(s);
    push_str(out, quoted.as_str());
}

fn push_rule(out: &mut Vec<char>, rule: &Rule)
    ensures
        final(out)@ == old(out)@ + rule_block(rule@),
        rule_reads_back(rule@),
{
    let ghost start = out@;
    push_str(out, "    DomainRule {\n");
    push_str(out, "        domain: ");
    push_debug(out, rule.domain.as_str());
    push_str(out, ",\n");
    push_str(out, "        include_subdomains: ");
    if rule.include_subdomains {
        push_str(out, "true");
    } else {
        push_str(out, "false");
    }
    push_str(out, ",\n");
    let ghost before_org = out@;
    match &rule.organization {
        Some(organization) => {
            push_str(out, "        gc_org_id: Some(");
            push_chars(out, &decimal_chars(organization.gc_org_id));
            push_str(out, "),\n        organization_en: Some(");
            push_debug(out, organization.name_en.as_str());
            push_str(out, "),\n        organization_fr: Some(");
            push_debug(out, organization.name_fr.as_str());
            push_str(out, "),\n");
        },
        None => {
            push_str(
                out,
                "        gc_org_id: None,\n        organization_en: None,\n        organization_fr: None,\n",
            );
        },
    }
    assert(out@ =~= before_org + organization_lines(rule@.organization));
    push_str(out, "    },\n");
    assert(out@ =~= start + rule_block(rule@));
}

/// The character sequences of a list of strings.
pub open spec fn views_of(v: Seq<String>) -> Seq<Seq<char>> {
    v.map_values(|s: String| s@)
}

/// The contents of a list of rules.
pub open spec fn rule_views(v: Seq<Rule>) -> Seq<RuleView> {
    v.map_values(|r: Rule| r@)
}

/// Renders the generated source of the embedded dataset. Every string it
/// quotes (the version, each root, and each rule's domain and names) is written
/// as a Rust string literal that stands for that string.
pub fn render_generated(version: &str, roots: &Vec<String>, rules: &Vec<Rule>) -> (r: String)
    ensures
        r@ == rendered(version@, views_of(roots@), rule_views(rules@)),
        reads_back(version@),
        forall|i: int| 0 <= i < roots.len() ==> reads_back(#[trigger] roots@[i]@),
        forall|j: int| 0 <= j < rules.len() ==> rule_reads_back(#[trigger] rules@[j]@),
{
    let mut out: Vec<char> = Vec::new();
    push_str(
        &mut out,
        "// @generated by domain-compiler. Do not edit by hand.\n\nuse crate::DomainRule;\n\n",
    );
    push_str(&mut out, "pub const DATASET_VERSION: &str = ");
    push_debug(&mut out, version);
    push_str(&mut out, ";\n\n");
    push_str(&mut out, "pub static NAMESPACE_ROOTS: &[&str] = &[\n");
    let ghost before_roots = out@;
    let ghost rs = views_of(roots@);
    let mut i: usize = 0;
    assert(rs.take(0) =~= Seq::<Seq<char>>::empty());
    assert(before_roots + root_lines(rs.take(0)) =~= before_roots);
    while i < roots.len()
        invariant
            i <= roots.len(),
            rs == views_of(roots@),
            out@ == before_roots + root_lines(rs.take(i as int)),
            reads_back(version@),
            forall|k: int| 0 <= k < i ==> reads_back(#[trigger] roots@[k]@),
        decreases roots.len() - i,
    {
        assert(rs.take(i + 1).drop_last() =~= rs.take(i as int));
        assert(rs.take(i + 1).last() == roots@[i as int]@);
        push_str(&mut out, "    ");
        push_debug(&mut out, roots[i].as_str());
        push_str(&mut out, ",\n");
        i = i + 1;
        assert(out@ =~= before_roots + root_lines(rs.take(i as int)));
    }
    assert(rs.take(roots.len() as int) =~= rs);
    push_str(&mut out, "];\n\npub static RULES: &[DomainRule] = &[\n");
    let ghost before_rules = out@;
    let ghost vs = rule_views(rules@);
    let mut j: usize = 0;
    assert(vs.take(0) =~= Seq::<RuleView>::empty());
    assert(before_rules + rule_blocks(vs.take(0)) =~= before_rules);
    while j < rules.len()
        invariant
            j <= rules.len(),
            vs == rule_views(rules@),
            out@ == before_rules + rule_blocks(vs.take(j as int)),
            reads_back(version@),
            forall|k: int| 0 <= k < roots.len() ==> reads_back(#[trigger] roots@[k]@),
            forall|k: int| 0 <= k < j ==> rule_reads_back(#[trigger] rules@[k]@),
        decreases rules.len() - j,
    {
        assert(vs.take(j + 1).drop_last() =~= vs.take(j as int));
        assert(vs.take(j + 1).last() == rules@[j as int]@);
        push_rule(&mut out, &rules[j]);
        j = j + 1;
        assert(out@ =~= before_rules + rule_blocks(vs.take(j as int)));
    }
    assert(vs.take(rules.len() as int) =~= vs);
    push_str(&mut out, "];\n");
    assert(out@ =~= rendered(version@, rs, vs));
    string_from_chars(&out)
}

} // verus!
