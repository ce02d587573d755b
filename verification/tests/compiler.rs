use gc_email_validator::compiler::compile::{compile_dataset, compile_tables, sort_unique_domains};
use gc_email_validator::compiler::domains::{
    default_true, is_domain_or_child, normalize_alias_domain, normalize_domain,
};
use gc_email_validator::compiler::error::CompilerError;
use gc_email_validator::compiler::hashing::{dataset_version, verify_source_hash, VersionInput};
use gc_email_validator::compiler::policy::{
    normalize_policy_domains, ExternalDomain, ExternalDomains, Policy,
};
use gc_email_validator::compiler::render::render_generated;
use gc_email_validator::compiler::rules::{insert_rule, Organization, Rule, RuleSet};
use gc_email_validator::compiler::aliases::load_alias_rules;
use gc_email_validator::compiler::sources::Table;
use std::collections::{BTreeSet, HashMap};
use gc_email_validator::compiler::table::{normalized_headers, parse_u32};

fn strings(values: &[&str]) -> Vec<String> {
    values.iter().map(|v| v.to_string()).collect()
}

fn table(headers: &[&str], records: &[&[&str]]) -> Option<Table> {
    Some(Table {
        headers: strings(headers),
        records: records.iter().map(|r| strings(r)).collect(),
        complete: true,
    })
}

fn organization(gc_org_id: u32, name_en: &str, name_fr: &str) -> Option<Organization> {
    Some(Organization {
        gc_org_id,
        name_en: name_en.to_owned(),
        name_fr: name_fr.to_owned(),
    })
}

#[test]
fn extracts_domains_from_alias_formats() {
    assert_eq!(
        normalize_alias_domain("Analyst@MAIL.StatCan.gc.ca"),
        Some("mail.statcan.gc.ca".to_owned())
    );
    assert_eq!(
        normalize_alias_domain("https://www.inspection.gc.ca/about"),
        Some("inspection.gc.ca".to_owned())
    );
    assert_eq!(normalize_alias_domain("not an internet domain"), None);
}

#[test]
fn domain_boundaries_are_respected() {
    assert!(is_domain_or_child("statcan.gc.ca", "gc.ca"));
    assert!(is_domain_or_child("mail.statcan.gc.ca", "gc.ca"));
    assert!(!is_domain_or_child("evilgc.ca", "gc.ca"));
    assert!(!is_domain_or_child("gc.ca.example", "gc.ca"));
}

#[test]
fn domain_is_its_own_root() {
    assert!(is_domain_or_child("gc.ca", "gc.ca"));
    assert!(!is_domain_or_child("ca", "gc.ca"));
}

#[test]
fn alias_paths_without_a_scheme_are_read_as_urls() {
    assert_eq!(
        normalize_alias_domain("  www.tbs-sct.gc.ca/en/index.html "),
        Some("tbs-sct.gc.ca".to_owned())
    );
    assert_eq!(normalize_alias_domain("www.www.canada.ca"), Some("canada.ca".to_owned()));
    assert_eq!(normalize_alias_domain("mailto:"), None);
}

#[test]
fn policy_domains_are_trimmed_and_lowercased() {
    assert_eq!(normalize_domain(" Canada.CA. "), Some("canada.ca".to_owned()));
    assert_eq!(normalize_domain("localhost"), None);
    assert_eq!(
        normalize_policy_domains(&strings(&["GC.ca", "canada.ca"])),
        Ok(strings(&["gc.ca", "canada.ca"]))
    );
    assert_eq!(
        normalize_policy_domains(&strings(&["gc.ca", "bad", "worse"])),
        Err(CompilerError::MissingColumn {
            column: "valid domain value (bad)".to_owned(),
            path: "data/domain-policy.yaml".to_owned(),
        })
    );
    assert!(default_true());
}

#[test]
fn roots_are_sorted_and_deduplicated() {
    assert_eq!(
        sort_unique_domains(strings(&["gc.ca", "canada.ca", "gc.ca"])),
        strings(&["canada.ca", "gc.ca"])
    );
}

#[test]
fn headers_columns_and_integers() {
    let headers = normalized_headers(&strings(&["\u{feff}name", " gc_orgID "]));
    assert_eq!(headers, strings(&["name", "gc_orgID"]));
    assert_eq!(gc_email_validator::compiler::table::column(&headers, "gc_orgID", "aliases.csv"), Ok(1));
    assert_eq!(
        gc_email_validator::compiler::table::column(&headers, "status", "aliases.csv"),
        Err(CompilerError::MissingColumn {
            column: "status".to_owned(),
            path: "aliases.csv".to_owned(),
        })
    );
    let row = strings(&[" 2293 ", "+7", "4294967296", "", "-1"]);
    assert_eq!(parse_u32(&row, 0, "gc_orgID", "p"), Ok(2293));
    assert_eq!(parse_u32(&row, 1, "gc_orgID", "p"), Ok(7));
    assert_eq!(
        parse_u32(&row, 2, "gc_orgID", "p"),
        Err(CompilerError::InvalidInteger {
            value: "4294967296".to_owned(),
            column: "gc_orgID".to_owned(),
            path: "p".to_owned(),
        })
    );
    assert!(parse_u32(&row, 3, "gc_orgID", "p").is_err());
    assert!(parse_u32(&row, 4, "gc_orgID", "p").is_err());
    assert_eq!(
        parse_u32(&row, 9, "gc_orgID", "p"),
        Err(CompilerError::InvalidInteger {
            value: String::new(),
            column: "gc_orgID".to_owned(),
            path: "p".to_owned(),
        })
    );
}

#[test]
fn existing_rules_are_kept_and_conflicts_reported() {
    let mut rules = RuleSet::new();
    let root = Rule {
        domain: "canada.ca".to_owned(),
        include_subdomains: false,
        organization: None,
    };
    assert_eq!(insert_rule(&mut rules, root), Ok(()));
    let statcan = Rule {
        domain: "statcan.gc.ca".to_owned(),
        include_subdomains: true,
        organization: organization(2293, "Statistics Canada", "Statistique Canada"),
    };
    assert_eq!(insert_rule(&mut rules, statcan), Ok(()));
    let other = Rule {
        domain: "canada.ca".to_owned(),
        include_subdomains: true,
        organization: organization(1, "A", "B"),
    };
    assert_eq!(insert_rule(&mut rules, other), Ok(()));
    assert_eq!(rules.len(), 2);
    assert!(rules.rules()[0].organization.is_none());
    let conflicting = Rule {
        domain: "statcan.gc.ca".to_owned(),
        include_subdomains: true,
        organization: organization(9, "C", "D"),
    };
    assert_eq!(
        insert_rule(&mut rules, conflicting),
        Err(CompilerError::ConflictingOrganizations {
            domain: "statcan.gc.ca".to_owned(),
            first: 2293,
            second: 9,
        })
    );
    let earlier = Rule {
        domain: "cra-arc.gc.ca".to_owned(),
        include_subdomains: true,
        organization: organization(2236, "E", "F"),
    };
    assert_eq!(insert_rule(&mut rules, earlier), Ok(()));
    let domains: Vec<&str> = rules.rules().iter().map(|r| r.domain.as_str()).collect();
    assert_eq!(domains, vec!["canada.ca", "cra-arc.gc.ca", "statcan.gc.ca"]);
}

fn sample_policy(external: Vec<ExternalDomain>) -> Policy {
    Policy {
        namespace_roots: strings(&["gc.ca", "canada.ca", "GC.CA"]),
        recognize_namespace_roots: true,
        excluded_domains: strings(&["gc.ca", "excluded.gc.ca"]),
        external_domains: external,
    }
}

fn sample_tables() -> (Option<Table>, Option<Table>, Option<Table>) {
    let concordance = table(&["gc_orgID"], &[&["2293"], &["2254"], &["9999"], &["2236"]]);
    let org_info = table(
        &["gc_orgID", "status_statut", "preferred_name", "nom_préféré"],
        &[
            &["2293", "a", "Statistics Canada", "Statistique Canada"],
            &["2254", " a ", "Canadian Food Inspection Agency", "Agence canadienne"],
            &["9999", "t", "Old", "Vieux"],
            &["2236", "", "Canada Revenue Agency", "Agence du revenu du Canada"],
        ],
    );
    let aliases = table(
        &["\u{feff}name", "gc_orgID"],
        &[
            &["analyst@StatCan.gc.ca", "2293"],
            &["https://www.inspection.gc.ca/about", "2254"],
            &["old.gc.ca", "9999"],
            &["excluded.gc.ca", "2293"],
            &["person@example.org", "2254"],
            &["www.elsewhere.com", "2293"],
            &["cra-arc.gc.ca", "2236"],
        ],
    );
    (concordance, org_info, aliases)
}

#[test]
fn compiles_rules_from_the_sources() {
    let policy = sample_policy(vec![ExternalDomain {
        domain: "Example.org".to_owned(),
        gc_org_id: 2254,
        include_subdomains: false,
    }]);
    let (concordance, org_info, aliases) = sample_tables();
    let compiled = compile_tables(
        &policy,
        &concordance,
        "concordance.csv",
        &org_info,
        "org_info.csv",
        &aliases,
        "aliases.csv",
    )
    .unwrap();
    assert_eq!(compiled.roots, strings(&["canada.ca", "gc.ca"]));
    let rules = compiled.rules.rules();
    let domains: Vec<&str> = rules.iter().map(|r| r.domain.as_str()).collect();
    assert_eq!(
        domains,
        vec![
            "canada.ca",
            "cra-arc.gc.ca",
            "example.org",
            "inspection.gc.ca",
            "statcan.gc.ca"
        ]
    );
    assert!(rules[0].organization.is_none());
    assert!(!rules[0].include_subdomains);
    assert_eq!(rules[1].organization.as_ref().unwrap().gc_org_id, 2236);
    assert!(!rules[2].include_subdomains);
    assert_eq!(rules[2].organization.as_ref().unwrap().gc_org_id, 2254);
    assert!(!rules[4].include_subdomains);
    assert_eq!(
        rules[4].organization.as_ref().unwrap().name_fr,
        "Statistique Canada"
    );
}

#[test]
fn unmatched_external_domain_is_an_error() {
    let policy = sample_policy(vec![
        ExternalDomain {
            domain: "zz.example".to_owned(),
            gc_org_id: 2293,
            include_subdomains: true,
        },
        ExternalDomain {
            domain: "missing.example".to_owned(),
            gc_org_id: 2254,
            include_subdomains: true,
        },
    ]);
    let (concordance, org_info, aliases) = sample_tables();
    let result = compile_tables(
        &policy,
        &concordance,
        "concordance.csv",
        &org_info,
        "org_info.csv",
        &aliases,
        "aliases.csv",
    );
    assert_eq!(
        result.err(),
        Some(CompilerError::UnverifiedExternalDomain {
            domain: "missing.example".to_owned(),
            gc_org_id: 2254,
        })
    );
}

#[test]
fn missing_column_and_bad_ids_are_errors() {
    let policy = sample_policy(Vec::new());
    let (_, org_info, aliases) = sample_tables();
    let concordance = table(&["id"], &[&["1"]]);
    let result = compile_tables(
        &policy,
        &concordance,
        "concordance.csv",
        &org_info,
        "org_info.csv",
        &aliases,
        "aliases.csv",
    );
    assert_eq!(
        result.err(),
        Some(CompilerError::MissingColumn {
            column: "gc_orgID".to_owned(),
            path: "concordance.csv".to_owned(),
        })
    );
    let concordance = table(&["gc_orgID"], &[&["1"], &["x"]]);
    let result = compile_tables(
        &policy,
        &concordance,
        "concordance.csv",
        &org_info,
        "org_info.csv",
        &aliases,
        "aliases.csv",
    );
    assert_eq!(
        result.err(),
        Some(CompilerError::InvalidInteger {
            value: "x".to_owned(),
            column: "gc_orgID".to_owned(),
            path: "concordance.csv".to_owned(),
        })
    );
}

#[test]
fn conflicting_aliases_are_an_error() {
    let policy = sample_policy(Vec::new());
    let (concordance, org_info, _) = sample_tables();
    let aliases = table(
        &["name", "gc_orgID"],
        &[&["statcan.gc.ca", "2293"], &["StatCan.gc.ca", "2254"]],
    );
    let result = compile_tables(
        &policy,
        &concordance,
        "concordance.csv",
        &org_info,
        "org_info.csv",
        &aliases,
        "aliases.csv",
    );
    assert_eq!(
        result.err(),
        Some(CompilerError::ConflictingOrganizations {
            domain: "statcan.gc.ca".to_owned(),
            first: 2293,
            second: 2254,
        })
    );
}

#[test]
fn renders_the_generated_source() {
    let mut rules = RuleSet::new();
    insert_rule(
        &mut rules,
        Rule {
            domain: "statcan.gc.ca".to_owned(),
            include_subdomains: true,
            organization: organization(2293, "Statistics Canada", "Statistique Canada"),
        },
    )
    .unwrap();
    insert_rule(
        &mut rules,
        Rule {
            domain: "canada.ca".to_owned(),
            include_subdomains: false,
            organization: None,
        },
    )
    .unwrap();
    let text = render_generated("sha256:x", &strings(&["canada.ca"]), rules.rules());
    let expected_tail = [
        "use crate::DomainRule;\n\n",
        "pub const DATASET_VERSION: &str = \"sha256:x\";\n\n",
        "pub static NAMESPACE_ROOTS: &[&str] = &[\n",
        "    \"canada.ca\",\n",
        "];\n\npub static RULES: &[DomainRule] = &[\n",
        "    DomainRule {\n",
        "        domain: \"canada.ca\",\n",
        "        include_subdomains: false,\n",
        "        gc_org_id: None,\n",
        "        organization_en: None,\n",
        "        organization_fr: None,\n",
        "    },\n",
        "    DomainRule {\n",
        "        domain: \"statcan.gc.ca\",\n",
        "        include_subdomains: true,\n",
        "        gc_org_id: Some(2293),\n",
        "        organization_en: Some(\"Statistics Canada\"),\n",
        "        organization_fr: Some(\"Statistique Canada\"),\n",
        "    },\n",
        "];\n",
    ]
    .concat();
    assert!(text.ends_with(&expected_tail), "{text}");
    assert!(text.starts_with("// "));
}

#[test]
fn source_hashes_and_dataset_version() {
    let abc = "ba7816bf8f01cfea414140de5dae2223b00361a396177a9cb410ff61f20015ad";
    assert_eq!(verify_source_hash(b"abc", abc, "a.csv"), Ok(()));
    assert_eq!(
        verify_source_hash(b"abd", abc, "a.csv").err().map(|e| matches!(
            e,
            CompilerError::SourceHashMismatch { .. }
        )),
        Some(true)
    );
    let version = dataset_version(&vec![
        VersionInput {
            file_name: "a.csv".to_owned(),
            bytes: b"x".to_vec(),
        },
        VersionInput {
            file_name: "b.yaml".to_owned(),
            bytes: Vec::new(),
        },
    ]);
    assert_eq!(
        version,
        "sha256:8e9596a22597dfdc6abf7feb7f42d8fbc5cdda74be101ff2600d11a123fb02ea"
    );
}

const CONCORDANCE_CSV: &[u8] = b"gc_orgID\n2293\n2254\n";
const ORG_INFO_CSV: &[u8] = "gc_orgID,status_statut,preferred_name,nom_préféré\n\
2293,a,Statistics Canada,Statistique Canada\n\
2254,a,Canadian Food Inspection Agency,Agence canadienne d'inspection des aliments\n"
    .as_bytes();

#[test]
fn compiles_rules_from_csv_bytes() {
    let policy = sample_policy(Vec::new());
    let aliases = b"name,gc_orgID\nstatcan.gc.ca,2293\n\"https://www.inspection.gc.ca/about\",2254\n";
    let compiled = compile_dataset(
        &policy,
        CONCORDANCE_CSV,
        "concordance.csv",
        ORG_INFO_CSV,
        "org_info.csv",
        aliases,
        "aliases.csv",
    )
    .unwrap();
    let rules = compiled.rules.rules();
    let domains: Vec<&str> = rules.iter().map(|r| r.domain.as_str()).collect();
    assert_eq!(domains, vec!["canada.ca", "inspection.gc.ca", "statcan.gc.ca"]);
    assert!(!rules[2].include_subdomains);
    assert_eq!(rules[2].organization.as_ref().unwrap().name_en, "Statistics Canada");
    assert_eq!(
        rules[1].organization.as_ref().unwrap().name_fr,
        "Agence canadienne d'inspection des aliments"
    );
}

#[test]
fn unreadable_header_row_is_a_malformed_table() {
    let policy = sample_policy(Vec::new());
    let result = compile_dataset(
        &policy,
        b"gc_\xffID\n2293\n",
        "concordance.csv",
        ORG_INFO_CSV,
        "org_info.csv",
        b"name,gc_orgID\n",
        "aliases.csv",
    );
    assert_eq!(
        result.err(),
        Some(CompilerError::MalformedTable { path: "concordance.csv".to_owned() })
    );
}

#[test]
fn record_of_the_wrong_length_is_a_malformed_table() {
    let policy = sample_policy(Vec::new());
    let result = compile_dataset(
        &policy,
        CONCORDANCE_CSV,
        "concordance.csv",
        ORG_INFO_CSV,
        "org_info.csv",
        b"name,gc_orgID\nstatcan.gc.ca,2293\ninspection.gc.ca,2254,extra\n",
        "aliases.csv",
    );
    assert_eq!(
        result.err(),
        Some(CompilerError::MalformedTable { path: "aliases.csv".to_owned() })
    );
}

#[test]
fn a_bad_record_before_a_malformed_one_is_reported_first() {
    let policy = sample_policy(Vec::new());
    let result = compile_dataset(
        &policy,
        b"gc_orgID\n2293\nx\n1,2\n",
        "concordance.csv",
        ORG_INFO_CSV,
        "org_info.csv",
        b"name,gc_orgID\n",
        "aliases.csv",
    );
    assert_eq!(
        result.err(),
        Some(CompilerError::InvalidInteger {
            value: "x".to_owned(),
            column: "gc_orgID".to_owned(),
            path: "concordance.csv".to_owned(),
        })
    );
}

#[test]
fn failed_alias_load_keeps_the_rules_read_before_it() {
    let aliases = Table {
        headers: strings(&["name", "gc_orgID"]),
        records: vec![
            strings(&["statcan.gc.ca", "2293"]),
            strings(&["inspection.gc.ca", "x"]),
            strings(&["cra-arc.gc.ca", "2293"]),
        ],
        complete: true,
    };
    let mut organizations = HashMap::new();
    organizations.insert(
        2293u32,
        ("Statistics Canada".to_owned(), "Statistique Canada".to_owned()),
    );
    let mut rules = RuleSet::new();
    let result = load_alias_rules(
        &aliases,
        "aliases.csv",
        &organizations,
        &BTreeSet::from([2293u32]),
        &strings(&["gc.ca"]),
        &ExternalDomains::new(),
        &Vec::new(),
        &mut rules,
    );
    assert_eq!(
        result.err(),
        Some(CompilerError::InvalidInteger {
            value: "x".to_owned(),
            column: "gc_orgID".to_owned(),
            path: "aliases.csv".to_owned(),
        })
    );
    let domains: Vec<String> = rules.rules().iter().map(|r| r.domain.clone()).collect();
    assert_eq!(domains, strings(&["statcan.gc.ca"]));
    assert!(!rules.rules()[0].include_subdomains);
}

#[test]
fn normalizing_a_normalized_domain_changes_nothing() {
    for value in [" StatCan.GC.CA. ", "tbs-sct.gc.ca", "bücher.example"] {
        let once = normalize_domain(value).unwrap();
        assert_eq!(normalize_domain(&once), Some(once.clone()), "{value}");
    }
    assert_eq!(normalize_domain("statcan.gc.ca"), Some("statcan.gc.ca".to_owned()));
}

#[test]
fn rendered_names_are_string_literals_that_read_back() {
    let mut rules = RuleSet::new();
    insert_rule(
        &mut rules,
        Rule {
            domain: "statcan.gc.ca".to_owned(),
            include_subdomains: false,
            organization: organization(2293, "Say \"hi\" \\ now", "Ligne\nnouvelle"),
        },
    )
    .unwrap();
    let text = render_generated("v\"1", &strings(&["gc.ca"]), rules.rules());
    assert!(text.contains("pub const DATASET_VERSION: &str = \"v\\\"1\";"));
    assert!(text.contains("organization_en: Some(\"Say \\\"hi\\\" \\\\ now\"),"));
    assert!(text.contains("organization_fr: Some(\"Ligne\\nnouvelle\"),"));
}

#[test]
fn dataset_version_is_seventy_one_characters() {
    let version = dataset_version(&vec![VersionInput {
        file_name: "a.csv".to_owned(),
        bytes: b"x".to_vec(),
    }]);
    assert_eq!(version.len(), 71);
    assert!(version.starts_with("sha256:"));
}

#[test]
fn a_later_organization_row_replaces_an_earlier_one() {
    let policy = sample_policy(Vec::new());
    let concordance = table(&["gc_orgID"], &[&["2293"]]);
    let org_info = table(
        &["gc_orgID", "status_statut", "preferred_name", "nom_préféré"],
        &[
            &["2293", "a", "Old name", "Ancien nom"],
            &["2293", "a", "Statistics Canada", "Statistique Canada"],
        ],
    );
    let aliases = table(&["name", "gc_orgID"], &[&["statcan.gc.ca", "2293"]]);
    let compiled = compile_tables(
        &policy,
        &concordance,
        "concordance.csv",
        &org_info,
        "org_info.csv",
        &aliases,
        "aliases.csv",
    )
    .unwrap();
    let rules = compiled.rules.rules();
    let statcan = rules.iter().find(|r| r.domain == "statcan.gc.ca").unwrap();
    assert_eq!(statcan.organization.as_ref().unwrap().name_en, "Statistics Canada");
}
