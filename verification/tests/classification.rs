use gc_email_validator::classify::{classify_domain, find_rule, is_in_namespace};
use gc_email_validator::email::{extract_domain, is_valid_local_byte, validate_domain};
use gc_email_validator::{classify_email, MatchType, ValidationError};

#[test]
fn recognizes_exact_and_child_domains_case_insensitively() {
    let exact = classify_email("Ada.Lovelace@STATCAN.GC.CA").unwrap();
    assert!(exact.is_government_of_canada);
    assert_eq!(exact.domain, "statcan.gc.ca");
    assert_eq!(exact.matched_domain, Some("statcan.gc.ca"));

    let child = classify_email("ada@mail.statcan.gc.ca").unwrap();
    assert!(child.is_government_of_canada);
    assert_eq!(child.matched_domain, Some("statcan.gc.ca"));
}

#[test]
fn distinguishes_namespace_ownership_from_a_recognized_domain() {
    let result = classify_email("person@unlisted.canada.ca").unwrap();
    assert!(!result.is_government_of_canada);
    assert!(result.is_government_controlled_namespace);
    assert_eq!(result.match_type, MatchType::NamespaceOnly);
}

#[test]
fn rejects_suffix_confusion() {
    for email in [
        "person@evilgc.ca",
        "person@statcan.gc.ca.example.com",
        "person@gc.ca.example.org",
    ] {
        let result = classify_email(email).unwrap();
        assert!(!result.is_government_of_canada, "{email}");
        assert!(!result.is_government_controlled_namespace, "{email}");
    }
}

#[test]
fn rejects_ambiguous_or_unsupported_email_syntax() {
    for email in [
        "Display Name <person@statcan.gc.ca>",
        "person@@statcan.gc.ca",
        ".person@statcan.gc.ca",
        "person..name@statcan.gc.ca",
        "person@localhost",
        "person@-statcan.gc.ca",
        " person@statcan.gc.ca",
    ] {
        assert!(classify_email(email).is_err(), "{email}");
    }
}

#[test]
fn recognized_domain_reports_its_organization() {
    let result = classify_email("analyst@statcan.gc.ca").unwrap();
    assert_eq!(result.match_type, MatchType::RecognizedDomain);
    assert!(result.is_government_controlled_namespace);
    let organization = result.organization.unwrap();
    assert_eq!(organization.gc_org_id, 2293);
    assert_eq!(organization.name_en, "Statistics Canada");
    assert_eq!(organization.name_fr, "Statistique Canada");
    assert!(result.dataset_version.starts_with("sha256:"));
}

#[test]
fn namespace_root_is_recognized_without_an_organization() {
    let result = classify_email("person@canada.ca").unwrap();
    assert!(result.is_government_of_canada);
    assert_eq!(result.matched_domain, Some("canada.ca"));
    assert_eq!(result.match_type, MatchType::RecognizedDomain);
    assert!(result.organization.is_none());
}

#[test]
fn namespace_root_without_a_rule_is_only_a_namespace() {
    let root = classify_email("person@gc.ca").unwrap();
    assert!(!root.is_government_of_canada);
    assert!(root.is_government_controlled_namespace);
    assert_eq!(root.match_type, MatchType::NamespaceOnly);

    let unknown = classify_email("person@unknown.gc.ca").unwrap();
    assert!(!unknown.is_government_of_canada);
    assert!(unknown.is_government_controlled_namespace);
}

#[test]
fn outside_domain_has_no_match() {
    let result = classify_email("person@example.com").unwrap();
    assert!(!result.is_government_of_canada);
    assert!(!result.is_government_controlled_namespace);
    assert_eq!(result.match_type, MatchType::NoMatch);
    assert_eq!(result.matched_domain, None);
    assert!(result.organization.is_none());
}

#[test]
fn deep_child_matches_nearest_parent_rule() {
    let result = classify_email("person@a.b.mail.statcan.gc.ca").unwrap();
    assert!(result.is_government_of_canada);
    assert_eq!(result.matched_domain, Some("statcan.gc.ca"));
    assert_eq!(result.domain, "a.b.mail.statcan.gc.ca");
}

#[test]
fn child_of_an_exact_only_domain_is_namespace_only() {
    let result = classify_email("attacker@foo.inspection.gc.ca").unwrap();
    assert!(!result.is_government_of_canada);
    assert!(result.is_government_controlled_namespace);
    assert_eq!(result.match_type, MatchType::NamespaceOnly);
    assert_eq!(result.matched_domain, None);
    assert!(result.organization.is_none());
}

#[test]
fn local_part_does_not_change_the_classification() {
    let first = classify_email("first.person@tbs-sct.gc.ca").unwrap();
    let second = classify_email("other+tag@tbs-sct.gc.ca").unwrap();
    assert_eq!(first, second);
    assert!(!first.domain.contains("person"));
}

#[test]
fn each_validation_error_has_its_input() {
    let long = format!("{}@statcan.gc.ca", "a".repeat(250));
    assert_eq!(classify_email(&long), Err(ValidationError::EmailTooLong));
    assert_eq!(classify_email("no-at-sign"), Err(ValidationError::InvalidEmail));
    assert_eq!(classify_email("person\u{7}@statcan.gc.ca"), Err(ValidationError::InvalidEmail));
    assert_eq!(classify_email(""), Err(ValidationError::InvalidEmail));
    assert_eq!(classify_email("person@localhost"), Err(ValidationError::InvalidDomain));
    assert_eq!(classify_email("person@statcan..gc.ca"), Err(ValidationError::InvalidDomain));
}

#[test]
fn local_part_limits() {
    let sixty_four = format!("{}@statcan.gc.ca", "a".repeat(64));
    assert!(classify_email(&sixty_four).is_ok());
    let sixty_five = format!("{}@statcan.gc.ca", "a".repeat(65));
    assert_eq!(classify_email(&sixty_five), Err(ValidationError::InvalidEmail));
    assert_eq!(classify_email("person.@statcan.gc.ca"), Err(ValidationError::InvalidEmail));
    assert!(classify_email("o'brien+x@statcan.gc.ca").is_ok());
    assert!(is_valid_local_byte(b'~'));
    assert!(!is_valid_local_byte(b'<'));
    assert!(!is_valid_local_byte(0xc3));
}

#[test]
fn international_domains_are_converted_to_ascii() {
    let result = classify_email("person@bücher.example").unwrap();
    assert_eq!(result.domain, "xn--bcher-kva.example");
}

#[test]
fn extract_domain_lowercases_the_ascii_form() {
    assert_eq!(extract_domain("A@Mail.StatCan.GC.CA").unwrap(), "mail.statcan.gc.ca");
}

#[test]
fn domain_validation_checks_each_label() {
    assert!(validate_domain("a.b").is_ok());
    assert!(validate_domain("a-.b").is_err());
    assert!(validate_domain("ab").is_err());
    let long_label = format!("{}.ca", "a".repeat(64));
    assert!(validate_domain(&long_label).is_err());
    let max_label = format!("{}.ca", "a".repeat(63));
    assert!(validate_domain(&max_label).is_ok());
}

#[test]
fn classify_domain_is_exact_on_a_validated_domain() {
    let result = classify_domain("cra-arc.gc.ca".to_owned());
    assert_eq!(result.matched_domain, Some("cra-arc.gc.ca"));
    assert_eq!(result.organization.unwrap().gc_org_id, 2236);
}

#[test]
fn error_messages() {
    assert_eq!(ValidationError::EmailTooLong.message(), "email exceeds 254 bytes");
    assert_eq!(ValidationError::InvalidDomain.message(), "email domain is invalid");
    assert_eq!(
        ValidationError::InvalidEmail.message(),
        "email must be a single common internet email address"
    );
}

#[test]
fn find_rule_and_namespace_lookups() {
    assert_eq!(find_rule("mail.statcan.gc.ca").map(|r| r.domain), Some("statcan.gc.ca"));
    assert_eq!(find_rule("canada.ca").map(|r| r.domain), Some("canada.ca"));
    assert!(find_rule("unlisted.canada.ca").is_none());
    assert!(find_rule("evilgc.ca").is_none());
    assert!(is_in_namespace("gc.ca"));
    assert!(is_in_namespace("x.y.canada.ca"));
    assert!(!is_in_namespace("evilcanada.ca"));
}

#[test]
fn domain_case_and_local_part_do_not_change_the_classification() {
    let first = classify_email("Someone@StatCan.GC.Ca").unwrap();
    let second = classify_email("other@statcan.gc.ca").unwrap();
    assert_eq!(first, second);
    assert_eq!(first.domain, "statcan.gc.ca");
}
