use gc_email_validator::cli::{parse_arguments, Action};
use gc_email_validator::http::{classification_reply, health, route_request, Route};
use gc_email_validator::ValidationError;

fn args(values: &[&str]) -> Vec<Option<String>> {
    values.iter().map(|v| Some(v.to_string())).collect()
}

#[test]
fn parses_an_email_and_pretty_flag() {
    match parse_arguments(args(&["--pretty", "person@canada.ca"])) {
        Ok(Action::Classify(arguments)) => {
            assert_eq!(arguments.email, "person@canada.ca");
            assert!(arguments.pretty);
        }
        other => panic!("unexpected {other:?}"),
    }
}

#[test]
fn help_and_version_win() {
    assert!(matches!(parse_arguments(args(&["-h", "x@y.ca"])), Ok(Action::Help)));
    assert!(matches!(parse_arguments(args(&["--version"])), Ok(Action::Version)));
    assert!(matches!(parse_arguments(args(&["a@b.ca", "-V"])), Ok(Action::Version)));
}

#[test]
fn argument_errors() {
    assert_eq!(
        parse_arguments(args(&["--bogus"])).err(),
        Some("unknown option \"--bogus\"".to_owned())
    );
    assert_eq!(
        parse_arguments(args(&[])).err(),
        Some("provide exactly one email address".to_owned())
    );
    assert_eq!(
        parse_arguments(args(&["a@b.ca", "c@d.ca"])).err(),
        Some("provide exactly one email address".to_owned())
    );
}

#[test]
fn invalid_utf8_argument_is_an_error_unless_parsing_finished() {
    assert_eq!(
        parse_arguments(vec![Some("a@b.ca".to_owned()), None]).err(),
        Some("arguments must be valid UTF-8".to_owned())
    );
    assert!(matches!(
        parse_arguments(vec![Some("--help".to_owned()), None]),
        Ok(Action::Help)
    ));
}

#[test]
fn double_dash_ends_options() {
    match parse_arguments(args(&["--", "-odd@canada.ca"])) {
        Ok(Action::Classify(arguments)) => {
            assert_eq!(arguments.email, "-odd@canada.ca");
            assert!(!arguments.pretty);
        }
        other => panic!("unexpected {other:?}"),
    }
}

#[test]
fn routes_requests() {
    assert_eq!(route_request("/health", "GET", 0), Route::Health);
    assert_eq!(route_request("/other", "POST", 0), Route::NotFound);
    assert_eq!(
        route_request("/v1/email-domain-classifications", "GET", 0),
        Route::MethodNotAllowed
    );
    assert_eq!(
        route_request("/v1/email-domain-classifications", "POST", 4097),
        Route::PayloadTooLarge
    );
    assert_eq!(
        route_request("/v1/email-domain-classifications", "POST", 4096),
        Route::Classify
    );
    let reply = Route::MethodNotAllowed.error_reply().unwrap();
    assert_eq!(reply.status, 405);
    assert_eq!(reply.allow, Some("POST"));
    assert_eq!(Route::NotFound.error_reply().unwrap().status, 404);
    assert_eq!(Route::PayloadTooLarge.error_reply().unwrap().status, 413);
    assert!(Route::Classify.error_reply().is_none());
}

#[test]
fn malformed_payload_is_a_client_error() {
    let reply = classification_reply(None).unwrap_err();
    assert_eq!(reply.status, 400);
    assert_eq!(reply.code, "invalidJson");
}

#[test]
fn classification_reply_does_not_echo_the_local_part() {
    let classification = classification_reply(Some("private.person@statcan.gc.ca")).unwrap();
    assert!(classification.is_government_of_canada);
    assert_eq!(classification.domain, "statcan.gc.ca");
    assert!(!format!("{classification:?}").contains("private.person"));
    let reply = classification_reply(Some("not-an-email")).unwrap_err();
    assert_eq!(reply.status, 422);
    assert_eq!(reply.code, "invalidEmail");
    assert_eq!(reply.message, ValidationError::InvalidEmail.message());
}

#[test]
fn health_reports_the_dataset() {
    let (version, count) = health();
    assert!(version.starts_with("sha256:"));
    assert_eq!(count, 5);
}
