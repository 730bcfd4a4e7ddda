use repo_review::review_mode::ReviewMode;
use std::str::FromStr;

#[test]
fn identities_are_lowercase_names() {
    assert_eq!(ReviewMode::Calm.as_str(), "calm");
    assert_eq!(ReviewMode::Informative.as_str(), "informative");
    assert_eq!(ReviewMode::Hardcore.as_str(), "hardcore");
}

#[test]
fn descriptions_per_mode() {
    assert_eq!(ReviewMode::Calm.description(), "Teaching tone, encouraging, suggestive");
    assert_eq!(ReviewMode::Informative.description(), "Structured, technical depth, prioritized");
    assert_eq!(
        ReviewMode::Hardcore.description(),
        "Zero tolerance, aggressive critique, flags anti-patterns"
    );
}

#[test]
fn parse_ignores_case() {
    assert_eq!(ReviewMode::parse("HARDCORE").unwrap(), ReviewMode::Hardcore);
    assert_eq!(ReviewMode::parse("hardcore").unwrap(), ReviewMode::Hardcore);
    assert_eq!(ReviewMode::parse("Calm").unwrap(), ReviewMode::Calm);
    assert_eq!(ReviewMode::parse("InFoRmAtIvE").unwrap(), ReviewMode::Informative);
}

#[test]
fn parse_unknown_lists_choices() {
    let err = ReviewMode::parse("chill").unwrap_err().to_string();
    assert!(err.contains("chill"));
    assert!(err.contains("calm"));
    assert!(err.contains("informative"));
    assert!(err.contains("hardcore"));
}

#[test]
fn from_str_matches_parse() {
    assert_eq!(ReviewMode::from_str("CALM").unwrap(), ReviewMode::Calm);
    assert!(ReviewMode::from_str("").is_err());
}

#[test]
fn identity_parse_is_exact() {
    assert_eq!(ReviewMode::from_identity("calm"), Some(ReviewMode::Calm));
    assert_eq!(ReviewMode::from_identity("CALM"), None);
    assert_eq!(ReviewMode::from_identity("hardcore "), None);
}

#[test]
fn identity_round_trips_through_parse() {
    for m in [ReviewMode::Calm, ReviewMode::Informative, ReviewMode::Hardcore] {
        assert_eq!(ReviewMode::parse(m.as_str()).unwrap(), m);
    }
}

#[test]
fn unknown_mode_message_text() {
    assert_eq!(
        repo_review::review_mode::unknown_mode_message("chill"),
        "Unknown review mode: 'chill'. Choose calm, informative, or hardcore."
    );
}

#[test]
fn parse_error_displays_message_of_lowercased_input() {
    let err = ReviewMode::parse("CHILL").unwrap_err().to_string();
    assert_eq!(err, "Unknown review mode: 'chill'. Choose calm, informative, or hardcore.");
}
