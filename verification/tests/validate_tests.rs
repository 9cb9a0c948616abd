use cwl_mount::validate::{clap_validate_cwl_log_group_name, is_valid_tps, valid_cwl_log_group_name};

#[test]
fn test_valid_cwl_log_group_name_matches() {
    assert!(valid_cwl_log_group_name("Log-Group-03-/.#"));
}

#[test]
fn test_clap_validate_cwl_log_group_name_matches() {
    assert!(clap_validate_cwl_log_group_name("Log-Group-03-/.#").is_ok());
}

#[test]
fn test_valid_cwl_log_group_name_does_not_match_chars() {
    assert!(!valid_cwl_log_group_name("log-group+"));
}

#[test]
fn test_clap_validate_cwl_log_group_name_does_not_match_chars() {
    assert!(clap_validate_cwl_log_group_name("log-group+").is_err());
}

#[test]
fn test_valid_cwl_log_group_name_does_not_match_too_long() {
    let log_group_name: String = (0..1000).map(|_| "a").collect();
    assert!(!valid_cwl_log_group_name(&log_group_name));
}

#[test]
fn group_name_validator_reports_the_offending_value() {
    let err = clap_validate_cwl_log_group_name("bad name").unwrap_err();
    assert_eq!(err, "bad name is not a valid CloudWatch Logs log group name");
    assert!(clap_validate_cwl_log_group_name("").is_err());
}

#[test]
fn tps_accepts_positive_integers() {
    assert!(is_valid_tps(String::from("5")).is_ok());
    assert!(is_valid_tps(String::from("+7")).is_ok());
    assert!(is_valid_tps(String::from("1")).is_ok());
}

#[test]
fn tps_rejects_zero_with_its_own_message() {
    let err = is_valid_tps(String::from("0")).unwrap_err();
    assert_eq!(err, "Zero is not a valid transactions per second value");
}

#[test]
fn tps_rejects_garbage_and_overflow() {
    let err = is_valid_tps(String::from("abc")).unwrap_err();
    assert_eq!(
        err,
        "abc isn't a valid transactions per second value because not a positive integer"
    );
    assert!(is_valid_tps(String::from("")).is_err());
    assert!(is_valid_tps(String::from("-3")).is_err());
    assert!(is_valid_tps(String::from("99999999999999999999999999")).is_err());
}
