use cwl_mount::calendar::civil_to_millis;
use cwl_mount::format::{format_rfc3339_millis, FilteredLogEvent, LogFormatter};
use cwl_mount::format::{clap_validate_output_format, FormatCwlLogEventError};

fn get_test_event_1() -> FilteredLogEvent {
    FilteredLogEvent::new(
        String::from("/aws/logs/log-group"),
        String::from("event-id"),
        civil_to_millis(2014, 7, 8, 9, 10, 11, 123),
        String::from("log-stream-name"),
        String::from("message"),
        civil_to_millis(2014, 7, 8, 9, 10, 10, 789),
    )
}

#[test]
fn default_format_passes() {
    let formatter =
        LogFormatter::new("[${log_stream_name}] ${message}").expect("default format should pass");
    let actual_output = formatter.format(get_test_event_1());
    assert_eq!("[log-stream-name] message", actual_output);
}

#[test]
fn default_format_without_braces_passes() {
    let formatter = LogFormatter::new("[$log_stream_name] $message")
        .expect("default format without braces should pass");
    let actual_output = formatter.format(get_test_event_1());
    assert_eq!("[log-stream-name] message", actual_output);
}

#[test]
fn timestamp_format_passes() {
    let formatter = LogFormatter::new("$timestamp - $message").expect("timestamp format should pass");
    let actual_output = formatter.format(get_test_event_1());
    assert_eq!("2014-07-08T09:10:10.789Z - message", actual_output);
}

#[test]
fn just_escaped_delimiter_passes() {
    let formatter = LogFormatter::new("$$").expect("escaped delimiter should pass");
    let actual_output = formatter.format(get_test_event_1());
    assert_eq!("$", actual_output);
}

#[test]
fn just_delimiter_fails() {
    let formatter = LogFormatter::new("$");
    assert!(formatter.is_err());
}

#[test]
fn unknown_variable_is_reported_by_name() {
    let err = LogFormatter::new("$message $nonsense").unwrap_err();
    match err {
        FormatCwlLogEventError::UnknownFormatVariable(name) => assert_eq!(name, "nonsense"),
        other => panic!("unexpected error: {:?}", other),
    }
}

#[test]
fn unterminated_brace_fails_to_compile() {
    let err = LogFormatter::new("${message").unwrap_err();
    assert!(matches!(err, FormatCwlLogEventError::CompileError(_)));
}

#[test]
fn ingestion_time_formats_too() {
    let formatter = LogFormatter::new("$ingestion_time").expect("format should pass");
    let actual_output = formatter.format(get_test_event_1());
    assert_eq!("2014-07-08T09:10:11.123Z", actual_output);
}

#[test]
fn validate_output_format_accepts_and_rejects() {
    assert!(clap_validate_output_format("[${log_stream_name}] ${message}").is_ok());
    assert_eq!(
        clap_validate_output_format("$").unwrap_err(),
        "\ninvalid format string"
    );
    assert_eq!(
        clap_validate_output_format("$nonsense").unwrap_err(),
        "\nnonsense"
    );
}

#[test]
fn rfc3339_renders_the_epoch() {
    assert_eq!(format_rfc3339_millis(0), "1970-01-01T00:00:00.000Z");
    let leap = civil_to_millis(2020, 2, 29, 23, 59, 59, 999);
    assert_eq!(format_rfc3339_millis(leap), "2020-02-29T23:59:59.999Z");
}
