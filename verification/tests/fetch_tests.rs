use cwl_mount::cache::{cache_get, is_cacheable, new_logs_cache, store_if_cacheable};
use cwl_mount::cache::{CacheKey, TimeBounds};
use cwl_mount::calendar::civil_to_millis;
use cwl_mount::events::{CloudWatchLogsError, FilteredLogEvent, RawFilteredLogEvent};
use cwl_mount::fetch::{
    extend_log_events, extend_log_group_names, filter_matching_groups, finish_logs_to_display,
    first_event_search_bounds, first_event_time, matcher_pattern_for_request,
};
use cwl_mount::fetch::{DescribeLogGroupsPage, FilterLogEventsPage};
use cwl_mount::matcher::{validate_regex, LogGroupNameMatcher};
use cwl_mount::render::merge_and_render;

fn event(stream: &str, msg: &str, ts: i64) -> FilteredLogEvent {
    FilteredLogEvent {
        log_group_name: String::from("g"),
        event_id: String::from("id"),
        ingestion_time: ts,
        log_stream_name: String::from(stream),
        message: String::from(msg),
        timestamp: ts,
    }
}

fn complete_raw(ts: i64) -> RawFilteredLogEvent {
    RawFilteredLogEvent {
        event_id: Some(String::from("id")),
        ingestion_time: Some(ts),
        log_stream_name: Some(String::from("s")),
        message: Some(String::from("m")),
        timestamp: Some(ts),
    }
}

#[test]
fn rendering_merges_in_timestamp_order() {
    let t = civil_to_millis(2020, 1, 1, 0, 0, 0, 0);
    let blob = merge_and_render(vec![vec![event("s1", "a", t)], vec![event("s2", "b", t + 1)]]);
    assert_eq!(blob, b"[s1] a\n[s2] b".to_vec());
    assert_eq!(blob.len(), 13);

    // a tie keeps fan-in order; an earlier timestamp moves forward
    let blob2 = merge_and_render(vec![
        vec![event("s1", "late", t + 5), event("s1", "tie", t)],
        vec![event("s2", "tie2", t), event("s2", "early", t - 3)],
    ]);
    assert_eq!(
        blob2,
        b"[s2] early\n[s1] tie\n[s2] tie2\n[s1] late".to_vec()
    );

    assert_eq!(merge_and_render(vec![]), Vec::<u8>::new());
}

#[test]
fn cache_round_trip_returns_identical_bytes() {
    let mut cache = new_logs_cache(60);
    let start = civil_to_millis(2020, 1, 1, 0, 0, 0, 0);
    let end = start + 59_999;
    let key = CacheKey {
        matcher_pattern: String::from("^g$"),
        time_bounds: TimeBounds { first_event_time: start, last_event_time: end },
    };
    let blob = b"[s1] a".to_vec();
    let now = end + 300_001;
    assert!(is_cacheable(now, &key));
    assert!(store_if_cacheable(&mut cache, now, key.clone(), &blob));
    let hit = cache_get(&mut cache, &key).expect("stored entry");
    assert_eq!(hit, blob);
}

#[test]
fn fresh_windows_are_not_cached() {
    let mut cache = new_logs_cache(60);
    let start = civil_to_millis(2020, 1, 1, 0, 0, 0, 0);
    let end = start + 59_999;
    let key = CacheKey {
        matcher_pattern: String::from("^g$"),
        time_bounds: TimeBounds { first_event_time: start, last_event_time: end },
    };
    let blob = b"[s1] a".to_vec();
    let now = end + 300_000;
    assert!(!is_cacheable(now, &key));
    assert!(!store_if_cacheable(&mut cache, now, key.clone(), &blob));
    assert!(cache_get(&mut cache, &key).is_none());
}

#[test]
fn finish_logs_to_display_renders_and_caches() {
    let mut cache = new_logs_cache(60);
    let matcher = LogGroupNameMatcher::new("^g$").expect("pattern compiles");
    let start = civil_to_millis(2020, 1, 1, 0, 0, 0, 0);
    let end = start + 59_999;
    let now = end + 600_000;
    let blob = finish_logs_to_display(
        &mut cache,
        now,
        &matcher,
        start,
        end,
        vec![vec![event("s1", "a", start)]],
    );
    assert_eq!(blob, b"[s1] a".to_vec());
    let key = CacheKey {
        matcher_pattern: String::from("^g$"),
        time_bounds: TimeBounds { first_event_time: start, last_event_time: end },
    };
    assert_eq!(cache_get(&mut cache, &key), Some(blob));
}

#[test]
fn matcher_selects_groups_by_regex() {
    let matcher = LogGroupNameMatcher::new("^g.$").expect("pattern compiles");
    assert!(matcher.is_match("g1"));
    assert!(matcher.is_match("g2"));
    assert!(!matcher.is_match("g12"));
    assert!(!matcher.is_match("h1"));
    assert_eq!(matcher.pattern().as_str(), "^g.$");

    let names = vec![String::from("g1"), String::from("g12"), String::from("h1")];
    let kept = filter_matching_groups(&names, &matcher).expect("one group matches");
    assert_eq!(kept, vec![String::from("g1")]);

    let none = vec![String::from("h1")];
    match filter_matching_groups(&none, &matcher) {
        Err(CloudWatchLogsError::NoCloudWatchLogGroupsMatchFilter(p)) => assert_eq!(p, "^g.$"),
        other => panic!("unexpected result: {:?}", other),
    }

    assert!(LogGroupNameMatcher::new("(").is_err());
    assert!(validate_regex("^g.$").is_ok());
    assert_eq!(
        validate_regex("(").unwrap_err(),
        "( is not a valid regular expression"
    );
}

#[test]
fn display_requests_need_exactly_one_selector() {
    let p = matcher_pattern_for_request(Some(String::from("grp")), None).expect("name selects");
    assert_eq!(p, "^grp$");
    let f = matcher_pattern_for_request(None, Some(String::from("g.*"))).expect("filter selects");
    assert_eq!(f, "g.*");
    assert!(matches!(
        matcher_pattern_for_request(None, None),
        Err(CloudWatchLogsError::InvalidGetLogsToDisplayMessage(_))
    ));
    assert!(matches!(
        matcher_pattern_for_request(Some(String::from("a")), Some(String::from("b"))),
        Err(CloudWatchLogsError::InvalidGetLogsToDisplayMessage(_))
    ));
}

#[test]
fn group_name_pages_accumulate_until_exhausted() {
    let mut names: Vec<String> = Vec::new();
    let done = extend_log_group_names(
        &mut names,
        DescribeLogGroupsPage {
            log_groups: Some(vec![String::from("a"), String::from("b")]),
            next_token: Some(String::from("t1")),
        },
    );
    assert!(!done);
    let done = extend_log_group_names(
        &mut names,
        DescribeLogGroupsPage {
            log_groups: Some(vec![String::from("c")]),
            next_token: None,
        },
    );
    assert!(done);
    assert_eq!(names, vec![String::from("a"), String::from("b"), String::from("c")]);

    let done = extend_log_group_names(
        &mut names,
        DescribeLogGroupsPage { log_groups: Some(vec![]), next_token: Some(String::from("t2")) },
    );
    assert!(done);
    let done = extend_log_group_names(
        &mut names,
        DescribeLogGroupsPage { log_groups: None, next_token: Some(String::from("t3")) },
    );
    assert!(done);
    assert_eq!(names.len(), 3);
}

#[test]
fn event_pages_convert_and_respect_the_limit() {
    let page = FilterLogEventsPage {
        events: Some(vec![complete_raw(5), complete_raw(6)]),
        next_token: None,
    };
    let (events, done) = extend_log_events(Vec::new(), "grp", page, None).expect("converts");
    assert!(done);
    assert_eq!(events.len(), 2);
    assert_eq!(events[0].log_group_name, "grp");
    assert_eq!(events[0].timestamp, 5);

    let page = FilterLogEventsPage {
        events: Some(vec![complete_raw(1), complete_raw(2), complete_raw(3)]),
        next_token: Some(String::from("more")),
    };
    let (events, done) = extend_log_events(Vec::new(), "grp", page, Some(2)).expect("converts");
    assert!(done);
    assert_eq!(events.len(), 2);

    let page = FilterLogEventsPage {
        events: Some(vec![complete_raw(1)]),
        next_token: Some(String::from("more")),
    };
    let (events, done) = extend_log_events(Vec::new(), "grp", page, None).expect("converts");
    assert!(!done);
    assert_eq!(events.len(), 1);
}

#[test]
fn a_missing_field_fails_the_conversion() {
    let mut raw = complete_raw(5);
    raw.message = None;
    match FilteredLogEvent::new(String::from("g"), raw) {
        Err(CloudWatchLogsError::FailedToConvertCloudWatchFilteredLogEvent(m)) => {
            assert_eq!(m, "message missing")
        }
        other => panic!("unexpected result: {:?}", other),
    }

    let mut raw = complete_raw(5);
    raw.event_id = None;
    raw.message = None;
    match FilteredLogEvent::new(String::from("g"), raw) {
        Err(CloudWatchLogsError::FailedToConvertCloudWatchFilteredLogEvent(m)) => {
            assert_eq!(m, "event_id missing")
        }
        other => panic!("unexpected result: {:?}", other),
    }

    let page = FilterLogEventsPage {
        events: Some(vec![complete_raw(1), {
            let mut r = complete_raw(2);
            r.timestamp = None;
            r
        }]),
        next_token: None,
    };
    assert!(extend_log_events(Vec::new(), "grp", page, None).is_err());
}

#[test]
fn first_event_helpers() {
    let now = civil_to_millis(2021, 11, 26, 21, 0, 0, 0);
    let (start, end) = first_event_search_bounds(now);
    assert_eq!(end, now);
    assert_eq!(end - start, 157_680_000_000);

    assert_eq!(first_event_time(&Vec::new()), None);
    assert_eq!(first_event_time(&vec![event("s", "m", 42), event("s", "m", 50)]), Some(42));
}
