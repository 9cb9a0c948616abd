//! The decision logic of the log fetcher and its actor: page
//! accumulation for the two paginated remote calls, group filtering,
//! request validation, and the cache-and-render steps of a display
//! fetch. The remote calls themselves are asynchronous I/O and live
//! with the runtime; they hand their pages to these functions.
use vstd::prelude::*;

use crate::cache::{
    cache_cap, cache_lookup, cache_seq, spec_is_cacheable, store_if_cacheable, CacheKey,
    LogsDisplayCache, TimeBounds,
};
use crate::events::{
    converts_to, first_missing_field, raw_event_complete, CloudWatchLogsError, FilteredLogEvent,
    RawFilteredLogEvent,
};
use crate::matcher::{regex_match, LogGroupNameMatcher};
use crate::render::{merge_and_render, render_events, stable_sort_by_ts};

verus! {

/// One page of the paginated log-group listing, as the remote call
/// returns it.
pub struct DescribeLogGroupsPage {
    pub log_groups: Option<Vec<String>>,
    pub next_token: Option<String>,
}

/// Fold one listing page into the accumulated group names. Returns
/// whether pagination is finished: an absent or empty page ends it
/// (contributing nothing), as does an absent continuation token.
pub fn extend_log_group_names(result: &mut Vec<String>, page: DescribeLogGroupsPage) -> (done:
    bool)
    ensures
        match page.log_groups {
            None => done && final(result)@ == old(result)@,
            Some(names) => {
                if names@.len() == 0 {
                    done && final(result)@ == old(result)@
                } else {
                    &&& final(result)@ == old(result)@ + names@
                    &&& done == (page.next_token is None)
                }
            },
        },
{
    match page.log_groups {
        None => true,
        Some(mut names) => {
            if names.len() == 0 {
                true
            } else {
                result.append(&mut names);
                match page.next_token {
                    None => true,
                    Some(_) => false,
                }
            }
        },
    }
}

/// Index of the first raw event that is missing a field; the page
/// length when all convert.
pub open spec fn first_conversion_failure(raw: Seq<RawFilteredLogEvent>) -> int
    decreases raw.len(),
{
    if raw.len() == 0 {
        0
    } else if !raw_event_complete(raw[0]) {
        0
    } else {
        1 + first_conversion_failure(raw.drop_first())
    }
}

pub proof fn lemma_first_conversion_failure(raw: Seq<RawFilteredLogEvent>)
    ensures
        0 <= first_conversion_failure(raw) <= raw.len(),
        forall|j: int| 0 <= j < first_conversion_failure(raw) ==> raw_event_complete(#[trigger] raw[j]),
        first_conversion_failure(raw) < raw.len() ==> !raw_event_complete(
            raw[first_conversion_failure(raw)],
        ),
    decreases raw.len(),
{
    if raw.len() > 0 && raw_event_complete(raw[0]) {
        lemma_first_conversion_failure(raw.drop_first());
        let f = first_conversion_failure(raw.drop_first());
        assert forall|j: int| 0 <= j < 1 + f implies raw_event_complete(#[trigger] raw[j]) by {
            if j > 0 {
                assert(raw[j] == raw.drop_first()[j - 1]);
            }
        }
        if 1 + f < raw.len() {
            assert(raw[1 + f] == raw.drop_first()[f]);
        }
    }
}

/// One page of the paginated event fetch for one log group.
pub struct FilterLogEventsPage {
    pub events: Option<Vec<RawFilteredLogEvent>>,
    pub next_token: Option<String>,
}

/// The events of a page; an absent list reads as empty.
pub open spec fn page_events(page: FilterLogEventsPage) -> Seq<RawFilteredLogEvent> {
    match page.events {
        Some(v) => v@,
        None => Seq::empty(),
    }
}

/// The iteration at which an accumulation bounded by `lim` stops
/// early, given it already holds `have` events.
pub open spec fn limit_stop(have: int, lim: int) -> int {
    if lim >= have {
        lim - have
    } else {
        0
    }
}

/// Fold one event page into the accumulated events for a group.
///
/// Events convert in page order, failing the whole fetch on the first
/// event with a missing field. When the accumulated count reaches the
/// limit, the fetch ends early and the rest of the page is dropped.
/// Otherwise pagination is finished when the continuation token is
/// absent. Returns the grown accumulation and whether to stop.
pub fn extend_log_events(
    events: Vec<FilteredLogEvent>,
    log_group_name: &str,
    page: FilterLogEventsPage,
    limit: Option<usize>,
) -> (r: Result<(Vec<FilteredLogEvent>, bool), CloudWatchLogsError>)
    ensures
        ({
            let raw = page_events(page);
            let lim: int = match limit {
                Some(l) => l as int,
                None => usize::MAX as int,
            };
            let stop = limit_stop(events@.len() as int, lim);
            let scanned: int = if raw.len() <= stop {
                raw.len() as int
            } else {
                stop + 1
            };
            let err = first_conversion_failure(raw);
            if err < scanned {
                r matches Err(e) && (e
                    matches CloudWatchLogsError::FailedToConvertCloudWatchFilteredLogEvent(m)
                    && m@ == first_missing_field(raw[err]))
            } else if raw.len() > stop {
                r matches Ok(out) && out.1 && out.0@.len() == events@.len() + stop && (forall|
                    j: int,
                |
                    0 <= j < events@.len() ==> out.0@[j] == events@[j]) && (forall|j: int|
                    0 <= j < stop ==> converts_to(
                        log_group_name@,
                        raw[j],
                        #[trigger] out.0@[events@.len() + j],
                    ))
            } else {
                r matches Ok(out) && out.1 == (page.next_token is None) && out.0@.len()
                    == events@.len() + raw.len() && (forall|j: int|
                    0 <= j < events@.len() ==> out.0@[j] == events@[j]) && (forall|j: int|
                    0 <= j < raw.len() ==> converts_to(
                        log_group_name@,
                        raw[j],
                        #[trigger] out.0@[events@.len() + j],
                    ))
            }
        }),
{
    let ghost raw = page_events(page);
    let ghost base = events@.len() as int;
    let ghost lim_spec: int = match limit {
        Some(l) => l as int,
        None => usize::MAX as int,
    };
    let ghost stop = limit_stop(base, lim_spec);
    proof {
        lemma_first_conversion_failure(raw);
    }
    let limit_value: usize = match limit {
        Some(l) => l,
        None => usize::MAX,
    };
    let mut out = events;
    let raw_events: Vec<RawFilteredLogEvent> = match page.events {
        Some(v) => v,
        None => Vec::new(),
    };
    // walk the page front to back by reversing it onto a stack
    let mut stack = raw_events;
    let mut rev: Vec<RawFilteredLogEvent> = Vec::new();
    while stack.len() > 0
        invariant
            rev@.len() + stack@.len() == raw.len(),
            forall|i: int| 0 <= i < stack@.len() ==> #[trigger] stack@[i] == raw[i],
            forall|i: int| 0 <= i < rev@.len() ==> #[trigger] rev@[i] == raw[raw.len() - 1 - i],
        decreases stack@.len(),
    {
        let e = stack.pop().unwrap();
        rev.push(e);
    }
    let ghost done_n: int = 0;
    while rev.len() > 0
        invariant
            done_n == raw.len() - rev@.len(),
            0 <= done_n <= raw.len(),
            base == events@.len(),
            raw == page_events(page),
            forall|i: int| 0 <= i < rev@.len() ==> #[trigger] rev@[i] == raw[raw.len() - 1 - i],
            out@.len() == base + done_n,
            forall|j: int| 0 <= j < base ==> out@[j] == events@[j],
            forall|j: int|
                0 <= j < done_n ==> converts_to(log_group_name@, raw[j], #[trigger] out@[base + j]),
            forall|j: int| 0 <= j < done_n ==> raw_event_complete(#[trigger] raw[j]),
            done_n <= first_conversion_failure(raw),
            done_n <= stop,
            stop == limit_stop(base, lim_spec),
            lim_spec == (match limit {
                Some(l) => l as int,
                None => usize::MAX as int,
            }),
            limit_value as int == lim_spec,
        decreases rev@.len(),
    {
        let raw_event = rev.pop().unwrap();
        proof {
            lemma_first_conversion_failure(raw);
            assert(raw_event == raw[done_n]);
        }
        let converted = match crate::events::FilteredLogEvent::new(
            string_copy(log_group_name),
            raw_event,
        ) {
            Ok(converted) => converted,
            Err(err) => {
                proof {
                    assert(first_conversion_failure(raw) == done_n);
                }
                return Err(err);
            },
        };
        if out.len() >= limit_value {
            proof {
                assert(done_n == stop);
                assert(raw.len() > stop);
                let err = first_conversion_failure(raw);
                if err < stop + 1 {
                    assert(raw_event_complete(raw[err]));
                    assert(false);
                }
            }
            return Ok((out, true));
        }
        let ghost pre_out = out@;
        let ghost pre_n = done_n;
        let ghost cv = converted;
        out.push(converted);
        proof {
            done_n = done_n + 1;
            assert(out@[base + pre_n] == cv);
            assert(converts_to(log_group_name@, raw[pre_n], cv));
            assert forall|j: int| 0 <= j < pre_n + 1 implies converts_to(
                log_group_name@,
                raw[j],
                #[trigger] out@[base + j],
            ) by {
                if j < pre_n {
                    assert(base + j < pre_out.len());
                    assert(pre_out.push(cv)[base + j] == pre_out[base + j]);
                    assert(out@[base + j] == pre_out[base + j]);
                }
            }
        }
    }
    let done = match page.next_token {
        None => true,
        Some(_) => false,
    };
    proof {
        lemma_first_conversion_failure(raw);
        assert(done_n == raw.len());
        assert(raw.len() <= stop);
        let err = first_conversion_failure(raw);
        if err < raw.len() {
            assert(raw_event_complete(raw[err]));
            assert(false);
        }
    }
    Ok((out, done))
}

/// Copy a borrowed name into an owned string.
fn string_copy(s: &str) -> (r: String)
    ensures
        r@ == s@,
{
    String::from_str(s)
}

/// Keep the group names the matcher selects; selecting none is the
/// `NoCloudWatchLogGroupsMatchFilter` error.
pub fn filter_matching_groups(names: &Vec<String>, matcher: &LogGroupNameMatcher) -> (r: Result<
    Vec<String>,
    CloudWatchLogsError,
>)
    ensures
        ({
            let kept = names@.filter(
                |n: String| regex_match(matcher.spec_pattern(), n@),
            );
            match r {
                Ok(v) => v@ == kept && v@.len() > 0,
                Err(e) => {
                    &&& kept.len() == 0
                    &&& e matches CloudWatchLogsError::NoCloudWatchLogGroupsMatchFilter(p)
                    &&& p@ == matcher.spec_pattern()
                },
            }
        }),
{
    let ghost pred = |n: String| regex_match(matcher.spec_pattern(), n@);
    let mut kept: Vec<String> = Vec::new();
    let n = names.len();
    let mut i: usize = 0;
    while i < n
        invariant
            n == names@.len(),
            i <= n,
            kept@ == names@.subrange(0, i as int).filter(pred),
            pred == (|n: String| regex_match(matcher.spec_pattern(), n@)),
        decreases n - i,
    {
        let ghost pre = names@.subrange(0, i as int);
        let ghost cur = names@.subrange(0, i + 1 as int);
        proof {
            assert(cur.drop_last() =~= pre);
            assert(cur.last() == names@[i as int]);
        }
        if matcher.is_match(names[i].as_str()) {
            kept.push(names[i].clone());
        }
        proof {
            reveal(Seq::filter);
            assert(kept@ == cur.filter(pred));
        }
        i = i + 1;
    }
    proof {
        assert(names@.subrange(0, n as int) =~= names@);
    }
    if kept.len() > 0 {
        Ok(kept)
    } else {
        let p = matcher.pattern().clone();
        Err(CloudWatchLogsError::NoCloudWatchLogGroupsMatchFilter(p))
    }
}

/// Turn a display request into a matcher pattern: a group name becomes
/// the exact pattern `^name$`, a filter is taken as written, and a
/// request with both or neither is invalid.
pub fn matcher_pattern_for_request(
    log_group_name: Option<String>,
    log_group_filter: Option<String>,
) -> (r: Result<String, CloudWatchLogsError>)
    ensures
        ({
            match (log_group_name, log_group_filter) {
                (Some(n), None) => r matches Ok(p) && p@ == seq!['^'] + n@ + seq!['$'],
                (None, Some(f)) => r matches Ok(p) && p == f,
                _ => r matches Err(e) && (e
                    matches CloudWatchLogsError::InvalidGetLogsToDisplayMessage(m) && m@
                    == "Must specify either log_group_name or log_group_filter"@),
            }
        }),
{
    match (log_group_name, log_group_filter) {
        (Some(n), None) => {
            proof {
                reveal_strlit("^");
                reveal_strlit("$");
            }
            let mut p = String::from_str("^");
            p.append(n.as_str());
            p.append("$");
            proof {
                assert(p@ =~= seq!['^'] + n@ + seq!['$']);
            }
            Ok(p)
        },
        (None, Some(f)) => Ok(f),
        _ => Err(
            CloudWatchLogsError::InvalidGetLogsToDisplayMessage(
                String::from_str("Must specify either log_group_name or log_group_filter"),
            ),
        ),
    }
}

/// The search window for a group's first event: the five years up to
/// `now_millis`.
pub const FIRST_EVENT_LOOKBACK_MILLIS: i64 = 157_680_000_000;

pub fn first_event_search_bounds(now_millis: i64) -> (r: (i64, i64))
    requires
        now_millis >= FIRST_EVENT_LOOKBACK_MILLIS,
    ensures
        r.0 == now_millis - FIRST_EVENT_LOOKBACK_MILLIS,
        r.1 == now_millis,
{
    (now_millis - FIRST_EVENT_LOOKBACK_MILLIS, now_millis)
}

/// The timestamp of the earliest fetched event, if any was fetched.
pub fn first_event_time(events: &Vec<FilteredLogEvent>) -> (r: Option<i64>)
    ensures
        events@.len() == 0 ==> r is None,
        events@.len() > 0 ==> r == Some(events@[0].timestamp),
{
    if events.len() > 0 {
        Some(events[0].timestamp)
    } else {
        None
    }
}

/// The cache key of a display fetch.
pub fn make_cache_key(matcher: &LogGroupNameMatcher, start_time: i64, end_time: i64) -> (r:
    CacheKey)
    ensures
        r@ == (matcher.spec_pattern(), (start_time as int, end_time as int)),
{
    CacheKey {
        matcher_pattern: matcher.pattern().clone(),
        time_bounds: TimeBounds { first_event_time: start_time, last_event_time: end_time },
    }
}

/// Finish a display fetch from the fanned-in per-group events: merge,
/// sort, render, and store the blob when the freshness gate allows.
///
/// The returned bytes are exactly the rendered text of the
/// timestamp-sorted events. A window that ended within the last five
/// minutes leaves the cache untouched; an older window is stored and a
/// later lookup of the same key returns these same bytes.
pub fn finish_logs_to_display(
    cache: &mut LogsDisplayCache,
    now_millis: i64,
    matcher: &LogGroupNameMatcher,
    start_time: i64,
    end_time: i64,
    groups_events: Vec<Vec<FilteredLogEvent>>,
) -> (r: Vec<u8>)
    ensures
        r@ == vstd::utf8::encode_utf8(
            render_events(
                stable_sort_by_ts(
                    groups_events@.map_values(|v: Vec<FilteredLogEvent>| v@).flatten(),
                ),
            ),
        ),
        cache_cap(final(cache)) == cache_cap(old(cache)),
        !spec_is_cacheable(now_millis as int, end_time as int) ==> cache_seq(final(cache))
            == cache_seq(old(cache)),
        spec_is_cacheable(now_millis as int, end_time as int) ==> cache_lookup(
            cache_seq(final(cache)),
            (matcher.spec_pattern(), (start_time as int, end_time as int)),
        ) == Some(r@),
{
    let blob = merge_and_render(groups_events);
    let key = make_cache_key(matcher, start_time, end_time);
    store_if_cacheable(cache, now_millis, key, &blob);
    blob
}

} // verus!
