//! Log events as the fetcher consumes them, and the library's error
//! kinds.
use vstd::prelude::*;

verus! {

/// The error kinds of the log-fetching side of the library.
#[derive(Clone, Debug, PartialEq, Eq)]
pub enum CloudWatchLogsError {
    /// The remote call that enumerates log groups failed.
    DescribeLogGroupsError(String),
    /// The remote call that fetches events failed.
    FilterLogEventsError(String),
    /// A returned event was missing a required field.
    FailedToConvertCloudWatchFilteredLogEvent(String),
    /// A display request named both or neither of group name and filter.
    InvalidGetLogsToDisplayMessage(String),
    /// The matcher selected no log group at query time.
    NoCloudWatchLogGroupsMatchFilter(String),
    Unknown,
}

/// One log event, fully present. Instants are UTC milliseconds.
#[derive(Clone, Debug)]
pub struct FilteredLogEvent {
    pub log_group_name: String,
    pub event_id: String,
    pub ingestion_time: i64,
    pub log_stream_name: String,
    pub message: String,
    pub timestamp: i64,
}

/// An event as the remote service hands it over: every field may be
/// absent.
#[derive(Clone, Debug)]
pub struct RawFilteredLogEvent {
    pub event_id: Option<String>,
    pub ingestion_time: Option<i64>,
    pub log_stream_name: Option<String>,
    pub message: Option<String>,
    pub timestamp: Option<i64>,
}

/// `raw` converts to `e` under group name `group`: every field present
/// and carried over.
pub open spec fn converts_to(
    group: Seq<char>,
    raw: RawFilteredLogEvent,
    e: FilteredLogEvent,
) -> bool {
    &&& e.log_group_name@ == group
    &&& raw.event_id matches Some(v) && e.event_id == v
    &&& raw.ingestion_time == Some(e.ingestion_time)
    &&& raw.log_stream_name matches Some(v) && e.log_stream_name == v
    &&& raw.message matches Some(v) && e.message == v
    &&& raw.timestamp == Some(e.timestamp)
}

/// The name of the first absent field of `raw`, checked in the fixed
/// order the conversion uses; the empty sequence when all are present.
pub open spec fn first_missing_field(raw: RawFilteredLogEvent) -> Seq<char> {
    if raw.event_id is None {
        "event_id missing"@
    } else if raw.ingestion_time is None {
        "ingestion_time missing"@
    } else if raw.log_stream_name is None {
        "log_stream_name missing"@
    } else if raw.message is None {
        "message missing"@
    } else if raw.timestamp is None {
        "timestamp missing"@
    } else {
        Seq::empty()
    }
}

/// All required fields of `raw` are present.
pub open spec fn raw_event_complete(raw: RawFilteredLogEvent) -> bool {
    &&& raw.event_id is Some
    &&& raw.ingestion_time is Some
    &&& raw.log_stream_name is Some
    &&& raw.message is Some
    &&& raw.timestamp is Some
}

impl FilteredLogEvent {
    /// Convert a raw service event, failing on the first absent field.
    pub fn new(log_group_name: String, value: RawFilteredLogEvent) -> (r: Result<
        Self,
        CloudWatchLogsError,
    >)
        ensures
            match r {
                Ok(e) => raw_event_complete(value) && converts_to(log_group_name@, value, e),
                Err(err) => {
                    &&& !raw_event_complete(value)
                    &&& err matches CloudWatchLogsError::FailedToConvertCloudWatchFilteredLogEvent(
                        m,
                    )
                    &&& m@ == first_missing_field(value)
                },
            },
    {
        let event_id = match value.event_id {
            Some(event_id) => event_id,
            None => {
                return Err(
                    CloudWatchLogsError::FailedToConvertCloudWatchFilteredLogEvent(
                        String::from_str("event_id missing"),
                    ),
                );
            },
        };
        let ingestion_time = match value.ingestion_time {
            Some(ingestion_time) => ingestion_time,
            None => {
                return Err(
                    CloudWatchLogsError::FailedToConvertCloudWatchFilteredLogEvent(
                        String::from_str("ingestion_time missing"),
                    ),
                );
            },
        };
        let log_stream_name = match value.log_stream_name {
            Some(log_stream_name) => log_stream_name,
            None => {
                return Err(
                    CloudWatchLogsError::FailedToConvertCloudWatchFilteredLogEvent(
                        String::from_str("log_stream_name missing"),
                    ),
                );
            },
        };
        let message = match value.message {
            Some(message) => message,
            None => {
                return Err(
                    CloudWatchLogsError::FailedToConvertCloudWatchFilteredLogEvent(
                        String::from_str("message missing"),
                    ),
                );
            },
        };
        let timestamp = match value.timestamp {
            Some(timestamp) => timestamp,
            None => {
                return Err(
                    CloudWatchLogsError::FailedToConvertCloudWatchFilteredLogEvent(
                        String::from_str("timestamp missing"),
                    ),
                );
            },
        };
        Ok(
            Self {
                log_group_name,
                event_id,
                ingestion_time,
                log_stream_name,
                message,
                timestamp,
            },
        )
    }
}

} // verus!
