//! The plugin's two entry points as decisions on values: what a search
//! returns and logs for a lookup's outcome, and what a copy to the clipboard
//! logs for its outcome.
use vstd::prelude::*;
use crate::client::{DictionaryApiResponse, FetchError};
use crate::rank::{SearchResult, rank, ranked, result_views, meaning_views};

verus! {

/// The name under which the plugin is listed.
pub const NAME: &'static str = "Urban Dictionary";

pub const LOOKUP_FAILED: &'static str = "failed to get word: ";

pub const COPIED: &'static str = "copied to clipboard: ";

pub const COPY_FAILED: &'static str = "failed to copy to clipboard: ";

#[derive(PartialEq, Eq, Structural, Clone, Copy, Debug)]
pub enum LogLevel {
    Trace,
    Error,
}

/// One message for the host's log.
pub struct LogEntry {
    pub level: LogLevel,
    pub message: String,
}

/// What one search hands back: the results, and what to log.
pub struct SearchOutcome {
    pub results: Vec<SearchResult>,
    pub log: Vec<LogEntry>,
}

/// How an attempt to put a result on the clipboard ended.
#[derive(PartialEq, Eq, Structural, Clone, Copy, Debug)]
pub enum ClipboardOutcome {
    Copied,
    AcquireFailed,
    WriteFailed,
}

fn message(prefix: &str, detail: &str) -> (r: String)
    ensures
        r@ == prefix@ + detail@,
{
    let mut m = String::from_str(prefix);
    m.append(detail);
    m
}

/// The results and log of a search, given how its lookup ended: the ranked
/// records and no log entry, or no result and one error entry with the cause.
pub fn search_outcome(lookup: Result<DictionaryApiResponse, FetchError>) -> (r: SearchOutcome)
    ensures
        match lookup {
            Ok(resp) => {
                &&& result_views(r.results@) == ranked(meaning_views(resp.list@))
                &&& r.log.len() == 0
            },
            Err(e) => {
                &&& r.results.len() == 0
                &&& r.log.len() == 1
                &&& r.log[0].level == LogLevel::Error
                &&& r.log[0].message@ == LOOKUP_FAILED@ + e.cause@
            },
        },
{
    match lookup {
        Ok(resp) => SearchOutcome { results: rank(resp.list), log: Vec::new() },
        Err(e) => {
            let entry = LogEntry {
                level: LogLevel::Error,
                message: message(LOOKUP_FAILED, e.cause.as_str()),
            };
            SearchOutcome { results: Vec::new(), log: vec![entry] }
        },
    }
}

/// The text that selecting a result puts on the clipboard.
pub fn copy_payload(result: &SearchResult) -> (r: String)
    ensures
        r@ == result.extra@,
{
    result.extra.clone()
}

/// The one log entry for a copy attempt: a trace entry when the payload was
/// copied, an error entry when the clipboard could not be had or written; both
/// carry the payload.
pub fn execute_report(result: &SearchResult, outcome: ClipboardOutcome) -> (r: LogEntry)
    ensures
        outcome == ClipboardOutcome::Copied ==> r.level == LogLevel::Trace && r.message@
            == COPIED@ + result.extra@,
        outcome != ClipboardOutcome::Copied ==> r.level == LogLevel::Error && r.message@
            == COPY_FAILED@ + result.extra@,
{
    match outcome {
        ClipboardOutcome::Copied => LogEntry {
            level: LogLevel::Trace,
            message: message(COPIED, result.extra.as_str()),
        },
        _ => LogEntry { level: LogLevel::Error, message: message(COPY_FAILED, result.extra.as_str()) },
    }
}

} // verus!
