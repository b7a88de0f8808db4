use urban_dictionary::client::{lookup_url, lookup_url_for, LOOKUP_ENDPOINT};
use urban_dictionary::facade::{copy_payload, execute_report, ClipboardOutcome, LogLevel, NAME};
use urban_dictionary::rank::SearchResult;
use urban_dictionary::sanitize::sanitize;

#[test]
fn sanitize_removes_markup() {
    assert_eq!(sanitize("[word] one\r\ntwo]"), "word onetwo");
    assert_eq!(sanitize(""), "");
    assert_eq!(sanitize("[]\r\n"), "");
    assert_eq!(sanitize("naïve (x)"), "naïve (x)");
}

#[test]
fn sanitize_is_idempotent() {
    let once = sanitize("a[b]\nc\rd");
    assert_eq!(once, "abcd");
    assert_eq!(sanitize(&once), once);
}

#[test]
fn url_encodes_the_term() {
    assert_eq!(LOOKUP_ENDPOINT, "https://api.urbandictionary.com/v0/define?term=");
    assert_eq!(
        lookup_url("hello world"),
        "https://api.urbandictionary.com/v0/define?term=hello%20world"
    );
    assert_eq!(lookup_url("a&b=c"), format!("{}a%26b%3Dc", LOOKUP_ENDPOINT));
    assert_eq!(lookup_url("é"), format!("{}%C3%A9", LOOKUP_ENDPOINT));
    assert_eq!(lookup_url("plain-word_1.~"), format!("{}plain-word_1.~", LOOKUP_ENDPOINT));
}

#[test]
fn url_for_encoded_term_appends() {
    assert_eq!(lookup_url_for("x%20y"), format!("{}x%20y", LOOKUP_ENDPOINT));
}

fn result() -> SearchResult {
    SearchResult {
        title: "yeet".to_string(),
        context: "he yeeted it".to_string(),
        extra: "yeet\nhe yeeted it".to_string(),
    }
}

#[test]
fn clipboard_acquire_failure_logs_one_error() {
    let e = execute_report(&result(), ClipboardOutcome::AcquireFailed);
    assert_eq!(e.level, LogLevel::Error);
    assert_eq!(e.message, "failed to copy to clipboard: yeet\nhe yeeted it");
}

#[test]
fn clipboard_write_failure_logs_error() {
    let e = execute_report(&result(), ClipboardOutcome::WriteFailed);
    assert_eq!(e.level, LogLevel::Error);
    assert_eq!(e.message, "failed to copy to clipboard: yeet\nhe yeeted it");
}

#[test]
fn clipboard_success_logs_trace() {
    let e = execute_report(&result(), ClipboardOutcome::Copied);
    assert_eq!(e.level, LogLevel::Trace);
    assert_eq!(e.message, "copied to clipboard: yeet\nhe yeeted it");
    assert_eq!(copy_payload(&result()), "yeet\nhe yeeted it");
}

#[test]
fn plugin_name() {
    assert_eq!(NAME, "Urban Dictionary");
}
