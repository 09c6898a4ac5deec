use codescout::usage::{classify_content_result, classify_probe, JsonProbe, UsageRecorder};

#[test]
fn classify_content_error_result() {
    let r: Result<String, String> = Err("boom".to_string());
    let (outcome, overflowed, msg) = classify_content_result(&r);
    assert_eq!(outcome, "error");
    assert!(!overflowed);
    assert_eq!(msg.as_deref(), Some("boom"));
}

#[test]
fn classify_content_recoverable_error() {
    let text = "{\"error\":\"path not found\"}".to_string();
    let r: Result<String, String> = Ok(text);
    let (outcome, overflowed, msg) = classify_content_result(&r);
    assert_eq!(outcome, "recoverable_error");
    assert!(!overflowed);
    assert_eq!(msg.as_deref(), Some("path not found"));
}

#[test]
fn classify_content_overflow() {
    let text = "{\"symbols\":[],\"overflow\":{\"shown\":200,\"total\":500}}".to_string();
    let r: Result<String, String> = Ok(text);
    let (outcome, overflowed, _) = classify_content_result(&r);
    assert_eq!(outcome, "success");
    assert!(overflowed);
}

#[test]
fn classify_content_clean_success() {
    let r: Result<String, String> = Ok("plain text output".to_string());
    let (outcome, overflowed, msg) = classify_content_result(&r);
    assert_eq!(outcome, "success");
    assert!(!overflowed);
    assert!(msg.is_none());
}

#[test]
fn classify_content_empty_blocks() {
    // No content block: the text read is empty.
    let r: Result<String, String> = Ok(String::new());
    let (outcome, overflowed, msg) = classify_content_result(&r);
    assert_eq!(outcome, "success");
    assert!(!overflowed);
    assert!(msg.is_none());
}

#[test]
fn non_string_error_field_is_not_an_error() {
    let r: Result<String, String> = Ok("{\"error\":42}".to_string());
    let (outcome, overflowed, msg) = classify_content_result(&r);
    assert_eq!(outcome, "success");
    assert!(!overflowed);
    assert!(msg.is_none());
}

#[test]
fn probe_decides_outcome() {
    let p = JsonProbe { error: Some("bad".to_string()), has_overflow: true };
    assert_eq!(classify_probe(Some(p)), ("recoverable_error", false, Some("bad".to_string())));
    let q = JsonProbe { error: None, has_overflow: true };
    assert_eq!(classify_probe(Some(q)), ("success", true, None));
    assert_eq!(classify_probe(None), ("success", false, None));
}

#[test]
fn recorder_keeps_agent() {
    let r = UsageRecorder::new(7u32);
    assert_eq!(r.agent, 7);
}
