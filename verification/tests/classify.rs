use codescout::memory::classify::classify_bucket;


#[test]
fn classifies_code_content() {
    assert_eq!(
        classify_bucket("The auth module uses the builder pattern for request construction"),
        "code"
    );
}

#[test]
fn classifies_system_content() {
    assert_eq!(
        classify_bucket("CI pipeline requires docker and uses GitHub Actions for deployment"),
        "system"
    );
}

#[test]
fn classifies_unstructured_by_default() {
    assert_eq!(classify_bucket("The weather is nice today"), "unstructured");
}

#[test]
fn classifies_preferences_content() {
    assert_eq!(
        classify_bucket("I prefer snake_case for all variable names, always use it"),
        "preferences"
    );
}

#[test]
fn code_keywords_beat_system_when_mixed() {
    assert_eq!(
        classify_bucket("The function uses a config struct pattern with builder methods"),
        "code"
    );
}

#[test]
fn file_paths_trigger_code() {
    assert_eq!(
        classify_bucket("Check src/tools/memory.rs for the implementation"),
        "code"
    );
}

#[test]
fn empty_content_returns_unstructured() {
    assert_eq!(classify_bucket(""), "unstructured");
}

#[test]
fn preferences_detected_from_remember_to() {
    assert_eq!(
        classify_bucket("Remember to always run clippy before committing"),
        "preferences"
    );
}

