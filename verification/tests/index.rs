use codescout::embed::index::{
    check_model_mismatch, db_path, hash_content, is_unchanged, library_rel_path,
    normalize_rel_path, scope_admits, source_scope, IndexStats, SourceScope, SourceStats,
};
use std::path::PathBuf;

#[test]
fn normalize_rel_path_uses_forward_slashes() {
    // Simulate what build_index does: strip prefix + to_string_lossy
    let root = PathBuf::from("/project");
    let file = root.join("src").join("tools").join("file.rs");
    let rel = normalize_rel_path(&file.strip_prefix(&root).unwrap().to_string_lossy());
    assert_eq!(rel, "src/tools/file.rs");
}

#[test]
fn normalize_rel_path_turns_backslashes() {
    assert_eq!(normalize_rel_path("src\\tools\\file.rs"), "src/tools/file.rs");
    assert_eq!(normalize_rel_path(""), "");
}

#[test]
fn db_path_is_under_code_explorer() {
    assert_eq!(db_path("/project"), "/project/.code-explorer/embeddings.db");
    assert_eq!(db_path("/project/"), "/project/.code-explorer/embeddings.db");
    assert_eq!(db_path(""), ".code-explorer/embeddings.db");
}

#[test]
fn library_rel_path_prefixes_source() {
    assert_eq!(library_rel_path("lib:serde", "src/lib.rs"), "[lib:serde]/src/lib.rs");
}

#[test]
fn hash_content_is_64_lowercase_hex() {
    let hash = hash_content(b"fn main() {}");
    assert_eq!(hash.len(), 64);
    assert!(hash.chars().all(|c| c.is_ascii_hexdigit() && !c.is_ascii_uppercase()));
}

#[test]
fn hash_content_matches_known_digest() {
    assert_eq!(
        hash_content(b""),
        "e3b0c44298fc1c149afbf4c8996fb92427ae41e4649b934ca495991b7852b855"
    );
    assert_ne!(hash_content(b"fn a() {}"), hash_content(b"fn b() {}"));
}

#[test]
fn unchanged_only_when_not_forced_and_hash_equal() {
    assert!(is_unchanged(false, Some("abc"), "abc"));
    assert!(!is_unchanged(true, Some("abc"), "abc"));
    assert!(!is_unchanged(false, Some("abc"), "abd"));
    assert!(!is_unchanged(false, None, "abc"));
}

#[test]
fn check_model_mismatch_first_run_is_ok() {
    // No meta entry yet — first run should succeed
    assert!(check_model_mismatch(None, "ollama:mxbai-embed-large").is_ok());
}

#[test]
fn check_model_mismatch_same_model_is_ok() {
    assert!(check_model_mismatch(Some("ollama:mxbai-embed-large"), "ollama:mxbai-embed-large").is_ok());
}

#[test]
fn check_model_mismatch_different_model_is_err() {
    let err = check_model_mismatch(Some("ollama:mxbai-embed-large"), "local:JinaEmbeddingsV2BaseCode")
        .unwrap_err();
    assert!(
        err.contains("ollama:mxbai-embed-large"),
        "error should name stored model"
    );
    assert!(
        err.contains("local:JinaEmbeddingsV2BaseCode"),
        "error should name new model"
    );
    assert!(
        err.contains("embeddings.db"),
        "error should hint at DB deletion"
    );
}

#[test]
fn search_scope_follows_filter() {
    assert!(matches!(source_scope(None), SourceScope::All));
    assert!(matches!(source_scope(Some("libraries")), SourceScope::NonProject));
    match source_scope(Some("project")) {
        SourceScope::Exactly(s) => assert_eq!(s, "project"),
        _ => panic!("project scope"),
    }
    match source_scope(Some("lib:serde")) {
        SourceScope::Exactly(s) => assert_eq!(s, "lib:serde"),
        _ => panic!("library scope"),
    }
}

#[test]
fn search_scoped_filters_by_source() {
    let project = source_scope(Some("project"));
    let libs = source_scope(Some("libraries"));
    let serde = source_scope(Some("lib:serde"));
    let all = source_scope(None);
    assert!(scope_admits(&project, "project"));
    assert!(!scope_admits(&project, "lib:serde"));
    assert!(scope_admits(&libs, "lib:serde"));
    assert!(scope_admits(&libs, "lib:tokio"));
    assert!(!scope_admits(&libs, "project"));
    assert!(scope_admits(&serde, "lib:serde"));
    assert!(!scope_admits(&serde, "lib:tokio"));
    assert!(scope_admits(&all, "project"));
}

#[test]
fn stats_structs_hold_counts() {
    let s = IndexStats { file_count: 1, chunk_count: 2, embedding_count: 2, model: None };
    assert!(s.model.is_none());
    let t = SourceStats { file_count: 3, chunk_count: 4 };
    assert_eq!(t.file_count + t.chunk_count, 7);
}
