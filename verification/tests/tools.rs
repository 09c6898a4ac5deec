use codescout::dashboard::api::errors::{effective_limit, ErrorParams};
use codescout::logging::rotation_plan;
use codescout::tools::library::{LibraryInfo, ListLibraries};
use codescout::tools::ToolContext;

#[test]
fn list_libraries_empty() {
    let tool = ListLibraries;
    let result = tool.call(Some(&Vec::new())).unwrap();
    assert!(result.is_empty());
}

#[test]
fn list_libraries_shows_registered() {
    let registry = vec![LibraryInfo {
        name: "serde".to_string(),
        version: None,
        path: "/tmp/serde".to_string(),
        language: "rust".to_string(),
        discovered_via: "Manual".to_string(),
        indexed: false,
    }];
    let tool = ListLibraries;
    let libs = tool.call(Some(&registry)).unwrap();
    assert_eq!(libs.len(), 1);
    assert_eq!(libs[0].name, "serde");
    assert!(!libs[0].indexed);
}

#[test]
fn list_libraries_errors_without_project() {
    let tool = ListLibraries;
    let result = tool.call(None);
    assert!(result.is_err());
    assert_eq!(result.err().unwrap(), "No active project. Use activate_project first.");
}

#[test]
fn list_libraries_names_itself() {
    let tool = ListLibraries;
    assert_eq!(tool.name(), "list_libraries");
    assert!(tool.description().contains("registered libraries"));
    let ctx = ToolContext { agent: () };
    let _ = ctx.agent;
}

#[test]
fn errors_limit_defaults_to_twenty() {
    assert_eq!(effective_limit(&ErrorParams { limit: None }), 20);
    assert_eq!(effective_limit(&ErrorParams { limit: Some(5) }), 5);
}

#[test]
fn rotate_keeps_last_3_plan() {
    let plan = rotation_plan();
    assert_eq!(plan.remove, "debug.log.3");
    let renames: Vec<(&str, &str)> = plan.renames.iter().map(|(a, b)| (a.as_str(), b.as_str())).collect();
    assert_eq!(
        renames,
        vec![
            ("debug.log.2", "debug.log.3"),
            ("debug.log.1", "debug.log.2"),
            ("debug.log", "debug.log.1"),
        ]
    );
}
