use codescout::tools::file_summary::{
    detect_file_type, summarize_config, summarize_generic_file, summarize_markdown,
    summarize_source, FileSummaryType, SourceSummary, SourceSymbol, FILE_BUFFER_THRESHOLD,
};

#[test]
fn detect_rust_as_source() {
    assert!(matches!(
        detect_file_type("src/main.rs"),
        FileSummaryType::Source
    ));
    assert!(matches!(
        detect_file_type("lib.py"),
        FileSummaryType::Source
    ));
}

#[test]
fn detect_md_as_markdown() {
    assert!(matches!(
        detect_file_type("README.md"),
        FileSummaryType::Markdown
    ));
    assert!(matches!(
        detect_file_type("docs/guide.mdx"),
        FileSummaryType::Markdown
    ));
}

#[test]
fn detect_toml_as_config() {
    assert!(matches!(
        detect_file_type("Cargo.toml"),
        FileSummaryType::Config
    ));
    assert!(matches!(
        detect_file_type("config.yaml"),
        FileSummaryType::Config
    ));
    assert!(matches!(
        detect_file_type("data.json"),
        FileSummaryType::Config
    ));
}

#[test]
fn detect_unknown_as_generic() {
    assert!(matches!(
        detect_file_type("data.csv"),
        FileSummaryType::Generic
    ));
    assert!(matches!(
        detect_file_type("Makefile"),
        FileSummaryType::Generic
    ));
}

#[test]
fn markdown_summary_extracts_h1_and_h2_only() {
    let content = "# Title\nsome text\n## Section\nmore text\n### Sub\nnope";
    let s = summarize_markdown(content);
    let headings = &s.headings;
    assert_eq!(headings.len(), 2);
    assert_eq!(headings[0].as_str(), "# Title");
    assert_eq!(headings[1].as_str(), "## Section");
    assert_eq!(s.line_count, 6);
}

#[test]
fn config_summary_returns_first_30_lines() {
    let content: String = (1..=50).map(|i| format!("key_{} = {}\n", i, i)).collect();
    let s = summarize_config(&content);
    let preview = s.preview.as_str();
    assert!(preview.contains("key_1"));
    assert!(!preview.contains("key_31"));
    assert!(
        preview.contains("key_30"),
        "preview should include up to line 30"
    );
    assert_eq!(s.line_count, 50);
}

#[test]
fn generic_summary_includes_head_and_tail() {
    let content: String = (1..=100).map(|i| format!("line {}\n", i)).collect();
    let s = summarize_generic_file(&content);
    assert!(s.head.contains("line 1"));
    assert!(!s.head.contains("line 21"));
    assert!(
        s.head.contains("line 20"),
        "head should include line 20"
    );
    assert!(s.tail.contains("line 100"));
    assert!(
        !s.tail.contains("line 90"),
        "tail should not include line 90"
    );
    assert!(
        s.tail.contains("line 91"),
        "tail should start at line 91"
    );
    assert_eq!(s.line_count, 100);
}

#[test]
fn detect_is_case_insensitive_and_source_first() {
    assert!(matches!(detect_file_type("MAIN.RS"), FileSummaryType::Source));
    assert!(matches!(detect_file_type("notes.MDX"), FileSummaryType::Markdown));
    assert!(matches!(detect_file_type("Cargo.lock"), FileSummaryType::Config));
    assert!(matches!(detect_file_type(""), FileSummaryType::Generic));
}

#[test]
fn markdown_summary_keeps_at_most_twenty_headings() {
    let content: String = (1..=25).map(|i| format!("# H{}\n", i)).collect();
    let s = summarize_markdown(&content);
    assert_eq!(s.headings.len(), 20);
    assert_eq!(s.headings[19].as_str(), "# H20");
    assert_eq!(s.line_count, 25);
}

#[test]
fn generic_summary_of_short_file_repeats_lines() {
    let s = summarize_generic_file("a\nb\nc");
    assert_eq!(s.line_count, 3);
    assert_eq!(s.head.as_str(), "a\nb\nc");
    assert_eq!(s.tail.as_str(), "a\nb\nc");
    let e = summarize_generic_file("");
    assert_eq!(e.line_count, 0);
    assert_eq!(e.head.as_str(), "");
}

#[test]
fn source_summary_lists_symbols_with_one_based_lines() {
    let symbols = vec![
        SourceSymbol { name_path: "add".to_string(), kind: "Function".to_string(), start_line: 0 },
        SourceSymbol { name_path: "Calc/sub".to_string(), kind: "Method".to_string(), start_line: 4 },
    ];
    match summarize_source("fn add() {}\n\n\n\nfn sub() {}\n", &symbols) {
        SourceSummary::Symbols { line_count, symbols } => {
            assert_eq!(line_count, 5);
            assert_eq!(symbols.len(), 2);
            assert_eq!(symbols[0].name.as_str(), "add");
            assert_eq!(symbols[0].line, 1);
            assert_eq!(symbols[1].kind.as_str(), "Method");
            assert_eq!(symbols[1].line, 5);
        }
        SourceSummary::Plain(_) => panic!("expected symbols"),
    }
}

#[test]
fn source_summary_without_symbols_is_generic() {
    match summarize_source("x\ny\n", &Vec::new()) {
        SourceSummary::Plain(g) => {
            assert_eq!(g.line_count, 2);
            assert_eq!(g.head.as_str(), "x\ny");
        }
        SourceSummary::Symbols { .. } => panic!("expected plain summary"),
    }
    assert_eq!(FILE_BUFFER_THRESHOLD, 200);
}
