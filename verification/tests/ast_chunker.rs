use codescout::embed::ast_chunker::{
    expand_doc_comment_start, extract_ast_nodes, get_language_spec, is_doc_line, split_file,
};
use codescout::embed::syntax::Grammar;


// ---------- Registry lookup ----------

#[test]
fn registry_lookup_all_languages() {
    let languages = [
        "rust",
        "python",
        "go",
        "typescript",
        "javascript",
        "tsx",
        "jsx",
        "java",
        "kotlin",
    ];
    for lang in &languages {
        let spec = get_language_spec(lang);
        assert!(
            spec.is_some(),
            "expected LanguageSpec for '{}', got None",
            lang
        );
        let spec = spec.unwrap();
        assert!(
            !spec.node_types.is_empty(),
            "'{}' should have node_types",
            lang
        );
        assert!(
            !spec.doc_prefixes.is_empty(),
            "'{}' should have doc_prefixes",
            lang
        );
    }
}

#[test]
fn registry_lookup_case_insensitive() {
    assert!(get_language_spec("Rust").is_some());
    assert!(get_language_spec("PYTHON").is_some());
    assert!(get_language_spec("TypeScript").is_some());
}

#[test]
fn registry_returns_none_for_unknown() {
    assert!(get_language_spec("haskell").is_none());
    assert!(get_language_spec("brainfuck").is_none());
    assert!(get_language_spec("").is_none());
}

// ---------- split_file ----------

#[test]
fn split_file_empty_source() {
    let chunks = split_file("", "rust", "main.rs", 4000);
    assert!(chunks.is_empty());
}

#[test]
fn split_file_markdown_delegates_to_markdown_splitter() {
    let source = "# Heading\n\nIntro.\n\n## Section\n\nBody text.\n";
    let chunks = split_file(source, "markdown", "README.md", 4000);
    assert!(!chunks.is_empty());
    // Markdown splitter splits on headings, so we should get at least 2 chunks
    assert!(
        chunks.len() >= 2,
        "expected markdown heading split, got {} chunks",
        chunks.len()
    );
    assert!(chunks[0].content.contains("Heading"));
    assert!(chunks.iter().any(|c| c.content.contains("Section")));
}

#[test]
fn split_file_markdown_uppercase_extension() {
    let source = "# Title\n\nText.\n\n## Part Two\n\nMore text.\n";
    let chunks = split_file(source, "markdown", "NOTES.MD", 4000);
    assert!(chunks.len() >= 2, "should recognise .MD as markdown");
}

#[test]
fn split_file_unknown_lang_falls_through_to_plain_split() {
    let source = "line 1\nline 2\nline 3\n";
    let chunks = split_file(source, "unknown_lang", "file.xyz", 4000);
    assert!(!chunks.is_empty());
    assert_eq!(chunks[0].start_line, 1);
}

#[test]
fn split_file_known_lang_uses_ast_split() {
    // Known languages now use AST-based splitting; a small function is still 1 chunk
    let source = "fn main() {\n    println!(\"hello\");\n}\n";
    let chunks = split_file(source, "rust", "main.rs", 4000);
    assert_eq!(chunks.len(), 1);
    assert!(chunks[0].content.contains("fn main"));
}

// ---------- Doc comment expansion ----------

#[test]
fn expand_doc_comments_rust() {
    let source =
        "use std::io;\n\n/// Adds two numbers.\n/// Returns the sum.\nfn add(a: i32, b: i32) -> i32 {\n    a + b\n}\n";
    let lines: Vec<&str> = source.lines().collect();
    // fn add is at line index 4 (0-indexed)
    let expanded = expand_doc_comment_start(&lines, 4, &["///", "//!"]);
    assert_eq!(expanded, 2, "should expand to include both /// lines");
}

#[test]
fn expand_doc_comments_java_block() {
    let source = "import foo;\n\n/**\n * Does something.\n */\npublic void doIt() {\n}\n";
    let lines: Vec<&str> = source.lines().collect();
    // method starts at line index 5 (0-indexed)
    let expanded = expand_doc_comment_start(&lines, 5, &["/**", " *", " */"]);
    assert_eq!(expanded, 2, "should expand to include /** block");
}

#[test]
fn expand_doc_comments_none() {
    let source = "use std::io;\n\nfn add(a: i32, b: i32) -> i32 {\n    a + b\n}\n";
    let lines: Vec<&str> = source.lines().collect();
    let expanded = expand_doc_comment_start(&lines, 2, &["///", "//!"]);
    assert_eq!(expanded, 2, "no doc comment — should not expand");
}

#[test]
fn expand_skips_blank_lines_between_doc_and_node() {
    let source = "/// Documented.\n\nfn foo() {}\n";
    let lines: Vec<&str> = source.lines().collect();
    let expanded = expand_doc_comment_start(&lines, 2, &["///"]);
    assert_eq!(expanded, 0, "should cross blank line to find doc comment");
}

#[test]
fn expand_at_line_zero() {
    let source = "fn foo() {}\n";
    let lines: Vec<&str> = source.lines().collect();
    let expanded = expand_doc_comment_start(&lines, 0, &["///"]);
    assert_eq!(expanded, 0, "already at start — no expansion possible");
}

#[test]
fn is_doc_line_matches_prefix() {
    assert!(is_doc_line("/// hello", &["///"]));
    assert!(is_doc_line("  /// indented", &["///"]));
    assert!(is_doc_line(" * middle of block", &[" *"]));
    assert!(is_doc_line(" */", &[" *"]));
    assert!(is_doc_line("*/", &[]), "closing */ always matches");
}

#[test]
fn is_doc_line_rejects_non_doc() {
    assert!(!is_doc_line("fn foo() {}", &["///"]));
    assert!(!is_doc_line("// regular comment", &["///"]));
    assert!(!is_doc_line("", &["///"]));
}

// ---------- AST-based splitting ----------

#[test]
fn ast_split_rust_two_functions() {
    let source = "use std::io;\n\n/// Adds two numbers.\nfn add(a: i32, b: i32) -> i32 {\n    a + b\n}\n\n/// Subtracts b from a.\nfn sub(a: i32, b: i32) -> i32 {\n    a - b\n}\n";
    let chunks = split_file(source, "rust", "test.rs", 4000);
    assert!(chunks.len() >= 2, "got {} chunks", chunks.len());
    let add_chunk = chunks
        .iter()
        .find(|c| c.content.contains("fn add"))
        .expect("add chunk");
    assert!(
        add_chunk.content.contains("/// Adds two numbers"),
        "add chunk should include doc"
    );
    let sub_chunk = chunks
        .iter()
        .find(|c| c.content.contains("fn sub"))
        .expect("sub chunk");
    assert!(
        sub_chunk.content.contains("/// Subtracts"),
        "sub chunk should include doc"
    );
    assert!(
        !add_chunk.content.contains("fn sub"),
        "add chunk should not contain sub"
    );
}

#[test]
fn ast_split_python_function_with_comment() {
    let source = "import os\n\n# Helper to greet.\ndef greet(name):\n    return f'Hello {name}'\n\nclass Greeter:\n    def __init__(self, name):\n        self.name = name\n";
    let chunks = split_file(source, "python", "test.py", 4000);
    assert!(
        chunks.len() >= 2,
        "should split into function + class, got {}",
        chunks.len()
    );
    let greet_chunk = chunks
        .iter()
        .find(|c| c.content.contains("def greet"))
        .expect("greet chunk");
    assert!(
        greet_chunk.content.contains("# Helper"),
        "greet should include doc comment"
    );
}

#[test]
fn ast_split_preserves_line_numbers() {
    let source = "/// First.\nfn first() {}\n\n/// Second.\nfn second() {}\n";
    let chunks = split_file(source, "rust", "test.rs", 4000);
    let first = chunks
        .iter()
        .find(|c| c.content.contains("fn first"))
        .unwrap();
    assert_eq!(
        first.start_line, 1,
        "first fn starts at line 1 (includes doc)"
    );
    let second = chunks
        .iter()
        .find(|c| c.content.contains("fn second"))
        .unwrap();
    assert_eq!(
        second.start_line, 4,
        "second fn starts at line 4 (includes doc)"
    );
}

#[test]
fn ast_split_captures_gap_text() {
    let source = "use std::io;\nuse std::fmt;\n\nfn foo() {}\n";
    let chunks = split_file(source, "rust", "test.rs", 4000);
    // Should have a gap chunk for the use statements and a chunk for foo
    let has_use = chunks.iter().any(|c| c.content.contains("use std::io"));
    let has_fn = chunks.iter().any(|c| c.content.contains("fn foo"));
    assert!(has_use, "should capture use statements as gap chunk");
    assert!(has_fn, "should capture function");
}

// ---------- Sub-split with prefix ----------

#[test]
fn oversized_node_is_sub_split_with_prefix() {
    let mut source = String::from("/// Important function.\nfn big() {\n");
    for i in 0..50 {
        source.push_str(&format!("    let x{} = {};\n", i, i));
    }
    source.push_str("}\n");

    let chunks = split_file(&source, "rust", "test.rs", 300);
    assert!(
        chunks.len() > 1,
        "oversized fn should be sub-split, got {}",
        chunks.len()
    );

    // Every sub-chunk should contain the doc + signature prefix
    for (i, chunk) in chunks.iter().enumerate() {
        assert!(
            chunk.content.contains("/// Important function"),
            "sub-chunk {} missing doc prefix",
            i
        );
        assert!(
            chunk.content.contains("fn big()"),
            "sub-chunk {} missing signature prefix",
            i
        );
    }

    // First chunk should NOT have the "(continued)" marker
    assert!(!chunks[0].content.contains("(continued)"));
    // Second+ chunks should have it
    if chunks.len() > 1 {
        assert!(chunks[1].content.contains("(continued)"));
    }
}

#[test]
fn sub_split_covers_all_body_lines() {
    let mut source = String::from("fn big() {\n");
    let body_lines: Vec<String> = (0..40)
        .map(|i| format!("    let x{} = {};", i, i))
        .collect();
    source.push_str(&body_lines.join("\n"));
    source.push_str("\n}\n");

    let chunks = split_file(&source, "rust", "test.rs", 200);
    // Every body line should appear in at least one chunk
    for (i, body_line) in body_lines.iter().enumerate() {
        let covered = chunks
            .iter()
            .any(|c| c.content.contains(body_line.as_str()));
        assert!(covered, "body line {} not covered: {}", i, body_line);
    }
}

// ---------- Generic heuristic (no registry entry) ----------

#[test]
fn generic_heuristic_extracts_multiline_named_nodes() {
    // Use Rust grammar but call extract_ast_nodes with spec=None
    let source =
        "fn hello() {\n    println!(\"hi\");\n}\n\nfn world() {\n    println!(\"world\");\n}\n";
    let nodes = extract_ast_nodes(source, Grammar::Rust, None).unwrap();
    assert_eq!(nodes.len(), 2, "generic heuristic should find 2 functions");
}

#[test]
fn generic_heuristic_ignores_single_line_nodes() {
    let source =
        "use std::io;\nuse std::fmt;\n\nfn multi_line() {\n    let x = 1;\n    let y = 2;\n}\n";
    let nodes = extract_ast_nodes(source, Grammar::Rust, None).unwrap();
    // use statements are single-line — should be ignored by heuristic
    assert_eq!(nodes.len(), 1, "should only find multi_line fn");
}

// ---------- Error resilience & fallback ----------

#[test]
fn broken_syntax_falls_back_to_line_splitting() {
    let source = "fn broken( { {{ missing close\n    let x = 1;\n    let y = 2;\n";
    // Should not panic — falls back to line-based
    let chunks = split_file(source, "rust", "test.rs", 200);
    assert!(
        !chunks.is_empty(),
        "broken syntax should still produce chunks via fallback"
    );
}

#[test]
fn ast_with_no_extractable_nodes_falls_back() {
    // A file with only comments and blank lines
    let source = "// just a comment\n// another comment\n\n";
    let chunks = split_file(source, "rust", "test.rs", 200);
    assert!(
        !chunks.is_empty(),
        "should fall back to line-based for comment-only files"
    );
}

// ---------- Additional language coverage ----------

#[test]
fn ast_split_go_function_with_doc() {
    let source = "package main\n\nimport \"fmt\"\n\n// Greet prints a greeting.\nfunc Greet(name string) {\n\tfmt.Println(\"Hello\", name)\n}\n\n// Add returns the sum.\nfunc Add(a, b int) int {\n\treturn a + b\n}\n";
    let chunks = split_file(source, "go", "main.go", 4000);
    assert!(
        chunks.len() >= 2,
        "Go should split into 2+ chunks, got {}",
        chunks.len()
    );
    let greet = chunks
        .iter()
        .find(|c| c.content.contains("func Greet"))
        .expect("Greet chunk");
    assert!(
        greet.content.contains("// Greet prints"),
        "Go func should include doc comment"
    );
    let add = chunks
        .iter()
        .find(|c| c.content.contains("func Add"))
        .expect("Add chunk");
    assert!(
        !greet.content.contains("func Add"),
        "Greet chunk should not contain Add"
    );
    assert!(
        add.content.contains("// Add returns"),
        "Add should include doc comment"
    );
}

#[test]
fn ast_split_typescript_with_jsdoc() {
    let source = "import { foo } from 'bar';\n\n/**\n * Adds two numbers.\n * @param a first\n * @param b second\n */\nfunction add(a: number, b: number): number {\n    return a + b;\n}\n\nfunction sub(a: number, b: number): number {\n    return a - b;\n}\n";
    let chunks = split_file(source, "typescript", "math.ts", 4000);
    assert!(chunks.len() >= 2, "TS should split, got {}", chunks.len());
    let add_chunk = chunks
        .iter()
        .find(|c| c.content.contains("function add"))
        .expect("add chunk");
    assert!(
        add_chunk.content.contains("Adds two numbers"),
        "TS func should include JSDoc"
    );
}

#[test]
fn ast_split_trailing_gap_captured() {
    let source = "fn foo() {\n    1\n}\n\n// trailing comment\nconst X: i32 = 42;\n";
    let chunks = split_file(source, "rust", "test.rs", 4000);
    let has_trailing = chunks
        .iter()
        .any(|c| c.content.contains("trailing comment"));
    assert!(has_trailing, "trailing gap text should be captured");
}

#[test]
fn expand_doc_does_not_bridge_many_blank_lines() {
    // 4 blank lines between doc comment and node — should NOT expand
    let source = "/// Orphaned doc.\n\n\n\n\nfn foo() {}\n";
    let lines: Vec<&str> = source.lines().collect();
    let expanded = expand_doc_comment_start(&lines, 5, &["///"]);
    assert_eq!(expanded, 5, "should not bridge 4 blank lines");
}

// ---------- Recursive inner-node extraction ----------

#[test]
fn recursive_impl_block_extracts_methods() {
    // Build an impl block with 3 methods, each large enough that the whole
    // impl exceeds chunk_size but individual methods fit within it.
    let mut source = String::from("struct Foo;\n\nimpl Foo {\n");
    // method1 — 8 lines
    source.push_str("    /// First method.\n    fn method1(&self) -> i32 {\n");
    for i in 0..6 {
        source.push_str(&format!("        let _x{} = {};\n", i, i));
    }
    source.push_str("    }\n");
    // method2 — 8 lines
    source.push_str("    /// Second method.\n    fn method2(&self) -> i32 {\n");
    for i in 0..6 {
        source.push_str(&format!("        let _y{} = {};\n", i, i));
    }
    source.push_str("    }\n");
    // method3 — 8 lines
    source.push_str("    /// Third method.\n    fn method3(&self) -> i32 {\n");
    for i in 0..6 {
        source.push_str(&format!("        let _z{} = {};\n", i, i));
    }
    source.push_str("    }\n}\n");

    // chunk_size = 200 forces recursion into the impl (total ~700+ chars)
    // but each individual method (~120 chars) fits within it.
    let chunks = split_file(&source, "rust", "test.rs", 200);

    // Expect: 1 gap chunk (struct Foo), 1 header chunk (impl Foo {), 3 method chunks.
    let header = chunks
        .iter()
        .find(|c| c.content.contains("impl Foo"))
        .expect("should have an impl Foo header chunk");
    assert!(
        !header.content.contains("fn method1"),
        "header chunk should not include method bodies"
    );

    let m1 = chunks
        .iter()
        .find(|c| c.content.contains("fn method1"))
        .expect("method1 chunk");
    let m2 = chunks
        .iter()
        .find(|c| c.content.contains("fn method2"))
        .expect("method2 chunk");
    let m3 = chunks
        .iter()
        .find(|c| c.content.contains("fn method3"))
        .expect("method3 chunk");

    // Each method chunk should be distinct (no cross-contamination).
    assert!(
        !m1.content.contains("fn method2"),
        "m1 should not contain m2"
    );
    assert!(
        !m2.content.contains("fn method3"),
        "m2 should not contain m3"
    );
    assert!(
        !m3.content.contains("fn method1"),
        "m3 should not contain m1"
    );

    // Doc comments should be captured per method.
    assert!(
        m1.content.contains("/// First method"),
        "m1 should include its doc"
    );
    assert!(
        m2.content.contains("/// Second method"),
        "m2 should include its doc"
    );
    assert!(
        m3.content.contains("/// Third method"),
        "m3 should include its doc"
    );

    // Line numbers must be file-level (not relative to the impl block).
    // struct Foo + blank + impl Foo { = 3 lines before the first method.
    // method1 doc starts at line 4 (1-indexed) after struct+blank+impl.
    assert!(
        m1.start_line > 3,
        "method1 start_line {} should be > 3 (file-level, not impl-relative)",
        m1.start_line
    );
}

#[test]
fn recursive_class_extracts_methods_python() {
    let mut source = String::from("import os\n\nclass MyService:\n");
    source.push_str("    # Process items.\n    def process(self, items):\n");
    for i in 0..8 {
        source.push_str(&format!("        item_{} = items[{}]\n", i, i));
    }
    source.push_str("        return items\n");
    source.push_str("    # Validate input.\n    def validate(self, data):\n");
    for i in 0..8 {
        source.push_str(&format!("        val_{} = data.get('{}')\n", i, i));
    }
    source.push_str("        return True\n");

    // chunk_size = 200 forces recursion into the class.
    let chunks = split_file(&source, "python", "service.py", 200);

    let process = chunks.iter().find(|c| c.content.contains("def process"));
    let validate = chunks.iter().find(|c| c.content.contains("def validate"));

    assert!(process.is_some(), "should have a process chunk");
    assert!(validate.is_some(), "should have a validate chunk");

    let process = process.unwrap();
    let validate = validate.unwrap();
    assert!(
        !process.content.contains("def validate"),
        "process chunk should not contain validate"
    );
    assert!(
        process.content.contains("# Process items"),
        "process chunk should include its comment"
    );
    assert!(
        validate.content.contains("# Validate input"),
        "validate chunk should include its comment"
    );
}

#[test]
fn recursive_falls_back_when_no_inner_types() {
    // Go has inner_node_types = [] so a large function must fall back to sub_split_node.
    let mut source = String::from("package main\n\n// BigFunc does a lot.\nfunc BigFunc() {\n");
    for i in 0..60 {
        source.push_str(&format!("\tx{} := {}\n", i, i));
    }
    source.push_str("}\n");

    let chunks = split_file(&source, "go", "big.go", 300);

    // Should be sub-split (multiple chunks), each with the signature prefix.
    assert!(
        chunks.len() > 1,
        "large Go func should be sub-split, got {} chunks",
        chunks.len()
    );
    // The leading "package main" gap chunk doesn't carry the function signature —
    // only the BigFunc sub-split chunks do. Filter to those and verify.
    let func_chunks: Vec<_> = chunks
        .iter()
        .filter(|c| c.content.contains("func BigFunc"))
        .collect();
    assert!(
        func_chunks.len() > 1,
        "large Go func should produce multiple sub-chunks with signature prefix, got {}",
        func_chunks.len()
    );
}

#[test]
fn recursive_impl_inner_doc_comments_included() {
    // Doc comments on inner methods must be captured in the method chunks,
    // not left behind in the header or lost entirely.
    let mut source = String::from("impl Calculator {\n");
    source.push_str("    /// Adds a and b.\n    /// Returns the sum.\n");
    source.push_str("    fn add(&self, a: i32, b: i32) -> i32 {\n");
    for i in 0..12 {
        source.push_str(&format!("        let _step{} = {};\n", i, i));
    }
    source.push_str("        a + b\n    }\n");
    source.push_str("    /// Subtracts b from a.\n");
    source.push_str("    fn sub(&self, a: i32, b: i32) -> i32 {\n");
    for i in 0..12 {
        source.push_str(&format!("        let _step{} = {};\n", i, i));
    }
    source.push_str("        a - b\n    }\n}\n");

    let chunks = split_file(&source, "rust", "calc.rs", 250);

    let add_chunk = chunks
        .iter()
        .find(|c| c.content.contains("fn add"))
        .expect("add chunk");
    assert!(
        add_chunk.content.contains("/// Adds a and b"),
        "add chunk should include first doc line"
    );
    assert!(
        add_chunk.content.contains("/// Returns the sum"),
        "add chunk should include second doc line"
    );

    let sub_chunk = chunks
        .iter()
        .find(|c| c.content.contains("fn sub"))
        .expect("sub chunk");
    assert!(
        sub_chunk.content.contains("/// Subtracts b from a"),
        "sub chunk should include its doc"
    );
}

#[test]
fn chunk_overlap_removed_from_ast_paths() {
    // Verify that gap chunks between functions contain no duplicate content
    // (overlap = 0, so no lines from one chunk should appear in the next).
    let source = "use std::io;\nuse std::fmt;\n\nfn foo() {\n    let x = 1;\n}\n\nfn bar() {\n    let y = 2;\n}\n";

    let chunks = split_file(source, "rust", "test.rs", 4000);

    // With zero overlap and small source, each declaration is its own chunk.
    // The gap (use statements) should appear exactly once.
    let gap_chunks: Vec<_> = chunks
        .iter()
        .filter(|c| c.content.contains("use std::io"))
        .collect();
    assert_eq!(
        gap_chunks.len(),
        1,
        "use statements should appear in exactly one chunk, not duplicated by overlap"
    );
}


