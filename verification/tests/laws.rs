use std::collections::HashMap;

use codescout::embed::ast_chunker::{get_language_spec, is_doc_line, split_file, sub_split_node, try_split_file};
use codescout::embed::drift::{pair_identical, unpaired_indices};
use codescout::embed::index::normalize_rel_path;
use codescout::logging::rotation_plan;
use codescout::memory::classify::classify_bucket;

#[test]
fn block_close_is_always_doc() {
    assert!(is_doc_line("*/", &[]));
    assert!(is_doc_line("   */", &["#"]));
    assert!(is_doc_line("\t*/  ", &["///"]));
}

#[test]
fn text_after_block_close_is_not_doc() {
    assert!(!is_doc_line("*/ x", &[]));
    assert!(!is_doc_line("  */ fn f() {}", &["///"]));
}

#[test]
fn blank_line_is_never_doc() {
    assert!(!is_doc_line("", &["///", "//"]));
    assert!(!is_doc_line("    ", &["///", " "]));
    assert!(!is_doc_line("\t", &[""]));
}

#[test]
fn language_lookup_ignores_ascii_case() {
    for name in ["rust", "python", "go", "typescript", "javascript", "tsx", "jsx", "java", "kotlin"] {
        let lower = get_language_spec(name).expect("registered");
        for variant in [name.to_uppercase(), format!("{}{}", name[..1].to_uppercase(), &name[1..])] {
            let other = get_language_spec(&variant).expect("registered in any case");
            assert_eq!(other.node_types, lower.node_types);
            assert_eq!(other.doc_prefixes, lower.doc_prefixes);
            assert_eq!(other.inner_node_types, lower.inner_node_types);
        }
    }
    assert!(get_language_spec("COBOL").is_none());
}

#[test]
fn bucket_is_one_of_four() {
    let inputs = [
        "",
        "struct Foo implements a trait",
        "deploy the docker image",
        "I prefer tabs",
        "the weather is nice",
        "src/main.rs has the entry point",
        "ALWAYS use snake_case",
    ];
    for text in inputs {
        let b = classify_bucket(text);
        assert!(["code", "system", "preferences", "unstructured"].contains(&b), "{b}");
    }
}

#[test]
fn identical_files_pair_every_chunk() {
    let chunks: Vec<String> = vec!["fn a() {}".into(), "fn b() {}".into(), "fn a() {}".into()];
    let (old, new) = pair_identical(&chunks, &chunks);
    assert_eq!(old, vec![true, true, true]);
    assert_eq!(new, vec![true, true, true]);
    assert!(unpaired_indices(&old).is_empty());
    assert!(unpaired_indices(&new).is_empty());
}

#[test]
fn empty_source_gives_no_chunk_for_any_language() {
    for (lang, path) in [("rust", "a.rs"), ("python", "a.py"), ("", "README.md"), ("cobol", "x.cbl")] {
        assert!(split_file("", lang, path, 100).is_empty());
    }
}

#[test]
fn sub_split_chunks_tile_the_node() {
    let mut lines: Vec<String> = vec!["/// Doc.".into(), "fn big() {".into()];
    for i in 0..40 {
        lines.push(format!("    let v{i} = {i} * 2 + 1;"));
    }
    lines.push("}".into());
    let refs: Vec<&str> = lines.iter().map(|s| s.as_str()).collect();
    let start = 0;
    let end = refs.len();
    let chunks = sub_split_node(&refs, start, end, 200, &["///"]);
    assert!(chunks.len() > 1);
    assert_eq!(chunks[0].start_line, start + 1);
    assert_eq!(chunks.last().unwrap().end_line, end);
    for w in chunks.windows(2) {
        assert_eq!(w[1].start_line, w[0].end_line + 1);
    }
    for c in &chunks {
        assert!(c.start_line <= c.end_line);
        assert!(c.content.starts_with("/// Doc.\nfn big() {"));
    }
}

#[test]
fn normalized_path_has_no_backslash() {
    let p = normalize_rel_path("src\\embed\\index.rs");
    assert_eq!(p, "src/embed/index.rs");
    assert!(!p.contains('\\'));
    assert_eq!(normalize_rel_path(&p), p);
}

fn rotate(files: &mut HashMap<String, String>) {
    let plan = rotation_plan();
    files.remove(&plan.remove);
    for (from, to) in plan.renames {
        if let Some(content) = files.remove(&from) {
            files.insert(to, content);
        }
    }
}

#[test]
fn rotation_keeps_last_three() {
    let mut files: HashMap<String, String> = HashMap::new();
    for name in ["debug.log", "debug.log.1", "debug.log.2", "debug.log.3", "other.txt"] {
        files.insert(name.to_string(), name.to_string());
    }
    rotate(&mut files);
    assert!(!files.contains_key("debug.log"));
    assert!(!files.contains_key("debug.log.4"));
    assert_eq!(files["debug.log.1"], "debug.log");
    assert_eq!(files["debug.log.2"], "debug.log.1");
    assert_eq!(files["debug.log.3"], "debug.log.2");
    assert_eq!(files["other.txt"], "other.txt");
    assert_eq!(files.len(), 4);
}

#[test]
fn rotation_with_only_current_log() {
    let mut files: HashMap<String, String> = HashMap::new();
    files.insert("debug.log".to_string(), "hello".to_string());
    rotate(&mut files);
    assert!(!files.contains_key("debug.log"));
    assert_eq!(files["debug.log.1"], "hello");
    assert_eq!(files.len(), 1);
}

#[test]
fn rotation_with_no_files() {
    let mut files: HashMap<String, String> = HashMap::new();
    rotate(&mut files);
    assert!(files.is_empty());
}

#[test]
fn rotation_plan_names_the_steps() {
    let plan = rotation_plan();
    assert_eq!(plan.remove, "debug.log.3");
    let renames: Vec<(&str, &str)> = plan.renames.iter().map(|(a, b)| (a.as_str(), b.as_str())).collect();
    assert_eq!(
        renames,
        vec![("debug.log.2", "debug.log.3"), ("debug.log.1", "debug.log.2"), ("debug.log", "debug.log.1")]
    );
}

#[test]
fn try_split_file_agrees_with_split_file() {
    let source = "/// Adds.\nfn add(a: i32, b: i32) -> i32 {\n    a + b\n}\n\nconst X: i32 = 1;\n";
    let tried = try_split_file(source, "rust", "src/lib.rs", 1000).expect("declarations lie within the file");
    let plain = split_file(source, "rust", "src/lib.rs", 1000);
    assert_eq!(tried.len(), plain.len());
    for (a, b) in tried.iter().zip(plain.iter()) {
        assert_eq!(a.content, b.content);
        assert_eq!((a.start_line, a.end_line), (b.start_line, b.end_line));
    }
    assert_eq!(try_split_file("", "rust", "x.rs", 10).map(|v| v.len()), Some(0));
}

fn assert_within_file(source: &str, chunks: &[codescout::embed::chunker::RawChunk]) {
    let n = source.lines().count();
    for c in chunks {
        assert!(c.start_line >= 1, "starts before line 1");
        assert!(c.end_line <= n, "ends after line {n}");
        assert!(c.start_line <= c.end_line + 1);
        if c.start_line == c.end_line + 1 {
            assert!(c.content.is_empty());
        }
    }
}

#[test]
fn split_file_chunks_lie_within_the_file() {
    let mut big_impl = String::from("use std::fmt;\n\n/// A thing.\nimpl Thing {\n");
    for i in 0..30 {
        big_impl.push_str(&format!("    /// Method {i}.\n    fn m{i}(&self) -> i32 {{\n        {i}\n    }}\n\n"));
    }
    big_impl.push_str("}\n\n// trailing\n");
    let cases: Vec<(String, &str, &str)> = vec![
        (big_impl, "rust", "src/thing.rs"),
        ("def f():\n    return 1\n\n\nclass A:\n    def g(self):\n        pass\n".to_string(), "python", "a.py"),
        ("# Title\n\nText\n\n## Part\n\nMore text\n".to_string(), "", "notes.md"),
        ("just some words\non two lines\n".to_string(), "cobol", "x.cbl"),
    ];
    for (source, lang, path) in &cases {
        for size in [40usize, 200, 4000] {
            let chunks = split_file(source, lang, path, size);
            assert!(!chunks.is_empty());
            assert_within_file(source, &chunks);
        }
    }
}

fn assert_ordered(chunks: &[codescout::embed::chunker::RawChunk]) {
    for w in chunks.windows(2) {
        assert!(w[0].end_line < w[1].start_line, "ranges overlap or go back");
    }
}

#[test]
fn split_container_emits_outside_text_once() {
    let src = "use a;\nimpl Foo {\n    fn a() {\n        1\n    }\n    fn b() {\n        2\n    }\n}\n";
    let chunks = split_file(src, "rust", "a.rs", 40);
    assert_eq!(chunks.iter().filter(|c| c.content.contains("use a;")).count(), 1);
    assert_ordered(&chunks);
    assert_within_file(src, &chunks);
    let covered: Vec<usize> = (1..=src.lines().count())
        .filter(|l| chunks.iter().any(|c| c.start_line <= *l && *l <= c.end_line))
        .collect();
    assert_eq!(covered.len(), src.lines().count());
}

#[test]
fn split_file_chunks_are_ordered() {
    let mut big_impl = String::from("use std::fmt;\n\n/// A thing.\nimpl Thing {\n");
    for i in 0..30 {
        big_impl.push_str(&format!("    /// Method {i}.\n    fn m{i}(&self) -> i32 {{\n        {i}\n    }}\n\n"));
    }
    big_impl.push_str("}\n\n// trailing\n");
    for size in [40usize, 200, 4000] {
        assert_ordered(&split_file(&big_impl, "rust", "src/thing.rs", size));
        assert_ordered(&split_file("# A\n\ntext\n\n## B\n\nmore\n", "", "n.md", size));
    }
}

fn assert_nonblank_covered(source: &str, chunks: &[codescout::embed::chunker::RawChunk]) {
    for (i, line) in source.lines().enumerate() {
        if !line.trim().is_empty() {
            assert!(
                chunks.iter().any(|c| c.start_line <= i + 1 && i + 1 <= c.end_line),
                "line {} not covered",
                i + 1
            );
        }
    }
}

#[test]
fn split_file_covers_every_nonblank_line() {
    let mut big_impl = String::from("use std::fmt;\n\n/// A thing.\nimpl Thing {\n");
    for i in 0..30 {
        big_impl.push_str(&format!("    /// Method {i}.\n    fn m{i}(&self) -> i32 {{\n        {i}\n    }}\n\n"));
    }
    big_impl.push_str("}\n\n// trailing\n");
    let mut big_fn = String::from("/// Doc.\nfn big() {\n");
    for i in 0..60 {
        big_fn.push_str(&format!("    let v{i} = {i};\n"));
    }
    big_fn.push_str("}\n");
    let cases: Vec<(String, &str, &str)> = vec![
        (big_impl, "rust", "src/thing.rs"),
        (big_fn, "rust", "src/big.rs"),
        ("# Title\n\nText\n\n## Part\n\nMore text\n".to_string(), "", "notes.md"),
        ("just some words\n\non three lines\n".to_string(), "cobol", "x.cbl"),
    ];
    for (source, lang, path) in &cases {
        for size in [60usize, 200, 4000] {
            let chunks = split_file(source, lang, path, size);
            assert_nonblank_covered(source, &chunks);
        }
    }
}

#[test]
fn continued_pieces_carry_the_marker() {
    let mut lines: Vec<String> = vec!["/// Doc.".into(), "fn big() {".into()];
    for i in 0..40 {
        lines.push(format!("    let v{i} = {i} * 2 + 1;"));
    }
    lines.push("}".into());
    let refs: Vec<&str> = lines.iter().map(|s| s.as_str()).collect();
    let chunks = sub_split_node(&refs, 0, refs.len(), 200, &["///"]);
    assert!(chunks.len() > 1);
    assert!(chunks[0].content.starts_with("/// Doc.\nfn big() {\n"));
    assert!(!chunks[0].content.starts_with("/// Doc.\nfn big() {\n    // ... (continued)"));
    for c in &chunks[1..] {
        assert!(c.content.starts_with("/// Doc.\nfn big() {\n    // ... (continued)\n"));
    }
}
