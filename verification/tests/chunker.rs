use codescout::embed::ast_chunker::{
    extract_container_header, get_ts_language, is_markdown, sub_split_node, top_level_nodes,
};
use codescout::embed::chunker::{split, split_markdown};
use codescout::embed::syntax::{Grammar, SyntaxEntry};

#[test]
fn split_packs_lines_up_to_size() {
    let chunks = split("aaa\nbbb\nccc\nddd\n", 7);
    let got: Vec<(&str, usize, usize)> =
        chunks.iter().map(|c| (c.content.as_str(), c.start_line, c.end_line)).collect();
    assert_eq!(got, vec![("aaa\nbbb", 1, 2), ("ccc\nddd", 3, 4)]);
}

#[test]
fn split_keeps_long_line_whole() {
    let chunks = split("short\nthis line is long\nx", 6);
    let got: Vec<(&str, usize, usize)> =
        chunks.iter().map(|c| (c.content.as_str(), c.start_line, c.end_line)).collect();
    assert_eq!(got, vec![("short", 1, 1), ("this line is long", 2, 2), ("x", 3, 3)]);
}

#[test]
fn split_counts_bytes_not_chars() {
    // "éé" takes four bytes.
    let chunks = split("éé\nab", 6);
    assert_eq!(chunks.len(), 2);
    let chunks = split("éé\na", 6);
    assert_eq!(chunks.len(), 1);
}

#[test]
fn split_empty_text_gives_nothing() {
    assert!(split("", 100).is_empty());
    let blank = split("\n", 100);
    assert_eq!(blank.len(), 1);
    assert_eq!(blank[0].content, "");
}

#[test]
fn split_markdown_sections() {
    let chunks = split_markdown("intro\n# A\ntext\n\n## B\nmore\n", 4000);
    let got: Vec<(&str, usize, usize)> =
        chunks.iter().map(|c| (c.content.as_str(), c.start_line, c.end_line)).collect();
    assert_eq!(got, vec![("intro", 1, 1), ("# A\ntext\n", 2, 4), ("## B\nmore", 5, 6)]);
}

#[test]
fn split_markdown_drops_blank_sections() {
    let chunks = split_markdown("\n\n# A\n", 4000);
    assert_eq!(chunks.len(), 1);
    assert_eq!(chunks[0].start_line, 3);
}

#[test]
fn markdown_paths() {
    assert!(is_markdown("README.md"));
    assert!(is_markdown("docs/NOTES.MarkDown"));
    assert!(is_markdown("a/b.md/"));
    assert!(!is_markdown(".md"));
    assert!(!is_markdown("notes.txt"));
    assert!(!is_markdown("a/.."));
    assert!(!is_markdown(""));
}

#[test]
fn grammar_lookup_is_ascii_case_insensitive() {
    assert_eq!(get_ts_language("Rust"), Some(Grammar::Rust));
    assert_eq!(get_ts_language("JavaScript"), Some(Grammar::TypeScript));
    assert_eq!(get_ts_language("jsx"), Some(Grammar::Tsx));
    assert_eq!(get_ts_language("haskell"), None);
}

#[test]
fn container_header_stops_at_brace() {
    let lines = vec!["/// Doc.", "impl Foo {", "    fn a() {}", "}"];
    let h = extract_container_header(&lines, 0, 4, &["///"]);
    assert_eq!(h.content, "/// Doc.\nimpl Foo {");
    assert_eq!((h.start_line, h.end_line), (1, 2));
    let one = extract_container_header(&lines, 3, 4, &["///"]);
    assert_eq!(one.content, "}");
    let none = extract_container_header(&lines, 2, 2, &["///"]);
    assert_eq!(none.content, "");
}

#[test]
fn sub_split_prefixes_every_piece() {
    let mut lines: Vec<String> = vec!["fn big() {".to_string()];
    for i in 0..20 {
        lines.push(format!("    let x{} = {};", i, i));
    }
    lines.push("}".to_string());
    let refs: Vec<&str> = lines.iter().map(|s| s.as_str()).collect();
    let chunks = sub_split_node(&refs, 0, refs.len(), 120, &["///"]);
    assert!(chunks.len() > 1);
    assert_eq!(chunks[0].start_line, 1);
    for (i, c) in chunks.iter().enumerate() {
        assert!(c.content.starts_with("fn big() {\n"));
        assert_eq!(c.content.contains("(continued)"), i > 0);
    }
    assert_eq!(chunks.last().unwrap().end_line, refs.len());
}

#[test]
fn top_level_nodes_picks_registered_kinds() {
    let entry = |kind: &str, named: bool, s: usize, e: usize, d: u32| SyntaxEntry {
        kind: kind.to_string(),
        named,
        start_row: s,
        end_row: e,
        depth: d,
    };
    let outline = vec![
        entry("source_file", true, 0, 9, 0),
        entry("use_declaration", true, 0, 0, 1),
        entry("function_item", true, 2, 4, 1),
        entry("identifier", true, 2, 2, 2),
        entry("function_item", true, 3, 3, 2),
        entry("struct_item", true, 6, 8, 1),
    ];
    let spec = codescout::embed::ast_chunker::get_language_spec("rust").unwrap();
    let nodes = top_level_nodes(&outline, Some(&spec));
    let got: Vec<(usize, usize)> = nodes.iter().map(|n| (n.start_line, n.end_line)).collect();
    assert_eq!(got, vec![(2, 4), (6, 8)]);
    // Generic heuristic: named, spanning two rows or more, with a named child.
    let generic = top_level_nodes(&outline, None);
    let got: Vec<(usize, usize)> = generic.iter().map(|n| (n.start_line, n.end_line)).collect();
    assert_eq!(got, vec![(2, 4)]);
}
