//! AST-aware code chunker with a language registry.
//!
//! The registry gives, per language, the tree-sitter node types that are
//! top-level declarations, the prefixes of documentation comments, and the
//! node types to recurse into when a container is too large. Source files are
//! split into declaration chunks (with their doc comments) and gap chunks for
//! the text between them; markdown is split at headings, and unknown languages
//! fall back to plain line packing.
use vstd::prelude::*;

use crate::embed::chunker::{
    chunks_view, covers_nonblank, lemma_covered_concat, lemma_covers_concat, lemma_lines_join_cover,
    lemma_md_covers, lemma_nonblank_join, lemma_section_covers, lemma_split_covers, line_covered,
    lines_of_vec, lines_view, md_sections_from, no_nl, range_chunks, section_chunks,
    section_end, lemma_section_end_bounds, shift_chunk,
    split_chars, split_markdown, split_markdown_spec, split_spec, ChunkV, RawChunk,
};
use crate::embed::syntax::{
    chars_eq, has_named_child, has_named_child_exec, kind_in, lemma_scan_end_bounds,
    lemma_scan_end_le,
    outline_view, parse_outline, parsed_outline, subtree_end, subtree_end_exec, Grammar,
    SyntaxEntry, SyntaxEntryV,
};
use crate::embed::chunker::{
    join_range, lemma_lines_join_len, lemma_lines_no_nl, lemma_md_within, lemma_section_within,
    lemma_split_joined_bounds, lemma_split_lines_bounds, lemma_within_file_concat,
    lemma_within_file_from_range, lines_within, split_tiles_lines, within_file,
};
use crate::text::{
    all_ascii, all_ws, ascii_lower, is_ws, lead_ws, ascii_lower_vec, byte_len, byte_len_of, chars_of, contains_char,
    contains_chars, contains_sub, ends_with, has_prefix, has_suffix, is_blank, join_lines, lines_of,
    lowercase, starts_with, string_of, trim, trim_end, trim_start, trim_start_vec, trim_vec,
    unicode_lowercase,
};

verus! {

/// Language-specific metadata for AST-aware chunking.
pub struct LanguageSpec {
    /// Tree-sitter node types that represent top-level declarations.
    pub node_types: Vec<&'static str>,
    /// Prefixes that introduce documentation comments.
    pub doc_prefixes: Vec<&'static str>,
    /// Node types to recurse into when a container node is too large; empty
    /// means no recursion.
    pub inner_node_types: Vec<&'static str>,
}

/// Mathematical view of a `LanguageSpec`.
pub struct LanguageSpecV {
    pub node_types: Seq<Seq<char>>,
    pub doc_prefixes: Seq<Seq<char>>,
    pub inner_node_types: Seq<Seq<char>>,
}

/// The character views of a sequence of string slices.
pub open spec fn strs_view(v: Seq<&str>) -> Seq<Seq<char>> {
    v.map_values(|s: &str| s@)
}

impl View for LanguageSpec {
    type V = LanguageSpecV;

    open spec fn view(&self) -> LanguageSpecV {
        LanguageSpecV {
            node_types: strs_view(self.node_types@),
            doc_prefixes: strs_view(self.doc_prefixes@),
            inner_node_types: strs_view(self.inner_node_types@),
        }
    }
}

/// The view of an optional spec.
pub open spec fn opt_spec_view(s: Option<LanguageSpec>) -> Option<LanguageSpecV> {
    match s {
        Some(x) => Some(x@),
        None => None,
    }
}

/// The `rust` entry of the registry.
pub open spec fn rust_spec() -> LanguageSpecV {
    LanguageSpecV {
        node_types: seq!["function_item"@, "struct_item"@, "enum_item"@, "trait_item"@, "impl_item"@, "mod_item"@, "type_item"@, "const_item"@, "static_item"@, "macro_definition"@],
        doc_prefixes: seq!["///"@, "//!"@],
        inner_node_types: seq!["function_item"@, "const_item"@, "type_item"@, "impl_item"@],
    }
}

fn rust_spec_exec() -> (res: LanguageSpec)
    ensures
        res@ == rust_spec(),
{
    let res = LanguageSpec {
        node_types: vec!["function_item", "struct_item", "enum_item", "trait_item", "impl_item", "mod_item", "type_item", "const_item", "static_item", "macro_definition"],
        doc_prefixes: vec!["///", "//!"],
        inner_node_types: vec!["function_item", "const_item", "type_item", "impl_item"],
    };
    assert(strs_view(res.node_types@) =~= rust_spec().node_types);
    assert(strs_view(res.doc_prefixes@) =~= rust_spec().doc_prefixes);
    assert(strs_view(res.inner_node_types@) =~= rust_spec().inner_node_types);
    res
}

/// The `python` entry of the registry.
pub open spec fn python_spec() -> LanguageSpecV {
    LanguageSpecV {
        node_types: seq!["function_definition"@, "class_definition"@, "decorated_definition"@, "async_function_definition"@],
        doc_prefixes: seq!["#"@],
        inner_node_types: seq!["function_definition"@, "decorated_definition"@, "async_function_definition"@],
    }
}

fn python_spec_exec() -> (res: LanguageSpec)
    ensures
        res@ == python_spec(),
{
    let res = LanguageSpec {
        node_types: vec!["function_definition", "class_definition", "decorated_definition", "async_function_definition"],
        doc_prefixes: vec!["#"],
        inner_node_types: vec!["function_definition", "decorated_definition", "async_function_definition"],
    };
    assert(strs_view(res.node_types@) =~= python_spec().node_types);
    assert(strs_view(res.doc_prefixes@) =~= python_spec().doc_prefixes);
    assert(strs_view(res.inner_node_types@) =~= python_spec().inner_node_types);
    res
}

/// The `go` entry of the registry.
pub open spec fn go_spec() -> LanguageSpecV {
    LanguageSpecV {
        node_types: seq!["function_declaration"@, "method_declaration"@, "type_declaration"@, "var_declaration"@, "const_declaration"@],
        doc_prefixes: seq!["//"@],
        inner_node_types: Seq::<Seq<char>>::empty(),
    }
}

fn go_spec_exec() -> (res: LanguageSpec)
    ensures
        res@ == go_spec(),
{
    let res = LanguageSpec {
        node_types: vec!["function_declaration", "method_declaration", "type_declaration", "var_declaration", "const_declaration"],
        doc_prefixes: vec!["//"],
        inner_node_types: Vec::new(),
    };
    assert(strs_view(res.node_types@) =~= go_spec().node_types);
    assert(strs_view(res.doc_prefixes@) =~= go_spec().doc_prefixes);
    assert(strs_view(res.inner_node_types@) =~= go_spec().inner_node_types);
    res
}

/// The `typescript` entry of the registry.
pub open spec fn typescript_spec() -> LanguageSpecV {
    LanguageSpecV {
        node_types: seq!["function_declaration"@, "class_declaration"@, "method_definition"@, "export_statement"@, "interface_declaration"@, "type_alias_declaration"@],
        doc_prefixes: seq!["/**"@, " *"@, "//"@],
        inner_node_types: seq!["method_definition"@],
    }
}

fn typescript_spec_exec() -> (res: LanguageSpec)
    ensures
        res@ == typescript_spec(),
{
    let res = LanguageSpec {
        node_types: vec!["function_declaration", "class_declaration", "method_definition", "export_statement", "interface_declaration", "type_alias_declaration"],
        doc_prefixes: vec!["/**", " *", "//"],
        inner_node_types: vec!["method_definition"],
    };
    assert(strs_view(res.node_types@) =~= typescript_spec().node_types);
    assert(strs_view(res.doc_prefixes@) =~= typescript_spec().doc_prefixes);
    assert(strs_view(res.inner_node_types@) =~= typescript_spec().inner_node_types);
    res
}

/// The `javascript` entry of the registry.
pub open spec fn javascript_spec() -> LanguageSpecV {
    LanguageSpecV {
        node_types: seq!["function_declaration"@, "class_declaration"@, "method_definition"@, "export_statement"@],
        doc_prefixes: seq!["/**"@, " *"@, "//"@],
        inner_node_types: seq!["method_definition"@],
    }
}

fn javascript_spec_exec() -> (res: LanguageSpec)
    ensures
        res@ == javascript_spec(),
{
    let res = LanguageSpec {
        node_types: vec!["function_declaration", "class_declaration", "method_definition", "export_statement"],
        doc_prefixes: vec!["/**", " *", "//"],
        inner_node_types: vec!["method_definition"],
    };
    assert(strs_view(res.node_types@) =~= javascript_spec().node_types);
    assert(strs_view(res.doc_prefixes@) =~= javascript_spec().doc_prefixes);
    assert(strs_view(res.inner_node_types@) =~= javascript_spec().inner_node_types);
    res
}

/// The `tsx` entry of the registry.
pub open spec fn tsx_spec() -> LanguageSpecV {
    LanguageSpecV {
        node_types: seq!["function_declaration"@, "class_declaration"@, "method_definition"@, "export_statement"@, "interface_declaration"@, "type_alias_declaration"@],
        doc_prefixes: seq!["/**"@, " *"@, "//"@],
        inner_node_types: seq!["method_definition"@],
    }
}

fn tsx_spec_exec() -> (res: LanguageSpec)
    ensures
        res@ == tsx_spec(),
{
    let res = LanguageSpec {
        node_types: vec!["function_declaration", "class_declaration", "method_definition", "export_statement", "interface_declaration", "type_alias_declaration"],
        doc_prefixes: vec!["/**", " *", "//"],
        inner_node_types: vec!["method_definition"],
    };
    assert(strs_view(res.node_types@) =~= tsx_spec().node_types);
    assert(strs_view(res.doc_prefixes@) =~= tsx_spec().doc_prefixes);
    assert(strs_view(res.inner_node_types@) =~= tsx_spec().inner_node_types);
    res
}

/// The `jsx` entry of the registry.
pub open spec fn jsx_spec() -> LanguageSpecV {
    LanguageSpecV {
        node_types: seq!["function_declaration"@, "class_declaration"@, "method_definition"@, "export_statement"@],
        doc_prefixes: seq!["/**"@, " *"@, "//"@],
        inner_node_types: seq!["method_definition"@],
    }
}

fn jsx_spec_exec() -> (res: LanguageSpec)
    ensures
        res@ == jsx_spec(),
{
    let res = LanguageSpec {
        node_types: vec!["function_declaration", "class_declaration", "method_definition", "export_statement"],
        doc_prefixes: vec!["/**", " *", "//"],
        inner_node_types: vec!["method_definition"],
    };
    assert(strs_view(res.node_types@) =~= jsx_spec().node_types);
    assert(strs_view(res.doc_prefixes@) =~= jsx_spec().doc_prefixes);
    assert(strs_view(res.inner_node_types@) =~= jsx_spec().inner_node_types);
    res
}

/// The `java` entry of the registry.
pub open spec fn java_spec() -> LanguageSpecV {
    LanguageSpecV {
        node_types: seq!["method_declaration"@, "class_declaration"@, "interface_declaration"@, "constructor_declaration"@, "enum_declaration"@],
        doc_prefixes: seq!["/**"@, " *"@],
        inner_node_types: seq!["method_declaration"@, "constructor_declaration"@, "field_declaration"@],
    }
}

fn java_spec_exec() -> (res: LanguageSpec)
    ensures
        res@ == java_spec(),
{
    let res = LanguageSpec {
        node_types: vec!["method_declaration", "class_declaration", "interface_declaration", "constructor_declaration", "enum_declaration"],
        doc_prefixes: vec!["/**", " *"],
        inner_node_types: vec!["method_declaration", "constructor_declaration", "field_declaration"],
    };
    assert(strs_view(res.node_types@) =~= java_spec().node_types);
    assert(strs_view(res.doc_prefixes@) =~= java_spec().doc_prefixes);
    assert(strs_view(res.inner_node_types@) =~= java_spec().inner_node_types);
    res
}

/// The `kotlin` entry of the registry.
pub open spec fn kotlin_spec() -> LanguageSpecV {
    LanguageSpecV {
        node_types: seq!["function_declaration"@, "class_declaration"@, "object_declaration"@, "property_declaration"@],
        doc_prefixes: seq!["/**"@, " *"@],
        inner_node_types: seq!["function_declaration"@, "property_declaration"@],
    }
}

fn kotlin_spec_exec() -> (res: LanguageSpec)
    ensures
        res@ == kotlin_spec(),
{
    let res = LanguageSpec {
        node_types: vec!["function_declaration", "class_declaration", "object_declaration", "property_declaration"],
        doc_prefixes: vec!["/**", " *"],
        inner_node_types: vec!["function_declaration", "property_declaration"],
    };
    assert(strs_view(res.node_types@) =~= kotlin_spec().node_types);
    assert(strs_view(res.doc_prefixes@) =~= kotlin_spec().doc_prefixes);
    assert(strs_view(res.inner_node_types@) =~= kotlin_spec().inner_node_types);
    res
}

/// The language registry: the spec registered under `name`, if any.
pub open spec fn registry_lookup(name: Seq<char>) -> Option<LanguageSpecV> {
    if name == "rust"@ {
        Some(rust_spec())
    } else if name == "python"@ {
        Some(python_spec())
    } else if name == "go"@ {
        Some(go_spec())
    } else if name == "typescript"@ {
        Some(typescript_spec())
    } else if name == "javascript"@ {
        Some(javascript_spec())
    } else if name == "tsx"@ {
        Some(tsx_spec())
    } else if name == "jsx"@ {
        Some(jsx_spec())
    } else if name == "java"@ {
        Some(java_spec())
    } else if name == "kotlin"@ {
        Some(kotlin_spec())
    } else {
        None
    }
}

/// Looks up the spec registered for the lower-cased name of `lang`
/// (`str::to_lowercase`), so the lookup ignores case.
pub fn get_language_spec(lang: &str) -> (res: Option<LanguageSpec>)
    ensures
        opt_spec_view(res) == registry_lookup(unicode_lowercase(lang@)),
        all_ascii(lang@) ==> opt_spec_view(res) == registry_lookup(ascii_lower(lang@)),
{
    let lower = lowercase(lang);
    let l = chars_of(lower.as_str());
    if chars_eq(&l, &chars_of("rust")) {
        return Some(rust_spec_exec());
    }
    if chars_eq(&l, &chars_of("python")) {
        return Some(python_spec_exec());
    }
    if chars_eq(&l, &chars_of("go")) {
        return Some(go_spec_exec());
    }
    if chars_eq(&l, &chars_of("typescript")) {
        return Some(typescript_spec_exec());
    }
    if chars_eq(&l, &chars_of("javascript")) {
        return Some(javascript_spec_exec());
    }
    if chars_eq(&l, &chars_of("tsx")) {
        return Some(tsx_spec_exec());
    }
    if chars_eq(&l, &chars_of("jsx")) {
        return Some(jsx_spec_exec());
    }
    if chars_eq(&l, &chars_of("java")) {
        return Some(java_spec_exec());
    }
    if chars_eq(&l, &chars_of("kotlin")) {
        return Some(kotlin_spec_exec());
    }
    None
}

/// The grammar used for the ASCII-lower-cased language name: JavaScript and
/// JSX reuse the TypeScript and TSX grammars.
pub open spec fn grammar_for(name: Seq<char>) -> Option<Grammar> {
    if name == "rust"@ {
        Some(Grammar::Rust)
    } else if name == "python"@ {
        Some(Grammar::Python)
    } else if name == "go"@ {
        Some(Grammar::Go)
    } else if name == "typescript"@ || name == "javascript"@ {
        Some(Grammar::TypeScript)
    } else if name == "tsx"@ || name == "jsx"@ {
        Some(Grammar::Tsx)
    } else if name == "java"@ {
        Some(Grammar::Java)
    } else if name == "kotlin"@ {
        Some(Grammar::Kotlin)
    } else {
        None
    }
}

/// The grammar for `lang` (compared after `str::to_ascii_lowercase`).
pub fn get_ts_language(lang: &str) -> (res: Option<Grammar>)
    ensures
        res == grammar_for(ascii_lower(lang@)),
{
    let l = ascii_lower_vec(&chars_of(lang));
    grammar_of_chars(&l)
}

/// `grammar_for` on a character vector.
fn grammar_of_chars(l: &Vec<char>) -> (res: Option<Grammar>)
    ensures
        res == grammar_for(l@),
{
    if chars_eq(l, &chars_of("rust")) {
        Some(Grammar::Rust)
    } else if chars_eq(l, &chars_of("python")) {
        Some(Grammar::Python)
    } else if chars_eq(l, &chars_of("go")) {
        Some(Grammar::Go)
    } else if chars_eq(l, &chars_of("typescript")) || chars_eq(l, &chars_of("javascript")) {
        Some(Grammar::TypeScript)
    } else if chars_eq(l, &chars_of("tsx")) || chars_eq(l, &chars_of("jsx")) {
        Some(Grammar::Tsx)
    } else if chars_eq(l, &chars_of("java")) {
        Some(Grammar::Java)
    } else if chars_eq(l, &chars_of("kotlin")) {
        Some(Grammar::Kotlin)
    } else {
        None
    }
}

// ---------------------------------------------------------------------------
// Doc comments
// ---------------------------------------------------------------------------

/// The closing `*/` of a block comment.
pub open spec fn block_close() -> Seq<char> {
    seq!['*', '/']
}

/// A documentation-comment line: after leading whitespace it is non-empty,
/// and either its trimmed form is the closing `*/`, or it begins with one of
/// `prefixes`, or the line itself (whitespace included) begins with one of
/// `prefixes`.
pub open spec fn is_doc(line: Seq<char>, prefixes: Seq<Seq<char>>) -> bool {
    let t = trim_start(line);
    t.len() > 0 && (trim(line) == block_close() || exists|i: int|
        0 <= i < prefixes.len() && (starts_with(t, #[trigger] prefixes[i]) || starts_with(
            line,
            prefixes[i],
        )))
}

/// Law: a line that is `*/` once trimmed is a doc line, whatever the prefixes.
pub proof fn law_block_close_is_doc(line: Seq<char>, prefixes: Seq<Seq<char>>)
    requires
        trim(line) == block_close(),
    ensures
        is_doc(line, prefixes),
{
    let t = trim_start(line);
    crate::text::lemma_trail_ws_props(t);
    assert(trim(line) == trim_end(t));
    assert(trim_end(t).len() <= t.len());
}

/// Law: a blank line (empty or whitespace only) is never a doc line.
pub proof fn law_blank_is_not_doc(line: Seq<char>, prefixes: Seq<Seq<char>>)
    requires
        trim_start(line).len() == 0,
    ensures
        !is_doc(line, prefixes),
{
}

/// Character vectors of string slices.
pub fn strs_to_vecs(v: &[&str]) -> (res: Vec<Vec<char>>)
    ensures
        lines_view(res@) == strs_view(v@),
{
    let mut out: Vec<Vec<char>> = Vec::new();
    let mut i: usize = 0;
    while i < v.len()
        invariant
            i <= v.len(),
            out@.len() == i,
            forall|j: int| 0 <= j < i ==> (#[trigger] out@[j])@ == v@[j]@,
        decreases v.len() - i,
    {
        let c = chars_of(v[i]);
        out.push(c);
        i = i + 1;
    }
    assert(lines_view(out@) =~= strs_view(v@));
    out
}

/// `is_doc` on characters.
pub fn is_doc_chars(line: &[char], prefixes: &Vec<Vec<char>>) -> (res: bool)
    ensures
        res == is_doc(line@, lines_view(prefixes@)),
{
    let ghost pv = lines_view(prefixes@);
    let t = trim_start_vec(line);
    if t.len() == 0 {
        return false;
    }
    let close = vec!['*', '/'];
    assert(close@ =~= block_close());
    let tt = trim_vec(line);
    if crate::embed::syntax::chars_eq(&tt, &close) {
        return true;
    }
    let mut i: usize = 0;
    while i < prefixes.len()
        invariant
            i <= prefixes.len(),
            pv == lines_view(prefixes@),
            t@ == trim_start(line@),
            t@.len() > 0,
            trim(line@) != block_close(),
            forall|j: int|
                0 <= j < i ==> !(starts_with(t@, #[trigger] pv[j]) || starts_with(line@, pv[j])),
        decreases prefixes.len() - i,
    {
        assert(pv[i as int] == prefixes@[i as int]@);
        if has_prefix(&t, &prefixes[i]) || has_prefix(line, &prefixes[i]) {
            return true;
        }
        i = i + 1;
    }
    false
}

/// Whether `line` is a doc comment line: its trimmed form is the closing
/// `*/` or begins with one of `doc_prefixes`, or the line itself begins with
/// a prefix (for prefixes that carry leading whitespace, such as `" *"`).
/// Blank lines are never doc lines.
pub fn is_doc_line(line: &str, doc_prefixes: &[&str]) -> (res: bool)
    ensures
        res == is_doc(line@, strs_view(doc_prefixes@)),
{
    let l = chars_of(line);
    let p = strs_to_vecs(doc_prefixes);
    is_doc_chars(&l, &p)
}

/// Moving up from `cursor`, skip at most two blank lines (`count` already skipped).
pub open spec fn skip_blanks(lines: Seq<Seq<char>>, cursor: int, count: int) -> int
    decreases cursor,
{
    if 0 < cursor <= lines.len() && all_ws(lines[cursor - 1]) && count < 2 {
        skip_blanks(lines, cursor - 1, count + 1)
    } else {
        cursor
    }
}

/// Moving up from `d`, extend over contiguous doc lines.
pub open spec fn doc_top(lines: Seq<Seq<char>>, d: int, prefixes: Seq<Seq<char>>) -> int
    decreases d,
{
    if 0 < d <= lines.len() && is_doc(lines[d - 1], prefixes) {
        doc_top(lines, d - 1, prefixes)
    } else {
        d
    }
}

/// Start line of the doc comment above line `start`: skip up to two blank
/// lines upward; if the line above is a doc line, take the whole contiguous
/// run of doc lines; otherwise `start` itself.
pub open spec fn expand_doc(lines: Seq<Seq<char>>, start: int, prefixes: Seq<Seq<char>>) -> int {
    if start == 0 {
        0
    } else {
        let c = skip_blanks(lines, start, 0);
        if c == 0 && all_ws(lines[0]) {
            start
        } else if c == 0 || !is_doc(lines[c - 1], prefixes) {
            start
        } else {
            doc_top(lines, c - 1, prefixes)
        }
    }
}

/// Law: a doc comment separated from its node by three or more blank lines
/// is not attached to it.
pub proof fn law_doc_not_bridged_over_blanks(lines: Seq<Seq<char>>, start: int, prefixes: Seq<Seq<char>>)
    requires
        3 <= start <= lines.len(),
        all_ws(lines[start - 1]),
        all_ws(lines[start - 2]),
        all_ws(lines[start - 3]),
    ensures
        expand_doc(lines, start, prefixes) == start,
{
    assert(skip_blanks(lines, start - 2, 2) == start - 2);
    assert(skip_blanks(lines, start - 1, 1) == start - 2);
    assert(skip_blanks(lines, start, 0) == start - 2);
    let l = lines[start - 3];
    crate::text::lemma_lead_ws_props(l);
    if lead_ws(l) < l.len() {
        assert(is_ws(l[lead_ws(l) as int]));
    }
    assert(trim_start(l).len() == 0);
}

/// Bounds of the blank and doc scans.
pub proof fn lemma_expand_bounds(lines: Seq<Seq<char>>, start: int, prefixes: Seq<Seq<char>>)
    requires
        0 <= start <= lines.len(),
    ensures
        0 <= expand_doc(lines, start, prefixes) <= start,
{
    if start > 0 {
        lemma_skip_blanks_bounds(lines, start, 0);
        let c = skip_blanks(lines, start, 0);
        if c > 0 {
            lemma_doc_top_bounds(lines, c - 1, prefixes);
        }
    }
}

proof fn lemma_skip_blanks_bounds(lines: Seq<Seq<char>>, cursor: int, count: int)
    requires
        0 <= cursor,
    ensures
        0 <= skip_blanks(lines, cursor, count) <= cursor,
    decreases cursor,
{
    if 0 < cursor <= lines.len() && all_ws(lines[cursor - 1]) && count < 2 {
        lemma_skip_blanks_bounds(lines, cursor - 1, count + 1);
    }
}

proof fn lemma_doc_top_bounds(lines: Seq<Seq<char>>, d: int, prefixes: Seq<Seq<char>>)
    requires
        0 <= d,
    ensures
        0 <= doc_top(lines, d, prefixes) <= d,
    decreases d,
{
    if 0 < d <= lines.len() && is_doc(lines[d - 1], prefixes) {
        lemma_doc_top_bounds(lines, d - 1, prefixes);
    }
}

/// `expand_doc` on character vectors.
pub fn expand_doc_chars(lines: &Vec<Vec<char>>, start: usize, prefixes: &Vec<Vec<char>>) -> (res:
    usize)
    requires
        start <= lines.len(),
    ensures
        res == expand_doc(lines_view(lines@), start as int, lines_view(prefixes@)),
        res <= start,
{
    let ghost lv = lines_view(lines@);
    let ghost pv = lines_view(prefixes@);
    proof {
        lemma_expand_bounds(lv, start as int, pv);
    }
    if start == 0 {
        return 0;
    }
    let mut cursor = start;
    let mut blank: usize = 0;
    while cursor > 0 && is_blank(&lines[cursor - 1]) && blank < 2
        invariant
            cursor <= start <= lines.len(),
            lv == lines_view(lines@),
            skip_blanks(lv, cursor as int, blank as int) == skip_blanks(lv, start as int, 0),
        decreases cursor,
    {
        assert(lv[cursor - 1] == lines@[cursor - 1]@);
        cursor = cursor - 1;
        blank = blank + 1;
    }
    proof {
        if cursor > 0 {
            assert(lv[cursor - 1] == lines@[cursor - 1]@);
        }
    }
    if cursor == 0 && is_blank(&lines[0]) {
        assert(lv[0] == lines@[0]@);
        return start;
    }
    if cursor == 0 || !is_doc_chars(&lines[cursor - 1], prefixes) {
        return start;
    }
    let mut d = cursor - 1;
    while d > 0 && is_doc_chars(&lines[d - 1], prefixes)
        invariant
            d < cursor <= start <= lines.len(),
            lv == lines_view(lines@),
            pv == lines_view(prefixes@),
            doc_top(lv, d as int, pv) == doc_top(lv, cursor - 1, pv),
        decreases d,
    {
        assert(lv[d - 1] == lines@[d - 1]@);
        d = d - 1;
    }
    proof {
        if d > 0 {
            assert(lv[d - 1] == lines@[d - 1]@);
        }
    }
    d
}

/// Expands a node's start line upward to include the doc comment above it,
/// skipping at most two blank lines between comment and node. Returns the
/// first line of the doc comment, or `node_start_line` when there is none.
pub fn expand_doc_comment_start(lines: &[&str], node_start_line: usize, doc_prefixes: &[&str]) -> (res:
    usize)
    requires
        node_start_line <= lines@.len(),
    ensures
        res == expand_doc(strs_view(lines@), node_start_line as int, strs_view(doc_prefixes@)),
        res <= node_start_line,
{
    let l = strs_to_vecs(lines);
    let p = strs_to_vecs(doc_prefixes);
    expand_doc_chars(&l, node_start_line, &p)
}

// ---------------------------------------------------------------------------
// Markdown detection
// ---------------------------------------------------------------------------

/// Index of the last occurrence of `c` in `s`, or `-1`.
pub open spec fn last_pos(s: Seq<char>, c: char) -> int
    decreases s.len(),
{
    if s.len() == 0 {
        -1
    } else if s.last() == c {
        s.len() - 1
    } else {
        last_pos(s.drop_last(), c)
    }
}

/// Bounds of `last_pos`.
pub proof fn lemma_last_pos(s: Seq<char>, c: char)
    ensures
        -1 <= last_pos(s, c) < s.len(),
        last_pos(s, c) >= 0 ==> s[last_pos(s, c)] == c,
        forall|j: int| last_pos(s, c) < j < s.len() ==> s[j] != c,
    decreases s.len(),
{
    if s.len() > 0 && s.last() != c {
        let t = s.drop_last();
        lemma_last_pos(t, c);
        assert forall|j: int| last_pos(s, c) < j < s.len() implies s[j] != c by {
            if j < s.len() - 1 {
                assert(s[j] == t[j]);
            }
        }
    }
}

/// The file name of a `/`-separated path (`Path::file_name`): the last
/// component, skipping empty and `.` components; none for `..` or when there
/// is no component.
pub open spec fn file_name(p: Seq<char>) -> Option<Seq<char>>
    decreases p.len(),
{
    if p.len() == 0 {
        None
    } else {
        let k = last_pos(p, '/');
        proof {
            lemma_last_pos(p, '/');
        }
        let seg = p.subrange(k + 1, p.len() as int);
        if seg.len() == 0 || seg == seq!['.'] {
            if k < 0 {
                None
            } else {
                file_name(p.take(k))
            }
        } else if seg == seq!['.', '.'] {
            None
        } else {
            Some(seg)
        }
    }
}

/// The extension of a file name (`Path::extension`): the text after the last
/// `.`, when that dot is neither absent nor the first character.
pub open spec fn extension(name: Seq<char>) -> Option<Seq<char>> {
    let k = last_pos(name, '.');
    if name == seq!['.', '.'] || k <= 0 {
        None
    } else {
        Some(name.subrange(k + 1, name.len() as int))
    }
}

/// Markdown paths: the lower-cased extension is `md` or `markdown`.
pub open spec fn is_markdown_path(p: Seq<char>) -> bool {
    match file_name(p) {
        Some(n) => match extension(n) {
            Some(e) => unicode_lowercase(e) == "md"@ || unicode_lowercase(e) == "markdown"@,
            None => false,
        },
        None => false,
    }
}

/// Last position of `c` in `s[..end]`.
fn last_pos_exec(s: &[char], end: usize, c: char) -> (res: Option<usize>)
    requires
        end <= s.len(),
    ensures
        match res {
            Some(k) => last_pos(s@.take(end as int), c) == k,
            None => last_pos(s@.take(end as int), c) == -1,
        },
{
    let mut j = end;
    while j > 0 && s[j - 1] != c
        invariant
            j <= end <= s.len(),
            last_pos(s@.take(j as int), c) == last_pos(s@.take(end as int), c),
        decreases j,
    {
        assert(s@.take(j as int).drop_last() =~= s@.take(j - 1));
        j = j - 1;
    }
    if j == 0 {
        None
    } else {
        Some(j - 1)
    }
}

/// `file_name` on characters.
fn file_name_exec(p: &[char]) -> (res: Option<Vec<char>>)
    ensures
        match res {
            Some(v) => file_name(p@) == Some(v@),
            None => file_name(p@) is None,
        },
{
    let mut end = p.len();
    assert(p@.take(end as int) =~= p@);
    loop
        invariant
            end <= p.len(),
            file_name(p@.take(end as int)) == file_name(p@),
        decreases end,
    {
        let ghost q = p@.take(end as int);
        if end == 0 {
            return None;
        }
        let k = last_pos_exec(p, end, '/');
        proof {
            lemma_last_pos(q, '/');
        }
        let from: usize = match k {
            Some(x) => x + 1,
            None => 0,
        };
        let seg = crate::text::slice_vec(p, from, end);
        assert(seg@ =~= q.subrange(last_pos(q, '/') + 1, q.len() as int));
        let dot = vec!['.'];
        let dotdot = vec!['.', '.'];
        if seg.len() == 0 || chars_eq(&seg, &dot) {
            assert(dot@ =~= seq!['.']);
            match k {
                None => {
                    return None;
                },
                Some(x) => {
                    assert(q.take(x as int) =~= p@.take(x as int));
                    end = x;
                },
            }
        } else if chars_eq(&seg, &dotdot) {
            assert(dotdot@ =~= seq!['.', '.']);
            return None;
        } else {
            assert(dot@ =~= seq!['.']);
            assert(dotdot@ =~= seq!['.', '.']);
            return Some(seg);
        }
    }
}

/// Whether `path` names a markdown file (extension `md` or `markdown`,
/// compared after `str::to_lowercase`).
pub fn is_markdown(path: &str) -> (res: bool)
    ensures
        res == is_markdown_path(path@),
{
    let p = chars_of(path);
    match file_name_exec(&p) {
        None => false,
        Some(name) => {
            let dotdot = vec!['.', '.'];
            assert(dotdot@ =~= seq!['.', '.']);
            if chars_eq(&name, &dotdot) {
                return false;
            }
            match last_pos_exec(&name, name.len(), '.') {
                None => {
                    assert(name@.take(name.len() as int) =~= name@);
                    false
                },
                Some(k) => {
                    assert(name@.take(name.len() as int) =~= name@);
                    proof {
                        lemma_last_pos(name@, '.');
                    }
                    if k == 0 {
                        return false;
                    }
                    let ext = crate::text::slice_vec(&name, k + 1, name.len());
                    let s = string_of(&ext);
                    let lower = lowercase(s.as_str());
                    let l = chars_of(lower.as_str());
                    chars_eq(&l, &chars_of("md")) || chars_eq(&l, &chars_of("markdown"))
                },
            }
        },
    }
}

// ---------------------------------------------------------------------------
// Signatures, container headers and sub-splitting
// ---------------------------------------------------------------------------

/// A line that ends a signature: once trimmed it contains `{`, ends with `:`,
/// or contains `=>`.
pub open spec fn is_sig_end(line: Seq<char>) -> bool {
    let t = trim(line);
    t.contains('{') || ends_with(t, seq![':']) || contains_sub(t, seq!['=', '>'])
}

/// End of the run of doc lines of `nl` starting at `k`.
pub open spec fn doc_run(nl: Seq<Seq<char>>, k: int, prefixes: Seq<Seq<char>>) -> int
    decreases nl.len() - k,
{
    if 0 <= k < nl.len() && is_doc(nl[k], prefixes) {
        doc_run(nl, k + 1, prefixes)
    } else {
        k
    }
}

/// Signature scan: from `k`, consume lines (at most three past `ss`) up to and
/// including the first signature-ending line.
pub open spec fn sig_scan(nl: Seq<Seq<char>>, k: int, ss: int) -> int
    decreases nl.len() - k,
{
    if 0 <= k < nl.len() && k - ss < 3 {
        if is_sig_end(nl[k]) {
            k + 1
        } else {
            sig_scan(nl, k + 1, ss)
        }
    } else {
        k
    }
}

/// Number of leading lines of `nl` that form its doc comment and signature.
pub open spec fn sig_end_of(nl: Seq<Seq<char>>, prefixes: Seq<Seq<char>>) -> int {
    let d = doc_run(nl, 0, prefixes);
    sig_scan(nl, d, d)
}

/// Number of lines of a container header: the doc and signature lines, at
/// least one line and at most all of them.
pub open spec fn header_len(nl: Seq<Seq<char>>, prefixes: Seq<Seq<char>>) -> int {
    let se = sig_end_of(nl, prefixes);
    let m = if se < 1 {
        1
    } else {
        se
    };
    if m > nl.len() {
        nl.len() as int
    } else {
        m
    }
}

/// The header chunk of the container spanning `lines[start..end]`.
pub open spec fn container_header(
    lines: Seq<Seq<char>>,
    start: int,
    end: int,
    prefixes: Seq<Seq<char>>,
) -> ChunkV {
    let nl = lines.subrange(start, end);
    let h = header_len(nl, prefixes);
    ChunkV { content: join_lines(nl.take(h)), start_line: start + 1, end_line: start + h }
}

/// The marker line put between the prefix and a continued body piece.
pub open spec fn marker() -> Seq<char> {
    "    // ... (continued)"@
}

/// Byte budget of each body piece when the prefix costs `overhead` bytes.
pub open spec fn body_budget(size: int, overhead: int) -> int {
    if size > overhead {
        size - overhead
    } else {
        size / 2
    }
}

/// The pieces of the body of `lines[start..end]` (after its doc comment and
/// signature), split with the budget left after the prefix.
pub open spec fn body_pieces(
    lines: Seq<Seq<char>>,
    start: int,
    end: int,
    size: int,
    prefixes: Seq<Seq<char>>,
) -> Seq<ChunkV> {
    let nl = lines.subrange(start, end);
    let se = sig_end_of(nl, prefixes);
    let prefix = join_lines(nl.take(se));
    let overhead = byte_len(prefix) + 1 + byte_len(marker()) + 1;
    split_spec(join_lines(nl.skip(se)), body_budget(size, overhead as int))
}

/// Line numbers of the body pieces stay within `usize` once moved to file lines.
pub open spec fn sub_split_fits(
    lines: Seq<Seq<char>>,
    start: int,
    end: int,
    size: int,
    prefixes: Seq<Seq<char>>,
) -> bool {
    let se = sig_end_of(lines.subrange(start, end), prefixes);
    lines_within(body_pieces(lines, start, end, size, prefixes), 0, usize::MAX - start - se)
}

/// Sub-split of an oversized node `lines[start..end]`: every piece of the
/// body carries the doc comment and signature as a prefix; pieces after the
/// first also carry the continuation marker. A node without body is one chunk.
pub open spec fn sub_split_spec(
    lines: Seq<Seq<char>>,
    start: int,
    end: int,
    size: int,
    prefixes: Seq<Seq<char>>,
) -> Seq<ChunkV> {
    let nl = lines.subrange(start, end);
    let se = sig_end_of(nl, prefixes);
    let prefix = join_lines(nl.take(se));
    if nl.skip(se).len() == 0 {
        seq![ChunkV { content: join_lines(nl), start_line: start + 1, end_line: end }]
    } else {
        let subs = body_pieces(lines, start, end, size, prefixes);
        let boff = start + se;
        Seq::new(
            subs.len(),
            |i: int|
                ChunkV {
                    content: if i == 0 {
                        prefix + seq!['\n'] + subs[i].content
                    } else {
                        prefix + seq!['\n'] + marker() + seq!['\n'] + subs[i].content
                    },
                    start_line: if i == 0 {
                        start + 1
                    } else {
                        boff + subs[i].start_line
                    },
                    end_line: boff + subs[i].end_line,
                },
        )
    }
}

/// Law: the chunks of a sub-split node cover its lines. The first starts on
/// the node's first line, each starts on the line after the previous one
/// ended, the last ends on the node's last line, and every chunk begins with
/// the node's doc comment and signature. This holds for nodes whose lines
/// carry no newline and whose last line is not empty (an empty last line is
/// dropped by the line split of the body).
pub proof fn law_sub_split_covers_node(
    lines: Seq<Seq<char>>,
    start: int,
    end: int,
    size: int,
    prefixes: Seq<Seq<char>>,
)
    requires
        0 <= start < end <= lines.len(),
        no_nl(lines.subrange(start, end)),
        lines[end - 1].len() > 0,
    ensures
        ({
            let cs = sub_split_spec(lines, start, end, size, prefixes);
            let nl = lines.subrange(start, end);
            let prefix = join_lines(nl.take(sig_end_of(nl, prefixes)));
            &&& cs.len() > 0
            &&& cs[0].start_line == start + 1
            &&& cs.last().end_line == end
            &&& forall|k: int| 0 <= k < cs.len() ==> (#[trigger] cs[k]).start_line <= cs[k].end_line
            &&& forall|k: int|
                0 <= k < cs.len() - 1 ==> (#[trigger] cs[k + 1]).start_line == cs[k].end_line + 1
            &&& forall|k: int| 0 <= k < cs.len() ==> starts_with((#[trigger] cs[k]).content, prefix)
        }),
{
    let nl = lines.subrange(start, end);
    lemma_sig_end_bounds(nl, prefixes);
    let se = sig_end_of(nl, prefixes);
    let prefix = join_lines(nl.take(se));
    let cs = sub_split_spec(lines, start, end, size, prefixes);
    if nl.skip(se).len() == 0 {
        assert(nl.take(se) =~= nl);
        assert(cs[0].content.subrange(0, prefix.len() as int) =~= prefix);
    } else {
        let body = nl.skip(se);
        assert(body.last() == lines[end - 1]);
        assert(no_nl(body)) by {
            assert forall|i: int| 0 <= i < body.len() implies !(#[trigger] body[i]).contains('\n') by {
                assert(body[i] == nl[i + se]);
            }
        }
        lemma_lines_join_len(body);
        let overhead = byte_len(prefix) + 1 + byte_len(marker()) + 1;
        let subs = split_spec(join_lines(body), body_budget(size, overhead as int));
        assert(subs == body_pieces(lines, start, end, size, prefixes));
        split_tiles_lines(join_lines(body), body_budget(size, overhead as int));
        assert(subs.len() > 0);
        assert(subs.last().end_line == body.len());
        assert forall|k: int| 0 <= k < cs.len() implies starts_with((#[trigger] cs[k]).content, prefix) by {
            assert(cs[k].content.subrange(0, prefix.len() as int) =~= prefix);
        }
        assert forall|k: int| 0 <= k < cs.len() implies (#[trigger] cs[k]).start_line <= cs[k].end_line by {
            assert(subs[k].start_line <= subs[k].end_line);
            if k == 0 {
                assert(subs[0].start_line == 1);
            }
        }
        assert forall|k: int| 0 <= k < cs.len() - 1 implies (#[trigger] cs[k + 1]).start_line == cs[k].end_line
            + 1 by {
            assert(subs[k + 1].start_line == subs[k].end_line + 1);
        }
        assert(cs.last() == cs[cs.len() - 1]);
        assert(subs.last() == subs[subs.len() - 1]);
    }
}

/// Bounds of the doc run.
pub proof fn lemma_doc_run_bounds(nl: Seq<Seq<char>>, k: int, prefixes: Seq<Seq<char>>)
    requires
        0 <= k <= nl.len(),
    ensures
        k <= doc_run(nl, k, prefixes) <= nl.len(),
    decreases nl.len() - k,
{
    if k < nl.len() && is_doc(nl[k], prefixes) {
        lemma_doc_run_bounds(nl, k + 1, prefixes);
    }
}

/// Bounds of the signature scan.
pub proof fn lemma_sig_scan_bounds(nl: Seq<Seq<char>>, k: int, ss: int)
    requires
        0 <= k <= nl.len(),
    ensures
        k <= sig_scan(nl, k, ss) <= nl.len(),
    decreases nl.len() - k,
{
    if k < nl.len() && k - ss < 3 && !is_sig_end(nl[k]) {
        lemma_sig_scan_bounds(nl, k + 1, ss);
    }
}

/// Bounds of the doc and signature prefix.
pub proof fn lemma_sig_end_bounds(nl: Seq<Seq<char>>, prefixes: Seq<Seq<char>>)
    ensures
        0 <= sig_end_of(nl, prefixes) <= nl.len(),
{
    lemma_doc_run_bounds(nl, 0, prefixes);
    let d = doc_run(nl, 0, prefixes);
    lemma_sig_scan_bounds(nl, d, d);
}

/// Newline-free lines keep the body pieces within `usize`.
pub proof fn lemma_sub_split_fits(
    lines: Seq<Seq<char>>,
    start: int,
    end: int,
    size: int,
    prefixes: Seq<Seq<char>>,
)
    requires
        0 <= start <= end <= lines.len() <= usize::MAX,
        no_nl(lines),
    ensures
        sub_split_fits(lines, start, end, size, prefixes),
{
    let nl = lines.subrange(start, end);
    lemma_sig_end_bounds(nl, prefixes);
    let se = sig_end_of(nl, prefixes);
    let body = nl.skip(se);
    assert forall|i: int| 0 <= i < body.len() implies !(#[trigger] body[i]).contains('\n') by {
        assert(body[i] == lines[start + se + i]);
    }
    let prefix = join_lines(nl.take(se));
    let overhead = byte_len(prefix) + 1 + byte_len(marker()) + 1;
    lemma_split_joined_bounds(body, body_budget(size, overhead as int));
}

/// Signature-ending test on characters.
fn is_sig_end_chars(line: &[char]) -> (res: bool)
    ensures
        res == is_sig_end(line@),
{
    let t = trim_vec(line);
    let colon = vec![':'];
    let arrow = vec!['=', '>'];
    assert(colon@ =~= seq![':']);
    assert(arrow@ =~= seq!['=', '>']);
    contains_char(&t, '{') || has_suffix(&t, &colon) || contains_chars(&t, &arrow)
}

/// Absolute end of the doc run of `lines[start..end]`.
fn doc_run_exec(lines: &Vec<Vec<char>>, start: usize, end: usize, prefixes: &Vec<Vec<char>>) -> (res:
    usize)
    requires
        start <= end <= lines.len(),
    ensures
        res - start == doc_run(
            lines_view(lines@).subrange(start as int, end as int),
            0,
            lines_view(prefixes@),
        ),
        start <= res <= end,
{
    let ghost nl = lines_view(lines@).subrange(start as int, end as int);
    let ghost pv = lines_view(prefixes@);
    let mut k = start;
    while k < end && is_doc_chars(&lines[k], prefixes)
        invariant
            start <= k <= end <= lines.len(),
            nl == lines_view(lines@).subrange(start as int, end as int),
            pv == lines_view(prefixes@),
            doc_run(nl, k - start, pv) == doc_run(nl, 0, pv),
        decreases end - k,
    {
        assert(nl[k - start] == lines@[k as int]@);
        k = k + 1;
    }
    proof {
        if k < end {
            assert(nl[k - start] == lines@[k as int]@);
        }
    }
    k
}

/// Absolute end of the signature scan of `lines[start..end]` begun at `d`.
fn sig_scan_exec(lines: &Vec<Vec<char>>, start: usize, end: usize, d: usize) -> (res: usize)
    requires
        start <= d <= end <= lines.len(),
    ensures
        res - start == sig_scan(
            lines_view(lines@).subrange(start as int, end as int),
            d - start,
            d - start,
        ),
        d <= res <= end,
{
    let ghost nl = lines_view(lines@).subrange(start as int, end as int);
    proof {
        lemma_sig_scan_bounds(nl, d - start, d - start);
    }
    let mut k = d;
    while k < end && k - d < 3
        invariant
            start <= d <= k <= end <= lines.len(),
            nl == lines_view(lines@).subrange(start as int, end as int),
            sig_scan(nl, k - start, d - start) == sig_scan(nl, d - start, d - start),
        decreases end - k,
    {
        assert(nl[k - start] == lines@[k as int]@);
        if is_sig_end_chars(&lines[k]) {
            return k + 1;
        }
        k = k + 1;
    }
    k
}

/// Appends `s` to `out`.
fn append_chars(out: &mut Vec<char>, s: &[char])
    ensures
        final(out)@ == old(out)@ + s@,
{
    let ghost before = out@;
    let mut i: usize = 0;
    while i < s.len()
        invariant
            i <= s.len(),
            out@ == before + s@.take(i as int),
        decreases s.len() - i,
    {
        out.push(s[i]);
        i = i + 1;
        assert(out@ =~= before + s@.take(i as int));
    }
    assert(s@.take(s.len() as int) =~= s@);
}

/// `container_header` on character vectors.
pub fn container_header_chars(
    lines: &Vec<Vec<char>>,
    start: usize,
    end: usize,
    prefixes: &Vec<Vec<char>>,
) -> (res: RawChunk)
    requires
        start <= end <= lines.len(),
        start < usize::MAX,
    ensures
        res@ == container_header(lines_view(lines@), start as int, end as int, lines_view(prefixes@)),
{
    let ghost nl = lines_view(lines@).subrange(start as int, end as int);
    let d = doc_run_exec(lines, start, end, prefixes);
    let se = sig_scan_exec(lines, start, end, d);
    let mut h = se - start;
    if h < 1 {
        h = 1;
    }
    if h > end - start {
        h = end - start;
    }
    let content = join_range(lines, start, start + h);
    assert(lines_view(lines@).subrange(start as int, start + h) =~= nl.take(h as int));
    RawChunk { content: string_of(&content), start_line: start + 1, end_line: start + h }
}

/// Extracts the container header (doc comment plus signature up to a line
/// containing `{` or `=>` or ending with `:`) of `lines[start..end]` as a chunk.
pub fn extract_container_header(lines: &[&str], start: usize, end: usize, doc_prefixes: &[&str]) -> (res:
    RawChunk)
    requires
        start <= end <= lines@.len(),
        start < usize::MAX,
    ensures
        res@ == container_header(strs_view(lines@), start as int, end as int, strs_view(doc_prefixes@)),
{
    let l = strs_to_vecs(lines);
    let p = strs_to_vecs(doc_prefixes);
    assert(lines_view(l@).len() == strs_view(lines@).len());
    container_header_chars(&l, start, end, &p)
}

/// `sub_split_spec` on character vectors.
pub fn sub_split_chars(
    lines: &Vec<Vec<char>>,
    start: usize,
    end: usize,
    size: usize,
    prefixes: &Vec<Vec<char>>,
) -> (res: Vec<RawChunk>)
    requires
        start <= end <= lines.len(),
        start < usize::MAX,
        sub_split_fits(lines_view(lines@), start as int, end as int, size as int, lines_view(prefixes@)),
    ensures
        chunks_view(res@) == sub_split_spec(
            lines_view(lines@),
            start as int,
            end as int,
            size as int,
            lines_view(prefixes@),
        ),
{
    let ghost lv = lines_view(lines@);
    let ghost pv = lines_view(prefixes@);
    let ghost nl = lv.subrange(start as int, end as int);
    let d = doc_run_exec(lines, start, end, prefixes);
    let se = sig_scan_exec(lines, start, end, d);
    let ghost ser = se - start;
    assert(ser == sig_end_of(nl, pv));
    let prefix = join_range(lines, start, se);
    assert(lv.subrange(start as int, se as int) =~= nl.take(ser));
    if se == end {
        let content = join_range(lines, start, end);
        let r = vec![RawChunk { content: string_of(&content), start_line: start + 1, end_line: end }];
        assert(nl.skip(ser).len() == 0);
        assert(chunks_view(r@) =~= sub_split_spec(lv, start as int, end as int, size as int, pv));
        return r;
    }
    let marker_chars = chars_of("    // ... (continued)");
    let overhead: u128 = byte_len_of(&prefix) + 1 + byte_len_of(&marker_chars) + 1;
    let budget: usize = if (size as u128) > overhead {
        (size as u128 - overhead) as usize
    } else {
        size / 2
    };
    let body = join_range(lines, se, end);
    assert(lv.subrange(se as int, end as int) =~= nl.skip(ser));
    let subs = split_chars(&body, budget);
    let ghost sv = chunks_view(subs@);
    assert(sv == body_pieces(lv, start as int, end as int, size as int, pv));
    let ghost target = sub_split_spec(lv, start as int, end as int, size as int, pv);
    let mut out: Vec<RawChunk> = Vec::new();
    let mut i: usize = 0;
    while i < subs.len()
        invariant
            i <= subs.len(),
            start < usize::MAX,
            start <= end <= lines.len(),
            lv == lines_view(lines@),
            sv == chunks_view(subs@),
            target.len() == subs.len(),
            lines_within(sv, 0, usize::MAX - start - ser),
            ser == se - start,
            se < end,
            prefix@ == join_lines(nl.take(ser)),
            marker_chars@ == marker(),
            nl.skip(ser).len() > 0,
            target == sub_split_spec(lv, start as int, end as int, size as int, pv),
            sv == body_pieces(lv, start as int, end as int, size as int, pv),
            nl == lv.subrange(start as int, end as int),
            ser == sig_end_of(nl, pv),
            chunks_view(out@) == target.take(i as int),
        decreases subs.len() - i,
    {
        let sc = &subs[i];
        assert(sv[i as int] == sc@);
        let mut content: Vec<char> = Vec::new();
        append_chars(&mut content, &prefix);
        content.push('\n');
        if i > 0 {
            append_chars(&mut content, &marker_chars);
            content.push('\n');
        }
        let body_chars = chars_of(sc.content.as_str());
        append_chars(&mut content, &body_chars);
        proof {
            if i == 0 {
                assert(content@ =~= prefix@ + seq!['\n'] + sv[i as int].content);
            } else {
                assert(content@ =~= prefix@ + seq!['\n'] + marker() + seq!['\n'] + sv[i as int].content);
            }
        }
        let sl = if i == 0 {
            start + 1
        } else {
            se + sc.start_line
        };
        let el = se + sc.end_line;
        let chunk = RawChunk { content: string_of(&content), start_line: sl, end_line: el };
        let ghost before = out@;
        out.push(chunk);
        proof {
            assert(chunk@ == target[i as int]);
            assert(chunks_view(out@) =~= chunks_view(before).push(chunk@));
            assert(chunks_view(out@) =~= target.take(i + 1));
        }
        i = i + 1;
    }
    assert(target.take(subs.len() as int) =~= target);
    out
}

/// Sub-splits an oversized node `lines[start..end]`, prepending its doc
/// comment and signature to every piece of its body (pieces after the first
/// also get a continuation marker line).
pub fn sub_split_node(
    lines: &[&str],
    start: usize,
    end: usize,
    chunk_size: usize,
    doc_prefixes: &[&str],
) -> (res: Vec<RawChunk>)
    requires
        start <= end <= lines@.len(),
        start < usize::MAX,
        sub_split_fits(strs_view(lines@), start as int, end as int, chunk_size as int, strs_view(doc_prefixes@)),
    ensures
        chunks_view(res@) == sub_split_spec(
            strs_view(lines@),
            start as int,
            end as int,
            chunk_size as int,
            strs_view(doc_prefixes@),
        ),
{
    let l = strs_to_vecs(lines);
    let p = strs_to_vecs(doc_prefixes);
    assert(lines_view(l@).len() == strs_view(lines@).len());
    sub_split_chars(&l, start, end, chunk_size, &p)
}

// ---------------------------------------------------------------------------
// AST nodes
// ---------------------------------------------------------------------------

/// A located AST node: 0-indexed first and last (inclusive) line.
pub struct AstNode {
    pub start_line: usize,
    pub end_line: usize,
}

/// The views of AST nodes as `(start_line, end_line)` pairs.
pub open spec fn nodes_view(v: Seq<AstNode>) -> Seq<(int, int)> {
    v.map_values(|n: AstNode| (n.start_line as int, n.end_line as int))
}

/// The view of an optional node list.
pub open spec fn opt_nodes_view(v: Option<Vec<AstNode>>) -> Option<Seq<(int, int)>> {
    match v {
        Some(x) => Some(nodes_view(x@)),
        None => None,
    }
}

/// The view of an optional borrowed spec.
pub open spec fn spec_ref_view(s: Option<&LanguageSpec>) -> Option<LanguageSpecV> {
    match s {
        Some(x) => Some(x@),
        None => None,
    }
}

/// Whether entry `j` is extracted as a declaration: with a spec, its kind is
/// one of the spec's node types; without one, it is a named node spanning at
/// least two rows beyond its first, with a named child.
pub open spec fn extractable(o: Seq<SyntaxEntryV>, j: int, spec: Option<LanguageSpecV>) -> bool {
    match spec {
        Some(s) => s.node_types.contains(o[j].kind),
        None => {
            let span = if o[j].end_row >= o[j].start_row {
                o[j].end_row - o[j].start_row
            } else {
                0
            };
            o[j].named && span >= 2 && has_named_child(o, j)
        },
    }
}

/// The extractable children of the root (depth-1 entries) from `j` on, as
/// `(start_row, end_row)`.
pub open spec fn top_nodes(o: Seq<SyntaxEntryV>, j: int, spec: Option<LanguageSpecV>) -> Seq<
    (int, int),
>
    decreases o.len() - j,
{
    if j < 0 || j >= o.len() {
        seq![]
    } else {
        let rest = top_nodes(o, j + 1, spec);
        if o[j].depth == 1 && extractable(o, j, spec) {
            seq![(o[j].start_row, o[j].end_row)] + rest
        } else {
            rest
        }
    }
}

/// Converts the spec's node types to character vectors.
fn spec_types(spec: Option<&LanguageSpec>) -> (res: Vec<Vec<char>>)
    ensures
        spec is Some ==> lines_view(res@) == spec->0@.node_types,
{
    match spec {
        Some(s) => strs_to_vecs(s.node_types.as_slice()),
        None => Vec::new(),
    }
}

/// The top-level declarations of a parse outline: the root's children that
/// the spec names (or, without a spec, that pass the generic heuristic).
pub fn top_level_nodes(outline: &Vec<SyntaxEntry>, spec: Option<&LanguageSpec>) -> (res: Vec<AstNode>)
    ensures
        nodes_view(res@) == top_nodes(outline_view(outline@), 0, spec_ref_view(spec)),
{
    let ghost ov = outline_view(outline@);
    let ghost sv = spec_ref_view(spec);
    let types = spec_types(spec);
    let mut out: Vec<AstNode> = Vec::new();
    let mut j: usize = 0;
    while j < outline.len()
        invariant
            j <= outline.len(),
            ov == outline_view(outline@),
            sv == spec_ref_view(spec),
            spec is Some ==> lines_view(types@) == spec->0@.node_types,
            nodes_view(out@) + top_nodes(ov, j as int, sv) == top_nodes(ov, 0, sv),
        decreases outline.len() - j,
    {
        let e = &outline[j];
        assert(ov[j as int] == e@);
        let take = if e.depth == 1 {
            match spec {
                Some(_) => kind_in(&types, e.kind.as_str()),
                None => {
                    let span = if e.end_row >= e.start_row {
                        e.end_row - e.start_row
                    } else {
                        0
                    };
                    e.named && span >= 2 && has_named_child_exec(outline, j)
                },
            }
        } else {
            false
        };
        let ghost before = out@;
        if take {
            out.push(AstNode { start_line: e.start_row, end_line: e.end_row });
            assert(nodes_view(out@) =~= nodes_view(before) + seq![(ov[j as int].start_row, ov[j as int].end_row)]);
        }
        j = j + 1;
    }
    out
}

/// Parses `source` with `grammar` and extracts its top-level declarations;
/// `None` when tree-sitter gives no tree.
pub fn extract_ast_nodes(source: &str, grammar: Grammar, spec: Option<&LanguageSpec>) -> (res: Option<
    Vec<AstNode>,
>)
    ensures
        match parsed_outline(source@, grammar) {
            Some(o) => res is Some && nodes_view(res->0@) == top_nodes(o, 0, spec_ref_view(spec)),
            None => res is None,
        },
{
    match parse_outline(source, grammar) {
        Some(o) => Some(top_level_nodes(&o, spec)),
        None => None,
    }
}

/// Index of the first named child of the root from `j` on, or the root (0).
pub open spec fn first_named_child_from(o: Seq<SyntaxEntryV>, j: int) -> int
    decreases o.len() - j,
{
    if j < 0 || j >= o.len() {
        0
    } else if o[j].depth == 1 && o[j].named {
        j
    } else {
        first_named_child_from(o, j + 1)
    }
}

/// The container node of a re-parsed declaration: the root's first named
/// child, or the root itself.
pub open spec fn container_of(o: Seq<SyntaxEntryV>) -> int {
    first_named_child_from(o, 1)
}

/// Inner declarations under the container, in pre-order from entry `p` up
/// to `end`: a node whose kind is in `itypes` is taken (its start widened
/// over its doc comment in `nl`, both lines moved by `offset`) and its
/// subtree skipped; other nodes are descended into. `None` where a start
/// row lies beyond `nl` or a line number leaves `usize`.
pub open spec fn collect_from(
    o: Seq<SyntaxEntryV>,
    p: int,
    end: int,
    itypes: Seq<Seq<char>>,
    nl: Seq<Seq<char>>,
    prefixes: Seq<Seq<char>>,
    offset: int,
) -> Option<Seq<(int, int)>>
    decreases o.len() - p,
{
    if p < 0 || p >= end || p >= o.len() {
        Some(seq![])
    } else if itypes.contains(o[p].kind) {
        let ls = o[p].start_row;
        if ls < 0 || ls > nl.len() {
            None
        } else {
            let a = offset + expand_doc(nl, ls, prefixes);
            let b = offset + o[p].end_row;
            if a > usize::MAX || b > usize::MAX {
                None
            } else {
                let next = subtree_end(o, p);
                proof {
                    lemma_scan_end_bounds(o, p, p + 1);
                }
                match collect_from(o, next, end, itypes, nl, prefixes, offset) {
                    Some(rest) => Some(seq![(a, b)] + rest),
                    None => None,
                }
            }
        }
    } else {
        collect_from(o, p + 1, end, itypes, nl, prefixes, offset)
    }
}

/// `rest` with `head` in front, through an option.
pub open spec fn prepend_opt(head: Seq<(int, int)>, rest: Option<Seq<(int, int)>>) -> Option<
    Seq<(int, int)>,
> {
    match rest {
        Some(r) => Some(head + r),
        None => None,
    }
}

/// Index of the container node of an outline.
fn container_exec(o: &Vec<SyntaxEntry>) -> (res: usize)
    requires
        o.len() > 0,
    ensures
        res == container_of(outline_view(o@)),
        res < o.len(),
{
    let ghost ov = outline_view(o@);
    let mut j: usize = 1;
    while j < o.len()
        invariant
            1 <= j <= o.len(),
            ov == outline_view(o@),
            first_named_child_from(ov, j as int) == container_of(ov),
        decreases o.len() - j,
    {
        assert(ov[j as int] == o@[j as int]@);
        if o[j].depth == 1 && o[j].named {
            return j;
        }
        j = j + 1;
    }
    0
}

/// Collects the inner declarations of the container at index `container`
/// (see `collect_from`); `None` where a collected line leaves the range.
pub fn collect_inner_nodes(
    outline: &Vec<SyntaxEntry>,
    container: usize,
    inner_types: &Vec<Vec<char>>,
    node_lines: &Vec<Vec<char>>,
    doc_prefixes: &Vec<Vec<char>>,
    line_offset: usize,
) -> (res: Option<Vec<AstNode>>)
    requires
        container < outline.len(),
    ensures
        opt_nodes_view(res) == collect_from(
            outline_view(outline@),
            container + 1,
            subtree_end(outline_view(outline@), container as int),
            lines_view(inner_types@),
            lines_view(node_lines@),
            lines_view(doc_prefixes@),
            line_offset as int,
        ),
{
    let ghost ov = outline_view(outline@);
    let ghost it = lines_view(inner_types@);
    let ghost nl = lines_view(node_lines@);
    let ghost pv = lines_view(doc_prefixes@);
    let end = subtree_end_exec(outline, container);
    proof {
        lemma_scan_end_bounds(ov, container as int, container + 1);
    }
    let ghost target = collect_from(ov, container + 1, end as int, it, nl, pv, line_offset as int);
    let mut out: Vec<AstNode> = Vec::new();
    let mut p = container + 1;
    while p < end
        invariant
            container < p <= end || p == container + 1,
            end <= outline.len(),
            end == subtree_end(ov, container as int),
            end == outline.len() || ov[end as int].depth <= ov[container as int].depth,
            forall|k: int| container < k < end ==> ov[k].depth > ov[container as int].depth,
            ov == outline_view(outline@),
            it == lines_view(inner_types@),
            nl == lines_view(node_lines@),
            pv == lines_view(doc_prefixes@),
            target == collect_from(ov, container + 1, end as int, it, nl, pv, line_offset as int),
            prepend_opt(nodes_view(out@), collect_from(ov, p as int, end as int, it, nl, pv, line_offset as int))
                == target,
        decreases end - p,
    {
        let e = &outline[p];
        assert(ov[p as int] == e@);
        if kind_in(inner_types, e.kind.as_str()) {
            let ls = e.start_row;
            assert(it.contains(ov[p as int].kind));
            if ls > node_lines.len() {
                return None;
            }
            let ex = expand_doc_chars(node_lines, ls, doc_prefixes);
            if ex > usize::MAX - line_offset || e.end_row > usize::MAX - line_offset {
                return None;
            }
            let a = line_offset + ex;
            let b = line_offset + e.end_row;
            let ghost before = out@;
            out.push(AstNode { start_line: a, end_line: b });
            assert(nodes_view(out@) =~= nodes_view(before) + seq![(a as int, b as int)]);
            let next = subtree_end_exec(outline, p);
            proof {
                lemma_scan_end_le(ov, p as int, p + 1, end as int);
                let r = collect_from(ov, next as int, end as int, it, nl, pv, line_offset as int);
                if r is Some {
                    assert(nodes_view(out@) + r->0 =~= nodes_view(before) + (seq![(a as int, b as int)] + r->0));
                }
            }
            p = next;
        } else {
            p = p + 1;
        }
    }
    assert(nodes_view(out@) + seq![] =~= nodes_view(out@));
    Some(out)
}

/// Inner declarations of the oversized node `node`: its lines
/// `lines[start..=end]` are joined, re-parsed with `g`, and the container's
/// inner nodes collected. Outer `None` where chunking cannot go on (the node's
/// lines lie outside `lines`, or a collected line leaves range); inner `None`
/// when there is no tree or no inner node.
pub open spec fn inner_nodes_spec(
    lines: Seq<Seq<char>>,
    node: (int, int),
    g: Grammar,
    itypes: Seq<Seq<char>>,
    prefixes: Seq<Seq<char>>,
) -> Option<Option<Seq<(int, int)>>> {
    if !(0 <= node.0 <= node.1 + 1 && 0 <= node.1 < lines.len()) {
        None
    } else {
        let src = join_lines(lines.subrange(node.0, node.1 + 1));
        match parsed_outline(src, g) {
            None => Some(None),
            Some(o) => if o.len() == 0 {
                Some(None)
            } else {
                let c = container_of(o);
                match collect_from(o, c + 1, subtree_end(o, c), itypes, lines_of(src), prefixes, node.0) {
                    None => None,
                    Some(r) => if r.len() == 0 {
                        Some(None)
                    } else {
                        Some(Some(r))
                    },
                }
            },
        }
    }
}

/// Re-parses an oversized container node and extracts its inner declarations.
fn try_extract_inner_nodes(
    lines: &Vec<Vec<char>>,
    node: &AstNode,
    g: Grammar,
    inner_types: &Vec<Vec<char>>,
    doc_prefixes: &Vec<Vec<char>>,
) -> (res: Option<Option<Vec<AstNode>>>)
    ensures
        match inner_nodes_spec(
            lines_view(lines@),
            (node.start_line as int, node.end_line as int),
            g,
            lines_view(inner_types@),
            lines_view(doc_prefixes@),
        ) {
            None => res is None,
            Some(None) => res == Some(None::<Vec<AstNode>>),
            Some(Some(r)) => res is Some && res->0 is Some && nodes_view(res->0->0@) == r,
        },
{
    if node.end_line >= lines.len() || node.start_line > node.end_line + 1 {
        return None;
    }
    let src = join_range(lines, node.start_line, node.end_line + 1);
    let text = string_of(&src);
    let node_lines = lines_of_vec(&src);
    match parse_outline(text.as_str(), g) {
        None => Some(None),
        Some(o) => {
            if o.len() == 0 {
                return Some(None);
            }
            let c = container_exec(&o);
            match collect_inner_nodes(&o, c, inner_types, &node_lines, doc_prefixes, node.start_line) {
                None => None,
                Some(r) => if r.len() == 0 {
                    Some(None)
                } else {
                    Some(Some(r))
                },
            }
        },
    }
}

// ---------------------------------------------------------------------------
// Nodes to chunks
// ---------------------------------------------------------------------------

/// Recursion level: with a grammar, oversized containers may be recursed into once.
pub open spec fn level(g: Option<Grammar>) -> int {
    if g is Some {
        1
    } else {
        0
    }
}

/// Chunks of the nodes within lines `start..end`: each node's gap (from
/// `start`, then from the previous node's end) and its own chunks, then the
/// trailing gap up to `end`; `None` where a node lies outside the lines.
pub open spec fn nodes_to_chunks_spec(
    lines: Seq<Seq<char>>,
    nodes: Seq<(int, int)>,
    start: int,
    end: int,
    size: int,
    prefixes: Seq<Seq<char>>,
    g: Option<Grammar>,
    itypes: Seq<Seq<char>>,
) -> Option<Seq<ChunkV>>
    decreases level(g), 1int, 0int,
{
    match emit_nodes(lines, nodes, start, size, prefixes, g, itypes) {
        None => None,
        Some(r) => Some(
            r.0 + if r.1 < end {
                section_chunks(lines, r.1, end, size)
            } else {
                seq![]
            },
        ),
    }
}

/// Chunks of the nodes in order, each preceded by its gap (the first from
/// line `start`), and the line where the last node ended.
pub open spec fn emit_nodes(
    lines: Seq<Seq<char>>,
    nodes: Seq<(int, int)>,
    start: int,
    size: int,
    prefixes: Seq<Seq<char>>,
    g: Option<Grammar>,
    itypes: Seq<Seq<char>>,
) -> Option<(Seq<ChunkV>, int)>
    decreases level(g), 0int, nodes.len(),
{
    if nodes.len() == 0 {
        Some((seq![], start))
    } else {
        match emit_nodes(lines, nodes.drop_last(), start, size, prefixes, g, itypes) {
            None => None,
            Some(acc) => match node_chunks(lines, nodes.last(), acc.1, size, prefixes, g, itypes) {
                None => None,
                Some(r) => Some((acc.0 + r.0, r.1)),
            },
        }
    }
}

/// Chunks of one node after line `prev_end`: the gap before its (doc
/// expanded) start, then the node itself when it fits; an oversized node is
/// recursed into (header plus inner declarations, whose gaps lie between the
/// header and the node's end) when the grammar and inner types allow and
/// inner nodes are found, and sub-split otherwise. Also the line where the
/// node ends.
pub open spec fn node_chunks(
    lines: Seq<Seq<char>>,
    node: (int, int),
    prev_end: int,
    size: int,
    prefixes: Seq<Seq<char>>,
    g: Option<Grammar>,
    itypes: Seq<Seq<char>>,
) -> Option<(Seq<ChunkV>, int)>
    decreases level(g), 0int, 0int,
{
    if node.0 < 0 || node.0 > lines.len() || node.1 < 0 || node.1 + 1 > usize::MAX {
        None
    } else {
        let es = expand_doc(lines, node.0, prefixes);
        let gap = if es > prev_end {
            section_chunks(lines, prev_end, es, size)
        } else {
            seq![]
        };
        let ne = if node.1 + 1 < lines.len() {
            node.1 + 1
        } else {
            lines.len() as int
        };
        if es > ne || es + 1 > usize::MAX {
            None
        } else {
            let content = join_lines(lines.subrange(es, ne));
            if byte_len(content) <= size {
                Some((gap + seq![ChunkV { content: content, start_line: es + 1, end_line: ne }], ne))
            } else {
                let sub = sub_split_spec(lines, es, ne, size, prefixes);
                match g {
                    Some(gr) => if itypes.len() > 0 {
                        match inner_nodes_spec(lines, node, gr, itypes, prefixes) {
                            None => None,
                            Some(None) => Some((gap + sub, ne)),
                            Some(Some(inner)) => {
                                let h = container_header(lines, es, ne, prefixes);
                                let hs = if all_ws(h.content) {
                                    seq![]
                                } else {
                                    seq![h]
                                };
                                match nodes_to_chunks_spec(lines, inner, h.end_line, ne, size, prefixes, None, itypes) {
                                    None => None,
                                    Some(ics) => Some((gap + hs + ics, ne)),
                                }
                            },
                        }
                    } else {
                        Some((gap + sub, ne))
                    },
                    None => Some((gap + sub, ne)),
                }
            }
        }
    }
}

/// Once a prefix of the nodes fails, the whole list fails.
pub proof fn lemma_emit_prefix_none(
    lines: Seq<Seq<char>>,
    nodes: Seq<(int, int)>,
    j: int,
    start: int,
    end: int,
    size: int,
    prefixes: Seq<Seq<char>>,
    g: Option<Grammar>,
    itypes: Seq<Seq<char>>,
)
    requires
        0 <= j <= nodes.len(),
        emit_nodes(lines, nodes.take(j), start, size, prefixes, g, itypes) is None,
    ensures
        emit_nodes(lines, nodes, start, size, prefixes, g, itypes) is None,
        nodes_to_chunks_spec(lines, nodes, start, end, size, prefixes, g, itypes) is None,
    decreases nodes.len(),
{
    if j == nodes.len() {
        assert(nodes.take(j) =~= nodes);
    } else {
        assert(nodes.drop_last().take(j) =~= nodes.take(j));
        lemma_emit_prefix_none(lines, nodes.drop_last(), j, start, end, size, prefixes, g, itypes);
    }
}

/// The view of an optional chunk list.
pub open spec fn opt_chunks_view(v: Option<Vec<RawChunk>>) -> Option<Seq<ChunkV>> {
    match v {
        Some(x) => Some(chunks_view(x@)),
        None => None,
    }
}

/// `node_chunks` on executable data.
fn node_chunks_exec(
    lines: &Vec<Vec<char>>,
    node: &AstNode,
    prev_end: usize,
    size: usize,
    prefixes: &Vec<Vec<char>>,
    g: Option<Grammar>,
    itypes: &Vec<Vec<char>>,
) -> (res: Option<(Vec<RawChunk>, usize)>)
    requires
        no_nl(lines_view(lines@)),
        prev_end <= lines.len(),
    ensures
        match node_chunks(
            lines_view(lines@),
            (node.start_line as int, node.end_line as int),
            prev_end as int,
            size as int,
            lines_view(prefixes@),
            g,
            lines_view(itypes@),
        ) {
            None => res is None,
            Some(r) => match res {
                Some(x) => chunks_view(x.0@) == r.0 && x.1 == r.1 && r.1 <= lines.len(),
                None => false,
            },
        },
    decreases level(g), 0int,
{
    let ghost lv = lines_view(lines@);
    let ghost pv = lines_view(prefixes@);
    if node.start_line > lines.len() || node.end_line == usize::MAX {
        return None;
    }
    let es = expand_doc_chars(lines, node.start_line, prefixes);
    let mut out: Vec<RawChunk> = if es > prev_end {
        range_chunks(lines, prev_end, es, size)
    } else {
        Vec::new()
    };
    let ghost gap = chunks_view(out@);
    let ne = if node.end_line + 1 < lines.len() {
        node.end_line + 1
    } else {
        lines.len()
    };
    if es > ne || es == usize::MAX {
        return None;
    }
    let content = join_range(lines, es, ne);
    if fits_bytes_local(&content, size) {
        let ghost before = out@;
        out.push(RawChunk { content: string_of(&content), start_line: es + 1, end_line: ne });
        assert(chunks_view(out@) =~= gap + seq![ChunkV { content: content@, start_line: es + 1, end_line: ne as int }]);
        return Some((out, ne));
    }
    proof {
        lemma_sub_split_fits(lv, es as int, ne as int, size as int, pv);
    }
    let use_inner = match g {
        Some(_) => itypes.len() > 0,
        None => false,
    };
    if use_inner {
        let gr = match g {
            Some(x) => x,
            None => Grammar::Rust,
        };
        match try_extract_inner_nodes(lines, node, gr, itypes, prefixes) {
            None => {
                return None;
            },
            Some(None) => {
                let mut sub = sub_split_chars(lines, es, ne, size, prefixes);
                out.append(&mut sub);
                return Some((out, ne));
            },
            Some(Some(inner)) => {
                let h = container_header_chars(lines, es, ne, prefixes);
                let hend = h.end_line;
                let hc = chars_of(h.content.as_str());
                if !is_blank(&hc) {
                    out.push(h);
                }
                let ghost with_header = chunks_view(out@);
                proof {
                    lemma_header_bounds(lv, es as int, ne as int, pv);
                }
                match nodes_to_chunks_exec(lines, &inner, hend, ne, size, prefixes, None, itypes) {
                    None => {
                        return None;
                    },
                    Some(mut ics) => {
                        out.append(&mut ics);
                        return Some((out, ne));
                    },
                }
            },
        }
    } else {
        let mut sub = sub_split_chars(lines, es, ne, size, prefixes);
        out.append(&mut sub);
        Some((out, ne))
    }
}

/// `byte_len(s) <= limit`.
fn fits_bytes_local(s: &[char], limit: usize) -> (res: bool)
    ensures
        res == (byte_len(s@) <= limit),
{
    let n = byte_len_of(s);
    n <= limit as u128
}

/// Converts nodes to chunks: for each node its preceding gap and its own
/// chunks (see `node_chunks`), then the trailing gap.
fn nodes_to_chunks_exec(
    lines: &Vec<Vec<char>>,
    nodes: &Vec<AstNode>,
    start: usize,
    end: usize,
    size: usize,
    prefixes: &Vec<Vec<char>>,
    g: Option<Grammar>,
    itypes: &Vec<Vec<char>>,
) -> (res: Option<Vec<RawChunk>>)
    requires
        no_nl(lines_view(lines@)),
        start <= end <= lines.len(),
    ensures
        opt_chunks_view(res) == nodes_to_chunks_spec(
            lines_view(lines@),
            nodes_view(nodes@),
            start as int,
            end as int,
            size as int,
            lines_view(prefixes@),
            g,
            lines_view(itypes@),
        ),
    decreases level(g), 1int,
{
    let ghost lv = lines_view(lines@);
    let ghost pv = lines_view(prefixes@);
    let ghost iv = lines_view(itypes@);
    let ghost nv = nodes_view(nodes@);
    let mut out: Vec<RawChunk> = Vec::new();
    let mut prev_end: usize = start;
    let mut k: usize = 0;
    assert(nv.take(0) =~= Seq::<(int, int)>::empty());
    while k < nodes.len()
        invariant
            k <= nodes.len(),
            prev_end <= lines.len(),
            end <= lines.len(),
            no_nl(lv),
            lv == lines_view(lines@),
            pv == lines_view(prefixes@),
            iv == lines_view(itypes@),
            nv == nodes_view(nodes@),
            emit_nodes(lv, nv.take(k as int), start as int, size as int, pv, g, iv) == Some(
                (chunks_view(out@), prev_end as int),
            ),
        decreases nodes.len() - k,
    {
        assert(nv.take(k + 1).drop_last() =~= nv.take(k as int));
        assert(nv.take(k + 1).last() == (nodes@[k as int].start_line as int, nodes@[k as int].end_line as int));
        match node_chunks_exec(lines, &nodes[k], prev_end, size, prefixes, g, itypes) {
            None => {
                proof {
                    lemma_emit_prefix_none(lv, nv, (k + 1) as int, start as int, end as int, size as int, pv, g, iv);
                }
                return None;
            },
            Some((mut cs, ne)) => {
                let ghost before = chunks_view(out@);
                let ghost csv = chunks_view(cs@);
                out.append(&mut cs);
                prev_end = ne;
                assert(chunks_view(out@) =~= before + csv);
            },
        }
        k = k + 1;
    }
    assert(nv.take(nodes.len() as int) =~= nv);
    if prev_end < end {
        let mut tail = range_chunks(lines, prev_end, end, size);
        out.append(&mut tail);
    }
    Some(out)
}

// ---------------------------------------------------------------------------
// Files
// ---------------------------------------------------------------------------

/// What `split_file` returns: nothing for empty source; markdown sections for
/// markdown paths; AST chunks when the language has a grammar and the tree
/// has top-level declarations; the plain line split otherwise. `None` where
/// the AST conversion fails (a node's lines fall outside the file), on which
/// inputs splitting panics.
pub open spec fn split_file_spec(source: Seq<char>, lang: Seq<char>, path: Seq<char>, size: int) -> Option<
    Seq<ChunkV>,
> {
    if source.len() == 0 {
        Some(seq![])
    } else if is_markdown_path(path) {
        Some(split_markdown_spec(source, size))
    } else {
        let fallback = split_spec(source, size);
        let spec = registry_lookup(unicode_lowercase(lang));
        match grammar_for(ascii_lower(lang)) {
            None => Some(fallback),
            Some(g) => match parsed_outline(source, g) {
                None => Some(fallback),
                Some(o) => {
                    let nodes = top_nodes(o, 0, spec);
                    if nodes.len() == 0 {
                        Some(fallback)
                    } else {
                        let prefixes = match spec {
                            Some(s) => s.doc_prefixes,
                            None => seq!["//"@],
                        };
                        let inner_g = match spec {
                            Some(s) => Some(g),
                            None => None,
                        };
                        let itypes = match spec {
                            Some(s) => s.inner_node_types,
                            None => Seq::<Seq<char>>::empty(),
                        };
                        nodes_to_chunks_spec(lines_of(source), nodes, 0, lines_of(source).len() as int, size, prefixes, inner_g, itypes)
                    }
                },
            },
        }
    }
}

/// Law: an empty source gives no chunk, whatever the language and path.
pub proof fn law_split_file_empty(lang: Seq<char>, path: Seq<char>, size: int)
    ensures
        split_file_spec(Seq::<char>::empty(), lang, path, size) == Some(Seq::<ChunkV>::empty()),
{
}

/// The chunks of a source file, or `None` where the AST conversion fails.
fn chunk_file(source: &str, lang: &str, path: &str, chunk_size: usize) -> (res: Option<Vec<RawChunk>>)
    ensures
        opt_chunks_view(res) == split_file_spec(source@, lang@, path@, chunk_size as int),
{
    if source.is_empty() {
        return Some(Vec::new());
    }
    if is_markdown(path) {
        return Some(split_markdown(source, chunk_size));
    }
    let chars = chars_of(source);
    let spec = get_language_spec(lang);
    let g = match get_ts_language(lang) {
        Some(x) => x,
        None => {
            return Some(split_chars(&chars, chunk_size));
        },
    };
    let outline = match parse_outline(source, g) {
        Some(o) => o,
        None => {
            return Some(split_chars(&chars, chunk_size));
        },
    };
    let sref = spec.as_ref();
    let nodes = top_level_nodes(&outline, sref);
    assert(spec_ref_view(sref) == opt_spec_view(spec));
    if nodes.len() == 0 {
        return Some(split_chars(&chars, chunk_size));
    }
    let (prefixes, inner_g, itypes) = match &spec {
        Some(s) => (strs_to_vecs(s.doc_prefixes.as_slice()), Some(g), strs_to_vecs(s.inner_node_types.as_slice())),
        None => {
            let p = vec![chars_of("//")];
            assert(lines_view(p@) =~= seq!["//"@]);
            let e: Vec<Vec<char>> = Vec::new();
            assert(lines_view(e@) =~= Seq::<Seq<char>>::empty());
            (p, None, e)
        },
    };
    let lines = lines_of_vec(&chars);
    proof {
        lemma_lines_no_nl(source@);
    }
    nodes_to_chunks_exec(&lines, &nodes, 0, lines.len(), chunk_size, &prefixes, inner_g, &itypes)
}

/// Splits a source file into chunks, using language-aware strategies where
/// possible: empty source gives no chunk, markdown files are split at
/// headings, registered languages are split at their declarations (with
/// doc comments, gap chunks, and recursion into oversized containers), and
/// anything else falls back to plain line packing. Defined where the
/// declarations' lines lie within the file (see `try_split_file`).
pub fn split_file(source: &str, lang: &str, path: &str, chunk_size: usize) -> (res: Vec<RawChunk>)
    requires
        split_file_spec(source@, lang@, path@, chunk_size as int) is Some,
    ensures
        Some(chunks_view(res@)) == split_file_spec(source@, lang@, path@, chunk_size as int),
{
    match chunk_file(source, lang, path, chunk_size) {
        Some(v) => v,
        None => Vec::new(),
    }
}

/// `split_file` on any input: `None` exactly where `split_file` is not
/// defined (the syntax tree places a declaration outside the file's lines).
pub fn try_split_file(source: &str, lang: &str, path: &str, chunk_size: usize) -> (res: Option<Vec<RawChunk>>)
    ensures
        opt_chunks_view(res) == split_file_spec(source@, lang@, path@, chunk_size as int),
{
    chunk_file(source, lang, path, chunk_size)
}


// ---------------------------------------------------------------------------
// Line ranges of the chunks
// ---------------------------------------------------------------------------

/// The sub-split chunks of `lines[es..ne]` lie within the file.
proof fn lemma_sub_split_within(lines: Seq<Seq<char>>, es: int, ne: int, size: int, prefixes: Seq<Seq<char>>)
    requires
        0 <= es <= ne <= lines.len(),
        no_nl(lines),
    ensures
        within_file(sub_split_spec(lines, es, ne, size, prefixes), lines.len() as int),
{
    let n = lines.len() as int;
    let nl = lines.subrange(es, ne);
    lemma_sig_end_bounds(nl, prefixes);
    let se = sig_end_of(nl, prefixes);
    let cs = sub_split_spec(lines, es, ne, size, prefixes);
    if nl.skip(se).len() == 0 {
        if es == ne {
            assert(nl.len() == 0);
            assert(join_lines(nl).len() == 0);
        }
    } else {
        let body = nl.skip(se);
        assert(no_nl(body)) by {
            assert forall|i: int| 0 <= i < body.len() implies !(#[trigger] body[i]).contains('\n') by {
                assert(body[i] == lines[es + se + i]);
            }
        }
        let prefix = join_lines(nl.take(se));
        let overhead = byte_len(prefix) + 1 + byte_len(marker()) + 1;
        let budget = body_budget(size, overhead as int);
        lemma_split_joined_bounds(body, budget);
        let subs = split_spec(join_lines(body), budget);
        assert(subs == body_pieces(lines, es, ne, size, prefixes));
        assert forall|k: int| 0 <= k < cs.len() implies 1 <= (#[trigger] cs[k]).start_line && cs[k].end_line <= n
            && cs[k].start_line <= cs[k].end_line + 1 && (cs[k].start_line == cs[k].end_line + 1
            ==> cs[k].content.len() == 0) by {
            assert(1 <= subs[k].start_line && subs[k].start_line <= subs[k].end_line && subs[k].end_line
                <= body.len());
        }
    }
}

/// The header chunk of `lines[es..ne]` ends within the node.
proof fn lemma_header_bounds(lines: Seq<Seq<char>>, es: int, ne: int, prefixes: Seq<Seq<char>>)
    requires
        0 <= es <= ne <= lines.len(),
    ensures
        es <= container_header(lines, es, ne, prefixes).end_line <= ne,
{
    lemma_sig_end_bounds(lines.subrange(es, ne), prefixes);
}

/// The header chunk of `lines[es..ne]` lies within the file.
proof fn lemma_header_within(lines: Seq<Seq<char>>, es: int, ne: int, prefixes: Seq<Seq<char>>)
    requires
        0 <= es <= ne <= lines.len(),
    ensures
        within_file(seq![container_header(lines, es, ne, prefixes)], lines.len() as int),
{
    let nl = lines.subrange(es, ne);
    lemma_sig_end_bounds(nl, prefixes);
    let h = header_len(nl, prefixes);
    if nl.len() == 0 {
        assert(h == 0);
        assert(nl.take(h).len() == 0);
        assert(join_lines(nl.take(h)).len() == 0);
    }
    let c = container_header(lines, es, ne, prefixes);
    assert(seq![c][0] == c);
}

/// The chunks of the nodes lie within the file.
proof fn lemma_nodes_within(
    lines: Seq<Seq<char>>,
    nodes: Seq<(int, int)>,
    start: int,
    end: int,
    size: int,
    prefixes: Seq<Seq<char>>,
    g: Option<Grammar>,
    itypes: Seq<Seq<char>>,
)
    requires
        no_nl(lines),
        0 <= start <= lines.len(),
        end <= lines.len(),
    ensures
        match nodes_to_chunks_spec(lines, nodes, start, end, size, prefixes, g, itypes) {
            Some(cs) => within_file(cs, lines.len() as int),
            None => true,
        },
    decreases level(g), 1int, 0int,
{
    let n = lines.len() as int;
    lemma_emit_within(lines, nodes, start, size, prefixes, g, itypes);
    match emit_nodes(lines, nodes, start, size, prefixes, g, itypes) {
        None => {},
        Some(r) => {
            if r.1 < end {
                lemma_section_within(lines, r.1, end, size);
                lemma_within_file_from_range(section_chunks(lines, r.1, end, size), r.1 + 1, end, n);
                lemma_within_file_concat(r.0, section_chunks(lines, r.1, end, size), n);
            } else {
                assert(r.0 + Seq::<ChunkV>::empty() =~= r.0);
            }
        },
    }
}

/// The chunks emitted for the nodes lie within the file, and the last node
/// ends within it.
proof fn lemma_emit_within(
    lines: Seq<Seq<char>>,
    nodes: Seq<(int, int)>,
    start: int,
    size: int,
    prefixes: Seq<Seq<char>>,
    g: Option<Grammar>,
    itypes: Seq<Seq<char>>,
)
    requires
        no_nl(lines),
        0 <= start <= lines.len(),
    ensures
        match emit_nodes(lines, nodes, start, size, prefixes, g, itypes) {
            Some(r) => within_file(r.0, lines.len() as int) && 0 <= r.1 <= lines.len(),
            None => true,
        },
    decreases level(g), 0int, nodes.len(),
{
    if nodes.len() > 0 {
        lemma_emit_within(lines, nodes.drop_last(), start, size, prefixes, g, itypes);
        match emit_nodes(lines, nodes.drop_last(), start, size, prefixes, g, itypes) {
            None => {},
            Some(acc) => {
                lemma_node_within(lines, nodes.last(), acc.1, size, prefixes, g, itypes);
                match node_chunks(lines, nodes.last(), acc.1, size, prefixes, g, itypes) {
                    None => {},
                    Some(r) => {
                        lemma_within_file_concat(acc.0, r.0, lines.len() as int);
                    },
                }
            },
        }
    }
}

/// The chunks of one node lie within the file, and the node ends within it.
proof fn lemma_node_within(
    lines: Seq<Seq<char>>,
    node: (int, int),
    prev_end: int,
    size: int,
    prefixes: Seq<Seq<char>>,
    g: Option<Grammar>,
    itypes: Seq<Seq<char>>,
)
    requires
        no_nl(lines),
        0 <= prev_end <= lines.len(),
    ensures
        match node_chunks(lines, node, prev_end, size, prefixes, g, itypes) {
            Some(r) => within_file(r.0, lines.len() as int) && 0 <= r.1 <= lines.len(),
            None => true,
        },
    decreases level(g), 0int, 0int,
{
    let n = lines.len() as int;
    if !(node.0 < 0 || node.0 > n || node.1 < 0 || node.1 + 1 > usize::MAX) {
        lemma_expand_bounds(lines, node.0, prefixes);
        let es = expand_doc(lines, node.0, prefixes);
        let gap = if es > prev_end {
            section_chunks(lines, prev_end, es, size)
        } else {
            seq![]
        };
        if es > prev_end {
            lemma_section_within(lines, prev_end, es, size);
            lemma_within_file_from_range(gap, prev_end + 1, es, n);
        }
        let ne = if node.1 + 1 < n {
            node.1 + 1
        } else {
            n
        };
        if !(es > ne || es + 1 > usize::MAX) {
            let content = join_lines(lines.subrange(es, ne));
            if byte_len(content) <= size {
                let c = ChunkV { content: content, start_line: es + 1, end_line: ne };
                if es == ne {
                    assert(lines.subrange(es, ne).len() == 0);
                    assert(content.len() == 0);
                }
                assert(seq![c][0] == c);
                lemma_within_file_concat(gap, seq![c], n);
            } else {
                let sub = sub_split_spec(lines, es, ne, size, prefixes);
                lemma_sub_split_within(lines, es, ne, size, prefixes);
                lemma_within_file_concat(gap, sub, n);
                match g {
                    Some(gr) => if itypes.len() > 0 {
                        match inner_nodes_spec(lines, node, gr, itypes, prefixes) {
                            Some(Some(inner)) => {
                                let h = container_header(lines, es, ne, prefixes);
                                let hs = if all_ws(h.content) {
                                    seq![]
                                } else {
                                    seq![h]
                                };
                                lemma_header_within(lines, es, ne, prefixes);
                                lemma_header_bounds(lines, es, ne, prefixes);
                                lemma_within_file_concat(gap, hs, n);
                                lemma_nodes_within(lines, inner, h.end_line, ne, size, prefixes, None, itypes);
                                match nodes_to_chunks_spec(lines, inner, h.end_line, ne, size, prefixes, None, itypes) {
                                    Some(ics) => {
                                        lemma_within_file_concat(gap + hs, ics, n);
                                    },
                                    None => {},
                                }
                            },
                            _ => {},
                        }
                    },
                    None => {},
                }
            }
        }
    }
}

/// Law: every chunk of `split_file` lies within the lines of the file: it
/// starts on line 1 or later and ends on the last line or earlier, and only
/// an empty chunk ends before it starts.
pub proof fn law_split_file_within_lines(source: Seq<char>, lang: Seq<char>, path: Seq<char>, size: int)
    ensures
        match split_file_spec(source, lang, path, size) {
            Some(cs) => within_file(cs, lines_of(source).len() as int),
            None => true,
        },
{
    let lines = lines_of(source);
    let n = lines.len() as int;
    lemma_lines_no_nl(source);
    lemma_split_lines_bounds(lines, 0, size);
    lemma_within_file_from_range(split_spec(source, size), 1, n, n);
    if source.len() > 0 && is_markdown_path(path) {
        lemma_md_within(lines, 0, size);
        lemma_within_file_from_range(split_markdown_spec(source, size), 1, n, n);
    }
    if source.len() > 0 && !is_markdown_path(path) {
        let spec = registry_lookup(unicode_lowercase(lang));
        match grammar_for(ascii_lower(lang)) {
            Some(g) => match parsed_outline(source, g) {
                Some(o) => {
                    let nodes = top_nodes(o, 0, spec);
                    let prefixes = match spec {
                        Some(s) => s.doc_prefixes,
                        None => seq!["//"@],
                    };
                    let inner_g = match spec {
                        Some(s) => Some(g),
                        None => None,
                    };
                    let itypes = match spec {
                        Some(s) => s.inner_node_types,
                        None => Seq::<Seq<char>>::empty(),
                    };
                    lemma_nodes_within(lines, nodes, 0, n, size, prefixes, inner_g, itypes);
                },
                None => {},
            },
            None => {},
        }
    }
}


// ---------------------------------------------------------------------------
// Order of the chunks
// ---------------------------------------------------------------------------

/// Line ranges increase along the chunks and do not overlap.
pub open spec fn ordered_chunks(cs: Seq<ChunkV>) -> bool {
    forall|i: int, j: int| 0 <= i < j < cs.len() ==> (#[trigger] cs[i]).end_line < (#[trigger] cs[j]).start_line
}

/// Every chunk starts after line `lo`, ends on line `hi` or earlier, and does
/// not end before the line before its start.
pub open spec fn chunks_in(cs: Seq<ChunkV>, lo: int, hi: int) -> bool {
    forall|k: int|
        0 <= k < cs.len() ==> lo < (#[trigger] cs[k]).start_line && cs[k].end_line <= hi && cs[k].start_line
            <= cs[k].end_line + 1
}

/// The declarations keep clear of each other: each one's doc-expanded start
/// is at or after the end of the one before (the first: at or after
/// `start`), each ends by `end`, an oversized one has body text after its
/// signature, and the inner declarations of every container that is split
/// keep clear in the same way between its header and its end.
pub open spec fn nodes_separated(
    lines: Seq<Seq<char>>,
    nodes: Seq<(int, int)>,
    start: int,
    end: int,
    size: int,
    prefixes: Seq<Seq<char>>,
    g: Option<Grammar>,
    itypes: Seq<Seq<char>>,
) -> bool
    decreases level(g), 0int, nodes.len(),
{
    if nodes.len() == 0 {
        true
    } else {
        nodes_separated(lines, nodes.drop_last(), start, end, size, prefixes, g, itypes) && match emit_nodes(
            lines,
            nodes.drop_last(),
            start,
            size,
            prefixes,
            g,
            itypes,
        ) {
            None => true,
            Some(acc) => node_separated(lines, nodes.last(), acc.1, end, size, prefixes, g, itypes),
        }
    }
}

/// The body of `lines[es..ne]` after its doc comment and signature is
/// either absent or has some text, so that its sub-split has a first piece
/// to carry the doc comment and signature.
pub open spec fn body_has_text(lines: Seq<Seq<char>>, es: int, ne: int, prefixes: Seq<Seq<char>>) -> bool {
    let nl = lines.subrange(es, ne);
    let body = nl.skip(sig_end_of(nl, prefixes));
    body.len() == 0 || join_lines(body).len() > 0
}

/// One declaration keeps clear of the text before `prev_end` and after
/// `end`, and, when oversized, has body text after its signature (see
/// `nodes_separated`).
pub open spec fn node_separated(
    lines: Seq<Seq<char>>,
    node: (int, int),
    prev_end: int,
    end: int,
    size: int,
    prefixes: Seq<Seq<char>>,
    g: Option<Grammar>,
    itypes: Seq<Seq<char>>,
) -> bool
    decreases level(g), 0int, 0int,
{
    if node.0 < 0 || node.0 > lines.len() || node.1 < 0 || node.1 + 1 > usize::MAX {
        true
    } else {
        let es = expand_doc(lines, node.0, prefixes);
        let ne = if node.1 + 1 < lines.len() {
            node.1 + 1
        } else {
            lines.len() as int
        };
        &&& es >= prev_end
        &&& ne <= end
        &&& (es <= ne && byte_len(join_lines(lines.subrange(es, ne))) > size) ==> body_has_text(lines, es, ne, prefixes)
        &&& match g {
            Some(gr) => (es <= ne && byte_len(join_lines(lines.subrange(es, ne))) > size && itypes.len() > 0)
                ==> match inner_nodes_spec(lines, node, gr, itypes, prefixes) {
                Some(Some(inner)) => nodes_separated(
                    lines,
                    inner,
                    container_header(lines, es, ne, prefixes).end_line,
                    ne,
                    size,
                    prefixes,
                    None,
                    itypes,
                ),
                _ => true,
            },
            None => true,
        }
    }
}

/// Chunks that tile their lines are ordered.
proof fn lemma_tiled_ordered(cs: Seq<ChunkV>)
    requires
        forall|k: int| 0 <= k < cs.len() ==> (#[trigger] cs[k]).start_line <= cs[k].end_line,
        forall|k: int| 0 <= k < cs.len() - 1 ==> (#[trigger] cs[k + 1]).start_line == cs[k].end_line + 1,
    ensures
        ordered_chunks(cs),
{
    assert forall|i: int, j: int| 0 <= i < j < cs.len() implies (#[trigger] cs[i]).end_line < (
    #[trigger] cs[j]).start_line by {
        lemma_tiled_pair(cs, i, j);
    }
}

/// Induction step of `lemma_tiled_ordered`.
proof fn lemma_tiled_pair(cs: Seq<ChunkV>, i: int, j: int)
    requires
        forall|k: int| 0 <= k < cs.len() ==> (#[trigger] cs[k]).start_line <= cs[k].end_line,
        forall|k: int| 0 <= k < cs.len() - 1 ==> (#[trigger] cs[k + 1]).start_line == cs[k].end_line + 1,
        0 <= i < j < cs.len(),
    ensures
        cs[i].end_line < cs[j].start_line,
    decreases j - i,
{
    let k = j - 1;
    assert(cs[k + 1].start_line == cs[k].end_line + 1);
    assert(cs[k + 1] == cs[j]);
    if i < j - 1 {
        lemma_tiled_pair(cs, i, j - 1);
        assert(cs[j - 1].start_line <= cs[j - 1].end_line);
    }
}

/// Two ordered runs, the first ending by line `m` and the second starting
/// after it, make one ordered run.
proof fn lemma_ordered_concat(a: Seq<ChunkV>, b: Seq<ChunkV>, lo: int, m: int, hi: int)
    requires
        ordered_chunks(a),
        ordered_chunks(b),
        chunks_in(a, lo, m),
        chunks_in(b, m, hi),
        lo <= m <= hi,
    ensures
        ordered_chunks(a + b),
        chunks_in(a + b, lo, hi),
{
    let c = a + b;
    assert forall|i: int, j: int| 0 <= i < j < c.len() implies (#[trigger] c[i]).end_line < (
    #[trigger] c[j]).start_line by {
        if j < a.len() {
            assert(c[i] == a[i] && c[j] == a[j]);
        } else if i >= a.len() {
            assert(c[i] == b[i - a.len()] && c[j] == b[j - a.len()]);
        } else {
            assert(c[i] == a[i] && c[j] == b[j - a.len()]);
        }
    }
    assert forall|k: int| 0 <= k < c.len() implies lo < (#[trigger] c[k]).start_line && c[k].end_line <= hi
        && c[k].start_line <= c[k].end_line + 1 by {
        if k < a.len() {
            assert(c[k] == a[k]);
        } else {
            assert(c[k] == b[k - a.len()]);
        }
    }
}

/// The chunks of the section `lines[a..b]` are ordered and lie on its lines.
proof fn lemma_section_ordered(lines: Seq<Seq<char>>, a: int, b: int, size: int)
    requires
        0 <= a <= b <= lines.len(),
        no_nl(lines),
    ensures
        ordered_chunks(section_chunks(lines, a, b, size)),
        chunks_in(section_chunks(lines, a, b, size), a, b),
{
    lemma_section_within(lines, a, b, size);
    let content = join_lines(lines.subrange(a, b));
    let cs = section_chunks(lines, a, b, size);
    if !all_ws(content) && byte_len(content) > size {
        let sp = split_spec(content, size);
        split_tiles_lines(content, size);
        assert forall|k: int| 0 <= k < cs.len() - 1 implies (#[trigger] cs[k + 1]).start_line == cs[k].end_line
            + 1 by {
            assert(cs[k + 1] == shift_chunk(sp[k + 1], a) && cs[k] == shift_chunk(sp[k], a));
        }
        lemma_tiled_ordered(cs);
    }
}

/// The sub-split chunks of `lines[es..ne]` are ordered and lie on its lines.
proof fn lemma_sub_split_ordered(lines: Seq<Seq<char>>, es: int, ne: int, size: int, prefixes: Seq<Seq<char>>)
    requires
        0 <= es <= ne <= lines.len(),
        no_nl(lines),
    ensures
        ordered_chunks(sub_split_spec(lines, es, ne, size, prefixes)),
        chunks_in(sub_split_spec(lines, es, ne, size, prefixes), es, ne),
{
    let nl = lines.subrange(es, ne);
    lemma_sig_end_bounds(nl, prefixes);
    let se = sig_end_of(nl, prefixes);
    let cs = sub_split_spec(lines, es, ne, size, prefixes);
    if nl.skip(se).len() > 0 {
        let body = nl.skip(se);
        assert(no_nl(body)) by {
            assert forall|i: int| 0 <= i < body.len() implies !(#[trigger] body[i]).contains('\n') by {
                assert(body[i] == lines[es + se + i]);
            }
        }
        let prefix = join_lines(nl.take(se));
        let overhead = byte_len(prefix) + 1 + byte_len(marker()) + 1;
        let budget = body_budget(size, overhead as int);
        lemma_split_joined_bounds(body, budget);
        split_tiles_lines(join_lines(body), budget);
        let subs = split_spec(join_lines(body), budget);
        assert(subs == body_pieces(lines, es, ne, size, prefixes));
        assert forall|k: int| 0 <= k < cs.len() implies (#[trigger] cs[k]).start_line <= cs[k].end_line by {
            assert(1 <= subs[k].start_line <= subs[k].end_line);
        }
        assert forall|k: int| 0 <= k < cs.len() - 1 implies (#[trigger] cs[k + 1]).start_line == cs[k].end_line
            + 1 by {
            assert(subs[k + 1].start_line == subs[k].end_line + 1);
        }
        lemma_tiled_ordered(cs);
        assert forall|k: int| 0 <= k < cs.len() implies es < (#[trigger] cs[k]).start_line && cs[k].end_line <= ne
            && cs[k].start_line <= cs[k].end_line + 1 by {
            assert(1 <= subs[k].start_line <= subs[k].end_line <= body.len());
        }
    }
}

/// Ordered chunks of separated nodes within `start..end`.
proof fn lemma_nodes_ordered(
    lines: Seq<Seq<char>>,
    nodes: Seq<(int, int)>,
    start: int,
    end: int,
    size: int,
    prefixes: Seq<Seq<char>>,
    g: Option<Grammar>,
    itypes: Seq<Seq<char>>,
)
    requires
        no_nl(lines),
        0 <= start <= end <= lines.len(),
        nodes_separated(lines, nodes, start, end, size, prefixes, g, itypes),
    ensures
        match nodes_to_chunks_spec(lines, nodes, start, end, size, prefixes, g, itypes) {
            Some(cs) => ordered_chunks(cs) && chunks_in(cs, start, end),
            None => true,
        },
    decreases level(g), 1int, 0int,
{
    lemma_emit_ordered(lines, nodes, start, end, size, prefixes, g, itypes);
    match emit_nodes(lines, nodes, start, size, prefixes, g, itypes) {
        None => {},
        Some(r) => {
            let t = if r.1 < end {
                section_chunks(lines, r.1, end, size)
            } else {
                seq![]
            };
            if r.1 < end {
                lemma_section_ordered(lines, r.1, end, size);
                lemma_ordered_concat(r.0, t, start, r.1, end);
            } else {
                assert(r.0 + t =~= r.0);
            }
        },
    }
}

/// Ordered chunks of separated nodes, and where the last one ends.
proof fn lemma_emit_ordered(
    lines: Seq<Seq<char>>,
    nodes: Seq<(int, int)>,
    start: int,
    end: int,
    size: int,
    prefixes: Seq<Seq<char>>,
    g: Option<Grammar>,
    itypes: Seq<Seq<char>>,
)
    requires
        no_nl(lines),
        0 <= start <= end <= lines.len(),
        nodes_separated(lines, nodes, start, end, size, prefixes, g, itypes),
    ensures
        match emit_nodes(lines, nodes, start, size, prefixes, g, itypes) {
            Some(r) => ordered_chunks(r.0) && chunks_in(r.0, start, r.1) && start <= r.1 <= end,
            None => true,
        },
    decreases level(g), 0int, nodes.len(),
{
    if nodes.len() > 0 {
        lemma_emit_ordered(lines, nodes.drop_last(), start, end, size, prefixes, g, itypes);
        match emit_nodes(lines, nodes.drop_last(), start, size, prefixes, g, itypes) {
            None => {},
            Some(acc) => {
                lemma_node_ordered(lines, nodes.last(), acc.1, end, size, prefixes, g, itypes);
                match node_chunks(lines, nodes.last(), acc.1, size, prefixes, g, itypes) {
                    None => {},
                    Some(r) => {
                        lemma_ordered_concat(acc.0, r.0, start, acc.1, r.1);
                    },
                }
            },
        }
    }
}

/// Ordered chunks of one separated node after `prev_end`, and its end.
proof fn lemma_node_ordered(
    lines: Seq<Seq<char>>,
    node: (int, int),
    prev_end: int,
    end: int,
    size: int,
    prefixes: Seq<Seq<char>>,
    g: Option<Grammar>,
    itypes: Seq<Seq<char>>,
)
    requires
        no_nl(lines),
        0 <= prev_end <= end <= lines.len(),
        node_separated(lines, node, prev_end, end, size, prefixes, g, itypes),
    ensures
        match node_chunks(lines, node, prev_end, size, prefixes, g, itypes) {
            Some(r) => ordered_chunks(r.0) && chunks_in(r.0, prev_end, r.1) && prev_end <= r.1 <= end,
            None => true,
        },
    decreases level(g), 0int, 0int,
{
    let n = lines.len() as int;
    if !(node.0 < 0 || node.0 > n || node.1 < 0 || node.1 + 1 > usize::MAX) {
        lemma_expand_bounds(lines, node.0, prefixes);
        let es = expand_doc(lines, node.0, prefixes);
        let gap = if es > prev_end {
            section_chunks(lines, prev_end, es, size)
        } else {
            seq![]
        };
        if es > prev_end {
            lemma_section_ordered(lines, prev_end, es, size);
        }
        let ne = if node.1 + 1 < n {
            node.1 + 1
        } else {
            n
        };
        if !(es > ne || es + 1 > usize::MAX) {
            let content = join_lines(lines.subrange(es, ne));
            if byte_len(content) <= size {
                let c = ChunkV { content: content, start_line: es + 1, end_line: ne };
                assert(seq![c][0] == c);
                lemma_ordered_concat(gap, seq![c], prev_end, es, ne);
            } else {
                let sub = sub_split_spec(lines, es, ne, size, prefixes);
                lemma_sub_split_ordered(lines, es, ne, size, prefixes);
                lemma_ordered_concat(gap, sub, prev_end, es, ne);
                match g {
                    Some(gr) => if itypes.len() > 0 {
                        match inner_nodes_spec(lines, node, gr, itypes, prefixes) {
                            Some(Some(inner)) => {
                                let h = container_header(lines, es, ne, prefixes);
                                let hs = if all_ws(h.content) {
                                    seq![]
                                } else {
                                    seq![h]
                                };
                                lemma_header_bounds(lines, es, ne, prefixes);
                                lemma_header_within(lines, es, ne, prefixes);
                                assert(seq![h][0] == h);
                                lemma_ordered_concat(gap, hs, prev_end, es, h.end_line);
                                lemma_nodes_ordered(lines, inner, h.end_line, ne, size, prefixes, None, itypes);
                                match nodes_to_chunks_spec(lines, inner, h.end_line, ne, size, prefixes, None, itypes) {
                                    Some(ics) => {
                                        lemma_ordered_concat(gap + hs, ics, prev_end, h.end_line, ne);
                                    },
                                    None => {},
                                }
                            },
                            _ => {},
                        }
                    },
                    None => {},
                }
            }
        }
    }
}

/// Law: when the declarations keep clear of each other, the chunks they are
/// turned into have increasing, pairwise disjoint line ranges within the
/// lines `start..end` they cover.
pub proof fn law_separated_nodes_give_ordered_chunks(
    lines: Seq<Seq<char>>,
    nodes: Seq<(int, int)>,
    start: int,
    end: int,
    size: int,
    prefixes: Seq<Seq<char>>,
    g: Option<Grammar>,
    itypes: Seq<Seq<char>>,
)
    requires
        no_nl(lines),
        0 <= start <= end <= lines.len(),
        nodes_separated(lines, nodes, start, end, size, prefixes, g, itypes),
    ensures
        match nodes_to_chunks_spec(lines, nodes, start, end, size, prefixes, g, itypes) {
            Some(cs) => ordered_chunks(cs) && chunks_in(cs, start, end),
            None => true,
        },
{
    lemma_nodes_ordered(lines, nodes, start, end, size, prefixes, g, itypes);
}


/// The markdown sections of `lines[i..]` are ordered and lie on those lines.
proof fn lemma_md_ordered(lines: Seq<Seq<char>>, i: int, size: int)
    requires
        0 <= i <= lines.len(),
        no_nl(lines),
    ensures
        ordered_chunks(md_sections_from(lines, i, size)),
        chunks_in(md_sections_from(lines, i, size), i, lines.len() as int),
    decreases lines.len() - i,
{
    if i < lines.len() {
        let e = section_end(lines, i + 1);
        lemma_section_end_bounds(lines, i + 1);
        lemma_section_ordered(lines, i, e, size);
        lemma_md_ordered(lines, e, size);
        lemma_ordered_concat(section_chunks(lines, i, e, size), md_sections_from(lines, e, size), i, e, lines.len() as int);
    }
}

/// The declarations of a file's AST path keep clear of each other (see
/// `nodes_separated`); true when the file does not take the AST path.
pub open spec fn split_file_separated(source: Seq<char>, lang: Seq<char>, path: Seq<char>, size: int) -> bool {
    source.len() == 0 || is_markdown_path(path) || {
        let spec = registry_lookup(unicode_lowercase(lang));
        match grammar_for(ascii_lower(lang)) {
            None => true,
            Some(g) => match parsed_outline(source, g) {
                None => true,
                Some(o) => {
                    let nodes = top_nodes(o, 0, spec);
                    let prefixes = match spec {
                        Some(s) => s.doc_prefixes,
                        None => seq!["//"@],
                    };
                    let inner_g = match spec {
                        Some(s) => Some(g),
                        None => None,
                    };
                    let itypes = match spec {
                        Some(s) => s.inner_node_types,
                        None => Seq::<Seq<char>>::empty(),
                    };
                    nodes_separated(lines_of(source), nodes, 0, lines_of(source).len() as int, size, prefixes, inner_g, itypes)
                },
            },
        }
    }
}

/// Law: the chunks of `split_file` have increasing, pairwise disjoint line
/// ranges, so no line of the file is emitted twice, whenever the file's
/// declarations keep clear of each other (always for markdown and plain
/// text).
pub proof fn law_split_file_ordered(source: Seq<char>, lang: Seq<char>, path: Seq<char>, size: int)
    requires
        split_file_separated(source, lang, path, size),
    ensures
        match split_file_spec(source, lang, path, size) {
            Some(cs) => ordered_chunks(cs),
            None => true,
        },
{
    let lines = lines_of(source);
    let n = lines.len() as int;
    lemma_lines_no_nl(source);
    split_tiles_lines(source, size);
    lemma_tiled_ordered(split_spec(source, size));
    if source.len() > 0 && is_markdown_path(path) {
        lemma_md_ordered(lines, 0, size);
    }
    if source.len() > 0 && !is_markdown_path(path) {
        let spec = registry_lookup(unicode_lowercase(lang));
        match grammar_for(ascii_lower(lang)) {
            Some(g) => match parsed_outline(source, g) {
                Some(o) => {
                    let nodes = top_nodes(o, 0, spec);
                    let prefixes = match spec {
                        Some(s) => s.doc_prefixes,
                        None => seq!["//"@],
                    };
                    let inner_g = match spec {
                        Some(s) => Some(g),
                        None => None,
                    };
                    let itypes = match spec {
                        Some(s) => s.inner_node_types,
                        None => Seq::<Seq<char>>::empty(),
                    };
                    lemma_nodes_ordered(lines, nodes, 0, n, size, prefixes, inner_g, itypes);
                },
                None => {},
            },
            None => {},
        }
    }
}


// ---------------------------------------------------------------------------
// Coverage of the lines
// ---------------------------------------------------------------------------

/// The sub-split chunks of `lines[es..ne]` cover its non-blank lines.
proof fn lemma_sub_split_covers(lines: Seq<Seq<char>>, es: int, ne: int, size: int, prefixes: Seq<Seq<char>>)
    requires
        0 <= es <= ne <= lines.len(),
        no_nl(lines),
        body_has_text(lines, es, ne, prefixes),
    ensures
        covers_nonblank(sub_split_spec(lines, es, ne, size, prefixes), lines, es, ne),
{
    let nl = lines.subrange(es, ne);
    lemma_sig_end_bounds(nl, prefixes);
    let se = sig_end_of(nl, prefixes);
    let cs = sub_split_spec(lines, es, ne, size, prefixes);
    if nl.skip(se).len() == 0 {
        assert forall|k: int| es <= k < ne && !all_ws(#[trigger] lines[k]) implies line_covered(cs, k) by {
            assert(cs[0].start_line <= k + 1 <= cs[0].end_line);
        }
    } else {
        let body = nl.skip(se);
        let boff = es + se;
        assert(no_nl(body)) by {
            assert forall|i: int| 0 <= i < body.len() implies !(#[trigger] body[i]).contains('\n') by {
                assert(body[i] == lines[es + se + i]);
            }
        }
        let prefix = join_lines(nl.take(se));
        let overhead = byte_len(prefix) + 1 + byte_len(marker()) + 1;
        let budget = body_budget(size, overhead as int);
        lemma_split_joined_bounds(body, budget);
        let subs = split_spec(join_lines(body), budget);
        assert(subs == body_pieces(lines, es, ne, size, prefixes));
        split_tiles_lines(join_lines(body), budget);
        assert(lines_of(join_lines(body)).len() > 0);
        assert forall|k: int| es <= k < ne && !all_ws(#[trigger] lines[k]) implies line_covered(cs, k) by {
            if k < boff {
                assert(1 <= subs[0].start_line <= subs[0].end_line);
                assert(cs[0].start_line <= k + 1 <= cs[0].end_line);
            } else {
                assert(body[k - boff] == lines[k]);
                assert(lines[k].len() > 0);
                lemma_lines_join_cover(body, k - boff);
                lemma_split_covers(join_lines(body), budget, k - boff);
                let j = choose|j: int|
                    0 <= j < subs.len() && (#[trigger] subs[j]).start_line <= (k - boff) + 1 <= subs[j].end_line;
                assert(1 <= subs[j].start_line);
                assert(cs[j].start_line <= k + 1 <= cs[j].end_line);
            }
        }
    }
}

/// The chunks of separated nodes cover the non-blank lines of `start..end`.
proof fn lemma_nodes_covers(
    lines: Seq<Seq<char>>,
    nodes: Seq<(int, int)>,
    start: int,
    end: int,
    size: int,
    prefixes: Seq<Seq<char>>,
    g: Option<Grammar>,
    itypes: Seq<Seq<char>>,
)
    requires
        no_nl(lines),
        0 <= start <= end <= lines.len(),
        nodes_separated(lines, nodes, start, end, size, prefixes, g, itypes),
    ensures
        match nodes_to_chunks_spec(lines, nodes, start, end, size, prefixes, g, itypes) {
            Some(cs) => covers_nonblank(cs, lines, start, end),
            None => true,
        },
    decreases level(g), 1int, 0int,
{
    lemma_emit_covers(lines, nodes, start, end, size, prefixes, g, itypes);
    lemma_emit_ordered(lines, nodes, start, end, size, prefixes, g, itypes);
    match emit_nodes(lines, nodes, start, size, prefixes, g, itypes) {
        None => {},
        Some(r) => {
            let t = if r.1 < end {
                section_chunks(lines, r.1, end, size)
            } else {
                seq![]
            };
            if r.1 < end {
                lemma_section_covers(lines, r.1, end, size);
            }
            lemma_covers_concat(r.0, t, lines, start, r.1, end);
        },
    }
}

/// The chunks emitted for separated nodes cover the non-blank lines up to
/// where the last node ends.
proof fn lemma_emit_covers(
    lines: Seq<Seq<char>>,
    nodes: Seq<(int, int)>,
    start: int,
    end: int,
    size: int,
    prefixes: Seq<Seq<char>>,
    g: Option<Grammar>,
    itypes: Seq<Seq<char>>,
)
    requires
        no_nl(lines),
        0 <= start <= end <= lines.len(),
        nodes_separated(lines, nodes, start, end, size, prefixes, g, itypes),
    ensures
        match emit_nodes(lines, nodes, start, size, prefixes, g, itypes) {
            Some(r) => covers_nonblank(r.0, lines, start, r.1),
            None => true,
        },
    decreases level(g), 0int, nodes.len(),
{
    if nodes.len() > 0 {
        lemma_emit_covers(lines, nodes.drop_last(), start, end, size, prefixes, g, itypes);
        lemma_emit_ordered(lines, nodes.drop_last(), start, end, size, prefixes, g, itypes);
        match emit_nodes(lines, nodes.drop_last(), start, size, prefixes, g, itypes) {
            None => {},
            Some(acc) => {
                lemma_node_covers(lines, nodes.last(), acc.1, end, size, prefixes, g, itypes);
                match node_chunks(lines, nodes.last(), acc.1, size, prefixes, g, itypes) {
                    None => {},
                    Some(r) => {
                        lemma_covers_concat(acc.0, r.0, lines, start, acc.1, r.1);
                    },
                }
            },
        }
    }
}

/// The chunks of one separated node cover the non-blank lines from
/// `prev_end` to where the node ends.
proof fn lemma_node_covers(
    lines: Seq<Seq<char>>,
    node: (int, int),
    prev_end: int,
    end: int,
    size: int,
    prefixes: Seq<Seq<char>>,
    g: Option<Grammar>,
    itypes: Seq<Seq<char>>,
)
    requires
        no_nl(lines),
        0 <= prev_end <= end <= lines.len(),
        node_separated(lines, node, prev_end, end, size, prefixes, g, itypes),
    ensures
        match node_chunks(lines, node, prev_end, size, prefixes, g, itypes) {
            Some(r) => covers_nonblank(r.0, lines, prev_end, r.1),
            None => true,
        },
    decreases level(g), 0int, 0int,
{
    let n = lines.len() as int;
    if !(node.0 < 0 || node.0 > n || node.1 < 0 || node.1 + 1 > usize::MAX) {
        lemma_expand_bounds(lines, node.0, prefixes);
        let es = expand_doc(lines, node.0, prefixes);
        let gap = if es > prev_end {
            section_chunks(lines, prev_end, es, size)
        } else {
            seq![]
        };
        if es > prev_end {
            lemma_section_covers(lines, prev_end, es, size);
        }
        let ne = if node.1 + 1 < n {
            node.1 + 1
        } else {
            n
        };
        if !(es > ne || es + 1 > usize::MAX) {
            let content = join_lines(lines.subrange(es, ne));
            if byte_len(content) <= size {
                let c = ChunkV { content: content, start_line: es + 1, end_line: ne };
                assert forall|k: int| es <= k < ne && !all_ws(#[trigger] lines[k]) implies line_covered(seq![c], k) by {
                    assert(seq![c][0] == c);
                }
                lemma_covers_concat(gap, seq![c], lines, prev_end, es, ne);
            } else {
                let sub = sub_split_spec(lines, es, ne, size, prefixes);
                lemma_sub_split_covers(lines, es, ne, size, prefixes);
                lemma_covers_concat(gap, sub, lines, prev_end, es, ne);
                match g {
                    Some(gr) => if itypes.len() > 0 {
                        match inner_nodes_spec(lines, node, gr, itypes, prefixes) {
                            Some(Some(inner)) => {
                                let h = container_header(lines, es, ne, prefixes);
                                let hs = if all_ws(h.content) {
                                    seq![]
                                } else {
                                    seq![h]
                                };
                                lemma_header_bounds(lines, es, ne, prefixes);
                                let hend = h.end_line;
                                let nl = lines.subrange(es, ne);
                                let hl = header_len(nl, prefixes);
                                lemma_sig_end_bounds(nl, prefixes);
                                assert forall|k: int| es <= k < hend && !all_ws(#[trigger] lines[k]) implies line_covered(
                                    hs,
                                    k,
                                ) by {
                                    assert(nl.take(hl)[k - es] == lines[k]);
                                    lemma_nonblank_join(nl.take(hl), k - es);
                                    assert(hs[0] == h);
                                }
                                lemma_nodes_covers(lines, inner, hend, ne, size, prefixes, None, itypes);
                                match nodes_to_chunks_spec(lines, inner, hend, ne, size, prefixes, None, itypes) {
                                    Some(ics) => {
                                        lemma_covers_concat(hs, ics, lines, es, hend, ne);
                                        lemma_covers_concat(gap, hs + ics, lines, prev_end, es, ne);
                                        assert(gap + hs + ics =~= gap + (hs + ics));
                                    },
                                    None => {},
                                }
                            },
                            _ => {},
                        }
                    },
                    None => {},
                }
            }
        }
    }
}

/// Law: every non-blank line of the file lies within the line range of some
/// chunk of `split_file`: always for markdown and plain text, and on the AST
/// path whenever the file's declarations keep clear of each other.
pub proof fn law_split_file_covers_lines(source: Seq<char>, lang: Seq<char>, path: Seq<char>, size: int)
    requires
        split_file_separated(source, lang, path, size),
    ensures
        match split_file_spec(source, lang, path, size) {
            Some(cs) => covers_nonblank(cs, lines_of(source), 0, lines_of(source).len() as int),
            None => true,
        },
{
    let lines = lines_of(source);
    let n = lines.len() as int;
    lemma_lines_no_nl(source);
    assert forall|k: int| 0 <= k < n && !all_ws(#[trigger] lines[k]) implies line_covered(split_spec(source, size), k) by {
        lemma_split_covers(source, size, k);
    }
    if source.len() > 0 && is_markdown_path(path) {
        lemma_md_covers(lines, 0, size);
    }
    if source.len() > 0 && !is_markdown_path(path) {
        let spec = registry_lookup(unicode_lowercase(lang));
        match grammar_for(ascii_lower(lang)) {
            Some(g) => match parsed_outline(source, g) {
                Some(o) => {
                    let nodes = top_nodes(o, 0, spec);
                    let prefixes = match spec {
                        Some(s) => s.doc_prefixes,
                        None => seq!["//"@],
                    };
                    let inner_g = match spec {
                        Some(s) => Some(g),
                        None => None,
                    };
                    let itypes = match spec {
                        Some(s) => s.inner_node_types,
                        None => Seq::<Seq<char>>::empty(),
                    };
                    lemma_nodes_covers(lines, nodes, 0, n, size, prefixes, inner_g, itypes);
                },
                None => {},
            },
            None => {},
        }
    }
}


/// Law: the first sub-split chunk of a node with a body is its doc comment
/// and signature followed directly by body text, and every later chunk
/// repeats them followed by the continuation marker line.
pub proof fn law_sub_split_marks_continuations(
    lines: Seq<Seq<char>>,
    start: int,
    end: int,
    size: int,
    prefixes: Seq<Seq<char>>,
)
    requires
        0 <= start <= end <= lines.len(),
    ensures
        ({
            let nl = lines.subrange(start, end);
            let se = sig_end_of(nl, prefixes);
            let prefix = join_lines(nl.take(se));
            let cs = sub_split_spec(lines, start, end, size, prefixes);
            let subs = body_pieces(lines, start, end, size, prefixes);
            nl.skip(se).len() > 0 ==> {
                &&& cs.len() == subs.len()
                &&& cs.len() > 0 ==> cs[0].content == prefix + seq!['\n'] + subs[0].content
                &&& forall|k: int|
                    1 <= k < cs.len() ==> starts_with(
                        (#[trigger] cs[k]).content,
                        prefix + seq!['\n'] + marker() + seq!['\n'],
                    )
            }
        }),
{
    let nl = lines.subrange(start, end);
    let se = sig_end_of(nl, prefixes);
    let prefix = join_lines(nl.take(se));
    let cs = sub_split_spec(lines, start, end, size, prefixes);
    let head = prefix + seq!['\n'] + marker() + seq!['\n'];
    assert forall|k: int| 1 <= k < cs.len() implies starts_with((#[trigger] cs[k]).content, head) by {
        if nl.skip(se).len() > 0 {
            let subs = body_pieces(lines, start, end, size, prefixes);
            assert(cs[k].content == head + subs[k].content);
            assert((head + subs[k].content).subrange(0, head.len() as int) =~= head);
        }
    }
}


/// Law: a language has a grammar exactly when it is registered, so every
/// registered language is split by its syntax tree.
pub proof fn law_registered_languages_have_grammars(name: Seq<char>)
    ensures
        (registry_lookup(name) is Some) == (grammar_for(name) is Some),
{
}

} // verus!
