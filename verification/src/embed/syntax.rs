//! Syntax trees as the chunker reads them: the pre-order listing of a
//! tree-sitter parse, one entry per visible node with its kind, whether it is
//! named, its first and last row, and its depth below the root.
use vstd::prelude::*;

use crate::embed::chunker::lines_view;
use crate::text::chars_of;
use tree_sitter::{Language, Parser};
use tree_sitter_go::LANGUAGE as GO;
use tree_sitter_java::LANGUAGE as JAVA;
use tree_sitter_kotlin_ng::LANGUAGE as KOTLIN;
use tree_sitter_python::LANGUAGE as PYTHON;
use tree_sitter_rust::LANGUAGE as RUST;
use tree_sitter_typescript::{LANGUAGE_TSX as TSX, LANGUAGE_TYPESCRIPT as TYPESCRIPT};

verus! {

/// The tree-sitter grammars the chunker parses with.
#[derive(Clone, Copy, PartialEq, Eq, Debug, Structural)]
pub enum Grammar {
    Rust,
    Python,
    Go,
    TypeScript,
    Tsx,
    Java,
    Kotlin,
}

/// One node of a parse tree, in pre-order.
pub struct SyntaxEntry {
    pub kind: String,
    pub named: bool,
    pub start_row: usize,
    pub end_row: usize,
    pub depth: u32,
}

/// Mathematical view of a `SyntaxEntry`.
pub struct SyntaxEntryV {
    pub kind: Seq<char>,
    pub named: bool,
    pub start_row: int,
    pub end_row: int,
    pub depth: int,
}

impl View for SyntaxEntry {
    type V = SyntaxEntryV;

    open spec fn view(&self) -> SyntaxEntryV {
        SyntaxEntryV {
            kind: self.kind@,
            named: self.named,
            start_row: self.start_row as int,
            end_row: self.end_row as int,
            depth: self.depth as int,
        }
    }
}

/// The views of an outline.
pub open spec fn outline_view(o: Seq<SyntaxEntry>) -> Seq<SyntaxEntryV> {
    o.map_values(|e: SyntaxEntry| e@)
}

/// The view of an optional outline.
pub open spec fn opt_outline_view(o: Option<Vec<SyntaxEntry>>) -> Option<Seq<SyntaxEntryV>> {
    match o {
        Some(v) => Some(outline_view(v@)),
        None => None,
    }
}

/// What tree-sitter produces when `source` is parsed with `grammar`: the
/// pre-order outline of the tree, or `None` when the parser cannot be set up
/// or gives no tree. It depends on the source text and the grammar alone.
pub uninterp spec fn parsed_outline(source: Seq<char>, grammar: Grammar) -> Option<
    Seq<SyntaxEntryV>,
>;

/// Parses `source` with tree-sitter (`Parser::set_language`, `Parser::parse`)
/// and lists the tree in pre-order (`TreeCursor::goto_descendant`, with each
/// node's `kind`, `is_named`, start and end rows and `TreeCursor::depth`).
/// The contract claims only that the result is `parsed_outline` of the
/// arguments.
#[verifier::external_body]
pub(crate) fn parse_outline(source: &str, grammar: Grammar) -> (res: Option<Vec<SyntaxEntry>>)
    ensures
        opt_outline_view(res) == parsed_outline(source@, grammar),
{
    let language: Language = match grammar {
        Grammar::Rust => RUST,
        Grammar::Python => PYTHON,
        Grammar::Go => GO,
        Grammar::TypeScript => TYPESCRIPT,
        Grammar::Tsx => TSX,
        Grammar::Java => JAVA,
        Grammar::Kotlin => KOTLIN,
    }.into();
    let mut parser = Parser::new();
    parser.set_language(&language).ok()?;
    let tree = parser.parse(source, None)?;
    let mut c = tree.walk();
    Some((0..tree.root_node().descendant_count()).map(|i| { c.goto_descendant(i); let n = c.node();
        SyntaxEntry { kind: n.kind().to_string(), named: n.is_named(), start_row: n.start_position().row, end_row: n.end_position().row, depth: c.depth() } }).collect())
}

/// First index `j' >= j` whose depth is at most that of entry `i`, or the end.
pub open spec fn scan_end(o: Seq<SyntaxEntryV>, i: int, j: int) -> int
    decreases o.len() - j,
{
    if j >= o.len() {
        o.len() as int
    } else if o[j].depth <= o[i].depth {
        j
    } else {
        scan_end(o, i, j + 1)
    }
}

/// Exclusive end of the subtree rooted at entry `i`.
pub open spec fn subtree_end(o: Seq<SyntaxEntryV>, i: int) -> int {
    scan_end(o, i, i + 1)
}

/// Entry `i` has a named child.
pub open spec fn has_named_child(o: Seq<SyntaxEntryV>, i: int) -> bool {
    exists|j: int| i < j < subtree_end(o, i) && o[j].depth == o[i].depth + 1 && #[trigger] o[j].named
}

/// Bounds of `scan_end`.
pub proof fn lemma_scan_end_bounds(o: Seq<SyntaxEntryV>, i: int, j: int)
    requires
        0 <= j <= o.len(),
    ensures
        j <= scan_end(o, i, j) <= o.len(),
        forall|k: int| j <= k < scan_end(o, i, j) ==> o[k].depth > o[i].depth,
        scan_end(o, i, j) == o.len() || o[scan_end(o, i, j)].depth <= o[i].depth,
    decreases o.len() - j,
{
    if j < o.len() && o[j].depth > o[i].depth {
        lemma_scan_end_bounds(o, i, j + 1);
    }
}

/// A subtree scan stops at the latest at an entry no deeper than its root.
pub proof fn lemma_scan_end_le(o: Seq<SyntaxEntryV>, i: int, j: int, e: int)
    requires
        0 <= j <= e <= o.len(),
        e == o.len() || o[e].depth <= o[i].depth,
    ensures
        scan_end(o, i, j) <= e,
    decreases o.len() - j,
{
    if j < e && o[j].depth > o[i].depth {
        lemma_scan_end_le(o, i, j + 1, e);
    }
}

/// Exclusive end of the subtree of entry `i`.
pub fn subtree_end_exec(o: &Vec<SyntaxEntry>, i: usize) -> (res: usize)
    requires
        i < o.len(),
    ensures
        res == subtree_end(outline_view(o@), i as int),
        i < res <= o.len(),
{
    let ghost ov = outline_view(o@);
    let d = o[i].depth;
    let mut j = i + 1;
    while j < o.len() && o[j].depth > d
        invariant
            i < j <= o.len(),
            ov == outline_view(o@),
            d == ov[i as int].depth,
            scan_end(ov, i as int, j as int) == subtree_end(ov, i as int),
        decreases o.len() - j,
    {
        j = j + 1;
    }
    j
}

/// Whether entry `i` has a named child.
pub fn has_named_child_exec(o: &Vec<SyntaxEntry>, i: usize) -> (res: bool)
    requires
        i < o.len(),
    ensures
        res == has_named_child(outline_view(o@), i as int),
{
    let ghost ov = outline_view(o@);
    let end = subtree_end_exec(o, i);
    let d = o[i].depth as u64;
    let mut j = i + 1;
    while j < end
        invariant
            i < j <= end,
            end <= o.len(),
            end == subtree_end(ov, i as int),
            ov == outline_view(o@),
            d == ov[i as int].depth,
            forall|k: int| i < k < j ==> !(ov[k].depth == ov[i as int].depth + 1 && #[trigger] ov[k].named),
        decreases end - j,
    {
        if o[j].depth as u64 == d + 1 && o[j].named {
            assert(ov[j as int].named);
            return true;
        }
        j = j + 1;
    }
    false
}

/// Whether `kind` is among `types`.
pub fn kind_in(types: &Vec<Vec<char>>, kind: &str) -> (res: bool)
    ensures
        res == lines_view(types@).contains(kind@),
{
    let k = chars_of(kind);
    let mut i: usize = 0;
    while i < types.len()
        invariant
            i <= types.len(),
            k@ == kind@,
            forall|j: int| 0 <= j < i ==> lines_view(types@)[j] != kind@,
        decreases types.len() - i,
    {
        if chars_eq(&types[i], &k) {
            assert(lines_view(types@)[i as int] == kind@);
            return true;
        }
        i = i + 1;
    }
    false
}

/// Equality of character sequences.
pub fn chars_eq(a: &[char], b: &[char]) -> (res: bool)
    ensures
        res == (a@ == b@),
{
    if a.len() != b.len() {
        return false;
    }
    let mut i: usize = 0;
    while i < a.len()
        invariant
            a.len() == b.len(),
            i <= a.len(),
            forall|j: int| 0 <= j < i ==> a@[j] == b@[j],
        decreases a.len() - i,
    {
        if a[i] != b[i] {
            return false;
        }
        i = i + 1;
    }
    assert(a@ =~= b@);
    true
}

} // verus!
