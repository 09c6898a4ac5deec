//! File-type detection and compact summaries of file contents.
use vstd::prelude::*;

use crate::embed::ast_chunker::{strs_to_vecs, strs_view};
use crate::embed::chunker::{join_range, lines_of_vec, lines_view};
use crate::embed::syntax::chars_eq;
use crate::text::{
    all_ascii, ascii_lower, chars_of, ends_with, has_prefix, has_suffix, join_lines, lines_of, lowercase, starts_with,
    string_of, unicode_lowercase,
};

verus! {

/// Files above this many lines are summarised rather than returned whole.
pub const FILE_BUFFER_THRESHOLD: usize = 200;

/// The kind of summary a file gets.
#[derive(Clone, Copy, PartialEq, Eq, Debug, Structural)]
pub enum FileSummaryType {
    Source,
    Markdown,
    Config,
    Generic,
}

/// Extensions of source files.
pub open spec fn source_exts() -> Seq<Seq<char>> {
    seq![".rs"@, ".py"@, ".ts"@, ".tsx"@, ".js"@, ".jsx"@, ".go"@, ".java"@, ".kt"@, ".kts"@, ".c"@, ".cpp"@, ".cc"@, ".cxx"@, ".h"@, ".swift"@, ".rb"@, ".cs"@, ".php"@, ".scala"@, ".ex"@, ".exs"@, ".hs"@, ".lua"@, ".sh"@, ".bash"@]
}

fn source_exts_exec() -> (res: Vec<Vec<char>>)
    ensures
        lines_view(res@) == source_exts(),
{
    let v: Vec<&str> = vec![".rs", ".py", ".ts", ".tsx", ".js", ".jsx", ".go", ".java", ".kt", ".kts", ".c", ".cpp", ".cc", ".cxx", ".h", ".swift", ".rb", ".cs", ".php", ".scala", ".ex", ".exs", ".hs", ".lua", ".sh", ".bash"];
    assert(strs_view(v@) =~= source_exts());
    strs_to_vecs(v.as_slice())
}

/// Extensions of configuration files.
pub open spec fn config_exts() -> Seq<Seq<char>> {
    seq![".toml"@, ".yaml"@, ".yml"@, ".json"@, ".xml"@, ".ini"@, ".env"@, ".lock"@, ".cfg"@]
}

fn config_exts_exec() -> (res: Vec<Vec<char>>)
    ensures
        lines_view(res@) == config_exts(),
{
    let v: Vec<&str> = vec![".toml", ".yaml", ".yml", ".json", ".xml", ".ini", ".env", ".lock", ".cfg"];
    assert(strs_view(v@) =~= config_exts());
    strs_to_vecs(v.as_slice())
}

/// Some extension of `exts` ends `lower`.
pub open spec fn ends_with_any(lower: Seq<char>, exts: Seq<Seq<char>>) -> bool {
    exists|i: int| 0 <= i < exts.len() && ends_with(lower, #[trigger] exts[i])
}

/// File type of a lower-cased path: source extensions first, then `.md` and
/// `.mdx`, then configuration extensions, else generic.
pub open spec fn file_type(lower: Seq<char>) -> FileSummaryType {
    if ends_with_any(lower, source_exts()) {
        FileSummaryType::Source
    } else if ends_with(lower, ".md"@) || ends_with(lower, ".mdx"@) {
        FileSummaryType::Markdown
    } else if ends_with_any(lower, config_exts()) {
        FileSummaryType::Config
    } else {
        FileSummaryType::Generic
    }
}

/// Whether some extension of `exts` ends `s`.
fn ends_with_any_exec(s: &[char], exts: &Vec<Vec<char>>) -> (res: bool)
    ensures
        res == ends_with_any(s@, lines_view(exts@)),
{
    let ghost ev = lines_view(exts@);
    let mut i: usize = 0;
    while i < exts.len()
        invariant
            i <= exts.len(),
            ev == lines_view(exts@),
            forall|j: int| 0 <= j < i ==> !ends_with(s@, #[trigger] ev[j]),
        decreases exts.len() - i,
    {
        assert(ev[i as int] == exts@[i as int]@);
        if has_suffix(s, &exts[i]) {
            return true;
        }
        i = i + 1;
    }
    false
}

/// Detects the summary type of `path` from its lower-cased extension.
pub fn detect_file_type(path: &str) -> (res: FileSummaryType)
    ensures
        res == file_type(unicode_lowercase(path@)),
        all_ascii(path@) ==> res == file_type(ascii_lower(path@)),
{
    let lower_s = lowercase(path);
    let lower = chars_of(lower_s.as_str());
    if ends_with_any_exec(&lower, &source_exts_exec()) {
        FileSummaryType::Source
    } else if has_suffix(&lower, &chars_of(".md")) || has_suffix(&lower, &chars_of(".mdx")) {
        FileSummaryType::Markdown
    } else if ends_with_any_exec(&lower, &config_exts_exec()) {
        FileSummaryType::Config
    } else {
        FileSummaryType::Generic
    }
}

// ---------------------------------------------------------------------------
// Summaries
// ---------------------------------------------------------------------------

/// Summary of a markdown file.
pub struct MarkdownSummary {
    pub line_count: usize,
    pub headings: Vec<String>,
}

/// Summary of a configuration file.
pub struct ConfigSummary {
    pub line_count: usize,
    pub preview: String,
}

/// Summary of any other file: its first and last lines.
pub struct GenericSummary {
    pub line_count: usize,
    pub head: String,
    pub tail: String,
}

/// A symbol found in a source file.
pub struct SourceSymbol {
    pub name_path: String,
    pub kind: String,
    pub start_line: usize,
}

/// A symbol as listed in a source summary (1-indexed line).
pub struct SymbolLine {
    pub name: String,
    pub kind: String,
    pub line: usize,
}

/// Summary of a source file: its symbols, or its head and tail when none.
pub enum SourceSummary {
    Symbols { line_count: usize, symbols: Vec<SymbolLine> },
    Plain(GenericSummary),
}

/// A level-1 or level-2 markdown heading line (`# ` or `## `).
pub open spec fn is_h1_h2(l: Seq<char>) -> bool {
    starts_with(l, "# "@) || starts_with(l, "## "@)
}

/// The heading lines of `ls`, in order.
pub open spec fn headings_of(ls: Seq<Seq<char>>) -> Seq<Seq<char>>
    decreases ls.len(),
{
    if ls.len() == 0 {
        seq![]
    } else if is_h1_h2(ls.last()) {
        headings_of(ls.drop_last()).push(ls.last())
    } else {
        headings_of(ls.drop_last())
    }
}

/// At most the first `n` elements of `s`.
pub open spec fn first_n<A>(s: Seq<A>, n: int) -> Seq<A> {
    if s.len() <= n {
        s
    } else {
        s.take(n)
    }
}

/// Markdown summary: number of lines and the first 20 level-1/2 headings.
pub open spec fn markdown_summary(content: Seq<char>) -> (int, Seq<Seq<char>>) {
    (lines_of(content).len() as int, first_n(headings_of(lines_of(content)), 20))
}

/// Config summary: number of lines and the first 30 lines joined.
pub open spec fn config_summary(content: Seq<char>) -> (int, Seq<char>) {
    (lines_of(content).len() as int, join_lines(first_n(lines_of(content), 30)))
}

/// Generic summary: number of lines, the first 20 lines and the last 10 lines.
pub open spec fn generic_summary(content: Seq<char>) -> (int, Seq<char>, Seq<char>) {
    let ls = lines_of(content);
    let tail_start = if ls.len() >= 10 {
        ls.len() - 10
    } else {
        0
    };
    (ls.len() as int, join_lines(first_n(ls, 20)), join_lines(ls.skip(tail_start)))
}

/// The views of strings.
pub open spec fn strings_view(v: Seq<String>) -> Seq<Seq<char>> {
    v.map_values(|s: String| s@)
}

/// Summarises markdown: line count and the first 20 `# `/`## ` headings.
pub fn summarize_markdown(content: &str) -> (res: MarkdownSummary)
    ensures
        (res.line_count as int, strings_view(res.headings@)) == markdown_summary(content@),
{
    let chars = chars_of(content);
    let lines = lines_of_vec(&chars);
    let ghost lv = lines_view(lines@);
    let h1 = chars_of("# ");
    let h2 = chars_of("## ");
    let mut heads: Vec<String> = Vec::new();
    let mut i: usize = 0;
    while i < lines.len()
        invariant
            i <= lines.len(),
            lv == lines_view(lines@),
            h1@ == "# "@,
            h2@ == "## "@,
            strings_view(heads@) == first_n(headings_of(lv.take(i as int)), 20),
        decreases lines.len() - i,
    {
        assert(lv.take(i + 1).drop_last() =~= lv.take(i as int));
        assert(lv.take(i + 1).last() == lines@[i as int]@);
        let is_head = has_prefix(&lines[i], &h1) || has_prefix(&lines[i], &h2);
        if is_head && heads.len() < 20 {
            let ghost before = heads@;
            heads.push(string_of(&lines[i]));
            assert(strings_view(heads@) =~= strings_view(before).push(lines@[i as int]@));
        }
        i = i + 1;
        proof {
            let prev = headings_of(lv.take(i - 1));
            let cur = headings_of(lv.take(i as int));
            if is_head {
                assert(cur == prev.push(lv.take(i as int).last()));
                if prev.len() >= 20 {
                    assert(first_n(cur, 20) =~= first_n(prev, 20));
                }
            }
        }
    }
    assert(lv.take(lines.len() as int) =~= lv);
    MarkdownSummary { line_count: lines.len(), headings: heads }
}

/// Summarises a configuration file: line count and its first 30 lines.
pub fn summarize_config(content: &str) -> (res: ConfigSummary)
    ensures
        (res.line_count as int, res.preview@) == config_summary(content@),
{
    let chars = chars_of(content);
    let lines = lines_of_vec(&chars);
    let n = if lines.len() <= 30 {
        lines.len()
    } else {
        30
    };
    let preview = join_range(&lines, 0, n);
    assert(lines_view(lines@).subrange(0, n as int) =~= first_n(lines_view(lines@), 30));
    ConfigSummary { line_count: lines.len(), preview: string_of(&preview) }
}

/// Summarises any file: line count, its first 20 lines and its last 10.
pub fn summarize_generic_file(content: &str) -> (res: GenericSummary)
    ensures
        (res.line_count as int, res.head@, res.tail@) == generic_summary(content@),
{
    let chars = chars_of(content);
    let lines = lines_of_vec(&chars);
    let ghost lv = lines_view(lines@);
    let n = lines.len();
    let h = if n <= 20 {
        n
    } else {
        20
    };
    let head = join_range(&lines, 0, h);
    assert(lv.subrange(0, h as int) =~= first_n(lv, 20));
    let tail_start = if n >= 10 {
        n - 10
    } else {
        0
    };
    let tail = join_range(&lines, tail_start, n);
    assert(lv.subrange(tail_start as int, n as int) =~= lv.skip(tail_start as int));
    GenericSummary { line_count: n, head: string_of(&head), tail: string_of(&tail) }
}

/// The symbol lines of a source summary: each symbol with its 1-indexed line.
pub open spec fn symbol_lines(symbols: Seq<SourceSymbol>) -> Seq<(Seq<char>, Seq<char>, int)> {
    symbols.map_values(|s: SourceSymbol| (s.name_path@, s.kind@, s.start_line + 1))
}

/// The view of listed symbols.
pub open spec fn listed_view(v: Seq<SymbolLine>) -> Seq<(Seq<char>, Seq<char>, int)> {
    v.map_values(|s: SymbolLine| (s.name@, s.kind@, s.line as int))
}

/// Summarises a source file from the symbols found in it: the symbol list
/// with 1-indexed lines and the line count, or the generic summary when no
/// symbol was found.
pub fn summarize_source(content: &str, symbols: &Vec<SourceSymbol>) -> (res: SourceSummary)
    requires
        forall|i: int| 0 <= i < symbols@.len() ==> (#[trigger] symbols@[i]).start_line < usize::MAX,
    ensures
        symbols@.len() == 0 ==> match res {
            SourceSummary::Plain(g) => (g.line_count as int, g.head@, g.tail@) == generic_summary(content@),
            _ => false,
        },
        symbols@.len() > 0 ==> match res {
            SourceSummary::Symbols { line_count, symbols: listed } => line_count == lines_of(content@).len()
                && listed_view(listed@) == symbol_lines(symbols@),
            _ => false,
        },
{
    if symbols.len() == 0 {
        return SourceSummary::Plain(summarize_generic_file(content));
    }
    let chars = chars_of(content);
    let lines = lines_of_vec(&chars);
    let mut listed: Vec<SymbolLine> = Vec::new();
    let mut i: usize = 0;
    while i < symbols.len()
        invariant
            i <= symbols.len(),
            forall|j: int| 0 <= j < symbols@.len() ==> (#[trigger] symbols@[j]).start_line < usize::MAX,
            listed_view(listed@) == symbol_lines(symbols@).take(i as int),
        decreases symbols.len() - i,
    {
        let s = &symbols[i];
        let ghost before = listed@;
        let item = SymbolLine { name: s.name_path.clone(), kind: s.kind.clone(), line: s.start_line + 1 };
        assert((item.name@, item.kind@, item.line as int) == symbol_lines(symbols@)[i as int]);
        listed.push(item);
        proof {
            assert(listed_view(listed@) =~= listed_view(before).push(symbol_lines(symbols@)[i as int]));
            assert(symbol_lines(symbols@).take(i + 1) =~= symbol_lines(symbols@).take(i as int).push(
                symbol_lines(symbols@)[i as int],
            ));
        }
        i = i + 1;
    }
    assert(symbol_lines(symbols@).take(symbols.len() as int) =~= symbol_lines(symbols@));
    SourceSummary::Symbols { line_count: lines.len(), symbols: listed }
}


/// Law: a lower-cased path is a source file exactly when it ends with one of
/// `.rs`, `.py`, `.ts`, `.tsx`, `.js`, `.jsx`, `.go`, `.java`, `.kt`, `.kts`,
/// `.c`, `.cpp`, `.cc`, `.cxx`, `.h`, `.swift`, `.rb`, `.cs`, `.php`,
/// `.scala`, `.ex`, `.exs`, `.hs`, `.lua`, `.sh`, `.bash`.
pub proof fn law_source_extensions(lower: Seq<char>)
    ensures
        ({
            let exts = seq![".rs"@, ".py"@, ".ts"@, ".tsx"@, ".js"@, ".jsx"@, ".go"@, ".java"@, ".kt"@, ".kts"@, ".c"@, ".cpp"@, ".cc"@, ".cxx"@, ".h"@, ".swift"@, ".rb"@, ".cs"@, ".php"@, ".scala"@, ".ex"@, ".exs"@, ".hs"@, ".lua"@, ".sh"@, ".bash"@];
            (file_type(lower) == FileSummaryType::Source) == exists|i: int|
                0 <= i < exts.len() && ends_with(lower, #[trigger] exts[i])
        }),
{
    let exts = seq![".rs"@, ".py"@, ".ts"@, ".tsx"@, ".js"@, ".jsx"@, ".go"@, ".java"@, ".kt"@, ".kts"@, ".c"@, ".cpp"@, ".cc"@, ".cxx"@, ".h"@, ".swift"@, ".rb"@, ".cs"@, ".php"@, ".scala"@, ".ex"@, ".exs"@, ".hs"@, ".lua"@, ".sh"@, ".bash"@];
    assert(source_exts() == exts);
}

/// Law: a generic summary counts the lines of the content, and holds its
/// first `min(20, n)` lines as head and its last `min(10, n)` lines as tail.
pub proof fn law_generic_head_and_tail(content: Seq<char>)
    ensures
        ({
            let ls = lines_of(content);
            let n = ls.len() as int;
            let g = generic_summary(content);
            &&& g.0 == n
            &&& g.1 == join_lines(ls.subrange(0, if n < 20 { n } else { 20 }))
            &&& g.2 == join_lines(ls.subrange(if n < 10 { 0 } else { n - 10 }, n))
        }),
{
    let ls = lines_of(content);
    let n = ls.len() as int;
    assert(ls.subrange(0, if n < 20 { n } else { 20 }) =~= first_n(ls, 20));
    assert(ls.subrange(if n < 10 { 0 } else { n - 10 }, n) =~= ls.skip(if n >= 10 { n - 10 } else { 0 }));
}


/// Law: a lower-cased path that is not a source file is markdown exactly
/// when it ends with `.md` or `.mdx`; otherwise it is configuration exactly
/// when it ends with one of `.toml`, `.yaml`, `.yml`, `.json`, `.xml`,
/// `.ini`, `.env`, `.lock`, `.cfg`; everything else is generic.
pub proof fn law_other_extensions(lower: Seq<char>)
    requires
        file_type(lower) != FileSummaryType::Source,
    ensures
        ({
            let cfg = seq![".toml"@, ".yaml"@, ".yml"@, ".json"@, ".xml"@, ".ini"@, ".env"@, ".lock"@, ".cfg"@];
            let md = ends_with(lower, ".md"@) || ends_with(lower, ".mdx"@);
            let is_cfg = exists|i: int| 0 <= i < cfg.len() && ends_with(lower, #[trigger] cfg[i]);
            file_type(lower) == if md {
                FileSummaryType::Markdown
            } else if is_cfg {
                FileSummaryType::Config
            } else {
                FileSummaryType::Generic
            }
        }),
{
    let cfg = seq![".toml"@, ".yaml"@, ".yml"@, ".json"@, ".xml"@, ".ini"@, ".env"@, ".lock"@, ".cfg"@];
    assert(config_exts() == cfg);
}

} // verus!
