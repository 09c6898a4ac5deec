//! Keyword heuristics that sort memory content into semantic buckets.
use vstd::prelude::*;

use crate::embed::ast_chunker::{strs_to_vecs, strs_view};
use crate::embed::chunker::lines_view;
use crate::text::{all_ascii, ascii_lower, chars_of, contains_chars, contains_sub, lowercase, unicode_lowercase};

verus! {

/// Keywords that point to code knowledge.
pub open spec fn code_keywords() -> Seq<Seq<char>> {
    seq!["function"@, "method"@, "struct"@, "class"@, "trait"@, "impl"@, "pattern"@, "api"@, "endpoint"@, "convention"@, "naming"@, "import"@, "module"@, "crate"@, "package"@, "type"@, "interface"@, "refactor"@, "abstraction"@, "generic"@, "lifetime"@, "async"@, "iterator"@, "closure"@, "macro"@, "enum"@, "variant"@]
}

fn code_keywords_exec() -> (res: Vec<Vec<char>>)
    ensures
        lines_view(res@) == code_keywords(),
{
    let v: Vec<&str> = vec!["function", "method", "struct", "class", "trait", "impl", "pattern", "api", "endpoint", "convention", "naming", "import", "module", "crate", "package", "type", "interface", "refactor", "abstraction", "generic", "lifetime", "async", "iterator", "closure", "macro", "enum", "variant"];
    assert(strs_view(v@) =~= code_keywords());
    strs_to_vecs(v.as_slice())
}

/// Keywords that point to system and infrastructure knowledge.
pub open spec fn system_keywords() -> Seq<Seq<char>> {
    seq!["build"@, "deploy"@, "ci"@, "config"@, "environment"@, "docker"@, "infra"@, "database"@, "migration"@, "permission"@, "secret"@, "credential"@, "server"@, "port"@, "host"@, "pipeline"@, "cargo test"@, "npm"@, "pip"@, "github actions"@, "dockerfile"@, "kubernetes"@, "nginx"@, "ssl"@, "certificate"@]
}

fn system_keywords_exec() -> (res: Vec<Vec<char>>)
    ensures
        lines_view(res@) == system_keywords(),
{
    let v: Vec<&str> = vec!["build", "deploy", "ci", "config", "environment", "docker", "infra", "database", "migration", "permission", "secret", "credential", "server", "port", "host", "pipeline", "cargo test", "npm", "pip", "github actions", "dockerfile", "kubernetes", "nginx", "ssl", "certificate"];
    assert(strs_view(v@) =~= system_keywords());
    strs_to_vecs(v.as_slice())
}

/// Keywords that point to user preferences.
pub open spec fn preference_keywords() -> Seq<Seq<char>> {
    seq!["prefer"@, "always"@, "never"@, "style"@, "habit"@, "default to"@, "next time"@, "remember to"@, "i like"@, "i want"@, "don't use"@, "snake_case"@, "camelcase"@, "tabs"@, "spaces"@, "indentation"@]
}

fn preference_keywords_exec() -> (res: Vec<Vec<char>>)
    ensures
        lines_view(res@) == preference_keywords(),
{
    let v: Vec<&str> = vec!["prefer", "always", "never", "style", "habit", "default to", "next time", "remember to", "i like", "i want", "don't use", "snake_case", "camelcase", "tabs", "spaces", "indentation"];
    assert(strs_view(v@) =~= preference_keywords());
    strs_to_vecs(v.as_slice())
}

/// File extensions that mark a code path.
pub open spec fn code_path_markers() -> Seq<Seq<char>> {
    seq![".rs"@, ".ts"@, ".py"@, ".go"@, ".java"@, ".js"@, ".kt"@]
}

fn code_path_markers_exec() -> (res: Vec<Vec<char>>)
    ensures
        lines_view(res@) == code_path_markers(),
{
    let v: Vec<&str> = vec![".rs", ".ts", ".py", ".go", ".java", ".js", ".kt"];
    assert(strs_view(v@) =~= code_path_markers());
    strs_to_vecs(v.as_slice())
}

/// Number of `kws` that occur in `text`.
pub open spec fn count_hits(text: Seq<char>, kws: Seq<Seq<char>>) -> nat
    decreases kws.len(),
{
    if kws.len() == 0 {
        0
    } else {
        count_hits(text, kws.drop_last()) + if contains_sub(text, kws.last()) {
            1nat
        } else {
            0nat
        }
    }
}

/// Code score: code keywords found, plus two when a code file path shows.
pub open spec fn code_score(lower: Seq<char>) -> nat {
    count_hits(lower, code_keywords()) + if count_hits(lower, code_path_markers()) > 0 {
        2nat
    } else {
        0nat
    }
}

/// The bucket of lower-cased text: `unstructured` when nothing matched;
/// otherwise `preferences` when its score is the maximum, then `code` when
/// it scores at least as much as `system`, else `system`.
pub open spec fn bucket(lower: Seq<char>) -> Seq<char> {
    let c = code_score(lower);
    let s = count_hits(lower, system_keywords());
    let p = count_hits(lower, preference_keywords());
    if c == 0 && s == 0 && p == 0 {
        "unstructured"@
    } else if p >= c && p >= s {
        "preferences"@
    } else if c >= s {
        "code"@
    } else {
        "system"@
    }
}

/// Law: the bucket is always one of `code`, `system`, `preferences` and
/// `unstructured`.
pub proof fn law_bucket_is_one_of_four(lower: Seq<char>)
    ensures
        bucket(lower) == "code"@ || bucket(lower) == "system"@ || bucket(lower) == "preferences"@
            || bucket(lower) == "unstructured"@,
{
}

/// Counts the keywords of `kws` found in `text`.
fn count_hits_exec(text: &[char], kws: &Vec<Vec<char>>) -> (res: usize)
    ensures
        res == count_hits(text@, lines_view(kws@)),
        res <= kws.len(),
{
    let ghost kv = lines_view(kws@);
    let mut n: usize = 0;
    let mut i: usize = 0;
    while i < kws.len()
        invariant
            i <= kws.len(),
            kv == lines_view(kws@),
            n == count_hits(text@, kv.take(i as int)),
            n <= i,
        decreases kws.len() - i,
    {
        assert(kv.take(i + 1).drop_last() =~= kv.take(i as int));
        assert(kv.take(i + 1).last() == kws@[i as int]@);
        if contains_chars(text, &kws[i]) {
            n = n + 1;
        }
        i = i + 1;
    }
    assert(kv.take(kws.len() as int) =~= kv);
    n
}

/// Classifies memory content into a semantic bucket by keyword heuristics on
/// its lower-cased text. Returns one of `"code"`, `"system"`,
/// `"preferences"` or `"unstructured"`.
pub fn classify_bucket(content: &str) -> (res: &'static str)
    ensures
        res@ == bucket(unicode_lowercase(content@)),
        all_ascii(content@) ==> res@ == bucket(ascii_lower(content@)),
{
    let lower_s = lowercase(content);
    let lower = chars_of(lower_s.as_str());
    let paths = count_hits_exec(&lower, &code_path_markers_exec());
    let code_kws = code_keywords_exec();
    assert(code_kws@.len() == lines_view(code_kws@).len());
    let code = count_hits_exec(&lower, &code_kws) + if paths > 0 {
        2
    } else {
        0
    };
    let system = count_hits_exec(&lower, &system_keywords_exec());
    let prefs = count_hits_exec(&lower, &preference_keywords_exec());
    if code == 0 && system == 0 && prefs == 0 {
        return "unstructured";
    }
    if prefs >= code && prefs >= system {
        "preferences"
    } else if code >= system {
        "code"
    } else {
        "system"
    }
}


/// No keyword of `kws` occurs: no hit.
proof fn lemma_hits_none(text: Seq<char>, kws: Seq<Seq<char>>)
    requires
        forall|i: int| 0 <= i < kws.len() ==> !contains_sub(text, #[trigger] kws[i]),
    ensures
        count_hits(text, kws) == 0,
    decreases kws.len(),
{
    if kws.len() > 0 {
        assert(kws.last() == kws[kws.len() - 1]);
        lemma_hits_none(text, kws.drop_last());
    }
}

/// Some keyword of `kws` occurs: at least one hit.
proof fn lemma_hits_some(text: Seq<char>, kws: Seq<Seq<char>>, i: int)
    requires
        0 <= i < kws.len(),
        contains_sub(text, kws[i]),
    ensures
        count_hits(text, kws) > 0,
    decreases kws.len(),
{
    if i < kws.len() - 1 {
        assert(kws.drop_last()[i] == kws[i]);
        lemma_hits_some(text, kws.drop_last(), i);
    }
}

/// Law: in text where no keyword of any bucket occurs, a code file path
/// alone decides: the text is `code` exactly when one of the extensions
/// `.rs`, `.ts`, `.py`, `.go`, `.java`, `.js`, `.kt` occurs in it, and
/// `unstructured` otherwise.
pub proof fn law_code_path_alone_makes_code(lower: Seq<char>)
    requires
        forall|i: int| 0 <= i < code_keywords().len() ==> !contains_sub(lower, #[trigger] code_keywords()[i]),
        forall|i: int| 0 <= i < system_keywords().len() ==> !contains_sub(lower, #[trigger] system_keywords()[i]),
        forall|i: int|
            0 <= i < preference_keywords().len() ==> !contains_sub(lower, #[trigger] preference_keywords()[i]),
    ensures
        ({
            let paths = seq![".rs"@, ".ts"@, ".py"@, ".go"@, ".java"@, ".js"@, ".kt"@];
            bucket(lower) == if exists|i: int| 0 <= i < paths.len() && contains_sub(lower, #[trigger] paths[i]) {
                "code"@
            } else {
                "unstructured"@
            }
        }),
{
    let paths = seq![".rs"@, ".ts"@, ".py"@, ".go"@, ".java"@, ".js"@, ".kt"@];
    assert(code_path_markers() == paths);
    lemma_hits_none(lower, code_keywords());
    lemma_hits_none(lower, system_keywords());
    lemma_hits_none(lower, preference_keywords());
    if exists|i: int| 0 <= i < paths.len() && contains_sub(lower, #[trigger] paths[i]) {
        let i = choose|i: int| 0 <= i < paths.len() && contains_sub(lower, #[trigger] paths[i]);
        lemma_hits_some(lower, paths, i);
    } else {
        lemma_hits_none(lower, paths);
    }
}


/// Law: a code file path weighs as two code keywords. In text with no code
/// or preference keyword and `s` system keywords, the text is `code` when a
/// code file extension occurs and `s <= 2`, `unstructured` when neither
/// occurs, and `system` otherwise.
pub proof fn law_code_path_weighs_two(lower: Seq<char>)
    requires
        forall|i: int| 0 <= i < code_keywords().len() ==> !contains_sub(lower, #[trigger] code_keywords()[i]),
        forall|i: int|
            0 <= i < preference_keywords().len() ==> !contains_sub(lower, #[trigger] preference_keywords()[i]),
    ensures
        ({
            let paths = seq![".rs"@, ".ts"@, ".py"@, ".go"@, ".java"@, ".js"@, ".kt"@];
            let has_path = exists|i: int| 0 <= i < paths.len() && contains_sub(lower, #[trigger] paths[i]);
            let s = count_hits(lower, system_keywords());
            bucket(lower) == if has_path && s <= 2 {
                "code"@
            } else if !has_path && s == 0 {
                "unstructured"@
            } else {
                "system"@
            }
        }),
{
    let paths = seq![".rs"@, ".ts"@, ".py"@, ".go"@, ".java"@, ".js"@, ".kt"@];
    assert(code_path_markers() == paths);
    lemma_hits_none(lower, code_keywords());
    lemma_hits_none(lower, preference_keywords());
    if exists|i: int| 0 <= i < paths.len() && contains_sub(lower, #[trigger] paths[i]) {
        let i = choose|i: int| 0 <= i < paths.len() && contains_sub(lower, #[trigger] paths[i]);
        lemma_hits_some(lower, paths, i);
    } else {
        lemma_hits_none(lower, paths);
    }
}

} // verus!
