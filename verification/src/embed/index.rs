//! Decisions of the embedding index: where the database lives, how files are
//! identified and hashed, when a file is re-indexed, which chunks a scoped
//! search may return, and whether the stored embedding model still matches.
use vstd::prelude::*;

use sha2::Digest;

use crate::text::chars_of;

verus! {

/// Statistics about the embedding index.
pub struct IndexStats {
    pub file_count: usize,
    pub chunk_count: usize,
    pub embedding_count: usize,
    /// Model string stored at index time, if any.
    pub model: Option<String>,
}

/// Per-source statistics for the embedding index.
pub struct SourceStats {
    pub file_count: usize,
    pub chunk_count: usize,
}

// ---------------------------------------------------------------------------
// Paths
// ---------------------------------------------------------------------------

/// `Path::join` on `/`-separated paths: an absolute `part` replaces `base`;
/// otherwise `part` is appended after a separator unless `base` is empty or
/// already ends with one.
pub open spec fn path_join(base: Seq<char>, part: Seq<char>) -> Seq<char> {
    if part.len() > 0 && part[0] == '/' {
        part
    } else if base.len() == 0 || base.last() == '/' {
        base + part
    } else {
        base + seq!['/'] + part
    }
}

/// Where the embedding database of a project lives.
pub open spec fn db_path_spec(project_root: Seq<char>) -> Seq<char> {
    path_join(path_join(project_root, ".code-explorer"@), "embeddings.db"@)
}

/// `path_join` on characters.
fn path_join_exec(base: &Vec<char>, part: &Vec<char>) -> (res: Vec<char>)
    ensures
        res@ == path_join(base@, part@),
{
    if part.len() > 0 && part[0] == '/' {
        return copy_chars(part);
    }
    let mut out = copy_chars(base);
    if !(base.len() == 0 || base[base.len() - 1] == '/') {
        out.push('/');
    }
    let ghost mid = out@;
    let mut i: usize = 0;
    while i < part.len()
        invariant
            i <= part.len(),
            out@ == mid + part@.take(i as int),
        decreases part.len() - i,
    {
        out.push(part[i]);
        i = i + 1;
        assert(out@ =~= mid + part@.take(i as int));
    }
    assert(part@.take(part.len() as int) =~= part@);
    proof {
        if base@.len() > 0 {
            assert(base@.last() == base@[base.len() - 1]);
        }
        assert(out@ =~= path_join(base@, part@));
    }
    out
}

/// A copy of a character vector.
fn copy_chars(v: &Vec<char>) -> (res: Vec<char>)
    ensures
        res@ == v@,
{
    let mut out: Vec<char> = Vec::new();
    let mut i: usize = 0;
    while i < v.len()
        invariant
            i <= v.len(),
            out@ == v@.take(i as int),
        decreases v.len() - i,
    {
        out.push(v[i]);
        i = i + 1;
        assert(out@ =~= v@.take(i as int));
    }
    assert(v@.take(v.len() as int) =~= v@);
    out
}

/// Path to the embedding database within a project.
pub fn db_path(project_root: &str) -> (res: String)
    ensures
        res@ == db_path_spec(project_root@),
{
    let root = chars_of(project_root);
    let dir = path_join_exec(&root, &chars_of(".code-explorer"));
    let file = path_join_exec(&dir, &chars_of("embeddings.db"));
    crate::text::string_of(&file)
}

/// A relative path with every `\` turned into `/`.
pub open spec fn forward_slashes(p: Seq<char>) -> Seq<char> {
    p.map_values(|c: char| if c == '\\' { '/' } else { c })
}

/// Law: a normalised path holds no backslash, and normalising twice changes
/// nothing more.
pub proof fn law_normalized_path_has_no_backslash(p: Seq<char>)
    ensures
        !forward_slashes(p).contains('\\'),
        forward_slashes(forward_slashes(p)) == forward_slashes(p),
{
    assert(forward_slashes(forward_slashes(p)) =~= forward_slashes(p));
}

/// Normalises a project-relative path to forward slashes.
pub fn normalize_rel_path(rel: &str) -> (res: String)
    ensures
        res@ == forward_slashes(rel@),
{
    let p = chars_of(rel);
    let mut out: Vec<char> = Vec::new();
    let mut i: usize = 0;
    while i < p.len()
        invariant
            i <= p.len(),
            out@ == forward_slashes(p@.take(i as int)),
        decreases p.len() - i,
    {
        let c = if p[i] == '\\' {
            '/'
        } else {
            p[i]
        };
        out.push(c);
        i = i + 1;
        assert(out@ =~= forward_slashes(p@.take(i as int)));
    }
    assert(p@.take(p.len() as int) =~= p@);
    crate::text::string_of(&out)
}

/// Index key of a library file: the source tag in brackets, a `/`, then the
/// library-relative path (`[lib:serde]/src/lib.rs`).
pub open spec fn library_rel_spec(source: Seq<char>, rel: Seq<char>) -> Seq<char> {
    seq!['['] + source + seq![']', '/'] + rel
}

/// Builds the index key of a library file from its source tag and path.
pub fn library_rel_path(source: &str, rel: &str) -> (res: String)
    ensures
        res@ == library_rel_spec(source@, rel@),
{
    let mut s = String::new();
    s.append("[");
    s.append(source);
    s.append("]/");
    s.append(rel);
    proof {
        reveal_strlit("[");
        reveal_strlit("]/");
        assert(s@ =~= library_rel_spec(source@, rel@));
    }
    s
}

/// Whether indexing skips a file: not forced, and the stored hash equals the
/// current one.
pub fn is_unchanged(force: bool, stored: Option<&str>, hash: &str) -> (res: bool)
    ensures
        res == (!force && match stored {
            Some(s) => s@ == hash@,
            None => false,
        }),
{
    if force {
        return false;
    }
    match stored {
        Some(s) => crate::embed::syntax::chars_eq(&chars_of(s), &chars_of(hash)),
        None => false,
    }
}

// ---------------------------------------------------------------------------
// Hashing
// ---------------------------------------------------------------------------

/// What SHA-256 yields for `data`; a function of the bytes alone.
pub uninterp spec fn sha256_digest(data: Seq<u8>) -> Seq<u8>;

/// Calls `sha2::Sha256::digest`; the contract claims the result is
/// `sha256_digest` of the input and, as the crate's `OutputSize = U32` shows,
/// 32 bytes long.
#[verifier::external_body]
fn sha256(data: &[u8]) -> (res: Vec<u8>)
    ensures
        res@ == sha256_digest(data@),
        res@.len() == 32,
{
    sha2::Sha256::digest(data).to_vec()
}

/// Lower-case hexadecimal digit of a nibble.
pub open spec fn hex_digit(n: int) -> char {
    if n < 10 {
        (('0' as int) + n) as char
    } else {
        (('a' as int) + n - 10) as char
    }
}

/// Lower-case hexadecimal encoding: two digits per byte, high nibble first.
pub open spec fn hex_lower(bytes: Seq<u8>) -> Seq<char>
    decreases bytes.len(),
{
    if bytes.len() == 0 {
        seq![]
    } else {
        hex_lower(bytes.drop_last()) + seq![
            hex_digit(bytes.last() as int / 16),
            hex_digit(bytes.last() as int % 16),
        ]
    }
}

/// Calls `hex::encode`; the contract claims what its documentation and
/// source state: each byte becomes two lower-case hex digits, high nibble first.
#[verifier::external_body]
fn hex_encode(data: &[u8]) -> (res: String)
    ensures
        res@ == hex_lower(data@),
{
    hex::encode(data)
}

/// Content hash used for change detection: lower-case hex SHA-256.
pub fn hash_content(bytes: &[u8]) -> (res: String)
    ensures
        res@ == hex_lower(sha256_digest(bytes@)),
        res@.len() == 64,
        forall|i: int| 0 <= i < res@.len() ==> is_lower_hex(#[trigger] res@[i]),
{
    let digest = sha256(bytes);
    proof {
        lemma_hex_lower_shape(digest@);
    }
    hex_encode(digest.as_slice())
}

/// A lower-case hexadecimal digit.
pub open spec fn is_lower_hex(c: char) -> bool {
    ('0' <= c && c <= '9') || ('a' <= c && c <= 'f')
}

/// Hex encodings have two lower-case digits per byte.
pub proof fn lemma_hex_lower_shape(bytes: Seq<u8>)
    ensures
        hex_lower(bytes).len() == 2 * bytes.len(),
        forall|i: int| 0 <= i < hex_lower(bytes).len() ==> is_lower_hex(#[trigger] hex_lower(bytes)[i]),
    decreases bytes.len(),
{
    if bytes.len() > 0 {
        let init = bytes.drop_last();
        lemma_hex_lower_shape(init);
        let b = bytes.last() as int;
        assert(0 <= b / 16 < 16 && 0 <= b % 16 < 16);
        let h = hex_lower(bytes);
        let p = hex_lower(init);
        assert forall|i: int| 0 <= i < h.len() implies is_lower_hex(#[trigger] h[i]) by {
            if i < p.len() {
                assert(h[i] == p[i]);
            }
        }
    }
}

// ---------------------------------------------------------------------------
// Search scope and model check
// ---------------------------------------------------------------------------

/// Which chunks a scoped search considers.
pub enum SourceScope {
    /// Every chunk.
    All,
    /// Chunks whose source equals the given tag.
    Exactly(String),
    /// Chunks whose source is not `project`.
    NonProject,
}

/// Scope of a source filter: none → all sources; `project` → project chunks;
/// `libraries` → every non-project chunk; any other tag (such as
/// `lib:serde`) → chunks of exactly that source.
pub open spec fn scope_of(filter: Option<Seq<char>>) -> (SourceScopeV) {
    match filter {
        None => SourceScopeV::All,
        Some(f) => if f == "libraries"@ {
            SourceScopeV::NonProject
        } else {
            SourceScopeV::Exactly(f)
        },
    }
}

/// Mathematical view of a scope.
pub enum SourceScopeV {
    All,
    Exactly(Seq<char>),
    NonProject,
}

impl View for SourceScope {
    type V = SourceScopeV;

    open spec fn view(&self) -> SourceScopeV {
        match self {
            SourceScope::All => SourceScopeV::All,
            SourceScope::Exactly(s) => SourceScopeV::Exactly(s@),
            SourceScope::NonProject => SourceScopeV::NonProject,
        }
    }
}

/// Resolves the source filter of a scoped search.
pub fn source_scope(filter: Option<&str>) -> (res: SourceScope)
    ensures
        res@ == scope_of(
            match filter {
                Some(f) => Some(f@),
                None => None,
            },
        ),
{
    match filter {
        None => SourceScope::All,
        Some(f) => {
            let c = chars_of(f);
            if crate::embed::syntax::chars_eq(&c, &chars_of("libraries")) {
                SourceScope::NonProject
            } else {
                SourceScope::Exactly(crate::text::string_of(&c))
            }
        },
    }
}

/// Whether a chunk of source `source` is inside a scope.
pub open spec fn in_scope(scope: SourceScopeV, source: Seq<char>) -> bool {
    match scope {
        SourceScopeV::All => true,
        SourceScopeV::Exactly(s) => source == s,
        SourceScopeV::NonProject => source != "project"@,
    }
}

/// Whether a chunk from `source` belongs to `scope`.
pub fn scope_admits(scope: &SourceScope, source: &str) -> (res: bool)
    ensures
        res == in_scope(scope@, source@),
{
    match scope {
        SourceScope::All => true,
        SourceScope::Exactly(s) => crate::embed::syntax::chars_eq(&chars_of(s.as_str()), &chars_of(source)),
        SourceScope::NonProject => !crate::embed::syntax::chars_eq(&chars_of(source), &chars_of("project")),
    }
}

/// The error text for a model mismatch.
pub open spec fn mismatch_message(stored: Seq<char>, configured: Seq<char>) -> Seq<char> {
    "Index was built with model '"@ + stored + "'.\nConfigured model is '"@ + configured
        + "'.\nDelete .code-explorer/embeddings.db and re-run `index` to rebuild."@
}

/// Checks the model stored with the index against the configured one: fine
/// on a first run (nothing stored) or when they are equal; otherwise an error
/// naming both models and telling how to rebuild.
pub fn check_model_mismatch(stored: Option<&str>, configured: &str) -> (res: Result<(), String>)
    ensures
        match stored {
            None => res is Ok,
            Some(s) => if s@ == configured@ {
                res is Ok
            } else {
                res matches Err(m) && m@ == mismatch_message(s@, configured@)
            },
        },
{
    match stored {
        None => Ok(()),
        Some(s) => {
            if crate::embed::syntax::chars_eq(&chars_of(s), &chars_of(configured)) {
                Ok(())
            } else {
                let mut m = String::new();
                m.append("Index was built with model '");
                m.append(s);
                m.append("'.\nConfigured model is '");
                m.append(configured);
                m.append("'.\nDelete .code-explorer/embeddings.db and re-run `index` to rebuild.");
                assert(m@ =~= mismatch_message(s@, configured@));
                Err(m)
            }
        },
    }
}


/// Law: normalising a path changes only its backslashes: it keeps the length,
/// turns each `\\` into `/`, and keeps every other character as it is.
pub proof fn law_normalize_changes_only_backslashes(p: Seq<char>)
    ensures
        forward_slashes(p).len() == p.len(),
        forall|i: int| 0 <= i < p.len() && p[i] == '\\' ==> #[trigger] forward_slashes(p)[i] == '/',
        forall|i: int| 0 <= i < p.len() && p[i] != '\\' ==> #[trigger] forward_slashes(p)[i] == p[i],
{
}

} // verus!
