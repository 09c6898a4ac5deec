//! Plain-text chunking: packs consecutive lines into chunks of bounded UTF-8
//! size, and splits markdown at headings.
use vstd::prelude::*;

use crate::text::{
    all_ws, byte_len, byte_len_of, chars_of, fits_bytes, is_blank, is_ws, join_lines, lines_of, lines_vec,
    nl_pos, string_of, strip_cr,
};

verus! {

/// A chunk of a file: its text and the 1-indexed, inclusive line range it covers.
pub struct RawChunk {
    pub content: String,
    pub start_line: usize,
    pub end_line: usize,
}

/// Mathematical view of a chunk.
pub struct ChunkV {
    pub content: Seq<char>,
    pub start_line: int,
    pub end_line: int,
}

impl View for RawChunk {
    type V = ChunkV;

    open spec fn view(&self) -> ChunkV {
        ChunkV {
            content: self.content@,
            start_line: self.start_line as int,
            end_line: self.end_line as int,
        }
    }
}

/// The views of a sequence of chunks.
pub open spec fn chunks_view(v: Seq<RawChunk>) -> Seq<ChunkV> {
    v.map_values(|c: RawChunk| c@)
}

/// The views of a sequence of character vectors.
pub open spec fn lines_view(v: Seq<Vec<char>>) -> Seq<Seq<char>> {
    v.map_values(|l: Vec<char>| l@)
}

/// A chunk with both line numbers moved down by `off`.
pub open spec fn shift_chunk(c: ChunkV, off: int) -> ChunkV {
    ChunkV { content: c.content, start_line: c.start_line + off, end_line: c.end_line + off }
}

/// Every chunk of `cs` moved down by `off` lines.
pub open spec fn shift_chunks(cs: Seq<ChunkV>, off: int) -> Seq<ChunkV> {
    cs.map_values(|c: ChunkV| shift_chunk(c, off))
}

/// Greedy extent of a chunk: starting with the lines before `j` (whose joined
/// byte length is `acc`), add line `j`, `j + 1`, ... while the joined text
/// (lines separated by one `'\n'`) still fits in `size` bytes. Returns the
/// exclusive end index.
pub open spec fn chunk_end(lines: Seq<Seq<char>>, j: int, acc: int, size: int) -> int
    decreases lines.len() - j,
{
    if j < 0 || j >= lines.len() {
        j
    } else if acc + 1 + byte_len(lines[j]) <= size {
        chunk_end(lines, j + 1, acc + 1 + byte_len(lines[j]), size)
    } else {
        j
    }
}

/// The chunks of `lines[i..]`: each chunk starts at the first line not yet
/// covered, always holds that line, and extends greedily (`chunk_end`).
pub open spec fn split_lines_from(lines: Seq<Seq<char>>, i: int, size: int) -> Seq<ChunkV>
    decreases lines.len() - i,
{
    if i < 0 || i >= lines.len() {
        seq![]
    } else {
        let e = chunk_end(lines, i + 1, byte_len(lines[i]) as int, size);
        proof {
            lemma_chunk_end_bounds(lines, i + 1, byte_len(lines[i]) as int, size);
        }
        seq![ChunkV { content: join_lines(lines.subrange(i, e)), start_line: i + 1, end_line: e }]
            + split_lines_from(lines, e, size)
    }
}

/// What `split` returns for `text`.
pub open spec fn split_spec(text: Seq<char>, size: int) -> Seq<ChunkV> {
    split_lines_from(lines_of(text), 0, size)
}

/// A markdown heading line (ATX style: it begins with `'#'`).
pub open spec fn is_heading(l: Seq<char>) -> bool {
    l.len() > 0 && l[0] == '#'
}

/// Index of the first heading line at or after `j`, or `lines.len()`.
pub open spec fn section_end(lines: Seq<Seq<char>>, j: int) -> int
    decreases lines.len() - j,
{
    if j < 0 || j >= lines.len() {
        if j < 0 {
            0
        } else {
            j
        }
    } else if is_heading(lines[j]) {
        j
    } else {
        section_end(lines, j + 1)
    }
}

/// Chunks of the section `lines[a..b]`: nothing when it is blank, one chunk
/// when it fits in `size` bytes, otherwise its own line split moved to file lines.
pub open spec fn section_chunks(lines: Seq<Seq<char>>, a: int, b: int, size: int) -> Seq<ChunkV> {
    let content = join_lines(lines.subrange(a, b));
    if all_ws(content) {
        seq![]
    } else if byte_len(content) <= size {
        seq![ChunkV { content: content, start_line: a + 1, end_line: b }]
    } else {
        shift_chunks(split_spec(content, size), a)
    }
}

/// Chunks of the sections of `lines[i..]`.
pub open spec fn md_sections_from(lines: Seq<Seq<char>>, i: int, size: int) -> Seq<ChunkV>
    decreases lines.len() - i,
{
    if i < 0 || i >= lines.len() {
        seq![]
    } else {
        let e = section_end(lines, i + 1);
        proof {
            lemma_section_end_bounds(lines, i + 1);
        }
        section_chunks(lines, i, e, size) + md_sections_from(lines, e, size)
    }
}

/// What `split_markdown` returns for `text`.
pub open spec fn split_markdown_spec(text: Seq<char>, size: int) -> Seq<ChunkV> {
    md_sections_from(lines_of(text), 0, size)
}

/// Line numbers of every chunk lie in `[lo, hi]`, ordered within the chunk.
pub open spec fn lines_within(cs: Seq<ChunkV>, lo: int, hi: int) -> bool {
    forall|k: int|
        0 <= k < cs.len() ==> lo <= (#[trigger] cs[k]).start_line && cs[k].start_line
            <= cs[k].end_line && cs[k].end_line <= hi
}

/// Every chunk lies within the lines `1..=n` of a file: it starts on line 1
/// or later, ends on line `n` or earlier, and does not end before it starts,
/// except for an empty chunk, which ends on the line before its start.
pub open spec fn within_file(cs: Seq<ChunkV>, n: int) -> bool {
    forall|k: int|
        0 <= k < cs.len() ==> 1 <= (#[trigger] cs[k]).start_line && cs[k].end_line <= n && cs[k].start_line
            <= cs[k].end_line + 1 && (cs[k].start_line == cs[k].end_line + 1 ==> cs[k].content.len() == 0)
}

/// Chunks within `[lo, hi]` inside the file lie within it.
pub proof fn lemma_within_file_from_range(cs: Seq<ChunkV>, lo: int, hi: int, n: int)
    requires
        lines_within(cs, lo, hi),
        1 <= lo,
        hi <= n,
    ensures
        within_file(cs, n),
{
}

/// Chunks within the file stay within it when concatenated.
pub proof fn lemma_within_file_concat(a: Seq<ChunkV>, b: Seq<ChunkV>, n: int)
    requires
        within_file(a, n),
        within_file(b, n),
    ensures
        within_file(a + b, n),
{
    assert forall|k: int| 0 <= k < (a + b).len() implies 1 <= (#[trigger] (a + b)[k]).start_line && (a
        + b)[k].end_line <= n && (a + b)[k].start_line <= (a + b)[k].end_line + 1 && ((a + b)[k].start_line
        == (a + b)[k].end_line + 1 ==> (a + b)[k].content.len() == 0) by {
        if k < a.len() {
            assert((a + b)[k] == a[k]);
        } else {
            assert((a + b)[k] == b[k - a.len()]);
        }
    }
}

/// The chunks of the section `lines[a..b]` lie on its lines.
pub proof fn lemma_section_within(lines: Seq<Seq<char>>, a: int, b: int, size: int)
    requires
        0 <= a <= b <= lines.len(),
        no_nl(lines),
    ensures
        lines_within(section_chunks(lines, a, b, size), a + 1, b),
{
    let sub = lines.subrange(a, b);
    let content = join_lines(sub);
    if a == b {
        assert(sub.len() == 0);
        assert(content.len() == 0);
        assert(all_ws(content));
    } else if !all_ws(content) && byte_len(content) > size {
        assert(no_nl(sub)) by {
            assert forall|i: int| 0 <= i < sub.len() implies !(#[trigger] sub[i]).contains('\n') by {
                assert(sub[i] == lines[a + i]);
            }
        }
        lemma_split_joined_bounds(sub, size);
        let cs = split_spec(content, size);
        let sh = shift_chunks(cs, a);
        assert forall|k: int| 0 <= k < sh.len() implies a + 1 <= (#[trigger] sh[k]).start_line && sh[k].start_line
            <= sh[k].end_line && sh[k].end_line <= b by {
            assert(sh[k] == shift_chunk(cs[k], a));
        }
    }
}

/// The markdown sections of `lines[i..]` lie on those lines.
pub proof fn lemma_md_within(lines: Seq<Seq<char>>, i: int, size: int)
    requires
        0 <= i,
        no_nl(lines),
    ensures
        lines_within(md_sections_from(lines, i, size), i + 1, lines.len() as int),
    decreases lines.len() - i,
{
    if i < lines.len() {
        let e = section_end(lines, i + 1);
        lemma_section_end_bounds(lines, i + 1);
        lemma_section_within(lines, i, e, size);
        lemma_md_within(lines, e, size);
        let a = section_chunks(lines, i, e, size);
        let b = md_sections_from(lines, e, size);
        assert forall|k: int| 0 <= k < (a + b).len() implies i + 1 <= (#[trigger] (a + b)[k]).start_line && (a
            + b)[k].start_line <= (a + b)[k].end_line && (a + b)[k].end_line <= lines.len() by {
            if k < a.len() {
                assert((a + b)[k] == a[k]);
            } else {
                assert((a + b)[k] == b[k - a.len()]);
            }
        }
    }
}

/// Number of `'\n'` characters in `s`.
pub open spec fn count_nl(s: Seq<char>) -> nat
    decreases s.len(),
{
    if s.len() == 0 {
        0
    } else {
        count_nl(s.drop_last()) + if s.last() == '\n' {
            1nat
        } else {
            0nat
        }
    }
}

// ---------------------------------------------------------------------------
// Lemmas
// ---------------------------------------------------------------------------

/// A greedy chunk ends between its first unconsumed line and the end.
pub proof fn lemma_chunk_end_bounds(lines: Seq<Seq<char>>, j: int, acc: int, size: int)
    requires
        0 <= j <= lines.len(),
    ensures
        j <= chunk_end(lines, j, acc, size) <= lines.len(),
    decreases lines.len() - j,
{
    if j < lines.len() && acc + 1 + byte_len(lines[j]) <= size {
        lemma_chunk_end_bounds(lines, j + 1, acc + 1 + byte_len(lines[j]), size);
    }
}

/// A section ends between its start and the end.
pub proof fn lemma_section_end_bounds(lines: Seq<Seq<char>>, j: int)
    requires
        0 <= j <= lines.len(),
    ensures
        j <= section_end(lines, j) <= lines.len(),
    decreases lines.len() - j,
{
    if j < lines.len() && !is_heading(lines[j]) {
        lemma_section_end_bounds(lines, j + 1);
    }
}

/// Chunks produced from `lines[i..]` carry line numbers in `[i + 1, lines.len()]`.
pub proof fn lemma_split_lines_bounds(lines: Seq<Seq<char>>, i: int, size: int)
    requires
        0 <= i,
    ensures
        lines_within(split_lines_from(lines, i, size), i + 1, lines.len() as int),
    decreases lines.len() - i,
{
    if i < lines.len() {
        let e = chunk_end(lines, i + 1, byte_len(lines[i]) as int, size);
        lemma_chunk_end_bounds(lines, i + 1, byte_len(lines[i]) as int, size);
        lemma_split_lines_bounds(lines, e, size);
        let rest = split_lines_from(lines, e, size);
        let all = split_lines_from(lines, i, size);
        assert forall|k: int| 0 <= k < all.len() implies i + 1 <= (#[trigger] all[k]).start_line
            && all[k].start_line <= all[k].end_line && all[k].end_line <= lines.len() by {
            if k > 0 {
                assert(all[k] == rest[k - 1]);
            }
        }
    }
}

/// A lone newline counts one.
pub proof fn lemma_count_nl_single()
    ensures
        count_nl(seq!['\n']) == 1,
{
    let s = seq!['\n'];
    assert(s.drop_last() =~= Seq::<char>::empty());
    assert(s.last() == '\n');
    assert(count_nl(Seq::<char>::empty()) == 0);
}

/// `count_nl` distributes over concatenation.
pub proof fn lemma_count_nl_append(a: Seq<char>, b: Seq<char>)
    ensures
        count_nl(a + b) == count_nl(a) + count_nl(b),
    decreases b.len(),
{
    if b.len() == 0 {
        assert(a + b =~= a);
    } else {
        assert((a + b).drop_last() =~= a + b.drop_last());
        lemma_count_nl_append(a, b.drop_last());
    }
}

/// A sequence without `'\n'` counts no newline.
pub proof fn lemma_count_nl_none(s: Seq<char>)
    requires
        !s.contains('\n'),
    ensures
        count_nl(s) == 0,
    decreases s.len(),
{
    if s.len() > 0 {
        assert(!s.drop_last().contains('\n')) by {
            if s.drop_last().contains('\n') {
                let j = choose|j: int| 0 <= j < s.drop_last().len() && s.drop_last()[j] == '\n';
                assert(s[j] == '\n');
            }
        }
        lemma_count_nl_none(s.drop_last());
        assert(s[s.len() - 1] == s.last());
    }
}

/// Properties of `nl_pos`.
pub proof fn lemma_nl_pos_props(s: Seq<char>)
    ensures
        nl_pos(s) <= s.len(),
        forall|j: int| 0 <= j < nl_pos(s) ==> s[j] != '\n',
        nl_pos(s) < s.len() ==> s[nl_pos(s) as int] == '\n',
    decreases s.len(),
{
    if s.len() > 0 && s[0] != '\n' {
        let t = s.drop_first();
        lemma_nl_pos_props(t);
        assert forall|j: int| 0 <= j < nl_pos(s) implies s[j] != '\n' by {
            if j > 0 {
                assert(s[j] == t[j - 1]);
            }
        }
    }
}

/// The lines of `s` contain no `'\n'`, and there are at most one more of
/// them than `s` has newlines.
pub proof fn lemma_lines_of_props(s: Seq<char>)
    ensures
        forall|i: int| 0 <= i < lines_of(s).len() ==> !(#[trigger] lines_of(s)[i]).contains('\n'),
        lines_of(s).len() <= count_nl(s) + 1,
        s.len() == 0 ==> lines_of(s).len() == 0,
    decreases s.len(),
{
    if s.len() > 0 {
        let k = nl_pos(s);
        lemma_nl_pos_props(s);
        if k >= s.len() {
            assert(!s.contains('\n'));
        } else {
            let first = s.take(k as int);
            let rest = s.skip(k + 1 as int);
            lemma_lines_of_props(rest);
            assert(!first.contains('\n'));
            assert(!strip_cr(first).contains('\n')) by {
                if strip_cr(first).contains('\n') {
                    let j = choose|j: int| 0 <= j < strip_cr(first).len() && strip_cr(first)[j] == '\n';
                    assert(first[j] == '\n');
                }
            }
            let ls = lines_of(s);
            assert(ls == seq![strip_cr(first)] + lines_of(rest));
            assert forall|i: int| 0 <= i < ls.len() implies !(#[trigger] ls[i]).contains('\n') by {
                if i > 0 {
                    assert(ls[i] == lines_of(rest)[i - 1]);
                }
            }
            assert(s =~= first + seq!['\n'] + rest);
            lemma_count_nl_append(first + seq!['\n'], rest);
            lemma_count_nl_append(first, seq!['\n']);
            lemma_count_nl_single();
        }
    }
}

/// Joining newline-free lines gives one newline fewer than there are lines.
pub proof fn lemma_count_nl_join(ls: Seq<Seq<char>>)
    requires
        ls.len() > 0,
        forall|i: int| 0 <= i < ls.len() ==> !(#[trigger] ls[i]).contains('\n'),
    ensures
        count_nl(join_lines(ls)) == ls.len() - 1,
    decreases ls.len(),
{
    if ls.len() == 1 {
        lemma_count_nl_none(ls[0]);
    } else {
        let init = ls.drop_last();
        assert forall|i: int| 0 <= i < init.len() implies !(#[trigger] init[i]).contains('\n') by {
            assert(init[i] == ls[i]);
        }
        lemma_count_nl_join(init);
        lemma_count_nl_append(join_lines(init) + seq!['\n'], ls.last());
        lemma_count_nl_append(join_lines(init), seq!['\n']);
        lemma_count_nl_single();
        assert(ls.last() == ls[ls.len() - 1]);
        lemma_count_nl_none(ls.last());
    }
}

/// Re-splitting newline-free lines that were joined gives no more lines.
pub proof fn lemma_rejoin_line_count(ls: Seq<Seq<char>>)
    requires
        forall|i: int| 0 <= i < ls.len() ==> !(#[trigger] ls[i]).contains('\n'),
    ensures
        lines_of(join_lines(ls)).len() <= ls.len(),
{
    lemma_lines_of_props(join_lines(ls));
    if ls.len() > 0 {
        lemma_count_nl_join(ls);
    }
}

/// Splitting joined newline-free lines yields line numbers within `[1, ls.len()]`.
pub proof fn lemma_split_joined_bounds(ls: Seq<Seq<char>>, size: int)
    requires
        forall|i: int| 0 <= i < ls.len() ==> !(#[trigger] ls[i]).contains('\n'),
    ensures
        lines_within(split_spec(join_lines(ls), size), 1, ls.len() as int),
{
    lemma_rejoin_line_count(ls);
    lemma_split_lines_bounds(lines_of(join_lines(ls)), 0, size);
}

// ---------------------------------------------------------------------------
// Executable code
// ---------------------------------------------------------------------------

/// The lines `ls[from..to]` joined with `'\n'`.
pub fn join_range(ls: &Vec<Vec<char>>, from: usize, to: usize) -> (res: Vec<char>)
    requires
        from <= to <= ls.len(),
    ensures
        res@ == join_lines(lines_view(ls@).subrange(from as int, to as int)),
{
    let ghost v = lines_view(ls@).subrange(from as int, to as int);
    let mut out: Vec<char> = Vec::new();
    let mut i: usize = from;
    while i < to
        invariant
            from <= i <= to,
            to <= ls.len(),
            v == lines_view(ls@).subrange(from as int, to as int),
            out@ == join_lines(v.take(i - from)),
        decreases to - i,
    {
        proof {
            assert(v.take(i - from + 1).drop_last() =~= v.take(i - from));
            assert(v[i - from] == ls@[i as int]@);
        }
        if i > from {
            out.push('\n');
        }
        let line = &ls[i];
        let mut k: usize = 0;
        let ghost before = out@;
        while k < line.len()
            invariant
                k <= line.len(),
                out@ == before + line@.take(k as int),
            decreases line.len() - k,
        {
            out.push(line[k]);
            k = k + 1;
            assert(out@ =~= before + line@.take(k as int));
        }
        assert(line@.take(line.len() as int) == line@);
        i = i + 1;
        proof {
            if i == from + 1 {
                assert(out@ =~= join_lines(v.take(1)));
            } else {
                assert(out@ =~= join_lines(v.take(i - from)));
            }
        }
    }
    assert(v.take(to - from) =~= v);
    out
}

/// The lines of `s`, as character vectors.
pub fn lines_of_vec(s: &[char]) -> (res: Vec<Vec<char>>)
    ensures
        lines_view(res@) == lines_of(s@),
{
    let r = lines_vec(s);
    assert(lines_view(r@) =~= r@.map_values(|l: Vec<char>| l@));
    r
}

/// Greedy line packing of `lines` into chunks of at most `size` bytes (a line
/// longer than `size` forms a chunk of its own).
pub fn split_lines(lines: &Vec<Vec<char>>, size: usize) -> (res: Vec<RawChunk>)
    ensures
        chunks_view(res@) == split_lines_from(lines_view(lines@), 0, size as int),
{
    let ghost lv = lines_view(lines@);
    let mut out: Vec<RawChunk> = Vec::new();
    let mut i: usize = 0;
    let n = lines.len();
    while i < n
        invariant
            i <= n,
            n == lines.len(),
            lv == lines_view(lines@),
            chunks_view(out@) + split_lines_from(lv, i as int, size as int) == split_lines_from(
                lv,
                0,
                size as int,
            ),
        decreases n - i,
    {
        let first = byte_len_of(&lines[i]);
        let mut acc: u128 = first;
        let mut e: usize = i + 1;
        proof {
            assert(lv[i as int] == lines@[i as int]@);
        }
        while e < n && acc + 1 + byte_len_of(&lines[e]) <= size as u128
            invariant
                i < e <= n,
                n == lines.len(),
                lv == lines_view(lines@),
                acc <= size || e == i + 1,
                acc <= 4 * usize::MAX,
                chunk_end(lv, e as int, acc as int, size as int) == chunk_end(
                    lv,
                    i + 1,
                    byte_len(lv[i as int]) as int,
                    size as int,
                ),
            decreases n - e,
        {
            assert(lv[e as int] == lines@[e as int]@);
            acc = acc + 1 + byte_len_of(&lines[e]);
            e = e + 1;
        }
        proof {
            if e < n {
                assert(lv[e as int] == lines@[e as int]@);
            }
        }
        let content = join_range(lines, i, e);
        let chunk = RawChunk { content: string_of(&content), start_line: i + 1, end_line: e };
        let ghost old_out = out@;
        out.push(chunk);
        proof {
            assert(chunks_view(out@) =~= chunks_view(old_out) + seq![chunk@]);
            assert(lines_view(lines@).subrange(i as int, e as int) == lv.subrange(i as int, e as int));
        }
        i = e;
    }
    out
}

/// Splits `text` into chunks of whole lines, each at most `chunk_size` bytes
/// unless it is a single longer line. Chunks cover every line, in order.
pub fn split(text: &str, chunk_size: usize) -> (res: Vec<RawChunk>)
    ensures
        chunks_view(res@) == split_spec(text@, chunk_size as int),
{
    let chars = chars_of(text);
    split_chars(&chars, chunk_size)
}

/// `split` on a character vector.
pub fn split_chars(text: &[char], chunk_size: usize) -> (res: Vec<RawChunk>)
    ensures
        chunks_view(res@) == split_spec(text@, chunk_size as int),
{
    let lines = lines_of_vec(text);
    split_lines(&lines, chunk_size)
}

/// Moves every chunk down by `off` lines.
pub fn shift_vec(cs: &Vec<RawChunk>, off: usize) -> (res: Vec<RawChunk>)
    requires
        forall|k: int|
            0 <= k < cs@.len() ==> (#[trigger] cs@[k]).end_line + off <= usize::MAX
                && cs@[k].start_line <= cs@[k].end_line,
    ensures
        chunks_view(res@) == shift_chunks(chunks_view(cs@), off as int),
{
    let mut out: Vec<RawChunk> = Vec::new();
    let mut k: usize = 0;
    while k < cs.len()
        invariant
            k <= cs.len(),
            chunks_view(out@) == shift_chunks(chunks_view(cs@), off as int).take(k as int),
            forall|j: int|
                0 <= j < cs@.len() ==> (#[trigger] cs@[j]).end_line + off <= usize::MAX
                    && cs@[j].start_line <= cs@[j].end_line,
        decreases cs.len() - k,
    {
        let c = &cs[k];
        assert(c.end_line + off <= usize::MAX && c.start_line <= c.end_line);
        let moved = RawChunk {
            content: c.content.clone(),
            start_line: c.start_line + off,
            end_line: c.end_line + off,
        };
        let ghost before = out@;
        out.push(moved);
        k = k + 1;
        proof {
            assert(chunks_view(out@) =~= chunks_view(before).push(moved@));
            assert(shift_chunks(chunks_view(cs@), off as int)[k - 1] == shift_chunk(cs@[k - 1]@, off as int));
            assert(chunks_view(out@) =~= shift_chunks(chunks_view(cs@), off as int).take(k as int));
        }
    }
    assert(shift_chunks(chunks_view(cs@), off as int).take(cs.len() as int) =~= shift_chunks(chunks_view(cs@), off as int));
    out
}

/// The first newline of `a + b` lies in `b` when `a` has none.
proof fn lemma_nl_pos_append(a: Seq<char>, b: Seq<char>)
    requires
        !a.contains('\n'),
    ensures
        nl_pos(a + b) == a.len() + nl_pos(b),
    decreases a.len(),
{
    if a.len() == 0 {
        assert(a + b =~= b);
    } else {
        assert((a + b)[0] == a[0]);
        assert(a[0] != '\n');
        assert((a + b).drop_first() =~= a.drop_first() + b);
        assert(!a.drop_first().contains('\n')) by {
            if a.drop_first().contains('\n') {
                let j = choose|j: int| 0 <= j < a.drop_first().len() && a.drop_first()[j] == '\n';
                assert(a[j + 1] == '\n');
            }
        }
        lemma_nl_pos_append(a.drop_first(), b);
    }
}

/// Joining keeps the first line in front.
proof fn lemma_join_front(ls: Seq<Seq<char>>)
    requires
        ls.len() >= 2,
    ensures
        join_lines(ls) == ls[0] + seq!['\n'] + join_lines(ls.drop_first()),
    decreases ls.len(),
{
    if ls.len() == 2 {
        assert(ls.drop_last() =~= seq![ls[0]]);
        assert(ls.drop_first() =~= seq![ls[1]]);
    } else {
        lemma_join_front(ls.drop_last());
        assert(ls.drop_last().drop_first() =~= ls.drop_first().drop_last());
        assert(ls.drop_first().last() == ls.last());
        assert(ls.drop_last()[0] == ls[0]);
        let m = join_lines(ls.drop_first().drop_last());
        assert(join_lines(ls.drop_first()) == m + seq!['\n'] + ls.last());
        assert(join_lines(ls) == join_lines(ls.drop_last()) + seq!['\n'] + ls.last());
        assert(join_lines(ls) =~= ls[0] + seq!['\n'] + join_lines(ls.drop_first()));
    }
}

/// Joining newline-free lines whose last line is not empty gives a text with
/// as many lines.
pub proof fn lemma_lines_join_len(ls: Seq<Seq<char>>)
    requires
        ls.len() >= 1,
        no_nl(ls),
        ls.last().len() > 0,
    ensures
        lines_of(join_lines(ls)).len() == ls.len(),
    decreases ls.len(),
{
    if ls.len() == 1 {
        let s = ls[0];
        lemma_nl_pos_props(s);
        assert(!s.contains('\n'));
        if nl_pos(s) < s.len() {
            assert(s[nl_pos(s) as int] == '\n');
        }
    } else {
        lemma_join_front(ls);
        let a = ls[0];
        let rest = join_lines(ls.drop_first());
        let s = a + seq!['\n'] + rest;
        assert(!a.contains('\n'));
        assert(s =~= a + (seq!['\n'] + rest));
        lemma_nl_pos_append(a, seq!['\n'] + rest);
        assert(nl_pos(seq!['\n'] + rest) == 0);
        assert(s.skip(a.len() + 1int) =~= rest);
        assert(no_nl(ls.drop_first())) by {
            assert forall|i: int| 0 <= i < ls.drop_first().len() implies !(#[trigger] ls.drop_first()[i]).contains('\n') by {
                assert(ls.drop_first()[i] == ls[i + 1]);
            }
        }
        lemma_lines_join_len(ls.drop_first());
    }
}

/// Joining newline-free lines keeps every line up to the last non-empty one.
pub proof fn lemma_lines_join_cover(ls: Seq<Seq<char>>, k: int)
    requires
        no_nl(ls),
        0 <= k < ls.len(),
        ls[k].len() > 0,
    ensures
        lines_of(join_lines(ls)).len() > k,
    decreases ls.len(),
{
    if ls.len() == 1 {
        assert(join_lines(ls) == ls[0]);
    } else {
        lemma_join_front(ls);
        let a = ls[0];
        let rest = join_lines(ls.drop_first());
        let s = a + seq!['\n'] + rest;
        assert(!a.contains('\n'));
        assert(s =~= a + (seq!['\n'] + rest));
        lemma_nl_pos_append(a, seq!['\n'] + rest);
        assert(nl_pos(seq!['\n'] + rest) == 0);
        assert(s.skip(a.len() + 1int) =~= rest);
        assert(lines_of(s).len() == 1 + lines_of(rest).len());
        if k > 0 {
            assert(no_nl(ls.drop_first())) by {
                assert forall|i: int| 0 <= i < ls.drop_first().len() implies !(
                #[trigger] ls.drop_first()[i]).contains('\n') by {
                    assert(ls.drop_first()[i] == ls[i + 1]);
                }
            }
            assert(ls.drop_first()[k - 1] == ls[k]);
            lemma_lines_join_cover(ls.drop_first(), k - 1);
        }
    }
}

/// Line `k` (0-based) lies within some chunk's line range.
pub open spec fn line_covered(cs: Seq<ChunkV>, k: int) -> bool {
    exists|j: int| 0 <= j < cs.len() && (#[trigger] cs[j]).start_line <= k + 1 <= cs[j].end_line
}

/// Every non-blank line of `lines[lo..hi]` lies within some chunk's range.
pub open spec fn covers_nonblank(cs: Seq<ChunkV>, lines: Seq<Seq<char>>, lo: int, hi: int) -> bool {
    forall|k: int| lo <= k < hi && !all_ws(#[trigger] lines[k]) ==> line_covered(cs, k)
}

/// Coverage is kept when chunks are added on either side.
pub proof fn lemma_covered_concat(a: Seq<ChunkV>, b: Seq<ChunkV>, k: int)
    ensures
        line_covered(a, k) ==> line_covered(a + b, k),
        line_covered(b, k) ==> line_covered(a + b, k),
{
    if line_covered(a, k) {
        let j = choose|j: int| 0 <= j < a.len() && (#[trigger] a[j]).start_line <= k + 1 <= a[j].end_line;
        assert((a + b)[j] == a[j]);
    }
    if line_covered(b, k) {
        let j = choose|j: int| 0 <= j < b.len() && (#[trigger] b[j]).start_line <= k + 1 <= b[j].end_line;
        assert((a + b)[a.len() + j] == b[j]);
    }
}

/// Coverage of two neighbouring ranges by two runs of chunks.
pub proof fn lemma_covers_concat(a: Seq<ChunkV>, b: Seq<ChunkV>, lines: Seq<Seq<char>>, lo: int, m: int, hi: int)
    requires
        covers_nonblank(a, lines, lo, m),
        covers_nonblank(b, lines, m, hi),
    ensures
        covers_nonblank(a + b, lines, lo, hi),
{
    assert forall|k: int| lo <= k < hi && !all_ws(#[trigger] lines[k]) implies line_covered(a + b, k) by {
        lemma_covered_concat(a, b, k);
    }
}

/// Chunks that tile lines `first..=last` cover each of them.
proof fn lemma_tiled_cover(cs: Seq<ChunkV>, k: int)
    requires
        cs.len() > 0,
        forall|j: int| 0 <= j < cs.len() - 1 ==> (#[trigger] cs[j + 1]).start_line == cs[j].end_line + 1,
        cs[0].start_line <= k + 1 <= cs.last().end_line,
    ensures
        line_covered(cs, k),
    decreases cs.len(),
{
    if cs.len() == 1 || k + 1 <= cs[0].end_line {
        assert(cs[0].start_line <= k + 1 <= cs[0].end_line);
    } else {
        let t = cs.drop_first();
        assert forall|j: int| 0 <= j < t.len() - 1 implies (#[trigger] t[j + 1]).start_line == t[j].end_line + 1 by {
            assert(t[j + 1] == cs[(j + 1) + 1] && t[j] == cs[j + 1]);
        }
        assert(t[0] == cs[1]);
        assert(cs[0int + 1].start_line == cs[0].end_line + 1);
        assert(t.last() == cs.last());
        lemma_tiled_cover(t, k);
        let j = choose|j: int| 0 <= j < t.len() && (#[trigger] t[j]).start_line <= k + 1 <= t[j].end_line;
        assert(cs[j + 1] == t[j]);
    }
}

/// The plain split of a text covers all its lines.
pub proof fn lemma_split_covers(text: Seq<char>, size: int, k: int)
    requires
        0 <= k < lines_of(text).len(),
    ensures
        line_covered(split_spec(text, size), k),
{
    split_tiles_lines(text, size);
    lemma_tiled_cover(split_spec(text, size), k);
}

/// A non-blank line makes the joined text non-blank.
pub proof fn lemma_nonblank_join(ls: Seq<Seq<char>>, k: int)
    requires
        0 <= k < ls.len(),
        !all_ws(ls[k]),
    ensures
        !all_ws(join_lines(ls)),
    decreases ls.len(),
{
    let i = choose|i: int| 0 <= i < ls[k].len() && !is_ws(#[trigger] ls[k][i]);
    if ls.len() == 1 {
        assert(join_lines(ls)[i] == ls[k][i]);
    } else {
        let j = join_lines(ls.drop_last());
        assert(join_lines(ls) == j + seq!['\n'] + ls.last());
        if k == ls.len() - 1 {
            assert(join_lines(ls)[j.len() + 1 + i] == ls[k][i]);
        } else {
            assert(ls.drop_last()[k] == ls[k]);
            lemma_nonblank_join(ls.drop_last(), k);
            let m = choose|m: int| 0 <= m < j.len() && !is_ws(#[trigger] j[m]);
            assert(join_lines(ls)[m] == j[m]);
        }
    }
}

/// The chunks of the section `lines[a..b]` cover its non-blank lines.
pub proof fn lemma_section_covers(lines: Seq<Seq<char>>, a: int, b: int, size: int)
    requires
        0 <= a <= b <= lines.len(),
        no_nl(lines),
    ensures
        covers_nonblank(section_chunks(lines, a, b, size), lines, a, b),
{
    let sub = lines.subrange(a, b);
    let content = join_lines(sub);
    let cs = section_chunks(lines, a, b, size);
    assert(no_nl(sub)) by {
        assert forall|i: int| 0 <= i < sub.len() implies !(#[trigger] sub[i]).contains('\n') by {
            assert(sub[i] == lines[a + i]);
        }
    }
    assert forall|k: int| a <= k < b && !all_ws(#[trigger] lines[k]) implies line_covered(cs, k) by {
        assert(sub[k - a] == lines[k]);
        lemma_nonblank_join(sub, k - a);
        if byte_len(content) <= size {
            assert(cs[0].start_line <= k + 1 <= cs[0].end_line);
        } else {
            assert(lines[k].len() > 0);
            lemma_lines_join_cover(sub, k - a);
            lemma_split_covers(content, size, k - a);
            let sp = split_spec(content, size);
            let j = choose|j: int| 0 <= j < sp.len() && (#[trigger] sp[j]).start_line <= (k - a) + 1 <= sp[j].end_line;
            assert(cs[j] == shift_chunk(sp[j], a));
        }
    }
}

/// The markdown sections of `lines[i..]` cover its non-blank lines.
pub proof fn lemma_md_covers(lines: Seq<Seq<char>>, i: int, size: int)
    requires
        0 <= i <= lines.len(),
        no_nl(lines),
    ensures
        covers_nonblank(md_sections_from(lines, i, size), lines, i, lines.len() as int),
    decreases lines.len() - i,
{
    if i < lines.len() {
        let e = section_end(lines, i + 1);
        lemma_section_end_bounds(lines, i + 1);
        lemma_section_covers(lines, i, e, size);
        lemma_md_covers(lines, e, size);
        lemma_covers_concat(section_chunks(lines, i, e, size), md_sections_from(lines, e, size), lines, i, e, lines.len() as int);
    }
}

/// Lines carry no `'\n'` (they come from `lines_of`).
pub open spec fn no_nl(ls: Seq<Seq<char>>) -> bool {
    forall|i: int| 0 <= i < ls.len() ==> !(#[trigger] ls[i]).contains('\n')
}

/// The lines of any text carry no `'\n'`.
pub proof fn lemma_lines_no_nl(s: Seq<char>)
    ensures
        no_nl(lines_of(s)),
{
    lemma_lines_of_props(s);
}

/// Chunks of `lines[a..b]` (see `section_chunks`).
pub fn range_chunks(lines: &Vec<Vec<char>>, a: usize, b: usize, size: usize) -> (res: Vec<RawChunk>)
    requires
        a <= b <= lines.len(),
        no_nl(lines_view(lines@)),
    ensures
        chunks_view(res@) == section_chunks(lines_view(lines@), a as int, b as int, size as int),
        lines_within(chunks_view(res@), a + 1, b as int),
{
    let ghost lv = lines_view(lines@);
    let content = join_range(lines, a, b);
    let ghost sub_lines = lv.subrange(a as int, b as int);
    proof {
        assert forall|i: int| 0 <= i < sub_lines.len() implies !(#[trigger] sub_lines[i]).contains(
            '\n',
        ) by {
            assert(sub_lines[i] == lv[a + i]);
        }
    }
    if is_blank(&content) {
        let r: Vec<RawChunk> = Vec::new();
        assert(chunks_view(r@) =~= seq![]);
        r
    } else if fits_bytes(&content, size) {
        let r = vec![RawChunk { content: string_of(&content), start_line: a + 1, end_line: b }];
        assert(chunks_view(r@) =~= section_chunks(lv, a as int, b as int, size as int));
        r
    } else {
        let sub = split_chars(&content, size);
        proof {
            lemma_split_joined_bounds(sub_lines, size as int);
            assert forall|k: int| 0 <= k < sub@.len() implies (#[trigger] sub@[k]).end_line + a
                <= usize::MAX && sub@[k].start_line <= sub@[k].end_line by {
                assert(chunks_view(sub@)[k] == sub@[k]@);
            }
        }
        let r = shift_vec(&sub, a);
        proof {
            let sv = chunks_view(sub@);
            assert forall|k: int| 0 <= k < chunks_view(r@).len() implies a + 1 <= (
            #[trigger] chunks_view(r@)[k]).start_line && chunks_view(r@)[k].start_line
                <= chunks_view(r@)[k].end_line && chunks_view(r@)[k].end_line <= b by {
                assert(chunks_view(r@)[k] == shift_chunk(sv[k], a as int));
            }
        }
        r
    }
}

/// Splits markdown at heading lines (lines beginning with `'#'`): every
/// section runs from a heading (or the start of the text) to the line before
/// the next heading. Blank sections are dropped, sections that fit in
/// `chunk_size` bytes become one chunk, larger ones are line-split.
pub fn split_markdown(text: &str, chunk_size: usize) -> (res: Vec<RawChunk>)
    ensures
        chunks_view(res@) == split_markdown_spec(text@, chunk_size as int),
{
    let chars = chars_of(text);
    let lines = lines_of_vec(&chars);
    let ghost lv = lines_view(lines@);
    proof {
        lemma_lines_no_nl(text@);
    }
    let n = lines.len();
    let mut out: Vec<RawChunk> = Vec::new();
    let mut i: usize = 0;
    while i < n
        invariant
            i <= n,
            n == lines.len(),
            lv == lines_view(lines@),
            lv == lines_of(text@),
            no_nl(lv),
            chunks_view(out@) + md_sections_from(lv, i as int, chunk_size as int)
                == md_sections_from(lv, 0, chunk_size as int),
        decreases n - i,
    {
        let mut e: usize = i + 1;
        while e < n && !(lines[e].len() > 0 && lines[e][0] == '#')
            invariant
                i < e <= n,
                n == lines.len(),
                lv == lines_view(lines@),
                section_end(lv, e as int) == section_end(lv, i + 1),
            decreases n - e,
        {
            assert(lv[e as int] == lines@[e as int]@);
            e = e + 1;
        }
        proof {
            if e < n {
                assert(lv[e as int] == lines@[e as int]@);
            }
            lemma_section_end_bounds(lv, i + 1);
        }
        let ghost old_out = out@;
        let mut part = range_chunks(&lines, i, e, chunk_size);
        out.append(&mut part);
        proof {
            assert(chunks_view(out@) =~= chunks_view(old_out) + section_chunks(
                lv,
                i as int,
                e as int,
                chunk_size as int,
            ));
        }
        i = e;
    }
    out
}

/// Law: the chunks of `split` tile the lines of the text. The first starts
/// at line 1, each starts on the line after the previous one ended, and the
/// last ends on the last line.
pub proof fn split_tiles_lines(text: Seq<char>, size: int)
    ensures
        ({
            let cs = split_spec(text, size);
            let n = lines_of(text).len() as int;
            &&& (n == 0) == (cs.len() == 0)
            &&& cs.len() > 0 ==> cs[0].start_line == 1 && cs.last().end_line == n
            &&& forall|k: int| 0 <= k < cs.len() ==> (#[trigger] cs[k]).start_line <= cs[k].end_line
            &&& forall|k: int|
                0 <= k < cs.len() - 1 ==> (#[trigger] cs[k + 1]).start_line == cs[k].end_line + 1
        }),
{
    lemma_split_tiles_from(lines_of(text), 0, size);
}

/// Tiling of the chunks of `lines[i..]`.
proof fn lemma_split_tiles_from(lines: Seq<Seq<char>>, i: int, size: int)
    requires
        0 <= i <= lines.len(),
    ensures
        ({
            let cs = split_lines_from(lines, i, size);
            &&& (i == lines.len()) == (cs.len() == 0)
            &&& cs.len() > 0 ==> cs[0].start_line == i + 1 && cs.last().end_line == lines.len()
            &&& forall|k: int| 0 <= k < cs.len() ==> (#[trigger] cs[k]).start_line <= cs[k].end_line
            &&& forall|k: int|
                0 <= k < cs.len() - 1 ==> (#[trigger] cs[k + 1]).start_line == cs[k].end_line + 1
        }),
    decreases lines.len() - i,
{
    if i < lines.len() {
        let e = chunk_end(lines, i + 1, byte_len(lines[i]) as int, size);
        lemma_chunk_end_bounds(lines, i + 1, byte_len(lines[i]) as int, size);
        lemma_split_tiles_from(lines, e, size);
        let rest = split_lines_from(lines, e, size);
        let cs = split_lines_from(lines, i, size);
        let first = ChunkV {
            content: join_lines(lines.subrange(i, e)),
            start_line: i + 1,
            end_line: e,
        };
        assert(cs == seq![first] + rest);
        assert forall|k: int| 0 <= k < cs.len() implies (#[trigger] cs[k]).start_line
            <= cs[k].end_line by {
            if k > 0 {
                assert(cs[k] == rest[k - 1]);
            }
        }
        assert forall|k: int| 0 <= k < cs.len() - 1 implies (#[trigger] cs[k + 1]).start_line
            == cs[k].end_line + 1 by {
            assert(cs[k + 1] == rest[k]);
            if k > 0 {
                assert(cs[k] == rest[k - 1]);
                let k1 = k - 1;
                assert(0 <= k1 < rest.len() - 1);
                assert(rest[k1 + 1].start_line == rest[k1].end_line + 1);
            } else {
                assert(cs[0] == first);
                assert(rest[0].start_line == e + 1);
            }
        }
        if rest.len() > 0 {
            assert(cs.last() == rest.last());
        }
    }
}

} // verus!
