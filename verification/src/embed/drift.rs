//! File-level drift detection: the exact-content pairing of old and new
//! chunks, the chunks left unpaired, and the snippets that name a chunk.
use vstd::prelude::*;

use crate::text::{chars_of, string_of};

verus! {

/// Maximum number of characters of a snippet.
pub const SNIPPET_MAX_LEN: usize = 200;

/// A snippet of `content`: the content itself when it has at most 200
/// characters, else its first 200 characters.
pub open spec fn snippet_spec(content: Seq<char>) -> Seq<char> {
    if content.len() <= 200 {
        content
    } else {
        content.take(200)
    }
}

/// Truncates content to a snippet of at most 200 characters.
pub fn snippet(content: &str) -> (res: String)
    ensures
        res@ == snippet_spec(content@),
        res@.len() <= 200,
{
    let c = chars_of(content);
    if c.len() <= SNIPPET_MAX_LEN {
        return string_of(&c);
    }
    let out = crate::text::slice_vec(&c, 0, SNIPPET_MAX_LEN);
    string_of(&out)
}

/// First index `j' >= j` of a new chunk not yet paired whose content equals
/// `content`, or `news.len()`.
pub open spec fn first_free_equal(news: Seq<Seq<char>>, paired: Seq<bool>, content: Seq<char>, j: int) -> int
    decreases news.len() - j,
{
    if j < 0 || j >= news.len() {
        news.len() as int
    } else if !paired[j] && news[j] == content {
        j
    } else {
        first_free_equal(news, paired, content, j + 1)
    }
}

/// Pairing after the first `k` old chunks: each old chunk, in order, is
/// paired with the first unpaired new chunk of identical content.
/// Returns the paired flags of old and of new chunks.
pub open spec fn exact_pairing(olds: Seq<Seq<char>>, news: Seq<Seq<char>>, k: int) -> (Seq<bool>, Seq<bool>)
    decreases k,
{
    if k <= 0 {
        (Seq::new(olds.len(), |i: int| false), Seq::new(news.len(), |i: int| false))
    } else {
        let prev = exact_pairing(olds, news, k - 1);
        let j = first_free_equal(news, prev.1, olds[k - 1], 0);
        if j < news.len() {
            (prev.0.update(k - 1, true), prev.1.update(j, true))
        } else {
            prev
        }
    }
}

/// Law: when the new chunks are the old chunks unchanged, every chunk is
/// paired (identical files have no drift).
pub proof fn law_identical_fully_paired(chunks: Seq<Seq<char>>)
    ensures
        ({
            let p = exact_pairing(chunks, chunks, chunks.len() as int);
            &&& p.0.len() == chunks.len()
            &&& p.1.len() == chunks.len()
            &&& forall|i: int| 0 <= i < chunks.len() ==> p.0[i] && p.1[i]
        }),
{
    lemma_identical_prefix(chunks, chunks.len() as int);
}

/// After `k` steps on identical chunk lists, exactly the first `k` chunks of
/// each side are paired.
proof fn lemma_identical_prefix(chunks: Seq<Seq<char>>, k: int)
    requires
        0 <= k <= chunks.len(),
    ensures
        ({
            let p = exact_pairing(chunks, chunks, k);
            &&& p.0.len() == chunks.len()
            &&& p.1.len() == chunks.len()
            &&& forall|i: int| 0 <= i < chunks.len() ==> (p.0[i] <==> i < k)
            &&& forall|i: int| 0 <= i < chunks.len() ==> (p.1[i] <==> i < k)
        }),
    decreases k,
{
    if k > 0 {
        lemma_identical_prefix(chunks, k - 1);
        let prev = exact_pairing(chunks, chunks, k - 1);
        lemma_first_free_skips(chunks, prev.1, chunks[k - 1], 0, k - 1);
        assert(first_free_equal(chunks, prev.1, chunks[k - 1], 0) == k - 1);
        let p = exact_pairing(chunks, chunks, k);
        assert(p == (prev.0.update(k - 1, true), prev.1.update(k - 1, true)));
    }
}

/// The search passes over paired chunks up to a free chunk of equal content.
proof fn lemma_first_free_skips(news: Seq<Seq<char>>, paired: Seq<bool>, content: Seq<char>, j: int, t: int)
    requires
        0 <= j <= t < news.len(),
        paired.len() == news.len(),
        forall|i: int| j <= i < t ==> #[trigger] paired[i],
        !paired[t],
        news[t] == content,
    ensures
        first_free_equal(news, paired, content, j) == t,
    decreases t - j,
{
    if j < t {
        assert(paired[j]);
        lemma_first_free_skips(news, paired, content, j + 1, t);
    }
}

/// The views of strings.
pub open spec fn contents_view(v: Seq<String>) -> Seq<Seq<char>> {
    v.map_values(|s: String| s@)
}

/// Bounds of `first_free_equal`.
proof fn lemma_first_free_bounds(news: Seq<Seq<char>>, paired: Seq<bool>, content: Seq<char>, j: int)
    requires
        0 <= j <= news.len(),
    ensures
        j <= first_free_equal(news, paired, content, j) <= news.len(),
    decreases news.len() - j,
{
    if j < news.len() && !(!paired[j] && news[j] == content) {
        lemma_first_free_bounds(news, paired, content, j + 1);
    }
}

/// Lengths are kept by the pairing.
proof fn lemma_pairing_lens(olds: Seq<Seq<char>>, news: Seq<Seq<char>>, k: int)
    requires
        0 <= k <= olds.len(),
    ensures
        exact_pairing(olds, news, k).0.len() == olds.len(),
        exact_pairing(olds, news, k).1.len() == news.len(),
    decreases k,
{
    if k > 0 {
        lemma_pairing_lens(olds, news, k - 1);
        let prev = exact_pairing(olds, news, k - 1);
        lemma_first_free_bounds(news, prev.1, olds[k - 1], 0);
    }
}

/// Pairs old and new chunks of identical content: each old chunk, in order,
/// takes the first not-yet-paired new chunk with the same content. Returns
/// the paired flags of the old and of the new chunks.
pub fn pair_identical(old_contents: &Vec<String>, new_contents: &Vec<String>) -> (res: (Vec<bool>, Vec<bool>))
    ensures
        (res.0@, res.1@) == exact_pairing(
            contents_view(old_contents@),
            contents_view(new_contents@),
            old_contents@.len() as int,
        ),
{
    let ghost ov = contents_view(old_contents@);
    let ghost nv = contents_view(new_contents@);
    let mut old_paired: Vec<bool> = Vec::new();
    let mut k: usize = 0;
    while k < old_contents.len()
        invariant
            k <= old_contents.len(),
            old_paired@.len() == k,
            forall|i: int| 0 <= i < k ==> !old_paired@[i],
        decreases old_contents.len() - k,
    {
        old_paired.push(false);
        k = k + 1;
    }
    let mut new_paired: Vec<bool> = Vec::new();
    k = 0;
    while k < new_contents.len()
        invariant
            k <= new_contents.len(),
            new_paired@.len() == k,
            forall|i: int| 0 <= i < k ==> !new_paired@[i],
        decreases new_contents.len() - k,
    {
        new_paired.push(false);
        k = k + 1;
    }
    assert(old_paired@ =~= exact_pairing(ov, nv, 0).0);
    assert(new_paired@ =~= exact_pairing(ov, nv, 0).1);
    let mut oi: usize = 0;
    while oi < old_contents.len()
        invariant
            oi <= old_contents.len(),
            ov == contents_view(old_contents@),
            nv == contents_view(new_contents@),
            (old_paired@, new_paired@) == exact_pairing(ov, nv, oi as int),
        decreases old_contents.len() - oi,
    {
        proof {
            lemma_pairing_lens(ov, nv, oi as int);
        }
        let target = chars_of(old_contents[oi].as_str());
        assert(target@ == ov[oi as int]);
        proof {
            lemma_first_free_bounds(nv, new_paired@, ov[oi as int], 0);
        }
        match find_free_equal(new_contents, &new_paired, &target) {
            Some(ni) => {
                old_paired.set(oi, true);
                new_paired.set(ni, true);
            },
            None => {},
        }
        oi = oi + 1;
    }
    (old_paired, new_paired)
}

/// The first new chunk not yet paired whose content is `target`.
fn find_free_equal(news: &Vec<String>, paired: &Vec<bool>, target: &Vec<char>) -> (res: Option<usize>)
    requires
        paired@.len() == news@.len(),
    ensures
        match res {
            Some(j) => j == first_free_equal(contents_view(news@), paired@, target@, 0) && j < news@.len(),
            None => first_free_equal(contents_view(news@), paired@, target@, 0) == news@.len(),
        },
{
    let ghost nv = contents_view(news@);
    let mut ni: usize = 0;
    while ni < news.len()
        invariant
            ni <= news.len(),
            paired@.len() == news@.len(),
            nv == contents_view(news@),
            first_free_equal(nv, paired@, target@, ni as int) == first_free_equal(nv, paired@, target@, 0),
        decreases news.len() - ni,
    {
        assert(nv[ni as int] == news@[ni as int]@);
        if !paired[ni] && crate::embed::syntax::chars_eq(&chars_of(news[ni].as_str()), target) {
            return Some(ni);
        }
        ni = ni + 1;
    }
    None
}

/// Indices of the entries still `false`, in order.
pub open spec fn unpaired(flags: Seq<bool>) -> Seq<int>
    decreases flags.len(),
{
    if flags.len() == 0 {
        seq![]
    } else if !flags.last() {
        unpaired(flags.drop_last()).push(flags.len() - 1)
    } else {
        unpaired(flags.drop_last())
    }
}

/// The indices of the chunks left unpaired, in order.
pub fn unpaired_indices(flags: &Vec<bool>) -> (res: Vec<usize>)
    ensures
        res@.map_values(|i: usize| i as int) == unpaired(flags@),
{
    let mut out: Vec<usize> = Vec::new();
    let mut i: usize = 0;
    while i < flags.len()
        invariant
            i <= flags.len(),
            out@.map_values(|x: usize| x as int) == unpaired(flags@.take(i as int)),
        decreases flags.len() - i,
    {
        assert(flags@.take(i + 1).drop_last() =~= flags@.take(i as int));
        let ghost before = out@;
        if !flags[i] {
            out.push(i);
            assert(out@.map_values(|x: usize| x as int) =~= before.map_values(|x: usize| x as int).push(i as int));
        }
        i = i + 1;
    }
    assert(flags@.take(flags.len() as int) =~= flags@);
    out
}


/// The pairs of chunk indices as integers.
pub open spec fn pairs_view(v: Seq<(usize, usize)>) -> Seq<(int, int)> {
    v.map_values(|p: (usize, usize)| (p.0 as int, p.1 as int))
}

/// Every pair names an old index below `n_old` and a new index below `n_new`.
pub open spec fn pairs_in_bounds(pairs: Seq<(int, int)>, n_old: int, n_new: int) -> bool {
    forall|k: int| 0 <= k < pairs.len() ==> 0 <= (#[trigger] pairs[k]).0 < n_old && 0 <= pairs[k].1 < n_new
}

/// Greedy assignment over the first `k` candidate pairs, taken in order: a
/// pair is accepted when neither its old nor its new chunk is assigned yet.
/// Returns the assigned flags of old and of new chunks, and one accepted
/// flag per pair considered.
pub open spec fn greedy(pairs: Seq<(int, int)>, n_old: int, n_new: int, k: int) -> (Seq<bool>, Seq<bool>, Seq<bool>)
    decreases k,
{
    if k <= 0 {
        (Seq::new(n_old as nat, |i: int| false), Seq::new(n_new as nat, |i: int| false), seq![])
    } else {
        let prev = greedy(pairs, n_old, n_new, k - 1);
        let (o, n) = pairs[k - 1];
        if prev.0[o] || prev.1[n] {
            (prev.0, prev.1, prev.2.push(false))
        } else {
            (prev.0.update(o, true), prev.1.update(n, true), prev.2.push(true))
        }
    }
}

/// Shape of the greedy state: lengths, and an index is assigned exactly when
/// an accepted pair names it.
proof fn lemma_greedy_state(pairs: Seq<(int, int)>, n_old: int, n_new: int, k: int)
    requires
        0 <= k <= pairs.len(),
        0 <= n_old,
        0 <= n_new,
        pairs_in_bounds(pairs, n_old, n_new),
    ensures
        ({
            let g = greedy(pairs, n_old, n_new, k);
            &&& g.0.len() == n_old
            &&& g.1.len() == n_new
            &&& g.2.len() == k
            &&& forall|o: int| 0 <= o < n_old ==> (#[trigger] g.0[o] <==> exists|i: int|
                0 <= i < k && g.2[i] && pairs[i].0 == o)
            &&& forall|n: int| 0 <= n < n_new ==> (#[trigger] g.1[n] <==> exists|i: int|
                0 <= i < k && g.2[i] && pairs[i].1 == n)
        }),
    decreases k,
{
    if k > 0 {
        lemma_greedy_state(pairs, n_old, n_new, k - 1);
        let prev = greedy(pairs, n_old, n_new, k - 1);
        let g = greedy(pairs, n_old, n_new, k);
        let (o0, n0) = pairs[k - 1];
        assert(0 <= pairs[k - 1].0 < n_old && 0 <= pairs[k - 1].1 < n_new);
        assert forall|o: int| 0 <= o < n_old implies (#[trigger] g.0[o] <==> exists|i: int|
            0 <= i < k && g.2[i] && pairs[i].0 == o) by {
            if g.0[o] {
                if prev.0[o] {
                    let i = choose|i: int| 0 <= i < k - 1 && prev.2[i] && pairs[i].0 == o;
                    assert(g.2[i] == prev.2[i]);
                } else {
                    assert(g.2[k - 1] && pairs[k - 1].0 == o);
                }
            }
            if exists|i: int| 0 <= i < k && g.2[i] && pairs[i].0 == o {
                let i = choose|i: int| 0 <= i < k && g.2[i] && pairs[i].0 == o;
                if i < k - 1 {
                    assert(prev.2[i] == g.2[i]);
                    assert(prev.0[o]);
                }
            }
        }
        assert forall|n: int| 0 <= n < n_new implies (#[trigger] g.1[n] <==> exists|i: int|
            0 <= i < k && g.2[i] && pairs[i].1 == n) by {
            if g.1[n] {
                if prev.1[n] {
                    let i = choose|i: int| 0 <= i < k - 1 && prev.2[i] && pairs[i].1 == n;
                    assert(g.2[i] == prev.2[i]);
                } else {
                    assert(g.2[k - 1] && pairs[k - 1].1 == n);
                }
            }
            if exists|i: int| 0 <= i < k && g.2[i] && pairs[i].1 == n {
                let i = choose|i: int| 0 <= i < k && g.2[i] && pairs[i].1 == n;
                if i < k - 1 {
                    assert(prev.2[i] == g.2[i]);
                    assert(prev.1[n]);
                }
            }
        }
    }
}

/// Law: the greedy assignment is a matching that cannot be extended along
/// the candidates. No two accepted pairs share an old or a new chunk, and a
/// rejected pair shares a chunk with an accepted pair before it.
pub proof fn law_greedy_is_maximal_matching(pairs: Seq<(int, int)>, n_old: int, n_new: int)
    requires
        0 <= n_old,
        0 <= n_new,
        pairs_in_bounds(pairs, n_old, n_new),
    ensures
        ({
            let acc = greedy(pairs, n_old, n_new, pairs.len() as int).2;
            &&& acc.len() == pairs.len()
            &&& forall|i: int, j: int|
                0 <= i < j < pairs.len() && acc[i] && acc[j] ==> pairs[i].0 != pairs[j].0 && pairs[i].1 != pairs[j].1
            &&& forall|j: int|
                0 <= j < pairs.len() && !acc[j] ==> exists|i: int|
                    0 <= i < j && acc[i] && (pairs[i].0 == pairs[j].0 || pairs[i].1 == pairs[j].1)
        }),
{
    lemma_greedy_prefix(pairs, n_old, n_new, pairs.len() as int);
}

/// The accepted flags of a prefix are kept as more pairs are considered, and
/// each flag is decided by the state before its pair.
proof fn lemma_greedy_prefix(pairs: Seq<(int, int)>, n_old: int, n_new: int, k: int)
    requires
        0 <= k <= pairs.len(),
        0 <= n_old,
        0 <= n_new,
        pairs_in_bounds(pairs, n_old, n_new),
    ensures
        ({
            let acc = greedy(pairs, n_old, n_new, k).2;
            &&& acc.len() == k
            &&& forall|i: int, j: int|
                0 <= i < j < k && acc[i] && acc[j] ==> pairs[i].0 != pairs[j].0 && pairs[i].1 != pairs[j].1
            &&& forall|j: int|
                0 <= j < k && !acc[j] ==> exists|i: int|
                    0 <= i < j && acc[i] && (pairs[i].0 == pairs[j].0 || pairs[i].1 == pairs[j].1)
        }),
    decreases k,
{
    lemma_greedy_state(pairs, n_old, n_new, k);
    if k > 0 {
        lemma_greedy_prefix(pairs, n_old, n_new, k - 1);
        lemma_greedy_state(pairs, n_old, n_new, k - 1);
        let prev = greedy(pairs, n_old, n_new, k - 1);
        let acc = greedy(pairs, n_old, n_new, k).2;
        assert(0 <= pairs[k - 1].0 < n_old && 0 <= pairs[k - 1].1 < n_new);
        assert forall|i: int| 0 <= i < k - 1 implies acc[i] == prev.2[i] by {}
        assert forall|i: int, j: int|
            0 <= i < j < k && acc[i] && acc[j] implies pairs[i].0 != pairs[j].0 && pairs[i].1 != pairs[j].1 by {
            if j == k - 1 {
                assert(!prev.0[pairs[k - 1].0] && !prev.1[pairs[k - 1].1]);
                if pairs[i].0 == pairs[j].0 {
                    assert(prev.2[i] && pairs[i].0 == pairs[k - 1].0);
                }
                if pairs[i].1 == pairs[j].1 {
                    assert(prev.2[i] && pairs[i].1 == pairs[k - 1].1);
                }
            }
        }
        assert forall|j: int| 0 <= j < k && !acc[j] implies exists|i: int|
            0 <= i < j && acc[i] && (pairs[i].0 == pairs[j].0 || pairs[i].1 == pairs[j].1) by {
            if j == k - 1 {
                if prev.0[pairs[k - 1].0] {
                    let i = choose|i: int| 0 <= i < k - 1 && prev.2[i] && pairs[i].0 == pairs[k - 1].0;
                    assert(acc[i]);
                } else {
                    let i = choose|i: int| 0 <= i < k - 1 && prev.2[i] && pairs[i].1 == pairs[k - 1].1;
                    assert(acc[i]);
                }
            } else {
                let i = choose|i: int|
                    0 <= i < j && prev.2[i] && (pairs[i].0 == pairs[j].0 || pairs[i].1 == pairs[j].1);
                assert(acc[i]);
            }
        }
    }
}

/// Greedy assignment of candidate pairs `(old, new)`, taken in the order
/// given (best similarity first, only those above the match threshold): a
/// pair is accepted when neither chunk is assigned yet. Returns the assigned
/// flags of old and of new chunks, and one accepted flag per pair.
pub fn greedy_assignment(n_old: usize, n_new: usize, pairs: &Vec<(usize, usize)>) -> (res: (
    Vec<bool>,
    Vec<bool>,
    Vec<bool>,
))
    requires
        pairs_in_bounds(pairs_view(pairs@), n_old as int, n_new as int),
    ensures
        (res.0@, res.1@, res.2@) == greedy(pairs_view(pairs@), n_old as int, n_new as int, pairs@.len() as int),
{
    let ghost pv = pairs_view(pairs@);
    let mut old_assigned: Vec<bool> = Vec::new();
    let mut i: usize = 0;
    while i < n_old
        invariant
            i <= n_old,
            old_assigned@ =~= Seq::new(i as nat, |x: int| false),
        decreases n_old - i,
    {
        old_assigned.push(false);
        i = i + 1;
    }
    let mut new_assigned: Vec<bool> = Vec::new();
    i = 0;
    while i < n_new
        invariant
            i <= n_new,
            new_assigned@ =~= Seq::new(i as nat, |x: int| false),
        decreases n_new - i,
    {
        new_assigned.push(false);
        i = i + 1;
    }
    let mut accepted: Vec<bool> = Vec::new();
    let mut k: usize = 0;
    proof {
        lemma_greedy_state(pv, n_old as int, n_new as int, 0);
    }
    while k < pairs.len()
        invariant
            k <= pairs.len(),
            pv == pairs_view(pairs@),
            pairs_in_bounds(pv, n_old as int, n_new as int),
            (old_assigned@, new_assigned@, accepted@) == greedy(pv, n_old as int, n_new as int, k as int),
            old_assigned@.len() == n_old,
            new_assigned@.len() == n_new,
        decreases pairs.len() - k,
    {
        let (o, n) = pairs[k];
        assert(pv[k as int] == (o as int, n as int));
        assert(o < n_old && n < n_new);
        if old_assigned[o] || new_assigned[n] {
            accepted.push(false);
        } else {
            old_assigned.set(o, true);
            new_assigned.set(n, true);
            accepted.push(true);
        }
        k = k + 1;
        proof {
            lemma_greedy_state(pv, n_old as int, n_new as int, k as int);
        }
    }
    (old_assigned, new_assigned, accepted)
}


/// Flags set in either of two flag lists of the same length (a chunk matched
/// by content or assigned by similarity).
pub fn merge_flags(a: &Vec<bool>, b: &Vec<bool>) -> (res: Vec<bool>)
    requires
        a@.len() == b@.len(),
    ensures
        res@.len() == a@.len(),
        forall|i: int| 0 <= i < res@.len() ==> res@[i] == (a@[i] || b@[i]),
{
    let mut out: Vec<bool> = Vec::new();
    let mut i: usize = 0;
    while i < a.len()
        invariant
            i <= a.len(),
            a@.len() == b@.len(),
            out@.len() == i,
            forall|j: int| 0 <= j < i ==> out@[j] == (a@[j] || b@[j]),
        decreases a.len() - i,
    {
        out.push(a[i] || b[i]);
        i = i + 1;
    }
    out
}


/// Number of flags set.
pub open spec fn count_true(flags: Seq<bool>) -> nat
    decreases flags.len(),
{
    if flags.len() == 0 {
        0
    } else {
        count_true(flags.drop_last()) + if flags.last() {
            1nat
        } else {
            0nat
        }
    }
}

/// Setting a clear flag adds one to the count.
proof fn lemma_count_true_set(flags: Seq<bool>, i: int)
    requires
        0 <= i < flags.len(),
        !flags[i],
    ensures
        count_true(flags.update(i, true)) == count_true(flags) + 1,
    decreases flags.len(),
{
    let u = flags.update(i, true);
    if i == flags.len() - 1 {
        assert(u.drop_last() =~= flags.drop_last());
    } else {
        assert(u.drop_last() =~= flags.drop_last().update(i, true));
        lemma_count_true_set(flags.drop_last(), i);
    }
}

/// Appending a flag adds it to the count.
proof fn lemma_count_true_push(flags: Seq<bool>, b: bool)
    ensures
        count_true(flags.push(b)) == count_true(flags) + if b {
            1nat
        } else {
            0nat
        },
{
    assert(flags.push(b).drop_last() =~= flags);
}

/// The search for a free equal chunk returns a free one.
proof fn lemma_first_free_is_free(news: Seq<Seq<char>>, paired: Seq<bool>, content: Seq<char>, j: int)
    requires
        0 <= j <= news.len(),
    ensures
        first_free_equal(news, paired, content, j) < news.len() ==> !paired[first_free_equal(
            news,
            paired,
            content,
            j,
        )],
    decreases news.len() - j,
{
    if j < news.len() && !(!paired[j] && news[j] == content) {
        lemma_first_free_is_free(news, paired, content, j + 1);
    }
}

/// After `k` steps only old chunks before `k` are paired, and both sides
/// have as many paired chunks.
proof fn lemma_pairing_counts(olds: Seq<Seq<char>>, news: Seq<Seq<char>>, k: int)
    requires
        0 <= k <= olds.len(),
    ensures
        ({
            let p = exact_pairing(olds, news, k);
            &&& forall|i: int| k <= i < olds.len() ==> !#[trigger] p.0[i]
            &&& count_true(p.0) == count_true(p.1)
        }),
    decreases k,
{
    if k == 0 {
        lemma_count_true_all_false(olds.len() as int);
        lemma_count_true_all_false(news.len() as int);
    } else {
        lemma_pairing_counts(olds, news, k - 1);
        lemma_pairing_lens(olds, news, k - 1);
        let prev = exact_pairing(olds, news, k - 1);
        let j = first_free_equal(news, prev.1, olds[k - 1], 0);
        lemma_first_free_bounds(news, prev.1, olds[k - 1], 0);
        lemma_first_free_is_free(news, prev.1, olds[k - 1], 0);
        if j < news.len() {
            lemma_count_true_set(prev.0, k - 1);
            lemma_count_true_set(prev.1, j);
        }
    }
}

/// No flag of an all-clear list is set.
proof fn lemma_count_true_all_false(n: int)
    requires
        0 <= n,
    ensures
        count_true(Seq::new(n as nat, |i: int| false)) == 0,
    decreases n,
{
    if n > 0 {
        assert(Seq::new(n as nat, |i: int| false).drop_last() =~= Seq::new((n - 1) as nat, |i: int| false));
        lemma_count_true_all_false(n - 1);
    }
}

/// Law: each content pairing consumes one old and one new chunk, so as many
/// old as new chunks are paired.
pub proof fn law_pairing_counts_match(olds: Seq<Seq<char>>, news: Seq<Seq<char>>)
    ensures
        ({
            let p = exact_pairing(olds, news, olds.len() as int);
            count_true(p.0) == count_true(p.1)
        }),
{
    lemma_pairing_counts(olds, news, olds.len() as int);
}

/// Counts of the greedy state after `k` pairs.
proof fn lemma_greedy_counts(pairs: Seq<(int, int)>, n_old: int, n_new: int, k: int)
    requires
        0 <= k <= pairs.len(),
        0 <= n_old,
        0 <= n_new,
        pairs_in_bounds(pairs, n_old, n_new),
    ensures
        ({
            let g = greedy(pairs, n_old, n_new, k);
            &&& count_true(g.0) == count_true(g.2)
            &&& count_true(g.1) == count_true(g.2)
        }),
    decreases k,
{
    if k == 0 {
        lemma_count_true_all_false(n_old);
        lemma_count_true_all_false(n_new);
    } else {
        lemma_greedy_counts(pairs, n_old, n_new, k - 1);
        lemma_greedy_state(pairs, n_old, n_new, k - 1);
        let prev = greedy(pairs, n_old, n_new, k - 1);
        let (o, n) = pairs[k - 1];
        assert(0 <= pairs[k - 1].0 < n_old && 0 <= pairs[k - 1].1 < n_new);
        if prev.0[o] || prev.1[n] {
            lemma_count_true_push(prev.2, false);
        } else {
            lemma_count_true_push(prev.2, true);
            lemma_count_true_set(prev.0, o);
            lemma_count_true_set(prev.1, n);
        }
    }
}

/// Law: each accepted pair assigns one old and one new chunk, so the numbers
/// of assigned old chunks, assigned new chunks and accepted pairs agree.
pub proof fn law_greedy_counts_match(pairs: Seq<(int, int)>, n_old: int, n_new: int)
    requires
        0 <= n_old,
        0 <= n_new,
        pairs_in_bounds(pairs, n_old, n_new),
    ensures
        ({
            let g = greedy(pairs, n_old, n_new, pairs.len() as int);
            &&& count_true(g.0) == count_true(g.2)
            &&& count_true(g.1) == count_true(g.2)
        }),
{
    lemma_greedy_counts(pairs, n_old, n_new, pairs.len() as int);
}

} // verus!
