//! Mock language-server client and provider: symbol lists are configured at
//! construction time; every other request answers with an empty result.
use vstd::prelude::*;

use crate::text::chars_of;

verus! {

/// The paths of the entries.
pub open spec fn entry_paths<S>(v: Seq<(String, Vec<S>)>) -> Seq<Seq<char>> {
    v.map_values(|e: (String, Vec<S>)| e.0@)
}

/// No two entries share a path.
pub open spec fn entries_wf<S>(v: Seq<(String, Vec<S>)>) -> bool {
    forall|i: int, j: int| 0 <= i < j < v.len() ==> v[i].0@ != v[j].0@
}

/// The symbols of each path, as a map.
pub open spec fn entries_map<S>(v: Seq<(String, Vec<S>)>) -> Map<Seq<char>, Seq<S>> {
    Map::new(
        |p: Seq<char>| entry_paths(v).contains(p),
        |p: Seq<char>| {
            let i = choose|i: int| 0 <= i < v.len() && v[i].0@ == p;
            v[i].1@
        },
    )
}

/// In a well-formed list, the entry at `i` gives the map's value at its path.
pub proof fn lemma_entries_lookup<S>(v: Seq<(String, Vec<S>)>, i: int)
    requires
        entries_wf(v),
        0 <= i < v.len(),
    ensures
        entries_map(v).contains_key(v[i].0@),
        entries_map(v)[v[i].0@] == v[i].1@,
{
    let p = v[i].0@;
    assert(entry_paths(v)[i] == p);
    let k = choose|k: int| 0 <= k < v.len() && v[k].0@ == p;
    if k != i {
        if k < i {
            assert(v[k].0@ != v[i].0@);
        } else {
            assert(v[i].0@ != v[k].0@);
        }
    }
}

/// A path is in the map exactly when some entry carries it.
pub proof fn lemma_entries_domain<S>(v: Seq<(String, Vec<S>)>, p: Seq<char>)
    ensures
        entries_map(v).contains_key(p) <==> exists|i: int| 0 <= i < v.len() && v[i].0@ == p,
{
    if entries_map(v).contains_key(p) {
        let k = choose|k: int| 0 <= k < entry_paths(v).len() && entry_paths(v)[k] == p;
        assert(v[k].0@ == p);
    }
    if exists|i: int| 0 <= i < v.len() && v[i].0@ == p {
        let k = choose|i: int| 0 <= i < v.len() && v[i].0@ == p;
        assert(entry_paths(v)[k] == p);
    }
}

/// Law: after `with_symbols(path, syms)` (whose result's map is the old map
/// with `path` set to `syms`), `document_symbols(path)` reads back `syms`,
/// and every other path reads back what it did before.
pub proof fn law_symbols_read_back<S>(
    before: Map<Seq<char>, Seq<S>>,
    after: Map<Seq<char>, Seq<S>>,
    path: Seq<char>,
    syms: Seq<S>,
    other: Seq<char>,
)
    requires
        after == before.insert(path, syms),
    ensures
        after.contains_key(path),
        after[path] == syms,
        other != path ==> (after.contains_key(other) == before.contains_key(other)),
        other != path && before.contains_key(other) ==> after[other] == before[other],
{
}

/// A mock client holding, per file path, the symbols it reports.
pub struct MockLspClient<S> {
    symbols: Vec<(String, Vec<S>)>,
}

impl<S> MockLspClient<S> {
    /// The symbols configured for each path.
    pub closed spec fn symbol_map(&self) -> Map<Seq<char>, Seq<S>> {
        entries_map(self.symbols@)
    }

    /// No two entries share a path.
    pub closed spec fn wf(&self) -> bool {
        entries_wf(self.symbols@)
    }

    /// A client with no symbols.
    pub fn new() -> (res: Self)
        ensures
            res.wf(),
            res.symbol_map() == Map::<Seq<char>, Seq<S>>::empty(),
    {
        let res = Self { symbols: Vec::new() };
        assert(res.symbol_map() =~= Map::<Seq<char>, Seq<S>>::empty());
        res
    }

    /// Index of the entry for `path`.
    fn find(&self, path: &str) -> (res: Option<usize>)
        ensures
            match res {
                Some(i) => i < self.symbols@.len() && self.symbols@[i as int].0@ == path@,
                None => forall|j: int| 0 <= j < self.symbols@.len() ==> self.symbols@[j].0@ != path@,
            },
    {
        let p = chars_of(path);
        let mut i: usize = 0;
        while i < self.symbols.len()
            invariant
                i <= self.symbols@.len(),
                p@ == path@,
                forall|j: int| 0 <= j < i ==> self.symbols@[j].0@ != path@,
            decreases self.symbols.len() - i,
        {
            if crate::embed::syntax::chars_eq(&chars_of(self.symbols[i].0.as_str()), &p) {
                return Some(i);
            }
            i = i + 1;
        }
        None
    }

    /// Pre-loads the symbols reported for `path`, replacing earlier ones.
    pub fn with_symbols(self, path: &str, syms: Vec<S>) -> (res: Self)
        requires
            self.wf(),
        ensures
            res.wf(),
            res.symbol_map() == self.symbol_map().insert(path@, syms@),
    {
        let mut me = self;
        let ghost old_entries = me.symbols@;
        let ghost sv = syms@;
        let found = me.find(path);
        match found {
            Some(i) => {
                let key = me.symbols[i].0.clone();
                me.symbols.set(i, (key, syms));
            },
            None => {
                me.symbols.push((path.to_owned(), syms));
            },
        }
        let ghost new_entries = me.symbols@;
        proof {
            assert forall|a: int, b: int| 0 <= a < b < new_entries.len() implies new_entries[a].0@
                != new_entries[b].0@ by {
                if b < old_entries.len() {
                    assert(new_entries[a].0@ == old_entries[a].0@);
                    assert(new_entries[b].0@ == old_entries[b].0@);
                }
            }
            assert(entries_wf(new_entries));
            let m_old = entries_map(old_entries);
            let m_new = entries_map(new_entries);
            assert forall|q: Seq<char>| #[trigger] m_new.contains_key(q) == m_old.insert(path@, sv).contains_key(q) by {
                lemma_entries_domain(old_entries, q);
                lemma_entries_domain(new_entries, q);
                if m_old.contains_key(q) {
                    let k = choose|k: int| 0 <= k < old_entries.len() && old_entries[k].0@ == q;
                    assert(new_entries[k].0@ == q);
                }
                if m_new.contains_key(q) && q != path@ {
                    let k = choose|k: int| 0 <= k < new_entries.len() && new_entries[k].0@ == q;
                    assert(k < old_entries.len() && old_entries[k].0@ == q);
                }
                if q == path@ {
                    match found {
                        Some(i) => { assert(new_entries[i as int].0@ == q); },
                        None => { assert(new_entries[new_entries.len() - 1].0@ == q); },
                    }
                }
            }
            assert forall|q: Seq<char>| #[trigger] m_new.contains_key(q) implies m_new[q] == m_old.insert(path@, sv)[q] by {
                lemma_entries_domain(new_entries, q);
                let k = choose|k: int| 0 <= k < new_entries.len() && new_entries[k].0@ == q;
                lemma_entries_lookup(new_entries, k);
                if q != path@ {
                    assert(k < old_entries.len());
                    assert(old_entries[k] == new_entries[k]);
                    lemma_entries_lookup(old_entries, k);
                }
            }
            assert(m_new =~= m_old.insert(path@, sv));
        }
        me
    }

    /// The symbols reported for `path` (a clone), or none.
    pub fn document_symbols(&self, path: &str) -> (res: Vec<S>) where S: Clone
        requires
            self.wf(),
        ensures
            self.symbol_map().contains_key(path@) ==> res@.len() == self.symbol_map()[path@].len()
                && forall|i: int| 0 <= i < res@.len() ==> cloned::<S>(self.symbol_map()[path@][i], res@[i]),
            !self.symbol_map().contains_key(path@) ==> res@.len() == 0,
    {
        proof {
            lemma_entries_domain(self.symbols@, path@);
        }
        match self.find(path) {
            Some(i) => {
                proof {
                    lemma_entries_lookup(self.symbols@, i as int);
                }
                self.symbols[i].1.clone()
            },
            None => Vec::new(),
        }
    }
}

/// A mock provider that hands out one shared mock client.
pub struct MockLspProvider<S> {
    pub client: MockLspClient<S>,
}

impl<S> MockLspProvider<S> {
    /// A provider around `client`.
    pub fn with_client(client: MockLspClient<S>) -> (res: Self)
        ensures
            res.client == client,
    {
        Self { client }
    }

    /// Hands out the shared client, whatever the language and root.
    pub fn get_or_start(&self, language: &str, workspace_root: &str) -> (res: &MockLspClient<S>)
        ensures
            *res == self.client,
    {
        &self.client
    }
}

} // verus!
