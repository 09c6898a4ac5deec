//! The `list_libraries` tool.
use vstd::prelude::*;

verus! {

/// Lists the registered libraries of the active project.
pub struct ListLibraries;

/// A registered library, as the tool reports it.
pub struct LibraryInfo {
    pub name: String,
    pub version: Option<String>,
    pub path: String,
    pub language: String,
    pub discovered_via: String,
    pub indexed: bool,
}

/// Mathematical view of a library entry.
pub open spec fn library_view(l: LibraryInfo) -> (Seq<char>, Option<Seq<char>>, Seq<char>, Seq<char>, Seq<char>, bool) {
    (
        l.name@,
        match l.version {
            Some(v) => Some(v@),
            None => None,
        },
        l.path@,
        l.language@,
        l.discovered_via@,
        l.indexed,
    )
}

/// The views of library entries.
pub open spec fn libraries_view(v: Seq<LibraryInfo>) -> Seq<(Seq<char>, Option<Seq<char>>, Seq<char>, Seq<char>, Seq<char>, bool)> {
    v.map_values(|l: LibraryInfo| library_view(l))
}

/// The message when no project is active.
pub open spec fn no_project_message() -> Seq<char> {
    "No active project. Use activate_project first."@
}

impl LibraryInfo {
    /// A copy of the entry.
    pub fn copy(&self) -> (res: Self)
        ensures
            library_view(res) == library_view(*self),
    {
        LibraryInfo {
            name: self.name.clone(),
            version: match &self.version {
                Some(v) => Some(v.clone()),
                None => None,
            },
            path: self.path.clone(),
            language: self.language.clone(),
            discovered_via: self.discovered_via.clone(),
            indexed: self.indexed,
        }
    }
}

impl ListLibraries {
    /// Tool name as exposed to the client.
    pub fn name(&self) -> (res: &'static str)
        ensures
            res@ == "list_libraries"@,
    {
        "list_libraries"
    }

    /// Short description shown to the model.
    pub fn description(&self) -> (res: &'static str)
        ensures
            res@ == "Show all registered libraries and their status (indexed, path, language)."@,
    {
        "Show all registered libraries and their status (indexed, path, language)."
    }

    /// Lists every registered library of the active project, in registry
    /// order; fails when no project is active.
    pub fn call(&self, registry: Option<&Vec<LibraryInfo>>) -> (res: Result<Vec<LibraryInfo>, String>)
        ensures
            match registry {
                None => res matches Err(m) && m@ == no_project_message(),
                Some(r) => res matches Ok(v) && libraries_view(v@) == libraries_view(r@),
            },
    {
        match registry {
            None => Err(String::from_str("No active project. Use activate_project first.")),
            Some(r) => {
                let mut out: Vec<LibraryInfo> = Vec::new();
                let mut i: usize = 0;
                while i < r.len()
                    invariant
                        i <= r.len(),
                        libraries_view(out@) == libraries_view(r@).take(i as int),
                    decreases r.len() - i,
                {
                    let e = r[i].copy();
                    let ghost before = out@;
                    out.push(e);
                    proof {
                        assert(libraries_view(out@) =~= libraries_view(before).push(library_view(r@[i as int])));
                        assert(libraries_view(r@).take(i + 1) =~= libraries_view(r@).take(i as int).push(
                            library_view(r@[i as int]),
                        ));
                    }
                    i = i + 1;
                }
                assert(libraries_view(r@).take(r.len() as int) =~= libraries_view(r@));
                Ok(out)
            },
        }
    }
}

} // verus!
