//! Serving a directory of static files: the routes that its entries give
//! rise to.  Reading the directory itself is the caller's concern; the
//! library decides, entry by entry, which route pattern serves it.

use vstd::prelude::*;
use crate::scope::{Context, Error, RouteDecl};

verus! {

/// How files are opened and streamed.
#[derive(Clone, Copy, Debug)]
pub struct OpenConfig {
    /// The preferred chunk size when streaming a file.
    pub chunk_size: Option<usize>,
}

/// What a directory entry is.
#[derive(Clone, Copy, Debug, PartialEq, Eq, Structural)]
pub enum EntryKind {
    File,
    Dir,
    Other,
}

/// One directory entry, by name and kind.
#[derive(Debug)]
pub struct DirEntry {
    pub name: String,
    pub kind: EntryKind,
}

/// One route a directory entry gives rise to: its pattern, and whether it
/// serves a whole subtree.
#[derive(Debug)]
pub struct StaticRoute {
    pub pattern: String,
    pub is_dir: bool,
}

/// A directory entry whose kind the route table cannot serve.
#[derive(Clone, Copy, Debug, PartialEq, Eq, Structural)]
pub enum FsConfigError {
    UnexpectedFileType,
}

/// The pattern an entry is served under: `/name` for a file, and
/// `/name/*path` for a directory.
pub open spec fn entry_pattern(name: Seq<char>, kind: EntryKind) -> Seq<char> {
    if kind is Dir {
        seq!['/'] + name + "/*path"@
    } else {
        seq!['/'] + name
    }
}

/// A configuration that serves the entries of one directory.
#[derive(Debug)]
pub struct Staticfiles {
    pub root_dir: String,
    pub config: Option<OpenConfig>,
}

impl Staticfiles {
    /// Serves the directory at `root_dir`.
    pub fn new(root_dir: String) -> (r: Staticfiles)
        ensures
            r.root_dir@ == root_dir@,
            r.config is None,
    {
        Staticfiles { root_dir, config: None }
    }

    /// Sets how the served files are opened.
    pub fn open_config(self, config: OpenConfig) -> (r: Staticfiles)
        ensures
            r.root_dir@ == self.root_dir@,
            r.config == Some(config),
    {
        Staticfiles { config: Some(config), ..self }
    }

    /// The routes that the directory's entries give rise to: one pattern
    /// per entry, in order.  An entry that is neither a file nor a
    /// directory fails the whole configuration.
    pub fn routes_for_entries(&self, entries: &Vec<DirEntry>)
        -> (r: Result<Vec<StaticRoute>, FsConfigError>)
        ensures
            match r {
                Ok(routes) => {
                    &&& forall|i: int| 0 <= i < entries@.len()
                        ==> (#[trigger] entries@[i]).kind != EntryKind::Other
                    &&& routes@.len() == entries@.len()
                    &&& forall|i: int| 0 <= i < entries@.len()
                        ==> (#[trigger] routes@[i]).pattern@
                            == entry_pattern(entries@[i].name@, entries@[i].kind)
                            && routes@[i].is_dir == (entries@[i].kind is Dir)
                },
                Err(e) => {
                    &&& e == FsConfigError::UnexpectedFileType
                    &&& exists|i: int| 0 <= i < entries@.len()
                        && (#[trigger] entries@[i]).kind == EntryKind::Other
                },
            },
    {
        let mut routes: Vec<StaticRoute> = Vec::new();
        let mut k: usize = 0;
        while k < entries.len()
            invariant
                k <= entries@.len(),
                routes@.len() == k,
                forall|i: int| 0 <= i < k
                    ==> (#[trigger] entries@[i]).kind != EntryKind::Other,
                forall|i: int| 0 <= i < k
                    ==> (#[trigger] routes@[i]).pattern@
                        == entry_pattern(entries@[i].name@, entries@[i].kind)
                        && routes@[i].is_dir == (entries@[i].kind is Dir),
            decreases entries@.len() - k,
        {
            let entry = &entries[k];
            match entry.kind {
                EntryKind::File => {
                    let mut pattern = String::from_str("/");
                    pattern.append(entry.name.as_str());
                    proof {
                        reveal_strlit("/");
                        assert(pattern@ =~= entry_pattern(entries@[k as int].name@,
                            entries@[k as int].kind));
                    }
                    routes.push(StaticRoute { pattern, is_dir: false });
                },
                EntryKind::Dir => {
                    let mut pattern = String::from_str("/");
                    pattern.append(entry.name.as_str());
                    pattern.append("/*path");
                    proof {
                        reveal_strlit("/");
                        assert(pattern@ =~= entry_pattern(entries@[k as int].name@,
                            entries@[k as int].kind));
                    }
                    routes.push(StaticRoute { pattern, is_dir: true });
                },
                EntryKind::Other => {
                    proof {
                        assert(entries@[k as int].kind == EntryKind::Other);
                    }
                    return Err(FsConfigError::UnexpectedFileType);
                },
            }
            k = k + 1;
        }
        Ok(routes)
    }
}

/// A failure to configure a static file scope.
#[derive(Debug)]
pub enum StaticfilesError {
    /// A directory entry cannot be served.
    Entries(FsConfigError),
    /// Registering a computed route failed.
    Build(Error),
}

impl Staticfiles {
    /// Registers one route per directory entry in the open scope: `/name`
    /// for a file, `/name/*path` for a directory.  The handler tokens
    /// count up from `first_handler`, one per entry.
    pub fn configure(
        &self,
        cx: &mut Context,
        entries: &Vec<DirEntry>,
        first_handler: usize,
    ) -> (r: Result<(), StaticfilesError>)
        requires
            old(cx).wf(),
        ensures
            final(cx).wf(),
            final(cx).current == old(cx).current,
            final(cx).app.fallback_head == old(cx).app.fallback_head,
            r is Ok ==> final(cx).n_endpoints == old(cx).n_endpoints + entries@.len(),
            r is Err ==> (exists|i: int| 0 <= i < entries@.len()
                && (#[trigger] entries@[i]).kind == EntryKind::Other)
                || (r matches Err(StaticfilesError::Build(_))),
    {
        let routes = match self.routes_for_entries(entries) {
            Ok(routes) => routes,
            Err(e) => {
                return Err(StaticfilesError::Entries(e));
            },
        };
        let mut k: usize = 0;
        while k < routes.len()
            invariant
                k <= routes@.len(),
                routes@.len() == entries@.len(),
                cx.wf(),
                cx.current == old(cx).current,
                cx.app.fallback_head == old(cx).app.fallback_head,
                cx.n_endpoints as int == old(cx).n_endpoints + k,
            decreases routes@.len() - k,
        {
            if cx.n_endpoints == usize::MAX {
                return Err(StaticfilesError::Build(Error::TooManyEndpoints));
            }
            let decl = RouteDecl {
                uri: routes[k].pattern.clone(),
                methods: Vec::new(),
                handler: first_handler.wrapping_add(k),
            };
            match cx.add_route(decl) {
                Ok(()) => {},
                Err(e) => {
                    return Err(StaticfilesError::Build(e));
                },
            }
            k = k + 1;
        }
        Ok(())
    }
}

} // verus!
