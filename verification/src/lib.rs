use vstd::prelude::*;

pub mod errors;
pub mod graph;
pub mod inline;
pub mod paths;
pub mod scan;

use crate::errors::{BundleError, ErrV};
use crate::graph::{
    build_graph, closed_graph, closed_store, demanded, graph_from_store, justified,
    keys_distinct, lookup_spec, path_err_demanded, store_lookup, store_wf, BuildOutcome,
    FileStore, NodeV, StoreEntryV,
};
use crate::inline::{inline_imports, inline_spec, lemma_inline_ok, result_view};
use crate::paths::{resolve_entry, resolve_in_dir, FilePath};

verus! {

/// The outcome of one attempt to bundle: the finished text, a request for
/// one more file's content, or a fatal error.
pub enum BundleOutcome {
    /// The single self-contained output document.
    Done(Vec<u8>),
    /// The bundle needs this file's content before it can go on; the
    /// identity has never been asked for before.
    NeedFile(FilePath),
    /// The run is over: a referenced file is absent, or an import cannot be
    /// anchored.
    Failed(BundleError),
}

/// A graph as `bundle_nix_files` builds it from the store: keyed once per
/// identity, drawn from the store, closed under imports, holding the entry,
/// and holding nothing unasked-for.
pub open spec fn built_graph(g: Seq<NodeV>, s: Seq<StoreEntryV>, entry: Seq<Seq<u8>>) -> bool {
    &&& keys_distinct(g)
    &&& lookup_spec(g, entry) is Some
    &&& closed_graph(g)
    &&& graph_from_store(g, s)
    &&& justified(g, entry)
}

/// Bundles the files reachable from the entry reference into one document:
/// resolves the entry against the working directory, builds the dependency
/// graph from the storage answers recorded so far, and inlines every import
/// starting at the entry identity. Where storage has not answered yet, the
/// missing identity is handed back instead, and it is one never asked for
/// before: each distinct file is read at most once over a whole run.
pub fn bundle_nix_files(entry: &Vec<u8>, cwd: &FilePath, store: &FileStore) -> (r: BundleOutcome)
    requires
        store_wf(store@),
    ensures
        match r {
            BundleOutcome::Done(t) => exists|g: Seq<NodeV>|
                {
                    &&& #[trigger] built_graph(g, store@, resolve_in_dir(entry@, cwd@))
                    &&& Ok::<Seq<u8>, ErrV>(t@) == inline_spec(
                        g,
                        resolve_in_dir(entry@, cwd@),
                        Set::empty(),
                        (g.len() + 1) as nat,
                    )
                },
            BundleOutcome::NeedFile(p) => {
                &&& store_lookup(store@, p@) is None
                &&& demanded(store@, resolve_in_dir(entry@, cwd@), p@)
            },
            BundleOutcome::Failed(e) => match e@ {
                ErrV::FileNotFoundError { path } => store_lookup(store@, path) == Some(
                    Option::<Seq<u8>>::None,
                ) && demanded(store@, resolve_in_dir(entry@, cwd@), path),
                ErrV::PathError { file } => path_err_demanded(store@, file),
                _ => false,
            },
        },
        closed_store(store@, resolve_in_dir(entry@, cwd@)) ==> r is Done,
{
    let entry_id = resolve_entry(entry, cwd);
    match build_graph(&entry_id, store) {
        BuildOutcome::Built(g) => {
            proof {
                lemma_inline_ok(g@, entry_id@, Set::empty(), (g@.len() + 1) as nat);
            }
            match inline_imports(&entry_id, &g) {
                Ok(t) => {
                    proof {
                        assert(built_graph(g@, store@, resolve_in_dir(entry@, cwd@)));
                    }
                    BundleOutcome::Done(t)
                },
                Err(e) => {
                    proof {
                        assert(result_view(Err::<Vec<u8>, BundleError>(e)) is Err);
                        assert(false);
                    }
                    BundleOutcome::Failed(e)
                },
            }
        },
        BuildOutcome::NeedFile(p) => BundleOutcome::NeedFile(p),
        BuildOutcome::Failed(e) => BundleOutcome::Failed(e),
    }
}

} // verus!
