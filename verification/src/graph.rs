use vstd::prelude::*;
use vstd::seq_lib::*;
use vstd::set_lib::lemma_len_subset;
use crate::errors::{BundleError, ErrV};
use crate::paths::{FilePath, resolve_import_spec, resolve_import_path, copy_bytes};
use crate::scan::{ImportOccurrence, ImportV, scan_spec, parse_imports};

verus! {

/// One file of the dependency graph: its identity, its raw content at the
/// time it was read, and its import directives in textual order.
pub struct ResolvedFile {
    pub path: FilePath,
    pub content: Vec<u8>,
    pub imports: Vec<ImportOccurrence>,
}

/// Mathematical model of a `ResolvedFile`.
pub ghost struct NodeV {
    pub path: Seq<Seq<u8>>,
    pub content: Seq<u8>,
    pub imports: Seq<ImportV>,
}

impl View for ResolvedFile {
    type V = NodeV;

    open spec fn view(&self) -> NodeV {
        NodeV { path: self.path@, content: self.content@, imports: self.imports.deep_view() }
    }
}

/// The dependency graph: the files transitively reachable from the entry
/// point, each held once under its canonical identity.
pub struct DependencyGraph {
    pub nodes: Vec<ResolvedFile>,
}

impl View for DependencyGraph {
    type V = Seq<NodeV>;

    open spec fn view(&self) -> Seq<NodeV> {
        Seq::new(self.nodes@.len(), |i: int| self.nodes@[i]@)
    }
}

/// The node stored under identity `id`: the first node carrying it.
pub open spec fn lookup_spec(g: Seq<NodeV>, id: Seq<Seq<u8>>) -> Option<NodeV>
    decreases g.len(),
{
    if g.len() == 0 {
        None
    } else if g[0].path == id {
        Some(g[0])
    } else {
        lookup_spec(g.drop_first(), id)
    }
}

/// No identity is held twice.
pub open spec fn keys_distinct(g: Seq<NodeV>) -> bool {
    forall|i: int, j: int| 0 <= i < j < g.len() ==> g[i].path != g[j].path
}

/// The closure property: every import of every node, resolved against its
/// containing file, succeeds and is itself a key of the graph.
pub open spec fn closed_graph(g: Seq<NodeV>) -> bool {
    forall|i: int, k: int|
        0 <= i < g.len() && 0 <= k < g[i].imports.len() ==> {
            &&& resolve_import_spec((#[trigger] g[i].imports[k]).target, g[i].path) is Ok
            &&& lookup_spec(
                g,
                resolve_import_spec(g[i].imports[k].target, g[i].path)->Ok_0,
            ) is Some
        }
}

/// A lookup that fails means no node carries the identity.
pub proof fn lemma_lookup_none(g: Seq<NodeV>, id: Seq<Seq<u8>>)
    ensures
        (lookup_spec(g, id) is None) <==> (forall|i: int| 0 <= i < g.len() ==> g[i].path != id),
    decreases g.len(),
{
    if g.len() > 0 {
        lemma_lookup_none(g.drop_first(), id);
        assert(forall|i: int|
            0 <= i < g.drop_first().len() ==> #[trigger] g.drop_first()[i] == g[i + 1]);
        if lookup_spec(g, id) is None {
            assert forall|i: int| 0 <= i < g.len() implies g[i].path != id by {
                if i >= 1 {
                    assert(g.drop_first()[i - 1] == g[i]);
                }
            }
        }
    }
}

/// A lookup that succeeds names a node of the graph, under its identity.
pub proof fn lemma_lookup_some(g: Seq<NodeV>, id: Seq<Seq<u8>>)
    requires
        lookup_spec(g, id) is Some,
    ensures
        exists|i: int|
            0 <= i < g.len() && #[trigger] g[i] == lookup_spec(g, id)->Some_0 && g[i].path == id,
    decreases g.len(),
{
    if g.len() > 0 && g[0].path != id {
        lemma_lookup_some(g.drop_first(), id);
        let i = choose|i: int|
            0 <= i < g.drop_first().len() && #[trigger] g.drop_first()[i] == lookup_spec(
                g.drop_first(),
                id,
            )->Some_0 && g.drop_first()[i].path == id;
        assert(g[i + 1] == g.drop_first()[i]);
    }
}

/// Appending a node leaves earlier identities' lookups unchanged and adds the
/// new one.
pub proof fn lemma_lookup_push(g: Seq<NodeV>, n: NodeV, id: Seq<Seq<u8>>)
    ensures
        lookup_spec(g.push(n), id) == if lookup_spec(g, id) is Some {
            lookup_spec(g, id)
        } else if n.path == id {
            Some(n)
        } else {
            None
        },
    decreases g.len(),
{
    if g.len() == 0 {
        assert(g.push(n).len() == 1);
        assert(g.push(n)[0] == n);
        assert(g.push(n).drop_first() =~= Seq::<NodeV>::empty());
        if n.path == id {
            assert(lookup_spec(g.push(n), id) == Some(n));
        } else {
            assert(lookup_spec(g.push(n), id) == lookup_spec(g.push(n).drop_first(), id));
            assert(lookup_spec(g.push(n), id) is None);
        }
    } else {
        assert(g.push(n).len() == g.len() + 1);
        assert(g.push(n)[0] == g[0]);
        assert(g.push(n).drop_first() =~= g.drop_first().push(n));
        lemma_lookup_push(g.drop_first(), n, id);
        if g[0].path == id {
            assert(lookup_spec(g.push(n), id) == Some(g[0]));
            assert(lookup_spec(g, id) == Some(g[0]));
        } else {
            assert(lookup_spec(g.push(n), id) == lookup_spec(g.drop_first().push(n), id));
            assert(lookup_spec(g, id) == lookup_spec(g.drop_first(), id));
        }
    }
}

/// A member of a duplicate-free key list drawn from a pool is counted at most
/// once: the list cannot be longer than the pool.
pub proof fn lemma_distinct_keys_bound<A>(keys: Seq<A>, pool: Seq<A>)
    requires
        keys.no_duplicates(),
        forall|i: int| 0 <= i < keys.len() ==> pool.contains(#[trigger] keys[i]),
    ensures
        keys.len() <= pool.len(),
{
    keys.unique_seq_to_set();
    pool.lemma_cardinality_of_set();
    assert forall|x: A| keys.to_set().contains(x) implies pool.to_set().contains(x) by {
        assert(keys.contains(x));
        let i = choose|i: int| 0 <= i < keys.len() && keys[i] == x;
        assert(pool.contains(keys[i]));
    }
    assert(keys.to_set().subset_of(pool.to_set()));
    broadcast use vstd::seq_lib::seq_to_set_is_finite;
    lemma_len_subset(keys.to_set(), pool.to_set());
}

impl DependencyGraph {
    /// The node held under `id`, if any.
    pub fn lookup(&self, id: &FilePath) -> (r: Option<&ResolvedFile>)
        ensures
            match r {
                Some(n) => lookup_spec(self@, id@) == Some(n@),
                None => lookup_spec(self@, id@) is None,
            },
    {
        let mut k: usize = 0;
        proof {
            assert(self@.skip(0) =~= self@);
        }
        while k < self.nodes.len()
            invariant
                0 <= k <= self.nodes@.len(),
                lookup_spec(self@, id@) == lookup_spec(self@.skip(k as int), id@),
            decreases self.nodes@.len() - k,
        {
            if self.nodes[k].path.equals(id) {
                proof {
                    assert(self@.skip(k as int)[0] == self@[k as int]);
                }
                return Some(&self.nodes[k]);
            }
            proof {
                assert(self@.skip(k as int).drop_first() =~= self@.skip(k + 1));
            }
            k = k + 1;
        }
        proof {
            assert(self@.skip(self.nodes@.len() as int) =~= Seq::<NodeV>::empty());
        }
        None
    }

    /// Whether a node is held under `id`.
    pub fn contains_key(&self, id: &FilePath) -> (r: bool)
        ensures
            r == (lookup_spec(self@, id@) is Some),
    {
        match self.lookup(id) {
            Some(_) => true,
            None => false,
        }
    }
}

/// One storage answer handed to the builder: a file's identity, and its full
/// content where the file exists.
pub struct StoreEntry {
    pub path: FilePath,
    pub content: Option<Vec<u8>>,
}

/// Mathematical model of a `StoreEntry`.
pub ghost struct StoreEntryV {
    pub path: Seq<Seq<u8>>,
    pub content: Option<Seq<u8>>,
}

impl View for StoreEntry {
    type V = StoreEntryV;

    open spec fn view(&self) -> StoreEntryV {
        StoreEntryV { path: self.path@, content: self.content.deep_view() }
    }
}

/// What the builder has been told about storage so far: for each queried
/// identity, the file's content, or nothing where the file does not exist.
pub struct FileStore {
    pub entries: Vec<StoreEntry>,
}

impl View for FileStore {
    type V = Seq<StoreEntryV>;

    open spec fn view(&self) -> Seq<StoreEntryV> {
        Seq::new(self.entries@.len(), |i: int| self.entries@[i]@)
    }
}

/// The storage answer recorded under identity `id`: the first entry carrying
/// it.
pub open spec fn store_lookup(s: Seq<StoreEntryV>, id: Seq<Seq<u8>>) -> Option<Option<Seq<u8>>>
    decreases s.len(),
{
    if s.len() == 0 {
        None
    } else if s[0].path == id {
        Some(s[0].content)
    } else {
        store_lookup(s.drop_first(), id)
    }
}

/// A recorded answer that the file exists, with its content.
pub open spec fn store_has_content(s: Seq<StoreEntryV>, id: Seq<Seq<u8>>) -> bool {
    store_lookup(s, id) matches Some(c) && c is Some
}

/// Every recorded content leaves room for 1-based line numbering.
pub open spec fn store_wf(s: Seq<StoreEntryV>) -> bool {
    forall|i: int|
        0 <= i < s.len() ==> ((#[trigger] s[i].content) matches Some(c) ==> c.len()
            < usize::MAX)
}

/// A successful store lookup names an entry.
pub proof fn lemma_store_lookup_some(s: Seq<StoreEntryV>, id: Seq<Seq<u8>>)
    requires
        store_lookup(s, id) is Some,
    ensures
        exists|i: int|
            0 <= i < s.len() && (#[trigger] s[i]).path == id && s[i].content == store_lookup(
                s,
                id,
            )->Some_0,
    decreases s.len(),
{
    if s.len() > 0 && s[0].path != id {
        lemma_store_lookup_some(s.drop_first(), id);
        let i = choose|i: int|
            0 <= i < s.drop_first().len() && (#[trigger] s.drop_first()[i]).path == id
                && s.drop_first()[i].content == store_lookup(s.drop_first(), id)->Some_0;
        assert(s[i + 1] == s.drop_first()[i]);
    }
}

impl FileStore {
    /// An empty store.
    pub fn new() -> (r: FileStore)
        ensures
            r@ =~= Seq::<StoreEntryV>::empty(),
    {
        FileStore { entries: Vec::new() }
    }

    /// The entry recorded under `id`, if any.
    pub fn find(&self, id: &FilePath) -> (r: Option<&StoreEntry>)
        ensures
            match r {
                Some(en) => store_lookup(self@, id@) == Some(en@.content) && en@.path == id@,
                None => store_lookup(self@, id@) is None,
            },
    {
        let mut k: usize = 0;
        proof {
            assert(self@.skip(0) =~= self@);
        }
        while k < self.entries.len()
            invariant
                0 <= k <= self.entries@.len(),
                store_lookup(self@, id@) == store_lookup(self@.skip(k as int), id@),
            decreases self.entries@.len() - k,
        {
            if self.entries[k].path.equals(id) {
                proof {
                    assert(self@.skip(k as int)[0] == self@[k as int]);
                }
                return Some(&self.entries[k]);
            }
            proof {
                assert(self@.skip(k as int).drop_first() =~= self@.skip(k + 1));
            }
            k = k + 1;
        }
        proof {
            assert(self@.skip(self.entries@.len() as int) =~= Seq::<StoreEntryV>::empty());
        }
        None
    }

    /// Whether an answer is recorded under `id`.
    pub fn contains(&self, id: &FilePath) -> (r: bool)
        ensures
            r == (store_lookup(self@, id@) is Some),
    {
        match self.find(id) {
            Some(_) => true,
            None => false,
        }
    }

    /// Records a storage answer. An identity already answered keeps its first
    /// answer: each file is read at most once.
    pub fn add(&mut self, path: FilePath, content: Option<Vec<u8>>)
        ensures
            final(self)@ == if store_lookup(old(self)@, path@) is None {
                old(self)@.push(StoreEntryV { path: path@, content: content.deep_view() })
            } else {
                old(self)@
            },
    {
        if !self.contains(&path) {
            let ghost pv = path@;
            let ghost cv = content.deep_view();
            self.entries.push(StoreEntry { path, content });
            proof {
                assert(self@ =~= old(self)@.push(StoreEntryV { path: pv, content: cv }));
            }
        }
    }
}


/// How the builder still owes work: the entry identity itself, or one import
/// of an already-recorded file, resolved when it is taken up.
enum PendingRef {
    Direct(FilePath),
    ImportOf { target: Vec<u8>, parent: FilePath },
}

/// A node is drawn from the store: the store answers its identity with
/// exactly its content, and its imports are the scan of that content.
pub open spec fn node_from_store(s: Seq<StoreEntryV>, n: NodeV) -> bool {
    &&& store_lookup(s, n.path) == Some(Some(n.content))
    &&& n.imports == scan_spec(n.content)
}

/// Every node of the graph is drawn from the store.
pub open spec fn graph_from_store(g: Seq<NodeV>, s: Seq<StoreEntryV>) -> bool {
    forall|i: int| 0 <= i < g.len() ==> node_from_store(s, #[trigger] g[i])
}

/// The identity `p` is the resolution of some import of some node.
pub open spec fn import_of_some_node(g: Seq<NodeV>, p: Seq<Seq<u8>>) -> bool {
    exists|j: int, k: int|
        0 <= j < g.len() && 0 <= k < g[j].imports.len() && resolve_import_spec(
            (#[trigger] g[j].imports[k]).target,
            g[j].path,
        ) == Ok::<Seq<Seq<u8>>, ErrV>(p)
}

/// Every identity of the graph is the entry or was reached through an
/// import of another node: the builder records nothing unasked-for.
pub open spec fn justified(g: Seq<NodeV>, entry: Seq<Seq<u8>>) -> bool {
    forall|i: int|
        0 <= i < g.len() ==> ((#[trigger] g[i].path) == entry || import_of_some_node(
            g,
            g[i].path,
        ))
}

/// The identity `p` is owed a storage answer: it is the entry, or some
/// stored file's import resolves to it.
pub open spec fn demanded(s: Seq<StoreEntryV>, entry: Seq<Seq<u8>>, p: Seq<Seq<u8>>) -> bool {
    p == entry || exists|i: int, k: int|
        {
            &&& 0 <= i < s.len()
            &&& s[i].content is Some
            &&& 0 <= k < scan_spec(s[i].content->Some_0).len()
            &&& resolve_import_spec(
                (#[trigger] scan_spec(s[i].content->Some_0)[k]).target,
                s[i].path,
            ) == Ok::<Seq<Seq<u8>>, ErrV>(p)
        }
}

/// Some stored file holds an import whose resolution fails because the file
/// `f` has no parent directory.
pub open spec fn path_err_demanded(s: Seq<StoreEntryV>, f: Seq<Seq<u8>>) -> bool {
    exists|i: int, k: int|
        {
            &&& 0 <= i < s.len()
            &&& s[i].content is Some
            &&& 0 <= k < scan_spec(s[i].content->Some_0).len()
            &&& resolve_import_spec(
                (#[trigger] scan_spec(s[i].content->Some_0)[k]).target,
                s[i].path,
            ) == Err::<Seq<Seq<u8>>, ErrV>(ErrV::PathError { file: f })
        }
}

/// The store answers everything a build from `entry` can ask: the entry has
/// content, and every import of every stored content resolves to an identity
/// that has content too.
pub open spec fn closed_store(s: Seq<StoreEntryV>, entry: Seq<Seq<u8>>) -> bool {
    &&& store_has_content(s, entry)
    &&& forall|i: int, k: int|
        (0 <= i < s.len() && (#[trigger] s[i]).content is Some && 0 <= k < scan_spec(
            s[i].content->Some_0,
        ).len()) ==> {
            &&& resolve_import_spec(
                (#[trigger] scan_spec(s[i].content->Some_0)[k]).target,
                s[i].path,
            ) is Ok
            &&& store_has_content(
                s,
                resolve_import_spec(scan_spec(s[i].content->Some_0)[k].target, s[i].path)->Ok_0,
            )
        }
}

/// A demanded identity without content refutes closedness.
pub proof fn lemma_demand_unmet(s: Seq<StoreEntryV>, entry: Seq<Seq<u8>>, p: Seq<Seq<u8>>)
    requires
        demanded(s, entry, p),
        !store_has_content(s, p),
    ensures
        !closed_store(s, entry),
{
    if closed_store(s, entry) {
        if p != entry {
            let (i, k) = choose|i: int, k: int|
                {
                    &&& 0 <= i < s.len()
                    &&& s[i].content is Some
                    &&& 0 <= k < scan_spec(s[i].content->Some_0).len()
                    &&& resolve_import_spec(
                        (#[trigger] scan_spec(s[i].content->Some_0)[k]).target,
                        s[i].path,
                    ) == Ok::<Seq<Seq<u8>>, ErrV>(p)
                };
            assert(store_has_content(
                s,
                resolve_import_spec(scan_spec(s[i].content->Some_0)[k].target, s[i].path)->Ok_0,
            ));
        }
        assert(false);
    }
}

/// An unresolvable import refutes closedness.
pub proof fn lemma_demand_unresolvable(s: Seq<StoreEntryV>, entry: Seq<Seq<u8>>, f: Seq<Seq<u8>>)
    requires
        path_err_demanded(s, f),
    ensures
        !closed_store(s, entry),
{
    if closed_store(s, entry) {
        let (i, k) = choose|i: int, k: int|
            {
                &&& 0 <= i < s.len()
                &&& s[i].content is Some
                &&& 0 <= k < scan_spec(s[i].content->Some_0).len()
                &&& resolve_import_spec(
                    (#[trigger] scan_spec(s[i].content->Some_0)[k]).target,
                    s[i].path,
                ) == Err::<Seq<Seq<u8>>, ErrV>(ErrV::PathError { file: f })
            };
        assert(resolve_import_spec(scan_spec(s[i].content->Some_0)[k].target, s[i].path) is Ok);
        assert(false);
    }
}

/// An import recorded in the graph stands, with the same target, in the
/// scan of a stored content under the same containing path.
proof fn lemma_store_witness(
    s: Seq<StoreEntryV>,
    g: Seq<NodeV>,
    target: Seq<u8>,
    parent: Seq<Seq<u8>>,
)
    requires
        graph_from_store(g, s),
        exists|j: int, k: int|
            0 <= j < g.len() && g[j].path == parent && 0 <= k < g[j].imports.len() && (
            #[trigger] g[j].imports[k]).target == target,
    ensures
        exists|i: int, k: int|
            {
                &&& 0 <= i < s.len()
                &&& s[i].content is Some
                &&& 0 <= k < scan_spec(s[i].content->Some_0).len()
                &&& (#[trigger] scan_spec(s[i].content->Some_0)[k]).target == target
                &&& s[i].path == parent
            },
{
    let (j, k) = choose|j: int, k: int|
        0 <= j < g.len() && g[j].path == parent && 0 <= k < g[j].imports.len() && (
        #[trigger] g[j].imports[k]).target == target;
    assert(node_from_store(s, g[j]));
    lemma_store_lookup_some(s, parent);
    let i = choose|i: int|
        0 <= i < s.len() && (#[trigger] s[i]).path == parent && s[i].content == store_lookup(
            s,
            parent,
        )->Some_0;
    assert(s[i].content == Some(g[j].content));
    assert(scan_spec(s[i].content->Some_0)[k].target == target);
}

/// One queued reference is in order: the entry itself, or an import held by
/// some recorded node.
spec fn pending_ok(item: PendingRef, g: Seq<NodeV>, entry: Seq<Seq<u8>>) -> bool {
    match item {
        PendingRef::Direct(p) => p@ == entry,
        PendingRef::ImportOf { target, parent } => exists|j: int, k: int|
            0 <= j < g.len() && g[j].path == parent@ && 0 <= k < g[j].imports.len() && (
            #[trigger] g[j].imports[k]).target == target@,
    }
}

/// One recorded import is covered: already resolved into the graph, or
/// still queued.
spec fn import_covered(g: Seq<NodeV>, pend: Seq<PendingRef>, i: int, k: int) -> bool {
    ||| {
        &&& resolve_import_spec(g[i].imports[k].target, g[i].path) is Ok
        &&& lookup_spec(g, resolve_import_spec(g[i].imports[k].target, g[i].path)->Ok_0) is Some
    }
    ||| exists|m: int|
        {
            &&& 0 <= m < pend.len()
            &&& (#[trigger] pend[m]) matches PendingRef::ImportOf { target, parent }
                && target@ == g[i].imports[k].target && parent@ == g[i].path
        }
}

/// The identities held by the store, in order.
pub open spec fn store_key_seq(s: Seq<StoreEntryV>) -> Seq<Seq<Seq<u8>>> {
    Seq::new(s.len(), |i: int| s[i].path)
}

/// The identities held by a node sequence, in order.
pub open spec fn node_key_seq(g: Seq<NodeV>) -> Seq<Seq<Seq<u8>>> {
    Seq::new(g.len(), |i: int| g[i].path)
}

/// The outcome of one attempt to build the graph from what storage has
/// answered so far.
pub enum BuildOutcome {
    /// The closed dependency graph.
    Built(DependencyGraph),
    /// The build needs this file's content before it can go on; the identity
    /// has never been asked for before, so each file is read at most once.
    NeedFile(FilePath),
    /// The build is over: a referenced file is absent, or an import cannot
    /// be anchored.
    Failed(BundleError),
}

/// Builds the dependency graph reachable from `entry`, depth-first and
/// entry-first, against the storage answers recorded in `store`. A file
/// already recorded in the graph is never taken up again, however many
/// other files import it.
#[verifier::loop_isolation(false)]
#[verifier::rlimit(60)]
pub fn build_graph(entry: &FilePath, store: &FileStore) -> (r: BuildOutcome)
    requires
        store_wf(store@),
    ensures
        match r {
            BuildOutcome::Built(g) => {
                &&& keys_distinct(g@)
                &&& lookup_spec(g@, entry@) is Some
                &&& closed_graph(g@)
                &&& graph_from_store(g@, store@)
                &&& justified(g@, entry@)
            },
            BuildOutcome::NeedFile(p) => {
                &&& store_lookup(store@, p@) is None
                &&& demanded(store@, entry@, p@)
            },
            BuildOutcome::Failed(e) => match e@ {
                ErrV::FileNotFoundError { path } => store_lookup(store@, path) == Some(
                    Option::<Seq<u8>>::None,
                ) && demanded(store@, entry@, path),
                ErrV::PathError { file } => path_err_demanded(store@, file),
                _ => false,
            },
        },
        closed_store(store@, entry@) ==> r is Built,
{
    let ghost s = store@;
    let ghost e = entry@;
    let mut graph = DependencyGraph { nodes: Vec::new() };
    let mut pending: Vec<PendingRef> = Vec::new();
    pending.push(PendingRef::Direct(entry.duplicate()));
    proof {
        assert(graph@ =~= Seq::<NodeV>::empty());
        assert(pending@ =~= seq![pending@[0]]);
    }
    while pending.len() > 0
        invariant
            keys_distinct(graph@),
            graph_from_store(graph@, s),
            justified(graph@, e),
            graph@.len() <= s.len(),
            forall|m: int|
                0 <= m < pending@.len() ==> pending_ok(#[trigger] pending@[m], graph@, e),
            forall|i: int, k: int|
                0 <= i < graph@.len() && 0 <= k < graph@[i].imports.len() ==> import_covered(
                    graph@,
                    pending@,
                    i,
                    k,
                ),
            lookup_spec(graph@, e) is Some || exists|m: int|
                {
                    &&& 0 <= m < pending@.len()
                    &&& (#[trigger] pending@[m]) matches PendingRef::Direct(p) && p@ == e
                },
        decreases s.len() - graph@.len(), pending@.len(),
    {
        let ghost pend0 = pending@;
        let ghost g0 = graph@;
        let item = pending.pop().unwrap();
        let ghost item0 = item;
        proof {
            assert(item0 == pend0.last());
            assert(pending_ok(item0, g0, e));
        }
        let id: FilePath = match item {
            PendingRef::Direct(p) => p,
            PendingRef::ImportOf { target, parent } => match resolve_import_path(
                &target,
                &parent,
            ) {
                Ok(p) => p,
                Err(err) => {
                    proof {
                        lemma_store_witness(s, g0, target@, parent@);
                        assert(err@ == ErrV::PathError { file: parent@ });
                        assert(path_err_demanded(s, parent@));
                        lemma_demand_unresolvable(s, e, parent@);
                    }
                    return BuildOutcome::Failed(err);
                },
            },
        };
        proof {
            match item0 {
                PendingRef::Direct(p) => {
                    assert(id@ == e);
                },
                PendingRef::ImportOf { target, parent } => {
                    lemma_store_witness(s, g0, target@, parent@);
                    assert(resolve_import_spec(target@, parent@) == Ok::<Seq<Seq<u8>>, ErrV>(
                        id@,
                    ));
                    assert(demanded(s, e, id@));
                    assert(import_of_some_node(g0, id@));
                },
            }
            assert(demanded(s, e, id@));
            assert(id@ == e || import_of_some_node(g0, id@));
        }
        if !graph.contains_key(&id) {
            proof {
                lemma_lookup_none(graph@, id@);
            }
            let found = store.find(&id);
            match found {
                None => {
                    proof {
                        lemma_demand_unmet(s, e, id@);
                    }
                    return BuildOutcome::NeedFile(id);
                },
                Some(entry_hit) => {
                    match &entry_hit.content {
                        None => {
                            proof {
                                lemma_demand_unmet(s, e, id@);
                            }
                            return BuildOutcome::Failed(
                                BundleError::FileNotFoundError { path: id },
                            );
                        },
                        Some(content) => {
                            proof {
                                lemma_store_lookup_some(s, id@);
                                crate::paths::lemma_bytes_deep_view(*content);
                                assert(store_lookup(s, id@) == Some(Some(content@)));
                                let w = choose|w: int|
                                    0 <= w < s.len() && (#[trigger] s[w]).path == id@
                                        && s[w].content == store_lookup(s, id@)->Some_0;
                                assert(s[w].content->Some_0 == content@);
                            }
                            let content_copy = copy_bytes(content);
                            let imports = parse_imports(&content_copy);
                            let ghost new_node = NodeV {
                                path: id@,
                                content: content_copy@,
                                imports: imports.deep_view(),
                            };
                            graph.nodes.push(
                                ResolvedFile { path: id, content: content_copy, imports },
                            );
                            proof {
                                assert(graph@ =~= g0.push(new_node));
                                assert(node_from_store(s, new_node));
                                assert forall|i: int|
                                    0 <= i < graph@.len() implies node_from_store(
                                    s,
                                    #[trigger] graph@[i],
                                ) by {
                                    if i < g0.len() {
                                        assert(graph@[i] == g0[i]);
                                    }
                                }
                                lemma_lookup_push(g0, new_node, e);
                                assert forall|i: int|
                                    0 <= i < graph@.len() implies ((#[trigger] graph@[i].path)
                                    == e || import_of_some_node(graph@, graph@[i].path)) by {
                                    if i < g0.len() {
                                        assert(graph@[i] == g0[i]);
                                        if g0[i].path != e {
                                            let (j, k) = choose|j: int, k: int|
                                                0 <= j < g0.len() && 0 <= k
                                                    < g0[j].imports.len()
                                                    && resolve_import_spec(
                                                    (#[trigger] g0[j].imports[k]).target,
                                                    g0[j].path,
                                                ) == Ok::<Seq<Seq<u8>>, ErrV>(g0[i].path);
                                            assert(graph@[j] == g0[j]);
                                            assert(resolve_import_spec(
                                                graph@[j].imports[k].target,
                                                graph@[j].path,
                                            ) == Ok::<Seq<Seq<u8>>, ErrV>(graph@[i].path));
                                        }
                                    } else {
                                        if id@ != e {
                                            assert(import_of_some_node(g0, id@));
                                            let (j, k) = choose|j: int, k: int|
                                                0 <= j < g0.len() && 0 <= k
                                                    < g0[j].imports.len()
                                                    && resolve_import_spec(
                                                    (#[trigger] g0[j].imports[k]).target,
                                                    g0[j].path,
                                                ) == Ok::<Seq<Seq<u8>>, ErrV>(id@);
                                            assert(graph@[j] == g0[j]);
                                            assert(resolve_import_spec(
                                                graph@[j].imports[k].target,
                                                graph@[j].path,
                                            ) == Ok::<Seq<Seq<u8>>, ErrV>(graph@[i].path));
                                        }
                                    }
                                }
                                let pool = store_key_seq(s);
                                let keys = node_key_seq(graph@);
                                assert(keys.no_duplicates());
                                assert forall|i: int| 0 <= i < keys.len() implies pool.contains(
                                    #[trigger] keys[i],
                                ) by {
                                    assert(node_from_store(s, graph@[i]));
                                    lemma_store_lookup_some(s, graph@[i].path);
                                    let w = choose|w: int|
                                        0 <= w < s.len() && (#[trigger] s[w]).path
                                            == graph@[i].path && s[w].content == store_lookup(
                                            s,
                                            graph@[i].path,
                                        )->Some_0;
                                    assert(pool[w] == keys[i]);
                                }
                                lemma_distinct_keys_bound(keys, pool);
                                assert forall|m: int|
                                    0 <= m < pending@.len() implies pending_ok(
                                    #[trigger] pending@[m],
                                    graph@,
                                    e,
                                ) by {
                                    assert(pending@[m] == pend0[m]);
                                    assert(pending_ok(pend0[m], g0, e));
                                    match pending@[m] {
                                        PendingRef::Direct(p) => {},
                                        PendingRef::ImportOf { target, parent } => {
                                            let (j, k) = choose|j: int, k: int|
                                                0 <= j < g0.len() && g0[j].path == parent@ && 0
                                                    <= k < g0[j].imports.len() && (
                                                #[trigger] g0[j].imports[k]).target == target@;
                                            assert(graph@[j] == g0[j]);
                                            assert((graph@[j].imports[k]).target == target@);
                                        },
                                    }
                                }
                                let nn = graph@.len() - 1;
                                assert forall|i: int, k: int|
                                    0 <= i < graph@.len() && 0 <= k < graph@[i].imports.len()
                                        && i < nn implies import_covered(
                                    graph@,
                                    pending@,
                                    i,
                                    k,
                                ) by {
                                    assert(graph@[i] == g0[i]);
                                    assert(import_covered(g0, pend0, i, k));
                                    if ({
                                        &&& resolve_import_spec(
                                            g0[i].imports[k].target,
                                            g0[i].path,
                                        ) is Ok
                                        &&& lookup_spec(
                                            g0,
                                            resolve_import_spec(
                                                g0[i].imports[k].target,
                                                g0[i].path,
                                            )->Ok_0,
                                        ) is Some
                                    }) {
                                        lemma_lookup_push(
                                            g0,
                                            new_node,
                                            resolve_import_spec(
                                                g0[i].imports[k].target,
                                                g0[i].path,
                                            )->Ok_0,
                                        );
                                    } else {
                                        let m = choose|m: int|
                                            {
                                                &&& 0 <= m < pend0.len()
                                                &&& (#[trigger] pend0[m]) matches PendingRef::ImportOf {
                                                    target,
                                                    parent,
                                                } && target@ == g0[i].imports[k].target
                                                    && parent@ == g0[i].path
                                            };
                                        if m < pending@.len() {
                                            assert(pending@[m] == pend0[m]);
                                        } else {
                                            assert(pend0[m] == item0);
                                            lemma_lookup_push(g0, new_node, id@);
                                        }
                                    }
                                }
                                if !(lookup_spec(g0, e) is Some) {
                                    if id@ == e {
                                        assert(lookup_spec(graph@, e) is Some);
                                    } else {
                                        let m = choose|m: int|
                                            {
                                                &&& 0 <= m < pend0.len()
                                                &&& (#[trigger] pend0[m]) matches PendingRef::Direct(p)
                                                    && p@ == e
                                            };
                                        assert(m < pending@.len()) by {
                                            if m == pend0.len() - 1 {
                                                assert(pend0[m] == item0);
                                            }
                                        }
                                        assert(pending@[m] == pend0[m]);
                                    }
                                }
                            }
                            let n = graph.nodes.len() - 1;
                            let mut kk: usize = graph.nodes[n].imports.len();
                            while kk > 0
                                invariant
                                    0 <= kk <= graph@[n as int].imports.len(),
                                    n == graph@.len() - 1,
                                    graph@ == g0.push(new_node),
                                    forall|m: int|
                                        0 <= m < pending@.len() ==> pending_ok(
                                            #[trigger] pending@[m],
                                            graph@,
                                            e,
                                        ),
                                    forall|i: int, k: int|
                                        0 <= i < graph@.len() && 0 <= k
                                            < graph@[i].imports.len() && !(i == n && k
                                            < kk) ==> import_covered(graph@, pending@, i, k),
                                    lookup_spec(graph@, e) is Some || exists|m: int|
                                        {
                                            &&& 0 <= m < pending@.len()
                                            &&& (#[trigger] pending@[m]) matches PendingRef::Direct(p)
                                                && p@ == e
                                        },
                                decreases kk,
                            {
                                kk = kk - 1;
                                let ghost pend1 = pending@;
                                pending.push(
                                    PendingRef::ImportOf {
                                        target: copy_bytes(&graph.nodes[n].imports[kk].target),
                                        parent: graph.nodes[n].path.duplicate(),
                                    },
                                );
                                proof {
                                    assert(pending@ =~= pend1.push(
                                        pending@[pending@.len() - 1],
                                    ));
                                    let newm = pending@.len() - 1;
                                    assert(pending@[newm] matches PendingRef::ImportOf {
                                        target,
                                        parent,
                                    } && target@ == graph@[n as int].imports[kk as int].target
                                        && parent@ == graph@[n as int].path);
                                    assert forall|i: int, k: int|
                                        0 <= i < graph@.len() && 0 <= k
                                            < graph@[i].imports.len() && !(i == n as int && k
                                            < kk) implies import_covered(
                                        graph@,
                                        pending@,
                                        i,
                                        k,
                                    ) by {
                                        if i == n as int && k == kk {
                                            assert(import_covered(graph@, pending@, i, k));
                                        } else {
                                            assert(import_covered(graph@, pend1, i, k));
                                            if !({
                                                &&& resolve_import_spec(
                                                    graph@[i].imports[k].target,
                                                    graph@[i].path,
                                                ) is Ok
                                                &&& lookup_spec(
                                                    graph@,
                                                    resolve_import_spec(
                                                        graph@[i].imports[k].target,
                                                        graph@[i].path,
                                                    )->Ok_0,
                                                ) is Some
                                            }) {
                                                let m = choose|m: int|
                                                    {
                                                        &&& 0 <= m < pend1.len()
                                                        &&& (#[trigger] pend1[m]) matches PendingRef::ImportOf { target, parent }
                                                            && target@ == graph@[i].imports[k].target
                                                            && parent@ == graph@[i].path
                                                    };
                                                assert(pending@[m] == pend1[m]);
                                            }
                                        }
                                    }
                                    if !(lookup_spec(graph@, e) is Some) {
                                        let m = choose|m: int|
                                            {
                                                &&& 0 <= m < pend1.len()
                                                &&& (#[trigger] pend1[m]) matches PendingRef::Direct(p)
                                                    && p@ == e
                                            };
                                        assert(pending@[m] == pend1[m]);
                                    }
                                }
                            }
                        },
                    }
                }
            }
        } else {
            proof {
                assert forall|i: int, k: int|
                    0 <= i < graph@.len() && 0 <= k < graph@[i].imports.len() implies
                    import_covered(graph@, pending@, i, k) by {
                    assert(import_covered(g0, pend0, i, k));
                    if !({
                        &&& resolve_import_spec(graph@[i].imports[k].target, graph@[i].path)
                            is Ok
                        &&& lookup_spec(
                            graph@,
                            resolve_import_spec(graph@[i].imports[k].target, graph@[i].path)->Ok_0,
                        ) is Some
                    }) {
                        let m = choose|m: int|
                            {
                                &&& 0 <= m < pend0.len()
                                &&& (#[trigger] pend0[m]) matches PendingRef::ImportOf {
                                    target,
                                    parent,
                                } && target@ == g0[i].imports[k].target && parent@
                                    == g0[i].path
                            };
                        if m < pending@.len() {
                            assert(pending@[m] == pend0[m]);
                        } else {
                            assert(pend0[m] == item0);
                        }
                    }
                }
                if !(lookup_spec(graph@, e) is Some) {
                    let m = choose|m: int|
                        {
                            &&& 0 <= m < pend0.len()
                            &&& (#[trigger] pend0[m]) matches PendingRef::Direct(p) && p@ == e
                        };
                    assert(m < pending@.len()) by {
                        if m == pend0.len() - 1 {
                            assert(pend0[m] == item0);
                            assert(id@ == e);
                        }
                    }
                    assert(pending@[m] == pend0[m]);
                }
            }
        }
    }
    proof {
        assert forall|i: int, k: int|
            0 <= i < graph@.len() && 0 <= k < graph@[i].imports.len() implies {
            &&& resolve_import_spec((#[trigger] graph@[i].imports[k]).target, graph@[i].path)
                is Ok
            &&& lookup_spec(
                graph@,
                resolve_import_spec(graph@[i].imports[k].target, graph@[i].path)->Ok_0,
            ) is Some
        } by {
            assert(import_covered(graph@, pending@, i, k));
        }
    }
    BuildOutcome::Built(graph)
}

} // verus!
