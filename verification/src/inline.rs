use vstd::prelude::*;
use crate::errors::{BundleError, ErrV};
use crate::paths::{FilePath, resolve_import_spec, resolve_import_path, copy_bytes};
use crate::scan::ImportV;
use crate::graph::{
    DependencyGraph, NodeV, lookup_spec, closed_graph, lemma_lookup_some,
    lemma_distinct_keys_bound,
};

verus! {

/// Replacing every occurrence of `pat` in `text` by `repl`: leftmost first,
/// without overlap, in one pass. An empty pattern replaces nothing.
pub open spec fn replace_spec(text: Seq<u8>, pat: Seq<u8>, repl: Seq<u8>) -> Seq<u8>
    decreases text.len(),
{
    if pat.len() == 0 || text.len() == 0 {
        text
    } else if text.len() >= pat.len() && text.take(pat.len() as int) == pat {
        repl + replace_spec(text.skip(pat.len() as int), pat, repl)
    } else {
        text.take(1) + replace_spec(text.skip(1), pat, repl)
    }
}

/// The path views of the active-path stack.
pub open spec fn stack_views(s: Seq<FilePath>) -> Seq<Seq<Seq<u8>>> {
    Seq::new(s.len(), |i: int| s[i]@)
}

/// The identities held by a graph, in order.
pub open spec fn key_seq(g: Seq<NodeV>) -> Seq<Seq<Seq<u8>>> {
    Seq::new(g.len(), |i: int| g[i].path)
}

/// A well-formed active-path stack: no identity twice, every identity a key
/// of the graph.
pub open spec fn stack_wf(s: Seq<FilePath>, g: Seq<NodeV>) -> bool {
    &&& stack_views(s).no_duplicates()
    &&& forall|i: int| 0 <= i < s.len() ==> key_seq(g).contains(#[trigger] stack_views(s)[i])
}

/// The model of an inlining result.
pub open spec fn result_view(r: Result<Vec<u8>, BundleError>) -> Result<Seq<u8>, ErrV> {
    match r {
        Ok(t) => Ok(t@),
        Err(e) => Err(e@),
    }
}

/// The fully inlined text of the file `id`, against the graph `g`, with the
/// identities of `stack` active on the current path. An identity already
/// active yields empty text: that is the cycle-breaking policy. The imports
/// are substituted in reverse textual order, each by exact-substring
/// replacement. `fuel` bounds the recursion depth; any fuel of at least
/// `g.len() + 1` beyond the active identities gives the one real answer.
pub open spec fn inline_spec(
    g: Seq<NodeV>,
    id: Seq<Seq<u8>>,
    stack: Set<Seq<Seq<u8>>>,
    fuel: nat,
) -> Result<Seq<u8>, ErrV>
    decreases fuel, 0int,
{
    if fuel == 0 {
        Err(ErrV::MissingNodeError { path: id })
    } else {
        match lookup_spec(g, id) {
            None => Err(ErrV::MissingNodeError { path: id }),
            Some(node) => if stack.contains(id) {
                Ok(Seq::empty())
            } else {
                apply_imports(
                    g,
                    id,
                    node.imports,
                    node.content,
                    stack.insert(id),
                    (fuel - 1) as nat,
                )
            },
        }
    }
}

/// Substitutes the imports of one file into `text`, last directive first:
/// each target is resolved against `id`, recursively inlined, and every
/// occurrence of its exact directive text is replaced by the inlined body.
pub open spec fn apply_imports(
    g: Seq<NodeV>,
    id: Seq<Seq<u8>>,
    imports: Seq<ImportV>,
    text: Seq<u8>,
    stack: Set<Seq<Seq<u8>>>,
    fuel: nat,
) -> Result<Seq<u8>, ErrV>
    decreases fuel, imports.len() + 1,
{
    if imports.len() == 0 {
        Ok(text)
    } else {
        let imp = imports.last();
        match resolve_import_spec(imp.target, id) {
            Err(e) => Err(e),
            Ok(child) => match inline_spec(g, child, stack, fuel) {
                Err(e) => Err(e),
                Ok(childtext) => apply_imports(
                    g,
                    id,
                    imports.drop_last(),
                    replace_spec(text, imp.literal, childtext),
                    stack,
                    fuel,
                ),
            },
        }
    }
}

/// Whether `pat` stands at position `i` of `text`.
fn eq_at(text: &Vec<u8>, i: usize, pat: &Vec<u8>) -> (r: bool)
    requires
        i + pat@.len() <= text@.len(),
    ensures
        r == (text@.subrange(i as int, i + pat@.len()) == pat@),
{
    let n = text.len();
    let mut j: usize = 0;
    while j < pat.len()
        invariant
            0 <= j <= pat@.len(),
            i + pat@.len() <= text@.len(),
            n == text@.len(),
            forall|m: int| 0 <= m < j ==> text@[i + m] == pat@[m],
        decreases pat@.len() - j,
    {
        if text[i + j] != pat[j] {
            proof {
                assert(text@.subrange(i as int, i + pat@.len())[j as int] == text@[i + j]);
            }
            return false;
        }
        j = j + 1;
    }
    proof {
        assert(text@.subrange(i as int, i + pat@.len()) =~= pat@);
    }
    true
}

/// Appends the bytes of `add` to `out`.
fn append_bytes(out: &mut Vec<u8>, add: &Vec<u8>)
    ensures
        final(out)@ == old(out)@ + add@,
{
    let mut j: usize = 0;
    while j < add.len()
        invariant
            0 <= j <= add@.len(),
            out@ == old(out)@ + add@.take(j as int),
        decreases add@.len() - j,
    {
        out.push(add[j]);
        proof {
            assert(old(out)@ + add@.take(j + 1) =~= (old(out)@ + add@.take(j as int)).push(
                add@[j as int],
            ));
        }
        j = j + 1;
    }
    proof {
        assert(old(out)@ + add@.take(add@.len() as int) =~= old(out)@ + add@);
    }
}

/// Replaces every occurrence of `pat` in `text` by `repl`, leftmost first and
/// without overlap.
pub fn replace_all(text: &Vec<u8>, pat: &Vec<u8>, repl: &Vec<u8>) -> (r: Vec<u8>)
    ensures
        r@ == replace_spec(text@, pat@, repl@),
{
    if pat.len() == 0 {
        return copy_bytes(text);
    }
    let mut out: Vec<u8> = Vec::new();
    let mut i: usize = 0;
    proof {
        assert(text@.skip(0) =~= text@);
        assert(out@ + replace_spec(text@, pat@, repl@) =~= replace_spec(text@, pat@, repl@));
    }
    while i < text.len()
        invariant
            pat@.len() > 0,
            0 <= i <= text@.len(),
            replace_spec(text@, pat@, repl@) == out@ + replace_spec(
                text@.skip(i as int),
                pat@,
                repl@,
            ),
        decreases text@.len() - i,
    {
        let ghost rest = text@.skip(i as int);
        if text.len() - i >= pat.len() && eq_at(text, i, pat) {
            proof {
                assert(rest.take(pat@.len() as int) =~= text@.subrange(i as int, i + pat@.len()));
                assert(rest.skip(pat@.len() as int) =~= text@.skip(i + pat@.len()));
                assert(replace_spec(rest, pat@, repl@) == repl@ + replace_spec(
                    text@.skip(i + pat@.len()),
                    pat@,
                    repl@,
                ));
            }
            let ghost out_before = out@;
            append_bytes(&mut out, repl);
            proof {
                assert(out_before + (repl@ + replace_spec(text@.skip(i + pat@.len()), pat@, repl@))
                    =~= out@ + replace_spec(text@.skip(i + pat@.len()), pat@, repl@));
            }
            i = i + pat.len();
        } else {
            proof {
                if rest.len() >= pat@.len() {
                    assert(rest.take(pat@.len() as int) =~= text@.subrange(
                        i as int,
                        i + pat@.len(),
                    ));
                }
                assert(rest.take(1) =~= seq![text@[i as int]]);
                assert(rest.skip(1) =~= text@.skip(i + 1));
                assert(replace_spec(rest, pat@, repl@) == seq![text@[i as int]] + replace_spec(
                    text@.skip(i + 1),
                    pat@,
                    repl@,
                ));
            }
            let ghost out_before = out@;
            out.push(text[i]);
            proof {
                assert(out_before + (seq![text@[i as int]] + replace_spec(
                    text@.skip(i + 1),
                    pat@,
                    repl@,
                )) =~= out@ + replace_spec(text@.skip(i + 1), pat@, repl@));
            }
            i = i + 1;
        }
    }
    proof {
        assert(text@.skip(text@.len() as int) =~= Seq::<u8>::empty());
        assert(out@ + replace_spec(Seq::<u8>::empty(), pat@, repl@) =~= out@);
    }
    out
}

/// Pushing an identity onto the stack extends its views and its identity
/// set accordingly.
proof fn lemma_stack_push(s: Seq<FilePath>, x: FilePath)
    ensures
        stack_views(s.push(x)) == stack_views(s).push(x@),
        stack_views(s.push(x)).to_set() == stack_views(s).to_set().insert(x@),
{
    assert(stack_views(s.push(x)) =~= stack_views(s).push(x@));
    let a = stack_views(s).push(x@);
    let b = stack_views(s);
    assert forall|y: Seq<Seq<u8>>| a.to_set().contains(y) implies b.to_set().insert(
        x@,
    ).contains(y) by {
        let i = choose|i: int| 0 <= i < a.len() && a[i] == y;
        if i < b.len() {
            assert(b[i] == y);
            assert(b.contains(y));
        }
    }
    assert forall|y: Seq<Seq<u8>>| b.to_set().insert(x@).contains(y) implies a.to_set().contains(
        y,
    ) by {
        if y == x@ {
            assert(a[a.len() - 1] == y);
            assert(a.contains(y));
        } else {
            let i = choose|i: int| 0 <= i < b.len() && b[i] == y;
            assert(a[i] == y);
            assert(a.contains(y));
        }
    }
    assert(a.to_set() =~= b.to_set().insert(x@));
}

/// Whether the identity `id` is active on the current path.
fn stack_contains(stack: &Vec<FilePath>, id: &FilePath) -> (r: bool)
    ensures
        r == stack_views(stack@).contains(id@),
{
    let mut k: usize = 0;
    while k < stack.len()
        invariant
            0 <= k <= stack@.len(),
            forall|j: int| 0 <= j < k ==> stack_views(stack@)[j] != id@,
        decreases stack@.len() - k,
    {
        if stack[k].equals(id) {
            assert(stack_views(stack@)[k as int] == id@);
            return true;
        }
        k = k + 1;
    }
    false
}

/// Depth-first inlining of one file: looks the identity up, breaks cycles by
/// handing back empty text for an identity already active, and otherwise
/// substitutes the file's imports in reverse order, restoring the stack on
/// success. Terminates because the active path never repeats an identity of
/// the finite graph.
#[verifier::loop_isolation(false)]
fn inline_file_recursive(graph: &DependencyGraph, id: &FilePath, stack: &mut Vec<FilePath>) -> (r:
    Result<Vec<u8>, BundleError>)
    requires
        stack_wf(old(stack)@, graph@),
    ensures
        r is Ok ==> final(stack)@ == old(stack)@,
        forall|f: nat|
            f + old(stack)@.len() >= graph@.len() + 1 ==> result_view(r) == inline_spec(
                graph@,
                id@,
                stack_views(old(stack)@).to_set(),
                f,
            ),
    decreases graph@.len() + 1 - old(stack)@.len(),
{
    let ghost g = graph@;
    let ghost stack0 = old(stack)@;
    let ghost sset = stack_views(stack0).to_set();
    proof {
        lemma_distinct_keys_bound(stack_views(stack0), key_seq(g));
        assert(stack0.len() <= g.len());
    }
    let node = match graph.lookup(id) {
        None => {
            return Err(BundleError::MissingNodeError { path: id.duplicate() });
        },
        Some(n) => n,
    };
    proof {
        lemma_lookup_some(g, id@);
    }
    if stack_contains(stack, id) {
        proof {
            assert(sset.contains(id@));
        }
        return Ok(Vec::new());
    }
    proof {
        assert(!sset.contains(id@));
    }
    let pushed = id.duplicate();
    stack.push(pushed);
    proof {
        lemma_stack_push(stack0, stack@[stack@.len() - 1]);
        assert(stack_views(stack@) == stack_views(stack0).push(id@));
        assert(stack_views(stack@).to_set() == sset.insert(id@));
        assert(stack_wf(stack@, g)) by {
            let sv = stack_views(stack@);
            assert forall|i: int, j: int| 0 <= i < j < sv.len() implies sv[i] != sv[j] by {
                if j < sv.len() - 1 {
                    assert(stack_views(stack0)[i] != stack_views(stack0)[j]);
                } else {
                    assert(sv[j] == id@);
                    if sv[i] == id@ {
                        assert(stack_views(stack0)[i] == id@);
                        assert(stack_views(stack0).contains(id@));
                        assert(sset.contains(id@));
                    }
                }
            }
            let i0 = choose|i: int|
                0 <= i < g.len() && #[trigger] g[i] == lookup_spec(g, id@)->Some_0 && g[i].path
                    == id@;
            assert(key_seq(g)[i0] == id@);
            assert(key_seq(g).contains(id@));
            assert forall|i: int| 0 <= i < stack@.len() implies key_seq(g).contains(
                #[trigger] stack_views(stack@)[i],
            ) by {
                if i < stack@.len() - 1 {
                    assert(stack_views(stack@)[i] == stack_views(stack0)[i]);
                }
            }
        }
    }
    let ghost sset1 = sset.insert(id@);
    let mut result = copy_bytes(&node.content);
    let mut k: usize = node.imports.len();
    proof {
        assert(node@.imports.take(k as int) =~= node@.imports);
    }
    while k > 0
        invariant
            0 <= k <= node@.imports.len(),
            stack_wf(stack@, g),
            stack@ == stack0.push(stack@[stack0.len() as int]),
            stack@[stack0.len() as int]@ == id@,
            stack_views(stack@).to_set() == sset1,
            lookup_spec(g, id@) == Some(node@),
            graph@ == g,
            node@ == lookup_spec(g, id@)->Some_0,
            forall|f: nat|
                f + stack0.len() >= g.len() ==> apply_imports(
                    g,
                    id@,
                    node@.imports.take(k as int),
                    result@,
                    sset1,
                    f,
                ) == apply_imports(g, id@, node@.imports, node@.content, sset1, f),
        decreases k,
    {
        k = k - 1;
        let ghost imps = node@.imports.take(k + 1);
        proof {
            assert(imps.last() == node@.imports[k as int]);
            assert(imps.drop_last() =~= node@.imports.take(k as int));
        }
        let child = match resolve_import_path(&node.imports[k].target, id) {
            Ok(p) => p,
            Err(err) => {
                proof {
                    assert(stack0.len() <= g.len());
                    assert(lookup_spec(g, id@) == Some(node@));
                    assert(!sset.contains(id@));
                    assert(imps.len() > 0);
                    assert(resolve_import_spec(imps.last().target, id@) == Err::<
                        Seq<Seq<u8>>,
                        ErrV,
                    >(err@));
                    assert forall|f: nat|
                        f + stack0.len() >= g.len() + 1 implies result_view(
                        Err::<Vec<u8>, BundleError>(err),
                    ) == inline_spec(g, id@, sset, f) by {
                        let fm = (f - 1) as nat;
                        assert(fm + stack0.len() >= g.len());
                        assert(apply_imports(g, id@, node@.imports.take(k + 1), result@, sset1, fm)
                            == apply_imports(g, id@, node@.imports, node@.content, sset1, fm));
                        assert(apply_imports(g, id@, imps, result@, sset1, fm) == Err::<
                            Seq<u8>,
                            ErrV,
                        >(err@));
                        assert(inline_spec(g, id@, sset, f) == apply_imports(
                            g,
                            id@,
                            node@.imports,
                            node@.content,
                            sset1,
                            fm,
                        ));
                    }
                }
                return Err(err);
            },
        };
        let childtext = match inline_file_recursive(graph, &child, stack) {
            Ok(t) => t,
            Err(err) => {
                proof {
                    assert(stack0.len() <= g.len());
                    assert(resolve_import_spec(imps.last().target, id@) == Ok::<
                        Seq<Seq<u8>>,
                        ErrV,
                    >(child@));
                    assert forall|f: nat|
                        f + stack0.len() >= g.len() + 1 implies result_view(
                        Err::<Vec<u8>, BundleError>(err),
                    ) == inline_spec(g, id@, sset, f) by {
                        let fm = (f - 1) as nat;
                        assert(fm + stack0.len() >= g.len());
                        assert(fm + (stack0.len() + 1) >= g.len() + 1);
                        assert(inline_spec(g, child@, sset1, fm) == Err::<Seq<u8>, ErrV>(err@));
                        assert(apply_imports(g, id@, node@.imports.take(k + 1), result@, sset1, fm)
                            == apply_imports(g, id@, node@.imports, node@.content, sset1, fm));
                        assert(apply_imports(g, id@, imps, result@, sset1, fm) == Err::<
                            Seq<u8>,
                            ErrV,
                        >(err@));
                        assert(inline_spec(g, id@, sset, f) == apply_imports(
                            g,
                            id@,
                            node@.imports,
                            node@.content,
                            sset1,
                            fm,
                        ));
                    }
                }
                return Err(err);
            },
        };
        let replaced = replace_all(&result, &node.imports[k].literal, &childtext);
        proof {
            assert forall|f: nat|
                f + stack0.len() >= g.len() implies apply_imports(
                g,
                id@,
                node@.imports.take(k as int),
                replaced@,
                sset1,
                f,
            ) == apply_imports(g, id@, node@.imports, node@.content, sset1, f) by {
                assert(inline_spec(g, child@, sset1, f) == Ok::<Seq<u8>, ErrV>(childtext@));
                assert(apply_imports(g, id@, imps, result@, sset1, f) == apply_imports(
                    g,
                    id@,
                    imps.drop_last(),
                    replace_spec(result@, node@.imports[k as int].literal, childtext@),
                    sset1,
                    f,
                ));
            }
        }
        result = replaced;
    }
    proof {
        assert(node@.imports.take(0) =~= Seq::<ImportV>::empty());
    }
    let _active = stack.pop();
    proof {
        assert(stack@ =~= stack0);
        assert forall|f: nat|
            f + stack0.len() >= g.len() + 1 implies result_view(
            Ok::<Vec<u8>, BundleError>(result),
        ) == inline_spec(g, id@, sset, f) by {
            assert(apply_imports(g, id@, node@.imports.take(0), result@, sset1, (f - 1) as nat)
                == apply_imports(g, id@, node@.imports, node@.content, sset1, (f - 1) as nat));
        }
    }
    Ok(result)
}

/// Inlines the whole graph starting at the entry identity, with an empty
/// active path.
pub fn inline_imports(entry: &FilePath, graph: &DependencyGraph) -> (r: Result<
    Vec<u8>,
    BundleError,
>)
    ensures
        result_view(r) == inline_spec(
            graph@,
            entry@,
            Set::empty(),
            (graph@.len() + 1) as nat,
        ),
{
    let mut stack: Vec<FilePath> = Vec::new();
    proof {
        assert(stack_views(stack@) =~= Seq::<Seq<Seq<u8>>>::empty());
        assert(stack_views(stack@).to_set() =~= Set::<Seq<Seq<u8>>>::empty());
    }
    inline_file_recursive(graph, entry, &mut stack)
}


/// On a closed graph, inlining a present identity always succeeds: the
/// cycle-breaking stack guarantees termination, and the closure property
/// guarantees that every lookup and every resolution succeeds.
pub proof fn lemma_inline_ok(
    g: Seq<NodeV>,
    id: Seq<Seq<u8>>,
    stack: Set<Seq<Seq<u8>>>,
    fuel: nat,
)
    requires
        closed_graph(g),
        lookup_spec(g, id) is Some,
        stack.finite(),
        forall|p: Seq<Seq<u8>>| stack.contains(p) ==> key_seq(g).contains(p),
        fuel + stack.len() >= g.len() + 1,
    ensures
        inline_spec(g, id, stack, fuel) is Ok,
    decreases fuel, 0int,
{
    broadcast use vstd::seq_lib::seq_to_set_is_finite;

    assert(stack.subset_of(key_seq(g).to_set())) by {
        assert forall|p: Seq<Seq<u8>>| stack.contains(p) implies key_seq(g).to_set().contains(
            p,
        ) by {
            assert(key_seq(g).contains(p));
        }
    }
    vstd::set_lib::lemma_len_subset(stack, key_seq(g).to_set());
    key_seq(g).lemma_cardinality_of_set();
    assert(stack.len() <= g.len());
    assert(fuel >= 1);
    if !stack.contains(id) {
        let node = lookup_spec(g, id)->Some_0;
        lemma_lookup_some(g, id);
        let i = choose|i: int|
            0 <= i < g.len() && #[trigger] g[i] == lookup_spec(g, id)->Some_0 && g[i].path == id;
        assert(key_seq(g)[i] == id);
        assert(key_seq(g).contains(id));
        assert forall|k: int| 0 <= k < node.imports.len() implies {
            &&& resolve_import_spec((#[trigger] node.imports[k]).target, id) is Ok
            &&& lookup_spec(g, resolve_import_spec(node.imports[k].target, id)->Ok_0) is Some
        } by {
            assert(g[i].imports[k] == node.imports[k]);
        }
        lemma_apply_ok(g, id, node.imports, node.content, stack.insert(id), (fuel - 1) as nat);
    }
}

/// On a closed graph, substituting a list of resolvable imports always
/// succeeds.
proof fn lemma_apply_ok(
    g: Seq<NodeV>,
    id: Seq<Seq<u8>>,
    imports: Seq<ImportV>,
    text: Seq<u8>,
    stack: Set<Seq<Seq<u8>>>,
    fuel: nat,
)
    requires
        closed_graph(g),
        stack.finite(),
        forall|p: Seq<Seq<u8>>| stack.contains(p) ==> key_seq(g).contains(p),
        fuel + stack.len() >= g.len() + 1,
        forall|k: int|
            0 <= k < imports.len() ==> {
                &&& resolve_import_spec((#[trigger] imports[k]).target, id) is Ok
                &&& lookup_spec(g, resolve_import_spec(imports[k].target, id)->Ok_0) is Some
            },
    ensures
        apply_imports(g, id, imports, text, stack, fuel) is Ok,
    decreases fuel, imports.len() + 1,
{
    if imports.len() > 0 {
        let imp = imports.last();
        assert(imports[imports.len() - 1] == imp);
        let child = resolve_import_spec(imp.target, id)->Ok_0;
        lemma_inline_ok(g, child, stack, fuel);
        let childtext = inline_spec(g, child, stack, fuel)->Ok_0;
        assert forall|k: int| 0 <= k < imports.drop_last().len() implies {
            &&& resolve_import_spec((#[trigger] imports.drop_last()[k]).target, id) is Ok
            &&& lookup_spec(
                g,
                resolve_import_spec(imports.drop_last()[k].target, id)->Ok_0,
            ) is Some
        } by {
            assert(imports.drop_last()[k] == imports[k]);
        }
        lemma_apply_ok(
            g,
            id,
            imports.drop_last(),
            replace_spec(text, imp.literal, childtext),
            stack,
            fuel,
        );
    }
}


/// No occurrence of `pat` starts anywhere in `t`.
pub open spec fn pat_free(t: Seq<u8>, pat: Seq<u8>) -> bool {
    forall|i: int|
        0 <= i && i + pat.len() <= t.len() ==> #[trigger] t.subrange(i, i + pat.len()) != pat
}

/// Replacement leaves a text without occurrences unchanged.
pub proof fn lemma_replace_absent(t: Seq<u8>, pat: Seq<u8>, repl: Seq<u8>)
    requires
        pat.len() > 0,
        pat_free(t, pat),
    ensures
        replace_spec(t, pat, repl) == t,
    decreases t.len(),
{
    if t.len() > 0 {
        if t.len() >= pat.len() && t.take(pat.len() as int) == pat {
            assert(t.subrange(0, 0int + pat.len()) != pat);
            assert(t.subrange(0, 0int + pat.len()) =~= t.take(pat.len() as int));
            assert(false);
        }
        assert forall|i: int|
            0 <= i && i + pat.len() <= t.skip(1).len() implies #[trigger] t.skip(1).subrange(
            i,
            i + pat.len(),
        ) != pat by {
            assert(t.skip(1).subrange(i, i + pat.len()) =~= t.subrange(i + 1, i + 1 + pat.len()));
        }
        lemma_replace_absent(t.skip(1), pat, repl);
        assert(t.take(1) + t.skip(1) =~= t);
    }
}

/// Where the leftmost occurrence of `pat` is its marked place, replacement
/// substitutes exactly there and then goes on to the right of it.
pub proof fn lemma_replace_at(x: Seq<u8>, pat: Seq<u8>, y: Seq<u8>, repl: Seq<u8>)
    requires
        pat.len() > 0,
        forall|i: int|
            0 <= i < x.len() ==> #[trigger] (x + pat + y).subrange(i, i + pat.len()) != pat,
    ensures
        replace_spec(x + pat + y, pat, repl) == x + repl + replace_spec(y, pat, repl),
    decreases x.len(),
{
    let t = x + pat + y;
    if x.len() == 0 {
        assert(t.take(pat.len() as int) =~= pat);
        assert(t.skip(pat.len() as int) =~= y);
        assert(x + repl + replace_spec(y, pat, repl) =~= repl + replace_spec(y, pat, repl));
    } else {
        assert(t.subrange(0, 0int + pat.len()) != pat);
        assert(t.take(pat.len() as int) =~= t.subrange(0, 0int + pat.len()));
        let x1 = x.drop_first();
        assert(t.skip(1) =~= x1 + pat + y);
        assert forall|i: int|
            0 <= i < x1.len() implies #[trigger] (x1 + pat + y).subrange(i, i + pat.len())
            != pat by {
            assert((x1 + pat + y).subrange(i, i + pat.len()) =~= t.subrange(
                i + 1,
                i + 1 + pat.len(),
            ));
        }
        lemma_replace_at(x1, pat, y, repl);
        assert(t.take(1) + (x1 + repl + replace_spec(y, pat, repl)) =~= x + repl + replace_spec(
            y,
            pat,
            repl,
        ));
    }
}

/// Order preservation: in a file whose three import directives stand in the
/// textual order first, second, third, substituting them in reverse order by
/// exact-text replacement leaves the three inlined bodies standing in that
/// same first-second-third order in the output, each in the place of its own
/// directive. The hypotheses say that each directive's text occurs only at
/// its marked place in the text it is replaced in.
pub proof fn lemma_order_preservation(
    x0: Seq<u8>,
    l1: Seq<u8>,
    x1: Seq<u8>,
    l2: Seq<u8>,
    x2: Seq<u8>,
    l3: Seq<u8>,
    x3: Seq<u8>,
    t1: Seq<u8>,
    t2: Seq<u8>,
    t3: Seq<u8>,
)
    requires
        l1.len() > 0,
        l2.len() > 0,
        l3.len() > 0,
        forall|i: int|
            0 <= i < (x0 + l1 + x1 + l2 + x2).len() ==> #[trigger] (x0 + l1 + x1 + l2 + x2 + l3
                + x3).subrange(i, i + l3.len()) != l3,
        pat_free(x3, l3),
        forall|i: int|
            0 <= i < (x0 + l1 + x1).len() ==> #[trigger] (x0 + l1 + x1 + l2 + x2 + t3
                + x3).subrange(i, i + l2.len()) != l2,
        pat_free(x2 + t3 + x3, l2),
        forall|i: int|
            0 <= i < x0.len() ==> #[trigger] (x0 + l1 + x1 + t2 + x2 + t3 + x3).subrange(
                i,
                i + l1.len(),
            ) != l1,
        pat_free(x1 + t2 + x2 + t3 + x3, l1),
    ensures
        replace_spec(
            replace_spec(replace_spec(x0 + l1 + x1 + l2 + x2 + l3 + x3, l3, t3), l2, t2),
            l1,
            t1,
        ) == x0 + t1 + x1 + t2 + x2 + t3 + x3,
{
    let a = x0 + l1 + x1 + l2 + x2;
    assert(a + l3 + x3 =~= x0 + l1 + x1 + l2 + x2 + l3 + x3);
    assert forall|i: int|
        0 <= i < a.len() implies #[trigger] (a + l3 + x3).subrange(i, i + l3.len()) != l3 by {
        assert((a + l3 + x3).subrange(i, i + l3.len()) =~= (x0 + l1 + x1 + l2 + x2 + l3
            + x3).subrange(i, i + l3.len()));
    }
    lemma_replace_at(a, l3, x3, t3);
    lemma_replace_absent(x3, l3, t3);
    let step1 = replace_spec(x0 + l1 + x1 + l2 + x2 + l3 + x3, l3, t3);
    assert(step1 == a + t3 + x3);
    assert(step1 =~= x0 + l1 + x1 + l2 + x2 + t3 + x3);

    let b = x0 + l1 + x1;
    let y2 = x2 + t3 + x3;
    assert(b + l2 + y2 =~= x0 + l1 + x1 + l2 + x2 + t3 + x3);
    assert forall|i: int|
        0 <= i < b.len() implies #[trigger] (b + l2 + y2).subrange(i, i + l2.len()) != l2 by {
        assert((b + l2 + y2).subrange(i, i + l2.len()) =~= (x0 + l1 + x1 + l2 + x2 + t3
            + x3).subrange(i, i + l2.len()));
    }
    lemma_replace_at(b, l2, y2, t2);
    lemma_replace_absent(y2, l2, t2);
    let step2 = replace_spec(step1, l2, t2);
    assert(step2 == b + t2 + y2);
    assert(step2 =~= x0 + l1 + x1 + t2 + x2 + t3 + x3);

    let y1 = x1 + t2 + x2 + t3 + x3;
    assert(x0 + l1 + y1 =~= x0 + l1 + x1 + t2 + x2 + t3 + x3);
    assert forall|i: int|
        0 <= i < x0.len() implies #[trigger] (x0 + l1 + y1).subrange(i, i + l1.len()) != l1 by {
        assert((x0 + l1 + y1).subrange(i, i + l1.len()) =~= (x0 + l1 + x1 + t2 + x2 + t3
            + x3).subrange(i, i + l1.len()));
    }
    lemma_replace_at(x0, l1, y1, t1);
    lemma_replace_absent(y1, l1, t1);
    let step3 = replace_spec(step2, l1, t1);
    assert(step3 == x0 + t1 + y1);
    assert(step3 =~= x0 + t1 + x1 + t2 + x2 + t3 + x3);
}

} // verus!
