use vstd::prelude::*;
use crate::errors::{BundleError, ErrV};

verus! {

/// The path separator byte, `/`.
pub const SLASH: u8 = 47;

/// The byte of `.`.
pub const DOT: u8 = 46;

/// A canonical absolute file identity: the list of path segments below the
/// root, already simplified (no empty, `.` or `..` segments). Two references
/// to the same file always normalize to equal segment lists, which is the
/// sole notion of file equality used throughout the bundler.
#[derive(Debug)]
pub struct FilePath {
    pub segs: Vec<Vec<u8>>,
}

/// The deep view of a byte vector is its plain view.
pub broadcast proof fn lemma_bytes_deep_view(v: Vec<u8>)
    ensures
        #[trigger] v.deep_view() == v@,
{
    assert(v.deep_view() =~= v@);
}

/// The deep view of a segment vector indexes to the plain views of its
/// segments.
pub broadcast proof fn lemma_segs_deep_view(v: Vec<Vec<u8>>)
    ensures
        (#[trigger] v.deep_view()).len() == v@.len(),
        forall|i: int| 0 <= i < v@.len() ==> v.deep_view()[i] == v@[i]@,
{
    broadcast use lemma_bytes_deep_view;

}

impl View for FilePath {
    type V = Seq<Seq<u8>>;

    open spec fn view(&self) -> Seq<Seq<u8>> {
        self.segs.deep_view()
    }
}

/// A well-formed segment of a canonical path: nonempty, holds no separator,
/// and is not one of the special `.` / `..` components.
pub open spec fn seg_wf(s: Seq<u8>) -> bool {
    s.len() > 0 && !s.contains(SLASH) && s != seq![DOT] && s != seq![DOT, DOT]
}

/// A canonical segment list: every segment is well-formed.
pub open spec fn canonical(p: Seq<Seq<u8>>) -> bool {
    forall|i: int| 0 <= i < p.len() ==> seg_wf(#[trigger] p[i])
}

/// Splitting a byte string on `/`. Splitting the empty string gives one
/// empty segment, as the usual string split does.
pub open spec fn split_slash(s: Seq<u8>) -> Seq<Seq<u8>>
    decreases s.len(),
{
    if s.len() == 0 {
        seq![Seq::<u8>::empty()]
    } else {
        let init = split_slash(s.drop_last());
        if s.last() == SLASH {
            init.push(Seq::<u8>::empty())
        } else {
            init.update(init.len() - 1, init.last().push(s.last()))
        }
    }
}

/// One step of lexical cleaning: empty and `.` segments vanish, `..` removes
/// the previous segment (or nothing at the root), anything else is kept.
pub open spec fn clean_step(acc: Seq<Seq<u8>>, seg: Seq<u8>) -> Seq<Seq<u8>> {
    if seg.len() == 0 || seg == seq![DOT] {
        acc
    } else if seg == seq![DOT, DOT] {
        if acc.len() == 0 {
            acc
        } else {
            acc.drop_last()
        }
    } else {
        acc.push(seg)
    }
}

/// Lexical cleaning of the segments `parts`, appended to the already-clean
/// prefix `acc`.
pub open spec fn clean_from(acc: Seq<Seq<u8>>, parts: Seq<Seq<u8>>) -> Seq<Seq<u8>>
    decreases parts.len(),
{
    if parts.len() == 0 {
        acc
    } else {
        clean_from(clean_step(acc, parts.first()), parts.drop_first())
    }
}

/// A reference is absolute when it starts with the separator.
pub open spec fn is_absolute_ref(r: Seq<u8>) -> bool {
    r.len() > 0 && r[0] == SLASH
}

/// Resolving a reference against an (absolute, canonical) directory:
/// an absolute reference stands alone; a relative one is anchored at the
/// directory. Either way the result is cleaned.
pub open spec fn resolve_in_dir(r: Seq<u8>, dir: Seq<Seq<u8>>) -> Seq<Seq<u8>> {
    if is_absolute_ref(r) {
        clean_from(Seq::empty(), split_slash(r))
    } else {
        clean_from(dir, split_slash(r))
    }
}

/// Resolving an import target against the file that contains it: an absolute
/// target stands alone; a relative one is anchored at the containing file's
/// parent directory, which the root does not have.
pub open spec fn resolve_import_spec(target: Seq<u8>, containing: Seq<Seq<u8>>) -> Result<
    Seq<Seq<u8>>,
    ErrV,
> {
    if is_absolute_ref(target) {
        Ok(clean_from(Seq::empty(), split_slash(target)))
    } else if containing.len() == 0 {
        Err(ErrV::PathError { file: containing })
    } else {
        Ok(clean_from(containing.drop_last(), split_slash(target)))
    }
}

/// The textual form of the segments of a canonical path: each is preceded
/// by `/`.
pub open spec fn path_text_rec(p: Seq<Seq<u8>>) -> Seq<u8>
    decreases p.len(),
{
    if p.len() == 0 {
        Seq::empty()
    } else {
        path_text_rec(p.drop_last()) + seq![SLASH] + p.last()
    }
}

/// The textual form of a canonical path; the root alone is written `/`.
pub open spec fn path_text(p: Seq<Seq<u8>>) -> Seq<u8> {
    if p.len() == 0 {
        seq![SLASH]
    } else {
        path_text_rec(p)
    }
}

/// Splitting always produces at least one segment.
pub proof fn lemma_split_nonempty(s: Seq<u8>)
    ensures
        split_slash(s).len() >= 1,
    decreases s.len(),
{
    if s.len() > 0 {
        lemma_split_nonempty(s.drop_last());
    }
}

/// No segment produced by splitting contains the separator.
pub proof fn lemma_split_no_slash(s: Seq<u8>)
    ensures
        forall|i: int|
            0 <= i < split_slash(s).len() ==> !(#[trigger] split_slash(s)[i]).contains(SLASH),
    decreases s.len(),
{
    if s.len() == 0 {
        assert(!split_slash(s)[0].contains(SLASH));
    } else {
        lemma_split_no_slash(s.drop_last());
        lemma_split_nonempty(s.drop_last());
        let init = split_slash(s.drop_last());
        if s.last() != SLASH {
            let ext = init.last().push(s.last());
            assert forall|j: int| 0 <= j < ext.len() implies ext[j] != SLASH by {
                if j < init.last().len() {
                    assert(!init.last().contains(SLASH));
                    assert(init.last()[j] != SLASH);
                }
            }
            assert(!ext.contains(SLASH));
        }
    }
}

/// Cleaning separator-free segments onto a canonical prefix yields a
/// canonical path.
pub proof fn lemma_clean_from_canonical(acc: Seq<Seq<u8>>, parts: Seq<Seq<u8>>)
    requires
        canonical(acc),
        forall|i: int| 0 <= i < parts.len() ==> !(#[trigger] parts[i]).contains(SLASH),
    ensures
        canonical(clean_from(acc, parts)),
    decreases parts.len(),
{
    if parts.len() > 0 {
        let stepped = clean_step(acc, parts.first());
        assert(canonical(stepped)) by {
            if !(parts.first().len() == 0 || parts.first() == seq![DOT] || parts.first() == seq![
                DOT,
                DOT,
            ]) {
                assert(seg_wf(parts.first()));
                assert(forall|i: int|
                    0 <= i < stepped.len() ==> seg_wf(#[trigger] stepped[i]));
            }
        }
        lemma_clean_from_canonical(stepped, parts.drop_first());
    }
}

/// Cleaning a path that is already canonical only appends its segments:
/// normalization is idempotent.
pub proof fn lemma_clean_canonical_fixpoint(acc: Seq<Seq<u8>>, parts: Seq<Seq<u8>>)
    requires
        canonical(parts),
    ensures
        clean_from(acc, parts) == acc + parts,
    decreases parts.len(),
{
    if parts.len() == 0 {
        assert(clean_from(acc, parts) =~= acc + parts);
    } else {
        assert(seg_wf(parts.first()));
        assert(clean_step(acc, parts.first()) == acc.push(parts.first()));
        assert(canonical(parts.drop_first()));
        lemma_clean_canonical_fixpoint(acc.push(parts.first()), parts.drop_first());
        assert(acc.push(parts.first()) + parts.drop_first() =~= acc + parts);
    }
}

/// A canonical absolute path, normalized again, is unchanged.
pub proof fn lemma_normalize_idempotent(p: Seq<Seq<u8>>)
    requires
        canonical(p),
    ensures
        clean_from(Seq::empty(), p) == p,
{
    lemma_clean_canonical_fixpoint(Seq::empty(), p);
    assert(Seq::<Seq<u8>>::empty() + p =~= p);
}

/// Byte-for-byte equality of two byte vectors.
pub fn bytes_eq(a: &Vec<u8>, b: &Vec<u8>) -> (r: bool)
    ensures
        r == (a@ == b@),
{
    if a.len() != b.len() {
        return false;
    }
    let mut i: usize = 0;
    while i < a.len()
        invariant
            0 <= i <= a.len(),
            a.len() == b.len(),
            forall|j: int| 0 <= j < i ==> a@[j] == b@[j],
        decreases a.len() - i,
    {
        if a[i] != b[i] {
            return false;
        }
        i = i + 1;
    }
    proof {
        assert(a@ =~= b@);
    }
    true
}

/// A fresh copy of a byte vector.
pub fn copy_bytes(a: &Vec<u8>) -> (r: Vec<u8>)
    ensures
        r@ == a@,
{
    let mut r: Vec<u8> = Vec::new();
    let mut i: usize = 0;
    while i < a.len()
        invariant
            0 <= i <= a.len(),
            r@ == a@.take(i as int),
        decreases a.len() - i,
    {
        r.push(a[i]);
        proof {
            assert(a@.take(i + 1) =~= a@.take(i as int).push(a@[i as int]));
        }
        i = i + 1;
    }
    proof {
        assert(a@.take(a@.len() as int) =~= a@);
    }
    r
}

impl FilePath {
    /// Segment-for-segment equality with another path.
    pub fn equals(&self, other: &FilePath) -> (r: bool)
        ensures
            r == (self@ == other@),
    {
        broadcast use {lemma_bytes_deep_view, lemma_segs_deep_view};

        if self.segs.len() != other.segs.len() {
            return false;
        }
        let mut i: usize = 0;
        while i < self.segs.len()
            invariant
                0 <= i <= self.segs.len(),
                self.segs.len() == other.segs.len(),
                forall|j: int| 0 <= j < i ==> self@[j] == other@[j],
            decreases self.segs.len() - i,
        {
            if !bytes_eq(&self.segs[i], &other.segs[i]) {
                proof {
                    lemma_segs_deep_view(self.segs);
                    lemma_segs_deep_view(other.segs);
                    assert(self@[i as int] == self.segs@[i as int]@);
                    assert(other@[i as int] == other.segs@[i as int]@);
                    assert(self@[i as int] != other@[i as int]);
                }
                return false;
            }
            i = i + 1;
        }
        proof {
            assert(self@ =~= other@);
        }
        true
    }

    /// A fresh copy of this path.
    pub fn duplicate(&self) -> (r: FilePath)
        ensures
            r@ == self@,
    {
        broadcast use {lemma_bytes_deep_view, lemma_segs_deep_view};

        let mut segs: Vec<Vec<u8>> = Vec::new();
        let mut i: usize = 0;
        while i < self.segs.len()
            invariant
                0 <= i <= self.segs.len(),
                segs.deep_view() == self@.take(i as int),
            decreases self.segs.len() - i,
        {
            let ghost segs_before = segs;
            segs.push(copy_bytes(&self.segs[i]));
            proof {
                lemma_segs_deep_view(segs_before);
                lemma_segs_deep_view(segs);
                lemma_segs_deep_view(self.segs);
                assert(segs.deep_view() =~= self@.take(i + 1));
            }
            i = i + 1;
        }
        proof {
            assert(self@.take(self@.len() as int) =~= self@);
        }
        FilePath { segs }
    }

    /// The textual form of this path, each segment preceded by `/`; the root
    /// alone is `/`.
    pub fn to_text(&self) -> (r: Vec<u8>)
        ensures
            r@ == path_text(self@),
    {
        broadcast use {lemma_bytes_deep_view, lemma_segs_deep_view};

        let mut r: Vec<u8> = Vec::new();
        if self.segs.len() == 0 {
            r.push(SLASH);
            proof {
                assert(r@ =~= seq![SLASH]);
            }
            return r;
        }
        let mut i: usize = 0;
        proof {
            assert(r@ =~= path_text_rec(self@.take(0)));
        }
        while i < self.segs.len()
            invariant
                0 <= i <= self.segs.len(),
                r@ == path_text_rec(self@.take(i as int)),
            decreases self.segs.len() - i,
        {
            r.push(SLASH);
            proof {
                assert(r@ =~= path_text_rec(self@.take(i as int)) + seq![SLASH]
                    + self@[i as int].take(0));
            }
            let mut j: usize = 0;
            while j < self.segs[i].len()
                invariant
                    0 <= i < self.segs.len(),
                    0 <= j <= self.segs[i as int].len(),
                    r@ == path_text_rec(self@.take(i as int)) + seq![SLASH] + self@[i as int].take(
                        j as int,
                    ),
                decreases self.segs[i as int].len() - j,
            {
                r.push(self.segs[i][j]);
                proof {
                    assert(self@[i as int].take(j + 1) =~= self@[i as int].take(j as int).push(
                        self@[i as int][j as int],
                    ));
                    assert(r@ =~= path_text_rec(self@.take(i as int)) + seq![SLASH]
                        + self@[i as int].take(j + 1));
                }
                j = j + 1;
            }
            proof {
                assert(self@[i as int].take(self@[i as int].len() as int) =~= self@[i as int]);
                assert(self@.take(i + 1).drop_last() =~= self@.take(i as int));
                assert(self@.take(i + 1).last() == self@[i as int]);
            }
            i = i + 1;
        }
        proof {
            assert(self@.take(self@.len() as int) =~= self@);
        }
        r
    }
}

/// Splits a byte string into its `/`-separated segments.
fn split_bytes(s: &Vec<u8>) -> (r: Vec<Vec<u8>>)
    ensures
        r.deep_view() == split_slash(s@),
{
    broadcast use {lemma_bytes_deep_view, lemma_segs_deep_view};

    let mut done: Vec<Vec<u8>> = Vec::new();
    let mut cur: Vec<u8> = Vec::new();
    let mut i: usize = 0;
    proof {
        assert(done.deep_view().push(cur@) =~= split_slash(s@.take(0)));
    }
    while i < s.len()
        invariant
            0 <= i <= s.len(),
            split_slash(s@.take(i as int)) == done.deep_view().push(cur@),
        decreases s.len() - i,
    {
        proof {
            assert(s@.take(i + 1).drop_last() =~= s@.take(i as int));
            assert(s@.take(i + 1).last() == s@[i as int]);
        }
        let ghost prev = split_slash(s@.take(i as int));
        let ghost done_before = done;
        let ghost cur_before = cur;
        if s[i] == SLASH {
            done.push(cur);
            cur = Vec::new();
            proof {
                lemma_segs_deep_view(done_before);
                lemma_segs_deep_view(done);
                assert(done.deep_view() =~= prev);
                assert(split_slash(s@.take(i + 1)) == prev.push(Seq::<u8>::empty()));
                assert(done.deep_view().push(cur@) =~= prev.push(Seq::<u8>::empty()));
            }
        } else {
            let c = s[i];
            cur.push(c);
            proof {
                assert(prev.len() >= 1) by {
                    lemma_split_nonempty(s@.take(i as int));
                }
                assert(split_slash(s@.take(i + 1)) == prev.update(
                    prev.len() - 1,
                    prev.last().push(c),
                ));
                assert(done.deep_view().push(cur@) =~= prev.update(
                    prev.len() - 1,
                    prev.last().push(c),
                ));
            }
        }
        i = i + 1;
    }
    proof {
        assert(s@.take(s@.len() as int) =~= s@);
    }
    done.push(cur);
    proof {
        assert(done.deep_view() =~= split_slash(s@));
    }
    done
}

/// Applies one cleaning step to the accumulated segments.
fn clean_push(acc: &mut Vec<Vec<u8>>, seg: Vec<u8>)
    ensures
        final(acc).deep_view() == clean_step(old(acc).deep_view(), seg@),
{
    broadcast use {lemma_bytes_deep_view, lemma_segs_deep_view};

    let is_dot = seg.len() == 1 && seg[0] == DOT;
    let is_dotdot = seg.len() == 2 && seg[0] == DOT && seg[1] == DOT;
    proof {
        if is_dot {
            assert(seg@ =~= seq![DOT]);
        } else {
            assert(seg@ != seq![DOT]);
        }
        if is_dotdot {
            assert(seg@ =~= seq![DOT, DOT]);
        } else {
            assert(seg@ != seq![DOT, DOT]);
        }
    }
    if seg.len() == 0 || is_dot {
    } else if is_dotdot {
        if acc.len() > 0 {
            let _popped = acc.pop();
            proof {
                assert(acc.deep_view() =~= old(acc).deep_view().drop_last());
            }
        }
    } else {
        acc.push(seg);
        proof {
            assert(acc.deep_view() =~= old(acc).deep_view().push(seg@));
        }
    }
}

/// Cleans the segments of `parts` onto the prefix `acc`.
fn clean_all(acc: Vec<Vec<u8>>, parts: Vec<Vec<u8>>) -> (r: Vec<Vec<u8>>)
    ensures
        r.deep_view() == clean_from(acc.deep_view(), parts.deep_view()),
{
    broadcast use {lemma_bytes_deep_view, lemma_segs_deep_view};

    let ghost acc0 = acc.deep_view();
    let ghost parts0 = parts.deep_view();
    let mut acc = acc;
    let mut parts = parts;
    while parts.len() > 0
        invariant
            clean_from(acc0, parts0) == clean_from(acc.deep_view(), parts.deep_view()),
        decreases parts.len(),
    {
        let ghost acc_before = acc.deep_view();
        let ghost parts_before = parts.deep_view();
        let seg = parts.remove(0);
        proof {
            assert(parts.deep_view() =~= parts_before.drop_first());
            assert(seg@ == parts_before.first());
        }
        clean_push(&mut acc, seg);
        proof {
            assert(clean_from(acc_before, parts_before) == clean_from(
                acc.deep_view(),
                parts.deep_view(),
            ));
        }
    }
    acc
}

/// Resolves a reference against an absolute directory, cleaning the result.
pub fn resolve_ref(reference: &Vec<u8>, dir: &FilePath) -> (r: FilePath)
    ensures
        r@ == resolve_in_dir(reference@, dir@),
{
    broadcast use {lemma_bytes_deep_view, lemma_segs_deep_view};

    let parts = split_bytes(reference);
    let segs = if reference.len() > 0 && reference[0] == SLASH {
        let empty_acc: Vec<Vec<u8>> = Vec::new();
        proof {
            assert(empty_acc.deep_view() =~= Seq::<Seq<u8>>::empty());
        }
        clean_all(empty_acc, parts)
    } else {
        let base = dir.duplicate();
        clean_all(base.segs, parts)
    };
    FilePath { segs }
}

/// Resolves the entry reference against the working directory, giving the
/// run's starting identity.
pub fn resolve_entry(entry: &Vec<u8>, cwd: &FilePath) -> (r: FilePath)
    ensures
        r@ == resolve_in_dir(entry@, cwd@),
{
    resolve_ref(entry, cwd)
}

/// Resolves an import target against the file containing it: an absolute
/// target stands alone, a relative one is anchored at the containing file's
/// parent directory. Fails with `PathError` when the containing file has no
/// parent.
pub fn resolve_import_path(target: &Vec<u8>, current_file: &FilePath) -> (r: Result<
    FilePath,
    BundleError,
>)
    ensures
        match r {
            Ok(p) => resolve_import_spec(target@, current_file@) == Ok::<Seq<Seq<u8>>, ErrV>(p@),
            Err(e) => resolve_import_spec(target@, current_file@) == Err::<Seq<Seq<u8>>, ErrV>(e@),
        },
{
    broadcast use {lemma_bytes_deep_view, lemma_segs_deep_view};

    if target.len() > 0 && target[0] == SLASH {
        let parts = split_bytes(target);
        let empty_acc: Vec<Vec<u8>> = Vec::new();
        proof {
            assert(empty_acc.deep_view() =~= Seq::<Seq<u8>>::empty());
        }
        let segs = clean_all(empty_acc, parts);
        Ok(FilePath { segs })
    } else if current_file.segs.len() == 0 {
        Err(BundleError::PathError { file: current_file.duplicate() })
    } else {
        let mut base = current_file.duplicate();
        let _last = base.segs.pop();
        proof {
            assert(base.segs.deep_view() =~= current_file@.drop_last());
        }
        let parts = split_bytes(target);
        let segs = clean_all(base.segs, parts);
        Ok(FilePath { segs })
    }
}

/// Reads a canonical identity out of an absolute textual path; a relative
/// reference has no identity of its own and yields nothing.
pub fn parse_absolute(bytes: &Vec<u8>) -> (r: Option<FilePath>)
    ensures
        match r {
            Some(p) => is_absolute_ref(bytes@) && p@ == clean_from(
                Seq::empty(),
                split_slash(bytes@),
            ) && canonical(p@),
            None => !is_absolute_ref(bytes@),
        },
{
    broadcast use {lemma_bytes_deep_view, lemma_segs_deep_view};

    if bytes.len() > 0 && bytes[0] == SLASH {
        let parts = split_bytes(bytes);
        let empty_acc: Vec<Vec<u8>> = Vec::new();
        proof {
            assert(empty_acc.deep_view() =~= Seq::<Seq<u8>>::empty());
            lemma_split_no_slash(bytes@);
            lemma_clean_from_canonical(Seq::empty(), split_slash(bytes@));
        }
        let segs = clean_all(empty_acc, parts);
        Some(FilePath { segs })
    } else {
        None
    }
}

} // verus!
