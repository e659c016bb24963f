use vstd::prelude::*;

verus! {

/// The newline byte.
pub const NEWLINE: u8 = 10;

/// The `"` byte.
pub const DQUOTE: u8 = 34;

/// The `'` byte.
pub const SQUOTE: u8 = 39;

/// The `;` byte.
pub const SEMI: u8 = 59;

/// One textual import directive found inside a file's content.
pub struct ImportOccurrence {
    /// The raw path as written in the source, not yet normalized.
    pub target: Vec<u8>,
    /// 1-based line number where the directive starts (diagnostic use only).
    pub line: usize,
    /// The exact substring of the file that constitutes the whole directive;
    /// this substring is what inlining later replaces.
    pub literal: Vec<u8>,
}

/// Mathematical model of an `ImportOccurrence`.
pub ghost struct ImportV {
    pub target: Seq<u8>,
    pub line: int,
    pub literal: Seq<u8>,
}

impl View for ImportOccurrence {
    type V = ImportV;

    open spec fn view(&self) -> ImportV {
        ImportV { target: self.target@, line: self.line as int, literal: self.literal@ }
    }
}

impl DeepView for ImportOccurrence {
    type V = ImportV;

    open spec fn deep_view(&self) -> ImportV {
        self.view()
    }
}

/// The deep view of an occurrence vector indexes to the views of its
/// occurrences.
pub broadcast proof fn lemma_imports_deep_view(v: Vec<ImportOccurrence>)
    ensures
        (#[trigger] v.deep_view()).len() == v@.len(),
        forall|i: int| 0 <= i < v@.len() ==> v.deep_view()[i] == v@[i]@,
{
}

/// Whitespace that may separate the keyword from the path without ending the
/// line: space, tab, carriage return, vertical tab, form feed.
pub open spec fn is_space(c: u8) -> bool {
    c == 32 || c == 9 || c == 13 || c == 11 || c == 12
}

/// A byte that may stand in an unquoted path: anything but whitespace, a
/// newline or a semicolon.
pub open spec fn is_path_char(c: u8) -> bool {
    !is_space(c) && c != NEWLINE && c != SEMI
}

/// The bytes of the keyword `import`.
pub open spec fn import_kw() -> Seq<u8> {
    seq![105u8, 109u8, 112u8, 111u8, 114u8, 116u8]
}

/// The first position at or after `i` that does not hold whitespace.
pub open spec fn ws_end(t: Seq<u8>, i: int) -> int
    decreases t.len() - i,
{
    if i < t.len() && 0 <= i && is_space(t[i]) {
        ws_end(t, i + 1)
    } else {
        i
    }
}

/// The first position at or after `i` that cannot stand in an unquoted path.
pub open spec fn run_end(t: Seq<u8>, i: int) -> int
    decreases t.len() - i,
{
    if i < t.len() && 0 <= i && is_path_char(t[i]) {
        run_end(t, i + 1)
    } else {
        i
    }
}

/// The position of the next `q` byte at or after `i`, provided no newline
/// stands before it: a quoted path never crosses a line break.
pub open spec fn find_quote(t: Seq<u8>, i: int, q: u8) -> Option<int>
    decreases t.len() - i,
{
    if i < 0 || i >= t.len() {
        None
    } else if t[i] == q {
        Some(i)
    } else if t[i] == NEWLINE {
        None
    } else {
        find_quote(t, i + 1, q)
    }
}

/// An unquoted path match starting at position `w`: the maximal nonempty run
/// of path bytes. Yields the raw target and the end of the whole directive.
pub open spec fn unquoted_match(t: Seq<u8>, w: int) -> Option<(Seq<u8>, int)> {
    let e = run_end(t, w);
    if e > w {
        Some((t.subrange(w, e), e))
    } else {
        None
    }
}

/// A quoted path match whose opening quote `q` stands at `w`: the bytes up to
/// the next closing quote, which must enclose at least one byte. Where no
/// such quote follows, the opening quote starts an unquoted run instead, as
/// the one pattern with ordered alternatives behaves.
pub open spec fn quoted_match(t: Seq<u8>, w: int, q: u8) -> Option<(Seq<u8>, int)> {
    match find_quote(t, w + 1, q) {
        Some(m) => if m > w + 1 {
            Some((t.subrange(w + 1, m), m + 1))
        } else {
            unquoted_match(t, w)
        },
        None => unquoted_match(t, w),
    }
}

/// A directive match starting exactly at position `i`: the keyword `import`,
/// at least one whitespace byte, then a double-quoted, single-quoted or
/// unquoted path. Yields the raw target and the end of the directive.
pub open spec fn match_at(t: Seq<u8>, i: int) -> Option<(Seq<u8>, int)> {
    if 0 <= i && i + 6 <= t.len() && t.subrange(i, i + 6) == import_kw() {
        let w = ws_end(t, i + 6);
        if w == i + 6 || w >= t.len() {
            None
        } else if t[w] == DQUOTE {
            quoted_match(t, w, DQUOTE)
        } else if t[w] == SQUOTE {
            quoted_match(t, w, SQUOTE)
        } else {
            unquoted_match(t, w)
        }
    } else {
        None
    }
}

/// All directives found from position `i` on, leftmost first and
/// non-overlapping, `line` being the 1-based line number of position `i`.
/// Since no directive can contain a newline, this order is line order, then
/// left-to-right within a line.
pub open spec fn scan_from(t: Seq<u8>, i: int, line: int) -> Seq<ImportV>
    decreases t.len() - i,
{
    if i < 0 || i >= t.len() {
        Seq::empty()
    } else {
        match match_at(t, i) {
            Some((target, e)) => if i < e <= t.len() {
                seq![ImportV { target, line, literal: t.subrange(i, e) }] + scan_from(t, e, line)
            } else {
                Seq::empty()
            },
            None => scan_from(t, i + 1, if t[i] == NEWLINE { line + 1 } else { line }),
        }
    }
}

/// The ordered directives of a file's text, counting lines from 1.
pub open spec fn scan_spec(t: Seq<u8>) -> Seq<ImportV> {
    scan_from(t, 0, 1)
}

/// Bounds of the whitespace scan.
pub proof fn lemma_ws_end_bounds(t: Seq<u8>, i: int)
    requires
        0 <= i <= t.len(),
    ensures
        i <= ws_end(t, i) <= t.len(),
    decreases t.len() - i,
{
    if i < t.len() && is_space(t[i]) {
        lemma_ws_end_bounds(t, i + 1);
    }
}

/// Bounds of the unquoted-run scan.
pub proof fn lemma_run_end_bounds(t: Seq<u8>, i: int)
    requires
        0 <= i <= t.len(),
    ensures
        i <= run_end(t, i) <= t.len(),
    decreases t.len() - i,
{
    if i < t.len() && is_path_char(t[i]) {
        lemma_run_end_bounds(t, i + 1);
    }
}

/// Bounds of the quote search.
pub proof fn lemma_find_quote_bounds(t: Seq<u8>, i: int, q: u8)
    requires
        0 <= i,
    ensures
        match find_quote(t, i, q) {
            Some(m) => i <= m < t.len() && t[m] == q,
            None => true,
        },
    decreases t.len() - i,
{
    if i < t.len() && t[i] != q && t[i] != NEWLINE {
        lemma_find_quote_bounds(t, i + 1, q);
    }
}

/// A successful match ends strictly after its start and within the text.
pub proof fn lemma_match_at_advance(t: Seq<u8>, i: int)
    ensures
        match match_at(t, i) {
            Some(pair) => i < pair.1 <= t.len(),
            None => true,
        },
{
    if 0 <= i && i + 6 <= t.len() && t.subrange(i, i + 6) == import_kw() {
        lemma_ws_end_bounds(t, i + 6);
        let w = ws_end(t, i + 6);
        if !(w == i + 6 || w >= t.len()) {
            lemma_run_end_bounds(t, w);
            if t[w] == DQUOTE {
                lemma_find_quote_bounds(t, w + 1, DQUOTE);
            }
            if t[w] == SQUOTE {
                lemma_find_quote_bounds(t, w + 1, SQUOTE);
            }
        }
    }
}

/// Tests whitespace executably.
fn space_byte(c: u8) -> (r: bool)
    ensures
        r == is_space(c),
{
    c == 32 || c == 9 || c == 13 || c == 11 || c == 12
}

/// Tests an unquoted path byte executably.
fn path_byte(c: u8) -> (r: bool)
    ensures
        r == is_path_char(c),
{
    !(c == 32 || c == 9 || c == 13 || c == 11 || c == 12) && c != NEWLINE && c != SEMI
}

/// A fresh copy of the byte range `[a, b)` of `t`.
fn copy_range(t: &Vec<u8>, a: usize, b: usize) -> (r: Vec<u8>)
    requires
        a <= b <= t@.len(),
    ensures
        r@ == t@.subrange(a as int, b as int),
{
    let mut r: Vec<u8> = Vec::new();
    let mut j: usize = a;
    while j < b
        invariant
            a <= j <= b <= t@.len(),
            r@ == t@.subrange(a as int, j as int),
        decreases b - j,
    {
        r.push(t[j]);
        proof {
            assert(t@.subrange(a as int, j + 1) =~= t@.subrange(a as int, j as int).push(
                t@[j as int],
            ));
        }
        j = j + 1;
    }
    r
}

/// Scans past whitespace.
fn ws_scan(t: &Vec<u8>, start: usize) -> (r: usize)
    requires
        start <= t@.len(),
    ensures
        r == ws_end(t@, start as int),
        start <= r <= t@.len(),
{
    let mut j: usize = start;
    while j < t.len() && space_byte(t[j])
        invariant
            start <= j <= t@.len(),
            ws_end(t@, start as int) == ws_end(t@, j as int),
        decreases t@.len() - j,
    {
        j = j + 1;
    }
    j
}

/// Scans past unquoted path bytes.
fn run_scan(t: &Vec<u8>, start: usize) -> (r: usize)
    requires
        start <= t@.len(),
    ensures
        r == run_end(t@, start as int),
        start <= r <= t@.len(),
{
    let mut j: usize = start;
    while j < t.len() && path_byte(t[j])
        invariant
            start <= j <= t@.len(),
            run_end(t@, start as int) == run_end(t@, j as int),
        decreases t@.len() - j,
    {
        j = j + 1;
    }
    j
}

/// Finds the next `q` byte on the current line.
fn quote_scan(t: &Vec<u8>, start: usize, q: u8) -> (r: Option<usize>)
    requires
        start <= t@.len(),
    ensures
        match r {
            Some(m) => find_quote(t@, start as int, q) == Some(m as int) && start <= m
                < t@.len(),
            None => find_quote(t@, start as int, q) is None,
        },
{
    let mut j: usize = start;
    while j < t.len() && t[j] != q && t[j] != NEWLINE
        invariant
            start <= j <= t@.len(),
            find_quote(t@, start as int, q) == find_quote(t@, j as int, q),
        decreases t@.len() - j,
    {
        j = j + 1;
    }
    if j < t.len() && t[j] == q {
        Some(j)
    } else {
        None
    }
}

/// The unquoted alternative at position `w`.
fn unquoted_scan(t: &Vec<u8>, w: usize) -> (r: Option<(Vec<u8>, usize)>)
    requires
        w <= t@.len(),
    ensures
        match r {
            Some(pair) => unquoted_match(t@, w as int) == Some((pair.0@, pair.1 as int)) && w
                < pair.1 <= t@.len(),
            None => unquoted_match(t@, w as int) is None,
        },
{
    let e = run_scan(t, w);
    if e > w {
        let target = copy_range(t, w, e);
        Some((target, e))
    } else {
        None
    }
}

/// Tries to match a whole directive starting exactly at position `i`.
fn match_at_exec(t: &Vec<u8>, i: usize) -> (r: Option<(Vec<u8>, usize)>)
    requires
        i < t@.len(),
    ensures
        match r {
            Some(pair) => match_at(t@, i as int) == Some((pair.0@, pair.1 as int)) && i < pair.1
                <= t@.len(),
            None => match_at(t@, i as int) is None,
        },
{
    if !(t.len() - i >= 6 && t[i] == 105 && t[i + 1] == 109 && t[i + 2] == 112 && t[i + 3] == 111
        && t[i + 4] == 114 && t[i + 5] == 116) {
        proof {
            if i + 6 <= t@.len() {
                assert(t@.subrange(i as int, i + 6) != import_kw()) by {
                    if t@.subrange(i as int, i + 6) == import_kw() {
                        assert(t@.subrange(i as int, i + 6)[0] == 105);
                        assert(t@.subrange(i as int, i + 6)[1] == 109);
                        assert(t@.subrange(i as int, i + 6)[2] == 112);
                        assert(t@.subrange(i as int, i + 6)[3] == 111);
                        assert(t@.subrange(i as int, i + 6)[4] == 114);
                        assert(t@.subrange(i as int, i + 6)[5] == 116);
                    }
                }
            }
        }
        return None;
    }
    proof {
        assert(t@.subrange(i as int, i + 6) =~= import_kw());
    }
    let w = ws_scan(t, i + 6);
    if w == i + 6 || w >= t.len() {
        return None;
    }
    let c = t[w];
    if c == DQUOTE || c == SQUOTE {
        match quote_scan(t, w + 1, c) {
            Some(m) => {
                if m > w + 1 {
                    let target = copy_range(t, w + 1, m);
                    Some((target, m + 1))
                } else {
                    unquoted_scan(t, w)
                }
            },
            None => unquoted_scan(t, w),
        }
    } else {
        unquoted_scan(t, w)
    }
}

/// Finds the ordered import directives of a file's text: the keyword
/// `import`, whitespace, then a double-quoted, single-quoted or unquoted
/// path, scanning leftmost-first without overlap. A directive never crosses
/// a line break, so this is line order, then left-to-right within each line.
pub fn parse_imports(content: &Vec<u8>) -> (r: Vec<ImportOccurrence>)
    requires
        content@.len() < usize::MAX,
    ensures
        r.deep_view() == scan_spec(content@),
{
    let mut r: Vec<ImportOccurrence> = Vec::new();
    let mut i: usize = 0;
    let mut line: usize = 1;
    proof {
        lemma_imports_deep_view(r);
        assert(r.deep_view() + scan_from(content@, 0, 1) =~= scan_spec(content@));
    }
    while i < content.len()
        invariant
            content@.len() < usize::MAX,
            0 <= i <= content@.len(),
            1 <= line <= i + 1,
            r.deep_view() + scan_from(content@, i as int, line as int) == scan_spec(content@),
        decreases content@.len() - i,
    {
        let ghost r_before = r;
        match match_at_exec(content, i) {
            Some((target, e)) => {
                proof {
                    lemma_match_at_advance(content@, i as int);
                }
                let literal = copy_range(content, i, e);
                r.push(ImportOccurrence { target, line, literal });
                proof {
                    lemma_imports_deep_view(r_before);
                    lemma_imports_deep_view(r);
                    assert(r.deep_view() =~= r_before.deep_view().push(
                        ImportV {
                            target: match_at(content@, i as int)->Some_0.0,
                            line: line as int,
                            literal: content@.subrange(i as int, e as int),
                        },
                    ));
                    assert(r.deep_view() + scan_from(content@, e as int, line as int)
                        =~= scan_spec(content@));
                }
                i = e;
            },
            None => {
                let c = content[i];
                proof {
                    assert(scan_from(content@, i as int, line as int) == scan_from(
                        content@,
                        i + 1,
                        if c == NEWLINE {
                            line + 1
                        } else {
                            line as int
                        },
                    ));
                }
                if c == NEWLINE {
                    line = line + 1;
                }
                i = i + 1;
            },
        }
    }
    r
}

} // verus!
