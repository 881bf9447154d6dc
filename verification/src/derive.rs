//! Auto-derive shader -> module bindings from the JS/TS `new Model({ modules })`
//! calls, so a project needs no config file. This is a heuristic scan (not a JS
//! parser), matching the conventional deck/luma shape:
//!
//! ```js
//! import DRAW_VS from './shaders/draw.vert.glsl?raw';
//! import { project32 } from '@deck.gl/core';
//! import { windUniforms } from './modules';
//! new Model(device, { vs: DRAW_VS, fs: DRAW_FS, modules: [project32, windUniforms] });
//! ```
//!
//! Each module is resolved to its GLSL source (a local module's `vs:` import) or
//! to the deck builtin prelude (a module imported from a package like @deck.gl).
//! Conservative — yields `None` when it can't confidently resolve, so the caller
//! falls back to explicit config or sibling discovery.

use vstd::prelude::*;
use crate::path::{file_name, file_name_exec, join, join_exec, parent, parent_exec};
use crate::workspace::{Workspace, WorkspaceModel, lookup};
use crate::text::{
    clone_strs, contains, contains_exec, ends_with, ends_with_exec, eq_chars, find_from, find_from_exec,
    from_chars, index_of, index_of_from, is_alphanumeric, is_ident, is_ident_exec, is_word, is_word_exec,
    lemma_find_from, lemma_index_of, lemma_sv_push, occurs_at, occurs_at_exec, rfind, rfind_exec, slice_vec,
    starts_with, starts_with_exec, sv, to_chars, trim, trim_start, trim_start_vec, trim_vec, unicode_alphanumeric,
    lemma_rfind_below,
};

verus! {

/// The modules a shader's `new Model(...)` call wires up.
#[derive(Debug)]
pub struct Derived {
    pub modules: Vec<String>,
    pub use_builtin_prelude: bool,
}

pub struct DerivedModel {
    pub modules: Seq<Seq<char>>,
    pub use_builtin_prelude: bool,
}

impl View for Derived {
    type V = DerivedModel;

    open spec fn view(&self) -> DerivedModel {
        DerivedModel { modules: sv(self.modules@), use_builtin_prelude: self.use_builtin_prelude }
    }
}

impl Derived {
    pub fn copy(&self) -> (r: Derived)
        ensures
            r@ == self@,
    {
        Derived { modules: clone_strs(&self.modules), use_builtin_prelude: self.use_builtin_prelude }
    }
}

// ---------------------------------------------------------------------------
// Small text helpers
// ---------------------------------------------------------------------------

/// An import specifier without its `?query` (`'./x.glsl?raw'` -> `./x.glsl`).
pub open spec fn strip_query(path: Seq<char>) -> Seq<char> {
    path.take(index_of(path, '?'))
}

pub fn strip_query_exec(path: &[char]) -> (r: Vec<char>)
    ensures
        r@ == strip_query(path@),
{
    let k = index_of_from(path, '?', 0);
    proof {
        assert(path@.skip(0) =~= path@);
    }
    slice_vec(path, 0, k)
}

/// A specifier of a local file rather than a package.
pub open spec fn is_relative(path: Seq<char>) -> bool {
    path.len() > 0 && (path[0] == '.' || path[0] == '/')
}

/// `ident` occurs in `text` as a whole word: not preceded or followed by an
/// identifier character.
pub open spec fn contains_ident_spec(text: Seq<char>, ident: Seq<char>) -> bool {
    exists|i: int| #[trigger] occurs_at(text, ident, i) && word_bounded(text, i, i + ident.len())
}

pub open spec fn word_bounded(text: Seq<char>, s: int, e: int) -> bool {
    (s == 0 || !is_word(text[s - 1])) && (e == text.len() || !is_word(text[e]))
}

/// Whether `ident` appears as a whole word in `text`.
pub fn contains_ident(text: &[char], ident: &[char]) -> (r: bool)
    ensures
        r == contains_ident_spec(text@, ident@),
{
    let mut i: usize = 0;
    loop
        invariant
            0 <= i <= text.len(),
            forall|j: int| 0 <= j < i ==> !(#[trigger] occurs_at(text@, ident@, j) && word_bounded(
                text@,
                j,
                j + ident@.len(),
            )),
        decreases text.len() - i,
    {
        if occurs_at_exec(text, ident, i) {
            let e = i + ident.len();
            let lhs = i == 0 || !is_word_exec(text[i - 1]);
            let rhs = e == text.len() || !is_word_exec(text[e]);
            if lhs && rhs {
                return true;
            }
        }
        if i == text.len() {
            proof {
                assert forall|j: int| !(#[trigger] occurs_at(text@, ident@, j) && word_bounded(text@, j, j + ident@.len())) by {
                    if j < 0 || j > text@.len() {
                        assert(!occurs_at(text@, ident@, j));
                    }
                }
            }
            return false;
        }
        i = i + 1;
    }
}

/// Where the bracket opened at `i` closes: scanning from `i` with `depth`
/// brackets open, the first `cb` that brings the depth to zero.
pub open spec fn close_from(text: Seq<char>, ob: char, cb: char, i: int, depth: nat) -> Option<int>
    decreases text.len() - i,
{
    if i < 0 || i >= text.len() {
        None
    } else if text[i] == ob {
        close_from(text, ob, cb, i + 1, depth + 1)
    } else if text[i] == cb {
        if depth <= 1 {
            Some(i)
        } else {
            close_from(text, ob, cb, i + 1, (depth - 1) as nat)
        }
    } else {
        close_from(text, ob, cb, i + 1, depth)
    }
}

/// The content between the bracket `ob` at `open` and its matching `cb`
/// (nested pairs skipped), and the index just past the match.
pub open spec fn bracket_span_spec(text: Seq<char>, open: int, ob: char, cb: char) -> Option<(Seq<char>, int)> {
    if 0 <= open < text.len() && text[open] == ob {
        match close_from(text, ob, cb, open + 1, 1) {
            Some(i) => Some((text.subrange(open + 1, i), i + 1)),
            None => None,
        }
    } else {
        None
    }
}

pub proof fn lemma_close_from(text: Seq<char>, ob: char, cb: char, i: int, depth: nat)
    ensures
        close_from(text, ob, cb, i, depth) matches Some(k) ==> i <= k < text.len(),
    decreases text.len() - i,
{
    if 0 <= i < text.len() {
        if text[i] == ob {
            lemma_close_from(text, ob, cb, i + 1, depth + 1);
        } else if text[i] == cb {
            if depth > 1 {
                lemma_close_from(text, ob, cb, i + 1, (depth - 1) as nat);
            }
        } else {
            lemma_close_from(text, ob, cb, i + 1, depth);
        }
    }
}

/// Content between a leading bracket at `open` and its match (handles nesting),
/// and the index just past the match.
pub fn bracket_span(text: &[char], open: usize, ob: char, cb: char) -> (r: Option<(Vec<char>, usize)>)
    requires
        ob != cb,
    ensures
        match r {
            Some((c, e)) => bracket_span_spec(text@, open as int, ob, cb) == Some((c@, e as int)),
            None => bracket_span_spec(text@, open as int, ob, cb) is None,
        },
{
    if open >= text.len() || text[open] != ob {
        return None;
    }
    let mut depth: usize = 1;
    let mut i: usize = open + 1;
    while i < text.len()
        invariant
            open < i <= text.len(),
            1 <= depth <= i - open,
            text@[open as int] == ob,
            close_from(text@, ob, cb, open + 1, 1) == close_from(text@, ob, cb, i as int, depth as nat),
        decreases text.len() - i,
    {
        if text[i] == ob {
            depth = depth + 1;
        } else if text[i] == cb {
            if depth <= 1 {
                return Some((slice_vec(text, open + 1, i), i + 1));
            }
            depth = depth - 1;
        }
        i = i + 1;
    }
    None
}

/// The contents of the first `'…'` or `"…"` string in `s`, after leading
/// whitespace.
#[verifier::opaque]
pub open spec fn first_quoted_spec(s: Seq<char>) -> Option<Seq<char>> {
    let t = trim_start(s);
    if t.len() > 0 && (t[0] == '\'' || t[0] == '"') {
        let rest = t.drop_first();
        let k = index_of(rest, t[0]);
        if k < rest.len() {
            Some(rest.take(k))
        } else {
            None
        }
    } else {
        None
    }
}

pub fn first_quoted(s: &[char]) -> (r: Option<Vec<char>>)
    ensures
        match r {
            Some(q) => first_quoted_spec(s@) == Some(q@),
            None => first_quoted_spec(s@) is None,
        },
{
    reveal(first_quoted_spec);
    let t = trim_start_vec(s);
    if t.len() == 0 || !(t[0] == '\'' || t[0] == '"') {
        return None;
    }
    let q = t[0];
    let rest = slice_vec(t.as_slice(), 1, t.len());
    proof {
        assert(rest@ =~= t@.drop_first());
        assert(rest@.skip(0) =~= rest@);
    }
    let k = index_of_from(rest.as_slice(), q, 0);
    if k < rest.len() {
        Some(slice_vec(rest.as_slice(), 0, k))
    } else {
        None
    }
}

/// `s` with every leading copy of `p` removed (`trim_start_matches`).
pub open spec fn strip_prefixes(s: Seq<char>, p: Seq<char>) -> Seq<char>
    decreases s.len(),
{
    if p.len() > 0 && starts_with(s, p) {
        strip_prefixes(s.skip(p.len() as int), p)
    } else {
        s
    }
}

pub fn strip_prefixes_exec(s: &[char], p: &[char]) -> (r: Vec<char>)
    ensures
        r@ == strip_prefixes(s@, p@),
{
    let mut i: usize = 0;
    proof {
        assert(s@.skip(0) =~= s@);
    }
    while p.len() > 0 && i <= s.len() && occurs_at_exec(s, p, i)
        invariant
            0 <= i <= s.len(),
            strip_prefixes(s@, p@) == strip_prefixes(s@.skip(i as int), p@),
        decreases s.len() - i,
    {
        proof {
            assert(s@.skip(i as int).subrange(0, p@.len() as int) =~= s@.subrange(i as int, i + p@.len()));
            assert(s@.skip(i as int).skip(p@.len() as int) =~= s@.skip(i + p@.len()));
        }
        i = i + p.len();
    }
    proof {
        if p@.len() > 0 && i <= s@.len() {
            if starts_with(s@.skip(i as int), p@) {
                assert(s@.skip(i as int).subrange(0, p@.len() as int) =~= s@.subrange(i as int, i + p@.len()));
            }
        }
    }
    slice_vec(s, i, s.len())
}

/// `s` with trailing copies of `c` removed (`trim_end_matches`).
pub open spec fn strip_trailing(s: Seq<char>, c: char) -> Seq<char>
    decreases s.len(),
{
    if s.len() > 0 && s.last() == c {
        strip_trailing(s.drop_last(), c)
    } else {
        s
    }
}

pub fn strip_trailing_exec(s: &[char], c: char) -> (r: Vec<char>)
    ensures
        r@ == strip_trailing(s@, c),
{
    let mut k: usize = s.len();
    proof {
        assert(s@.take(s@.len() as int) =~= s@);
    }
    while k > 0 && s[k - 1] == c
        invariant
            0 <= k <= s.len(),
            strip_trailing(s@, c) == strip_trailing(s@.take(k as int), c),
        decreases k,
    {
        proof {
            assert(s@.take(k as int).drop_last() =~= s@.take(k - 1));
        }
        k = k - 1;
    }
    slice_vec(s, 0, k)
}

/// The last piece of `s` split on `p` left to right (`split(p).last()`).
#[verifier::opaque]
pub open spec fn last_piece(s: Seq<char>, p: Seq<char>) -> Seq<char>
    decreases s.len(),
{
    if p.len() == 0 {
        s
    } else {
        match find_from(s, p, 0) {
            Some(i) => {
                proof {
                    lemma_find_from(s, p, 0);
                }
                last_piece(s.skip(i + p.len()), p)
            },
            None => s,
        }
    }
}

pub fn last_piece_exec(s: &[char], p: &[char]) -> (r: Vec<char>)
    requires
        p.len() > 0,
    ensures
        r@ == last_piece(s@, p@),
{
    reveal(last_piece);
    let mut cur = slice_vec(s, 0, s.len());
    proof {
        assert(cur@ =~= s@);
    }
    loop
        invariant
            p@.len() > 0,
            last_piece(s@, p@) == last_piece(cur@, p@),
        decreases cur@.len(),
    {
        reveal(last_piece);
        match find_from_exec(cur.as_slice(), p, 0) {
            Some(i) => {
                proof {
                    lemma_find_from(cur@, p@, 0);
                    assert(occurs_at(cur@, p@, i as int));
                    assert(i + p@.len() <= cur@.len());
                }
                let plen = p.len();
                let clen = cur.len();
                assert(i + plen <= clen);
                let next = slice_vec(cur.as_slice(), i + plen, clen);
                proof {
                    assert(next@ =~= cur@.skip(i + p@.len()));
                }
                cur = next;
            },
            None => {
                return cur;
            },
        }
    }
}

/// `s` split at every `a` or `b` (`split([a, b])`).
pub open spec fn split2(s: Seq<char>, a: char, b: char) -> Seq<Seq<char>>
    decreases s.len(),
{
    let k = first_of2(s, a, b);
    if k >= s.len() {
        seq![s]
    } else {
        proof {
            lemma_first_of2(s, a, b);
        }
        seq![s.take(k)] + split2(s.skip(k + 1), a, b)
    }
}

/// Index of the first `a` or `b` in `s`, or `s.len()`.
pub open spec fn first_of2(s: Seq<char>, a: char, b: char) -> int
    decreases s.len(),
{
    if s.len() == 0 {
        0
    } else if s[0] == a || s[0] == b {
        0
    } else {
        1 + first_of2(s.drop_first(), a, b)
    }
}

pub proof fn lemma_first_of2(s: Seq<char>, a: char, b: char)
    ensures
        0 <= first_of2(s, a, b) <= s.len(),
        first_of2(s, a, b) < s.len() ==> (s[first_of2(s, a, b)] == a || s[first_of2(s, a, b)] == b),
        forall|j: int| 0 <= j < first_of2(s, a, b) ==> s[j] != a && s[j] != b,
    decreases s.len(),
{
    if s.len() > 0 && !(s[0] == a || s[0] == b) {
        lemma_first_of2(s.drop_first(), a, b);
        assert forall|j: int| 0 <= j < first_of2(s, a, b) implies s[j] != a && s[j] != b by {
            if j > 0 {
                assert(s[j] == s.drop_first()[j - 1]);
            }
        }
    }
}

proof fn lemma_first_of2_is(s: Seq<char>, a: char, b: char, k: int)
    requires
        0 <= k <= s.len(),
        k < s.len() ==> (s[k] == a || s[k] == b),
        forall|j: int| 0 <= j < k ==> s[j] != a && s[j] != b,
    ensures
        first_of2(s, a, b) == k,
    decreases s.len(),
{
    if s.len() > 0 && k > 0 {
        assert forall|j: int| 0 <= j < k - 1 implies s.drop_first()[j] != a && s.drop_first()[j] != b by {
            assert(s.drop_first()[j] == s[j + 1]);
        }
        lemma_first_of2_is(s.drop_first(), a, b, k - 1);
    }
}

pub fn split2_exec(s: &[char], a: char, b: char) -> (r: Vec<Vec<char>>)
    ensures
        crate::text::vviews(r@) == split2(s@, a, b),
{
    let mut out: Vec<Vec<char>> = Vec::new();
    let mut j: usize = 0;
    proof {
        assert(s@.skip(0) =~= s@);
        assert(crate::text::vviews(out@) =~= Seq::<Seq<char>>::empty());
    }
    loop
        invariant
            0 <= j <= s.len(),
            split2(s@, a, b) == crate::text::vviews(out@) + split2(s@.skip(j as int), a, b),
        decreases s.len() - j,
    {
        let mut k: usize = j;
        while k < s.len() && s[k] != a && s[k] != b
            invariant
                j <= k <= s.len(),
                forall|t: int| j <= t < k ==> s@[t] != a && s@[t] != b,
            decreases s.len() - k,
        {
            k = k + 1;
        }
        let ghost rest = s@.skip(j as int);
        proof {
            lemma_first_of2_is(rest, a, b, k - j);
        }
        let piece = slice_vec(s, j, k);
        proof {
            assert(piece@ =~= rest.take(k - j));
            crate::text::lemma_vviews_push(out@, piece);
        }
        let ghost before = out@;
        out.push(piece);
        if k == s.len() {
            proof {
                assert(crate::text::vviews(out@) =~= crate::text::vviews(before) + seq![rest]);
            }
            return out;
        }
        proof {
            assert(rest.skip(k - j + 1) =~= s@.skip(k + 1));
            assert(crate::text::vviews(out@) + split2(s@.skip(k + 1), a, b) =~= crate::text::vviews(before) + (seq![rest.take(k - j)] + split2(rest.skip(k - j + 1), a, b)));
        }
        j = k + 1;
    }
}

// ---------------------------------------------------------------------------
// Imports
// ---------------------------------------------------------------------------

/// Local name -> import specifier, in first-insertion order, each name once.
pub open spec fn imports_view(v: Seq<(String, String)>) -> Seq<(Seq<char>, Seq<char>)> {
    v.map_values(|e: (String, String)| (e.0@, e.1@))
}

/// The specifier bound to `k`.
pub open spec fn map_get(m: Seq<(Seq<char>, Seq<char>)>, k: Seq<char>) -> Option<Seq<char>>
    decreases m.len(),
{
    if m.len() == 0 {
        None
    } else if m[0].0 == k {
        Some(m[0].1)
    } else {
        map_get(m.drop_first(), k)
    }
}

/// Bind `k` to `v`: a name bound before keeps its place and takes the new value.
pub open spec fn map_insert(m: Seq<(Seq<char>, Seq<char>)>, k: Seq<char>, v: Seq<char>) -> Seq<(Seq<char>, Seq<char>)>
    decreases m.len(),
{
    if m.len() == 0 {
        seq![(k, v)]
    } else if m[0].0 == k {
        seq![(k, v)] + m.drop_first()
    } else {
        seq![m[0]] + map_insert(m.drop_first(), k, v)
    }
}

proof fn lemma_map_insert_at(m: Seq<(Seq<char>, Seq<char>)>, k: Seq<char>, v: Seq<char>, i: int)
    requires
        0 <= i <= m.len(),
        i < m.len() ==> m[i].0 == k,
        forall|j: int| 0 <= j < i ==> m[j].0 != k,
    ensures
        map_insert(m, k, v) == if i < m.len() {
            m.update(i, (k, v))
        } else {
            m.push((k, v))
        },
    decreases m.len(),
{
    if m.len() > 0 && i > 0 {
        assert forall|j: int| 0 <= j < i - 1 implies m.drop_first()[j].0 != k by {
            assert(m.drop_first()[j] == m[j + 1]);
        }
        lemma_map_insert_at(m.drop_first(), k, v, i - 1);
        if i < m.len() {
            assert(seq![m[0]] + m.drop_first().update(i - 1, (k, v)) =~= m.update(i, (k, v)));
        } else {
            assert(seq![m[0]] + m.drop_first().push((k, v)) =~= m.push((k, v)));
        }
    } else if m.len() > 0 {
        assert(seq![(k, v)] + m.drop_first() =~= m.update(0, (k, v)));
    } else {
        assert(seq![(k, v)] =~= m.push((k, v)));
    }
}

proof fn lemma_map_get_at(m: Seq<(Seq<char>, Seq<char>)>, k: Seq<char>, i: int)
    requires
        0 <= i <= m.len(),
        i < m.len() ==> m[i].0 == k,
        forall|j: int| 0 <= j < i ==> m[j].0 != k,
    ensures
        map_get(m, k) == if i < m.len() {
            Some(m[i].1)
        } else {
            None::<Seq<char>>
        },
    decreases m.len(),
{
    if m.len() > 0 && i > 0 {
        assert forall|j: int| 0 <= j < i - 1 implies m.drop_first()[j].0 != k by {
            assert(m.drop_first()[j] == m[j + 1]);
        }
        lemma_map_get_at(m.drop_first(), k, i - 1);
    }
}

/// The index of the entry for `k`, or the length.
fn key_index(m: &Vec<(String, String)>, k: &[char]) -> (r: usize)
    ensures
        r <= m@.len(),
        r < m@.len() ==> imports_view(m@)[r as int].0 == k@,
        forall|j: int| 0 <= j < r ==> imports_view(m@)[j].0 != k@,
{
    let mut i: usize = 0;
    while i < m.len()
        invariant
            0 <= i <= m.len(),
            forall|j: int| 0 <= j < i ==> imports_view(m@)[j].0 != k@,
        decreases m.len() - i,
    {
        if crate::text::string_eq(&m[i].0, k) {
            return i;
        }
        i = i + 1;
    }
    i
}

fn map_insert_exec(m: &mut Vec<(String, String)>, k: &[char], v: &[char])
    ensures
        imports_view(final(m)@) == map_insert(imports_view(old(m)@), k@, v@),
{
    let i = key_index(m, k);
    proof {
        lemma_map_insert_at(imports_view(m@), k@, v@, i as int);
    }
    let ghost before = m@;
    let entry = (from_chars(k), from_chars(v));
    if i < m.len() {
        m.set(i, entry);
        proof {
            assert(imports_view(m@) =~= imports_view(before).update(i as int, (k@, v@)));
        }
    } else {
        m.push(entry);
        proof {
            assert(imports_view(m@) =~= imports_view(before).push((k@, v@)));
        }
    }
}

/// The specifier imported as `name`.
pub fn import_get(imports: &Vec<(String, String)>, name: &[char]) -> (r: Option<String>)
    ensures
        crate::text::ov(r) == map_get(imports_view(imports@), name@),
{
    let i = key_index(imports, name);
    proof {
        lemma_map_get_at(imports_view(imports@), name@, i as int);
    }
    if i < imports.len() {
        Some(imports[i].1.clone())
    } else {
        None
    }
}

/// The local name one `{ … }` entry binds: `type` prefixes dropped, the name
/// after the last ` as `.
pub open spec fn import_local(part: Seq<char>) -> Seq<char> {
    trim(last_piece(strip_prefixes(trim(part), seq!['t', 'y', 'p', 'e', ' ']), seq![' ', 'a', 's', ' ']))
}

pub open spec fn insert_locals(
    m: Seq<(Seq<char>, Seq<char>)>,
    parts: Seq<Seq<char>>,
    path: Seq<char>,
) -> Seq<(Seq<char>, Seq<char>)>
    decreases parts.len(),
{
    if parts.len() == 0 {
        m
    } else {
        let m1 = insert_locals(m, parts.drop_last(), path);
        let l = import_local(parts.last());
        if is_ident(l) {
            map_insert(m1, l, path)
        } else {
            m1
        }
    }
}

/// Bind the names of one `import … from` clause (default, named, or both) to
/// `path`. A `{ … }` list is read up to its last `}`; without one after the `{`
/// only the default name binds.
#[verifier::opaque]
pub open spec fn add_import_names_spec(
    m: Seq<(Seq<char>, Seq<char>)>,
    names: Seq<char>,
    path: Seq<char>,
) -> Seq<(Seq<char>, Seq<char>)> {
    let n = trim(names);
    let open = index_of(n, '{');
    if open < n.len() {
        let default = trim(strip_trailing(trim(n.take(open)), ','));
        let m1 = if is_ident(default) {
            map_insert(m, default, path)
        } else {
            m
        };
        match rfind(n, seq!['}']) {
            Some(close) => if close >= open + 1 {
                insert_locals(m1, split2(n.subrange(open + 1, close), ',', ','), path)
            } else {
                m1
            },
            None => m1,
        }
    } else if is_ident(n) {
        map_insert(m, n, path)
    } else {
        m
    }
}

fn insert_locals_exec(m: &mut Vec<(String, String)>, parts: &Vec<Vec<char>>, path: &[char])
    ensures
        imports_view(final(m)@) == insert_locals(imports_view(old(m)@), crate::text::vviews(parts@), path@),
{
    let ghost pv = crate::text::vviews(parts@);
    let ghost m1 = imports_view(m@);
    let mut k: usize = 0;
    let tp = vec!['t', 'y', 'p', 'e', ' '];
    let ap = vec![' ', 'a', 's', ' '];
    proof {
        assert(tp@ =~= seq!['t', 'y', 'p', 'e', ' ']);
        assert(ap@ =~= seq![' ', 'a', 's', ' ']);
        assert(pv.take(0) =~= Seq::<Seq<char>>::empty());
    }
    while k < parts.len()
        invariant
            0 <= k <= parts.len(),
            pv == crate::text::vviews(parts@),
            tp@ == seq!['t', 'y', 'p', 'e', ' '],
            ap@ == seq![' ', 'a', 's', ' '],
            imports_view(m@) == insert_locals(m1, pv.take(k as int), path@),
        decreases parts.len() - k,
    {
        let p1 = trim_vec(parts[k].as_slice());
        let p2 = strip_prefixes_exec(p1.as_slice(), tp.as_slice());
        let p3 = last_piece_exec(p2.as_slice(), ap.as_slice());
        let local = trim_vec(p3.as_slice());
        proof {
            assert(pv[k as int] == parts@[k as int]@);
            assert(pv.take(k + 1).drop_last() =~= pv.take(k as int));
            assert(local@ == import_local(pv[k as int]));
        }
        if is_ident_exec(local.as_slice()) {
            map_insert_exec(m, local.as_slice(), path);
        }
        k = k + 1;
    }
    proof {
        assert(pv.take(parts@.len() as int) =~= pv);
    }
}

fn add_import_names(m: &mut Vec<(String, String)>, names: &[char], path: &[char])
    ensures
        imports_view(final(m)@) == add_import_names_spec(imports_view(old(m)@), names@, path@),
{
    reveal(add_import_names_spec);
    let n = trim_vec(names);
    let open = index_of_from(n.as_slice(), '{', 0);
    proof {
        assert(n@.skip(0) =~= n@);
    }
    if open < n.len() {
        let head = slice_vec(n.as_slice(), 0, open);
        let h1 = trim_vec(head.as_slice());
        let h2 = strip_trailing_exec(h1.as_slice(), ',');
        let default = trim_vec(h2.as_slice());
        if is_ident_exec(default.as_slice()) {
            map_insert_exec(m, default.as_slice(), path);
        }
        let close_pat = vec!['}'];
        proof {
            assert(close_pat@ =~= seq!['}']);
        }
        match rfind_exec(n.as_slice(), close_pat.as_slice()) {
            Some(close) => {
                if close >= open + 1 {
                    proof {
                        lemma_rfind_below(n@, seq!['}'], n@.len() + 1int);
                    }
                    let inner = slice_vec(n.as_slice(), open + 1, close);
                    let parts = split2_exec(inner.as_slice(), ',', ',');
                    insert_locals_exec(m, &parts, path);
                }
            },
            None => {},
        }
    } else if is_ident_exec(n.as_slice()) {
        map_insert_exec(m, n.as_slice(), path);
    }
}

pub open spec fn from_kw() -> Seq<char> {
    seq![' ', 'f', 'r', 'o', 'm', ' ']
}

pub open spec fn import_kw() -> Seq<char> {
    seq!['i', 'm', 'p', 'o', 'r', 't', ' ']
}

/// What the ` from ` at `fpos` adds to `m`: when a quoted specifier follows it,
/// the names between the `import ` before it and it, unless a `;` separates the
/// two.
#[verifier::opaque]
pub open spec fn clause_spec(text: Seq<char>, fpos: int, m: Seq<(Seq<char>, Seq<char>)>) -> Seq<
    (Seq<char>, Seq<char>),
> {
    match first_quoted_spec(text.skip(fpos + 6)) {
        None => m,
        Some(path) => match rfind(text.take(fpos), import_kw()) {
            Some(ipos) => {
                let names = text.subrange(ipos + 7, fpos);
                if contains(names, seq![';']) {
                    m
                } else {
                    add_import_names_spec(m, names, path)
                }
            },
            None => m,
        },
    }
}

/// The imports of `text` from index `search` on, added to `m`.
#[verifier::opaque]
pub open spec fn imports_from(text: Seq<char>, search: int, m: Seq<(Seq<char>, Seq<char>)>) -> Seq<
    (Seq<char>, Seq<char>),
>
    decreases text.len() - search,
{
    match find_from(text, from_kw(), search) {
        None => m,
        Some(fpos) => {
            proof {
                lemma_find_from(text, from_kw(), search);
            }
            imports_from(text, fpos + 6, clause_spec(text, fpos, m))
        },
    }
}

proof fn lemma_imports_step(text: Seq<char>, search: int, m: Seq<(Seq<char>, Seq<char>)>)
    ensures
        match find_from(text, from_kw(), search) {
            None => imports_from(text, search, m) == m,
            Some(fpos) => imports_from(text, search, m) == imports_from(text, fpos + 6, clause_spec(text, fpos, m)),
        },
{
    reveal(imports_from);
}

fn import_clause(t: &[char], fpos: usize, m: &mut Vec<(String, String)>)
    requires
        fpos + 6 <= t@.len(),
    ensures
        imports_view(final(m)@) == clause_spec(t@, fpos as int, imports_view(old(m)@)),
{
    reveal(clause_spec);
    let ik = vec!['i', 'm', 'p', 'o', 'r', 't', ' '];
    let semi = vec![';'];
    proof {
        assert(ik@ =~= import_kw());
        assert(semi@ =~= seq![';']);
    }
    let tlen = t.len();
    let start = fpos + 6;
    let tail = slice_vec(t, start, tlen);
    proof {
        assert(tail@ =~= t@.skip(fpos + 6));
    }
    match first_quoted(tail.as_slice()) {
        None => {},
        Some(path) => {
            let head = slice_vec(t, 0, fpos);
            proof {
                assert(head@ =~= t@.take(fpos as int));
            }
            match rfind_exec(head.as_slice(), ik.as_slice()) {
                Some(ipos) => {
                    proof {
                        lemma_rfind_below(head@, import_kw(), head@.len() + 1int);
                    }
                    let names = slice_vec(t, ipos + 7, fpos);
                    if !contains_exec(names.as_slice(), semi.as_slice()) {
                        add_import_names(m, names.as_slice(), path.as_slice());
                    }
                },
                None => {},
            }
        },
    }
}

/// Map of local name -> import specifier. Anchored on `from '<path>'` (looking
/// back to the preceding `import`), so it handles default, named, and multi-line
/// `import { … } from '…'` forms.
pub open spec fn es_imports_spec(text: Seq<char>) -> Seq<(Seq<char>, Seq<char>)> {
    imports_from(text, 0, seq![])
}

/// The imports of `text`, each local name with its specifier.
pub fn es_imports(text: &str) -> (r: Vec<(String, String)>)
    ensures
        imports_view(r@) == es_imports_spec(text@),
{
    let t = to_chars(text);
    let fk = vec![' ', 'f', 'r', 'o', 'm', ' '];
    proof {
        assert(fk@ =~= from_kw());
    }
    let mut m: Vec<(String, String)> = Vec::new();
    let mut search: usize = 0;
    proof {
        assert(imports_view(m@) =~= Seq::<(Seq<char>, Seq<char>)>::empty());
    }
    loop
        invariant
            0 <= search <= t@.len(),
            t@ == text@,
            fk@ == from_kw(),
            es_imports_spec(text@) == imports_from(t@, search as int, imports_view(m@)),
        decreases t@.len() - search,
    {
        match find_from_exec(t.as_slice(), fk.as_slice(), search) {
            None => {
                proof {
                    lemma_imports_step(t@, search as int, imports_view(m@));
                }
                return m;
            },
            Some(fpos) => {
                let tlen = t.len();
                assert(fpos + 6 <= tlen);
                proof {
                    lemma_imports_step(t@, search as int, imports_view(m@));
                }
                import_clause(t.as_slice(), fpos, &mut m);
                search = fpos + 6;
            },
        }
    }
}

// ---------------------------------------------------------------------------
// `new Model(...)` calls
// ---------------------------------------------------------------------------

/// The identifiers among `parts`, trimmed, in order.
pub open spec fn idents_of(parts: Seq<Seq<char>>) -> Seq<Seq<char>>
    decreases parts.len(),
{
    if parts.len() == 0 {
        seq![]
    } else {
        let prev = idents_of(parts.drop_last());
        if is_ident(trim(parts.last())) {
            prev.push(trim(parts.last()))
        } else {
            prev
        }
    }
}

fn idents_of_exec(parts: &Vec<Vec<char>>) -> (r: Vec<String>)
    ensures
        sv(r@) == idents_of(crate::text::vviews(parts@)),
{
    let ghost pv = crate::text::vviews(parts@);
    let mut out: Vec<String> = Vec::new();
    let mut k: usize = 0;
    proof {
        assert(sv(out@) =~= idents_of(pv.take(0)));
    }
    while k < parts.len()
        invariant
            0 <= k <= parts.len(),
            pv == crate::text::vviews(parts@),
            sv(out@) == idents_of(pv.take(k as int)),
        decreases parts.len() - k,
    {
        let t = trim_vec(parts[k].as_slice());
        proof {
            assert(pv[k as int] == parts@[k as int]@);
            assert(pv.take(k + 1).drop_last() =~= pv.take(k as int));
        }
        if is_ident_exec(t.as_slice()) {
            let st = from_chars(t.as_slice());
            proof {
                lemma_sv_push(out@, st);
            }
            out.push(st);
        }
        k = k + 1;
    }
    proof {
        assert(pv.take(parts@.len() as int) =~= pv);
    }
    out
}

pub open spec fn modules_kw() -> Seq<char> {
    seq!['m', 'o', 'd', 'u', 'l', 'e', 's']
}

pub open spec fn new_model_kw() -> Seq<char> {
    seq!['n', 'e', 'w', ' ', 'M', 'o', 'd', 'e', 'l']
}

/// The identifiers of the `modules: [...]` array in a call's arguments: the first
/// `[` after the first `modules`, up to its matching `]`, split on `,`. `None`
/// when there is none or it names no identifier.
pub open spec fn modules_in_call(call: Seq<char>) -> Option<Seq<Seq<char>>> {
    match find_from(call, modules_kw(), 0) {
        None => None,
        Some(mi) => match find_from(call, seq!['['], mi) {
            None => None,
            Some(lb) => match bracket_span_spec(call, lb, '[', ']') {
                None => None,
                Some((arr, _)) => {
                    let ids = idents_of(split2(arr, ',', ','));
                    if ids.len() > 0 {
                        Some(ids)
                    } else {
                        None
                    }
                },
            },
        },
    }
}

fn modules_in_call_exec(call: &[char]) -> (r: Option<Vec<String>>)
    ensures
        match r {
            Some(ids) => modules_in_call(call@) == Some(sv(ids@)),
            None => modules_in_call(call@) is None,
        },
{
    let mk = vec!['m', 'o', 'd', 'u', 'l', 'e', 's'];
    let lbk = vec!['['];
    proof {
        assert(mk@ =~= modules_kw());
        assert(lbk@ =~= seq!['[']);
    }
    let mi = match find_from_exec(call, mk.as_slice(), 0) {
        Some(x) => x,
        None => return None,
    };
    let lb = match find_from_exec(call, lbk.as_slice(), mi) {
        Some(x) => x,
        None => return None,
    };
    let arr = match bracket_span(call, lb, '[', ']') {
        Some((a, _)) => a,
        None => return None,
    };
    let parts = split2_exec(arr.as_slice(), ',', ',');
    let ids = idents_of_exec(&parts);
    if ids.len() > 0 {
        Some(ids)
    } else {
        None
    }
}

/// The module identifiers of the first `new Model(...)` call at or after
/// `search` whose arguments mention `binding` as a whole word and carry a
/// non-empty `modules: [...]`. A call without a `(` after it, or whose `(` never
/// closes, ends the search.
#[verifier::opaque]
pub open spec fn models_from(text: Seq<char>, binding: Seq<char>, search: int) -> Option<Seq<Seq<char>>>
    decreases text.len() - search,
{
    match find_from(text, new_model_kw(), search) {
        None => None,
        Some(start) => match find_from(text, seq!['('], start) {
            None => None,
            Some(paren) => match bracket_span_spec(text, paren, '(', ')') {
                None => None,
                Some((call, end)) => {
                    proof {
                        lemma_find_from(text, new_model_kw(), search);
                        lemma_find_from(text, seq!['('], start);
                        lemma_close_from(text, '(', ')', paren + 1, 1);
                    }
                    if contains_ident_spec(call, binding) && modules_in_call(call) is Some {
                        modules_in_call(call)
                    } else {
                        models_from(text, binding, end)
                    }
                },
            },
        },
    }
}

proof fn lemma_models_step(text: Seq<char>, binding: Seq<char>, search: int)
    ensures
        models_from(text, binding, search) == match find_from(text, new_model_kw(), search) {
            None => None,
            Some(start) => match find_from(text, seq!['('], start) {
                None => None,
                Some(paren) => match bracket_span_spec(text, paren, '(', ')') {
                    None => None,
                    Some((call, end)) => if contains_ident_spec(call, binding) && modules_in_call(call) is Some {
                        modules_in_call(call)
                    } else {
                        models_from(text, binding, end)
                    },
                },
            },
        },
{
    reveal(models_from);
}

/// The module identifiers in the `modules: [...]` of the `new Model(...)` call
/// that references `binding` (the shader's `vs`/`fs`).
pub fn model_modules_for(text: &str, binding: &str) -> (r: Option<Vec<String>>)
    ensures
        match r {
            Some(ids) => models_from(text@, binding@, 0) == Some(sv(ids@)),
            None => models_from(text@, binding@, 0) is None,
        },
{
    let t = to_chars(text);
    let b = to_chars(binding);
    let nk = vec!['n', 'e', 'w', ' ', 'M', 'o', 'd', 'e', 'l'];
    let pk = vec!['('];
    proof {
        assert(nk@ =~= new_model_kw());
        assert(pk@ =~= seq!['(']);
    }
    let mut search: usize = 0;
    loop
        invariant
            0 <= search <= t@.len(),
            t@ == text@,
            b@ == binding@,
            nk@ == new_model_kw(),
            pk@ == seq!['('],
            models_from(text@, binding@, 0) == models_from(t@, b@, search as int),
        decreases t@.len() - search,
    {
        proof {
            lemma_models_step(t@, b@, search as int);
        }
        let start = match find_from_exec(t.as_slice(), nk.as_slice(), search) {
            Some(x) => x,
            None => return None,
        };
        let paren = match find_from_exec(t.as_slice(), pk.as_slice(), start) {
            Some(x) => x,
            None => return None,
        };
        let (call, end) = match bracket_span(t.as_slice(), paren, '(', ')') {
            Some(x) => x,
            None => return None,
        };
        proof {
            lemma_close_from(t@, '(', ')', paren + 1, 1);
        }
        if contains_ident(call.as_slice(), b.as_slice()) {
            match modules_in_call_exec(call.as_slice()) {
                Some(ids) => {
                    return Some(ids);
                },
                None => {},
            }
        }
        search = end;
    }
}

// ---------------------------------------------------------------------------
// Module files
// ---------------------------------------------------------------------------

pub open spec fn const_kw() -> Seq<char> {
    seq!['c', 'o', 'n', 's', 't', ' ']
}

/// The index just past the first `needle` at or after `from` not followed by
/// an identifier character.
#[verifier::opaque]
pub open spec fn const_from(text: Seq<char>, needle: Seq<char>, from: int) -> Option<int>
    decreases text.len() - from,
{
    match find_from(text, needle, from) {
        None => None,
        Some(st) => {
            proof {
                lemma_find_from(text, needle, from);
            }
            let after = st + needle.len();
            if after >= text.len() || !(unicode_alphanumeric(text[after]) || text[after] == '_') {
                Some(after)
            } else {
                const_from(text, needle, st + 1)
            }
        },
    }
}

proof fn lemma_const_step(text: Seq<char>, needle: Seq<char>, from: int)
    ensures
        const_from(text, needle, from) == match find_from(text, needle, from) {
            None => None,
            Some(st) => {
                let after = st + needle.len();
                if after >= text.len() || !(unicode_alphanumeric(text[after]) || text[after] == '_') {
                    Some(after)
                } else {
                    const_from(text, needle, st + 1)
                }
            },
        },
{
    reveal(const_from);
}

/// The index just past a `const <id>` declaration (optionally `export const`).
pub open spec fn find_const_spec(text: Seq<char>, id: Seq<char>) -> Option<int> {
    const_from(text, const_kw() + id, 0)
}

pub fn find_const(text: &[char], id: &[char]) -> (r: Option<usize>)
    ensures
        match r {
            Some(a) => find_const_spec(text@, id@) == Some(a as int),
            None => find_const_spec(text@, id@) is None,
        },
{
    let mut needle = vec!['c', 'o', 'n', 's', 't', ' '];
    crate::text::extend_chars(&mut needle, id);
    proof {
        assert(needle@ =~= const_kw() + id@);
    }
    find_decl(text, needle.as_slice())
}

/// The index just past the first `needle` not followed by an identifier
/// character.
pub fn find_decl(text: &[char], needle: &[char]) -> (r: Option<usize>)
    ensures
        match r {
            Some(a) => const_from(text@, needle@, 0) == Some(a as int),
            None => const_from(text@, needle@, 0) is None,
        },
{
    let ghost nd = needle@;
    let mut from: usize = 0;
    loop
        invariant
            0 <= from <= text@.len() + 1,
            needle@ == nd,
            const_from(text@, nd, 0) == const_from(text@, nd, from as int),
        decreases text@.len() + 1 - from,
    {
        proof {
            lemma_const_step(text@, nd, from as int);
        }
        let st = match find_from_exec(text, needle, from) {
            Some(x) => x,
            None => return None,
        };
        let tlen = text.len();
        let nlen = needle.len();
        assert(st + nlen <= tlen);
        let after = st + nlen;
        if after >= tlen || !(is_alphanumeric(text[after]) || text[after] == '_') {
            return Some(after);
        }
        from = st + 1;
    }
}

pub open spec fn vs_kw() -> Seq<char> {
    seq!['v', 's', ':']
}

pub open spec fn vs_sp_kw() -> Seq<char> {
    seq!['v', 's', ' ', ':']
}

/// The identifier a trimmed field assigns to `vs`, if it is a `vs:` field.
pub open spec fn vs_value(t: Seq<char>) -> Option<Seq<char>> {
    let rest = if starts_with(t, vs_kw()) {
        Some(t.skip(3))
    } else if starts_with(t, vs_sp_kw()) {
        Some(t.skip(4))
    } else {
        None
    };
    match rest {
        Some(r) => {
            let v = trim(strip_trailing(trim(r), ','));
            if is_ident(v) {
                Some(v)
            } else {
                None
            }
        },
        None => None,
    }
}

fn vs_value_exec(t1: &[char]) -> (r: Option<Vec<char>>)
    ensures
        match r {
            Some(v) => vs_value(t1@) == Some(v@),
            None => vs_value(t1@) is None,
        },
{
    let vk = vec!['v', 's', ':'];
    let vsk = vec!['v', 's', ' ', ':'];
    proof {
        assert(vk@ =~= vs_kw());
        assert(vsk@ =~= vs_sp_kw());
    }
    let r = if starts_with_exec(t1, vk.as_slice()) {
        slice_vec(t1, 3, t1.len())
    } else if starts_with_exec(t1, vsk.as_slice()) {
        slice_vec(t1, 4, t1.len())
    } else {
        return None;
    };
    let r1 = trim_vec(r.as_slice());
    let r2 = strip_trailing_exec(r1.as_slice(), ',');
    let v = trim_vec(r2.as_slice());
    if is_ident_exec(v.as_slice()) {
        Some(v)
    } else {
        None
    }
}

/// The identifier assigned to the first `vs:` field among `fields`.
pub open spec fn vs_field(fields: Seq<Seq<char>>) -> Option<Seq<char>>
    decreases fields.len(),
{
    if fields.len() == 0 {
        None
    } else {
        match vs_value(trim(fields[0])) {
            Some(v) => Some(v),
            None => vs_field(fields.drop_first()),
        }
    }
}

/// The identifier assigned to `<id>`'s `vs:` field in a `const <id> = { … }`:
/// the object is the first `{` after the declaration to its matching `}`, its
/// fields split on `,` and newlines.
pub open spec fn module_glsl_var_spec(text: Seq<char>, id: Seq<char>) -> Option<Seq<char>> {
    match find_const_spec(text, id) {
        None => None,
        Some(decl) => match find_from(text, seq!['{'], decl) {
            None => None,
            Some(brace) => match bracket_span_spec(text, brace, '{', '}') {
                None => None,
                Some((obj, _)) => vs_field(split2(obj, ',', '\n')),
            },
        },
    }
}

pub fn module_glsl_var(text: &str, id: &str) -> (r: Option<String>)
    ensures
        crate::text::ov(r) == module_glsl_var_spec(text@, id@),
{
    let t = to_chars(text);
    let i = to_chars(id);
    let decl = match find_const(t.as_slice(), i.as_slice()) {
        Some(d) => d,
        None => return None,
    };
    let ob = vec!['{'];
    proof {
        assert(ob@ =~= seq!['{']);
    }
    let brace = match find_from_exec(t.as_slice(), ob.as_slice(), decl) {
        Some(b) => b,
        None => return None,
    };
    let obj = match bracket_span(t.as_slice(), brace, '{', '}') {
        Some((o, _)) => o,
        None => return None,
    };
    let fields = split2_exec(obj.as_slice(), ',', '\n');
    let ghost fv = crate::text::vviews(fields@);
    proof {
        assert(fv.skip(0) =~= fv);
        assert(module_glsl_var_spec(text@, id@) == vs_field(fv));
    }
    let mut k: usize = 0;
    while k < fields.len()
        invariant
            0 <= k <= fields.len(),
            fv == crate::text::vviews(fields@),
            module_glsl_var_spec(text@, id@) == vs_field(fv),
            vs_field(fv) == vs_field(fv.skip(k as int)),
        decreases fields.len() - k,
    {
        let t1 = trim_vec(fields[k].as_slice());
        proof {
            assert(fv.skip(k as int)[0] == fields@[k as int]@);
            assert(fv.skip(k as int).drop_first() =~= fv.skip(k + 1));
        }
        match vs_value_exec(t1.as_slice()) {
            Some(v) => {
                return Some(from_chars(v.as_slice()));
            },
            None => {},
        }
        k = k + 1;
    }
    None
}

/// `path.with_extension(ext)`: the file name's extension (after its last `.`,
/// unless that is its first character) replaced by `ext`, or `ext` appended;
/// whatever followed the file name (trailing `/` or `.` components) is dropped.
pub open spec fn with_extension(p: Seq<char>, ext: Seq<char>) -> Seq<char> {
    match file_name(p) {
        None => p,
        Some(n) => {
            let start = crate::path::file_name_end(p) - n.len();
            let stem = match rfind(n, seq!['.']) {
                Some(d) => if d > 0 {
                    d
                } else {
                    n.len() as int
                },
                None => n.len() as int,
            };
            p.take(start + stem) + seq!['.'] + ext
        },
    }
}

pub fn with_extension_exec(p: &str, ext: &str) -> (r: String)
    ensures
        r@ == with_extension(p@, ext@),
{
    let pc = to_chars(p);
    let n = match file_name_exec(pc.as_slice()) {
        Some(n) => n,
        None => return p.to_owned(),
    };
    let end = crate::path::trim_tail_len(pc.as_slice());
    proof {
        crate::path::lemma_file_name_place(p@);
    }
    let start = end - n.len();
    let dot = vec!['.'];
    proof {
        assert(dot@ =~= seq!['.']);
    }
    let stem = match rfind_exec(n.as_slice(), dot.as_slice()) {
        Some(d) => if d > 0 {
            d
        } else {
            n.len()
        },
        None => n.len(),
    };
    proof {
        lemma_rfind_below(n@, seq!['.'], n@.len() + 1int);
    }
    let mut out = slice_vec(pc.as_slice(), 0, start + stem);
    out.push('.');
    let ec = to_chars(ext);
    crate::text::extend_chars(&mut out, ec.as_slice());
    proof {
        assert(out@ =~= p@.take(start + stem) + seq!['.'] + ext@);
    }
    from_chars(out.as_slice())
}

/// Where a module specifier may resolve, in the order tried: the path with each
/// script extension, then an index file inside it.
pub open spec fn ts_candidates(base: Seq<char>) -> Seq<Seq<char>> {
    seq![
        with_extension(base, "ts"@),
        with_extension(base, "tsx"@),
        with_extension(base, "mts"@),
        with_extension(base, "js"@),
        with_extension(base, "jsx"@),
        join(base, "index.ts"@),
        join(base, "index.tsx"@),
        join(base, "index.js"@),
    ]
}

pub fn ts_candidates_exec(base: &str) -> (r: Vec<String>)
    ensures
        sv(r@) == ts_candidates(base@),
{
    let mut v: Vec<String> = Vec::new();
    v.push(with_extension_exec(base, "ts"));
    v.push(with_extension_exec(base, "tsx"));
    v.push(with_extension_exec(base, "mts"));
    v.push(with_extension_exec(base, "js"));
    v.push(with_extension_exec(base, "jsx"));
    v.push(join_exec(base, "index.ts"));
    v.push(join_exec(base, "index.tsx"));
    v.push(join_exec(base, "index.js"));
    proof {
        assert(sv(v@) =~= ts_candidates(base@));
    }
    v
}

/// The first of `cands` that names a readable file.
pub open spec fn first_present(cands: Seq<Seq<char>>, files: Seq<(Seq<char>, Seq<char>)>) -> Option<Seq<char>>
    decreases cands.len(),
{
    if cands.len() == 0 {
        None
    } else if lookup(files, cands[0]) is Some {
        Some(cands[0])
    } else {
        first_present(cands.drop_first(), files)
    }
}

/// The script file a module specifier (already joined onto its directory)
/// resolves to.
pub open spec fn resolve_ts_spec(base: Seq<char>, files: Seq<(Seq<char>, Seq<char>)>) -> Option<Seq<char>> {
    first_present(ts_candidates(base), files)
}

pub fn resolve_ts(base: &str, ws: &Workspace) -> (r: Option<String>)
    ensures
        crate::text::ov(r) == resolve_ts_spec(base@, ws@.files),
{
    let cands = ts_candidates_exec(base);
    let ghost cv = sv(cands@);
    let mut i: usize = 0;
    proof {
        assert(cv.skip(0) =~= cv);
    }
    while i < cands.len()
        invariant
            0 <= i <= cands.len(),
            cv == sv(cands@),
            resolve_ts_spec(base@, ws@.files) == first_present(cv.skip(i as int), ws@.files),
        decreases cands.len() - i,
    {
        let c = to_chars(cands[i].as_str());
        proof {
            assert(cv.skip(i as int)[0] == cands@[i as int]@);
            assert(cv.skip(i as int).drop_first() =~= cv.skip(i + 1));
        }
        if ws.has_file(c.as_slice()) {
            return Some(cands[i].clone());
        }
        i = i + 1;
    }
    None
}

/// The GLSL file behind a local module `id` (e.g. `windUniforms` from
/// `./modules`): the script the specifier resolves to, the identifier its
/// `const <id>` object assigns to `vs:`, and that identifier's import,
/// resolved next to the script.
pub open spec fn resolve_local_module_spec(
    ts_dir: Seq<char>,
    import_path: Seq<char>,
    id: Seq<char>,
    files: Seq<(Seq<char>, Seq<char>)>,
) -> Option<Seq<char>> {
    match resolve_ts_spec(join(ts_dir, strip_query(import_path)), files) {
        None => None,
        Some(mf) => match lookup(files, mf) {
            None => None,
            Some(text) => match module_glsl_var_spec(text, id) {
                None => None,
                Some(var) => match map_get(es_imports_spec(text), var) {
                    None => None,
                    Some(gp) => match parent(mf) {
                        None => None,
                        Some(dir) => Some(join(dir, strip_query(gp))),
                    },
                },
            },
        },
    }
}

pub fn resolve_local_module(ts_dir: &str, import_path: &str, id: &str, ws: &Workspace) -> (r: Option<String>)
    ensures
        crate::text::ov(r) == resolve_local_module_spec(ts_dir@, import_path@, id@, ws@.files),
{
    let ip = to_chars(import_path);
    let q = strip_query_exec(ip.as_slice());
    let qs = from_chars(q.as_slice());
    let base = join_exec(ts_dir, qs.as_str());
    let mf = match resolve_ts(base.as_str(), ws) {
        Some(m) => m,
        None => return None,
    };
    let mfc = to_chars(mf.as_str());
    let text = match ws.read(mfc.as_slice()) {
        Some(t) => t,
        None => return None,
    };
    let var = match module_glsl_var(text.as_str(), id) {
        Some(v) => v,
        None => return None,
    };
    let imports = es_imports(text.as_str());
    let vc = to_chars(var.as_str());
    let gp = match import_get(&imports, vc.as_slice()) {
        Some(g) => g,
        None => return None,
    };
    let dir = match parent_exec(mf.as_str()) {
        Some(d) => d,
        None => return None,
    };
    let gc = to_chars(gp.as_str());
    let gq = strip_query_exec(gc.as_slice());
    let gqs = from_chars(gq.as_slice());
    Some(join_exec(dir.as_str(), gqs.as_str()))
}

/// The local name bound to the import whose specifier (without its query) ends
/// with the shader's file name — the first such, in import order.
pub open spec fn binding_for(imports: Seq<(Seq<char>, Seq<char>)>, name: Seq<char>) -> Option<Seq<char>>
    decreases imports.len(),
{
    if imports.len() == 0 {
        None
    } else if ends_with(strip_query(imports[0].1), name) {
        Some(imports[0].0)
    } else {
        binding_for(imports.drop_first(), name)
    }
}

/// The GLSL sources and the deck-prelude flag the module `ids` resolve to: a
/// locally imported module is followed to its GLSL source (dropped when that
/// fails), a package module (`@deck.gl`, `@luma.gl`) means the deck builtins, an
/// identifier never imported is ignored.
pub open spec fn resolve_ids(
    ids: Seq<Seq<char>>,
    imports: Seq<(Seq<char>, Seq<char>)>,
    ts_dir: Seq<char>,
    files: Seq<(Seq<char>, Seq<char>)>,
) -> (Seq<Seq<char>>, bool)
    decreases ids.len(),
{
    if ids.len() == 0 {
        (seq![], false)
    } else {
        let (m, b) = resolve_ids(ids.drop_last(), imports, ts_dir, files);
        let id = ids.last();
        match map_get(imports, id) {
            Some(p) => if is_relative(p) {
                match resolve_local_module_spec(ts_dir, p, id, files) {
                    Some(g) => (m.push(g), b),
                    None => (m, b),
                }
            } else {
                (m, true)
            },
            None => (m, b),
        }
    }
}

/// What one script says about the shader named `shader_name`: the `new Model`
/// call that references the shader's import binding, its modules resolved.
/// `None` when nothing usable resolves.
pub open spec fn derive_from_spec(
    text: Seq<char>,
    ts: Seq<char>,
    shader_name: Seq<char>,
    files: Seq<(Seq<char>, Seq<char>)>,
) -> Option<DerivedModel> {
    let imports = es_imports_spec(text);
    match binding_for(imports, shader_name) {
        None => None,
        Some(binding) => match models_from(text, binding, 0) {
            None => None,
            Some(ids) => match parent(ts) {
                None => None,
                Some(ts_dir) => {
                    let (mods, builtin) = resolve_ids(ids, imports, ts_dir, files);
                    if mods.len() == 0 && !builtin {
                        None
                    } else {
                        Some(DerivedModel { modules: mods, use_builtin_prelude: builtin })
                    }
                },
            },
        },
    }
}

fn binding_for_exec(imports: &Vec<(String, String)>, name: &[char]) -> (r: Option<String>)
    ensures
        crate::text::ov(r) == binding_for(imports_view(imports@), name@),
{
    let ghost iv = imports_view(imports@);
    let mut i: usize = 0;
    proof {
        assert(iv.skip(0) =~= iv);
    }
    while i < imports.len()
        invariant
            0 <= i <= imports.len(),
            iv == imports_view(imports@),
            binding_for(iv, name@) == binding_for(iv.skip(i as int), name@),
        decreases imports.len() - i,
    {
        proof {
            assert(iv.skip(i as int)[0] == (imports@[i as int].0@, imports@[i as int].1@));
            assert(iv.skip(i as int).drop_first() =~= iv.skip(i + 1));
        }
        let pc = to_chars(imports[i].1.as_str());
        let q = strip_query_exec(pc.as_slice());
        if ends_with_exec(q.as_slice(), name) {
            return Some(imports[i].0.clone());
        }
        i = i + 1;
    }
    None
}

pub fn derive_from(text: &str, ts: &str, shader_name: &str, ws: &Workspace) -> (r: Option<Derived>)
    ensures
        match r {
            Some(d) => derive_from_spec(text@, ts@, shader_name@, ws@.files) == Some(d@),
            None => derive_from_spec(text@, ts@, shader_name@, ws@.files) is None,
        },
{
    let imports = es_imports(text);
    let nc = to_chars(shader_name);
    let binding = match binding_for_exec(&imports, nc.as_slice()) {
        Some(b) => b,
        None => return None,
    };
    let ids = match model_modules_for(text, binding.as_str()) {
        Some(x) => x,
        None => return None,
    };
    let ts_dir = match parent_exec(ts) {
        Some(d) => d,
        None => return None,
    };
    let ghost iv = imports_view(imports@);
    let ghost idv = sv(ids@);
    let mut modules: Vec<String> = Vec::new();
    let mut builtin = false;
    let mut k: usize = 0;
    proof {
        assert(sv(modules@) =~= Seq::<Seq<char>>::empty());
        assert(idv.take(0) =~= Seq::<Seq<char>>::empty());
    }
    while k < ids.len()
        invariant
            0 <= k <= ids.len(),
            iv == imports_view(imports@),
            idv == sv(ids@),
            (sv(modules@), builtin) == resolve_ids(idv.take(k as int), iv, ts_dir@, ws@.files),
        decreases ids.len() - k,
    {
        proof {
            assert(idv.take(k + 1).drop_last() =~= idv.take(k as int));
            assert(idv.take(k + 1).last() == ids@[k as int]@);
        }
        let idc = to_chars(ids[k].as_str());
        match import_get(&imports, idc.as_slice()) {
            Some(p) => {
                let pc = to_chars(p.as_str());
                if pc.len() > 0 && (pc[0] == '.' || pc[0] == '/') {
                    match resolve_local_module(ts_dir.as_str(), p.as_str(), ids[k].as_str(), ws) {
                        Some(g) => {
                            proof {
                                lemma_sv_push(modules@, g);
                            }
                            modules.push(g);
                        },
                        None => {},
                    }
                } else {
                    builtin = true;
                }
            },
            None => {},
        }
        k = k + 1;
    }
    proof {
        assert(idv.take(ids@.len() as int) =~= idv);
    }
    if modules.len() == 0 && !builtin {
        return None;
    }
    Some(Derived { modules, use_builtin_prelude: builtin })
}

/// The derivation for `shader` from the first of the candidate scripts (readable
/// in `files`) that yields one.
pub open spec fn derive_spec(
    shader: Seq<char>,
    candidates: Seq<Seq<char>>,
    files: Seq<(Seq<char>, Seq<char>)>,
) -> Option<DerivedModel>
    decreases candidates.len(),
{
    if candidates.len() == 0 {
        None
    } else {
        match file_name(shader) {
            None => None,
            Some(name) => {
                let here = match lookup(files, candidates[0]) {
                    Some(text) => derive_from_spec(text, candidates[0], name, files),
                    None => None,
                };
                match here {
                    Some(d) => Some(d),
                    None => derive_spec(shader, candidates.drop_first(), files),
                }
            },
        }
    }
}

/// Derive `shader`'s modules by finding the `new Model(...)` call that wires it
/// up, trying the candidate scripts in order (the scripts in the shader's
/// ancestor directories, up to the project root).
pub fn derive(shader: &str, candidates: &Vec<String>, ws: &Workspace) -> (r: Option<Derived>)
    ensures
        match r {
            Some(d) => derive_spec(shader@, sv(candidates@), ws@.files) == Some(d@),
            None => derive_spec(shader@, sv(candidates@), ws@.files) is None,
        },
{
    let sc = to_chars(shader);
    let name = match file_name_exec(sc.as_slice()) {
        Some(n) => from_chars(n.as_slice()),
        None => {
            proof {
                if candidates@.len() > 0 {
                    assert(derive_spec(shader@, sv(candidates@), ws@.files) is None);
                }
            }
            return None;
        },
    };
    let ghost cv = sv(candidates@);
    let mut i: usize = 0;
    proof {
        assert(cv.skip(0) =~= cv);
    }
    while i < candidates.len()
        invariant
            0 <= i <= candidates.len(),
            cv == sv(candidates@),
            file_name(shader@) == Some(name@),
            derive_spec(shader@, cv, ws@.files) == derive_spec(shader@, cv.skip(i as int), ws@.files),
        decreases candidates.len() - i,
    {
        proof {
            assert(cv.skip(i as int)[0] == candidates@[i as int]@);
            assert(cv.skip(i as int).drop_first() =~= cv.skip(i + 1));
        }
        let tc = to_chars(candidates[i].as_str());
        match ws.read(tc.as_slice()) {
            Some(text) => {
                match derive_from(text.as_str(), candidates[i].as_str(), name.as_str(), ws) {
                    Some(d) => {
                        return Some(d);
                    },
                    None => {},
                }
            },
            None => {},
        }
        i = i + 1;
    }
    None
}

// ---------------------------------------------------------------------------
// Laws
// ---------------------------------------------------------------------------

/// Derivation is conservative: when it yields bindings at all, they provide
/// something — a module's GLSL file or deck's builtins; otherwise the caller
/// falls back to its own discovery.
pub proof fn lemma_derived_bindings_are_never_empty(
    shader: Seq<char>,
    candidates: Seq<Seq<char>>,
    files: Seq<(Seq<char>, Seq<char>)>,
)
    ensures
        derive_spec(shader, candidates, files) matches Some(d) ==> d.modules.len() > 0 || d.use_builtin_prelude,
    decreases candidates.len(),
{
    if candidates.len() > 0 {
        lemma_derived_bindings_are_never_empty(shader, candidates.drop_first(), files);
    }
}

proof fn lemma_first_present_at(cands: Seq<Seq<char>>, files: Seq<(Seq<char>, Seq<char>)>, k: int)
    requires
        0 <= k <= cands.len(),
        forall|j: int| 0 <= j < k ==> lookup(files, #[trigger] cands[j]) is None,
    ensures
        k < cands.len() && lookup(files, cands[k]) is Some ==> first_present(cands, files) == Some(cands[k]),
        k == cands.len() ==> first_present(cands, files) is None,
    decreases k,
{
    if k > 0 {
        let t = cands.drop_first();
        assert(lookup(files, cands[0]) is None);
        assert forall|j: int| 0 <= j < k - 1 implies lookup(files, #[trigger] t[j]) is None by {
            assert(t[j] == cands[j + 1]);
        }
        lemma_first_present_at(t, files, k - 1);
        if k < cands.len() {
            assert(t[k - 1] == cands[k]);
        }
    }
}

/// The script extensions a module specifier may take, in the order tried.
pub open spec fn script_extensions() -> Seq<Seq<char>> {
    seq!["ts"@, "tsx"@, "mts"@, "js"@, "jsx"@]
}

/// The index files a module directory may hold, in the order tried.
pub open spec fn index_names() -> Seq<Seq<char>> {
    seq!["index.ts"@, "index.tsx"@, "index.js"@]
}

/// A module specifier (joined onto its directory) resolves to the first
/// readable file among `base.ts`, `base.tsx`, `base.mts`, `base.js`,
/// `base.jsx`, then `base/index.ts`, `base/index.tsx`, `base/index.js` — so a
/// module whose script is a plain `.js` file resolves to it when no
/// TypeScript file of that name comes first — and to nothing when none is
/// readable. What it resolves to is always a readable file.
pub proof fn lemma_module_specifiers_try_script_files_in_order(base: Seq<char>, files: Seq<(Seq<char>, Seq<char>)>)
    ensures
        forall|k: int|
            0 <= k < script_extensions().len() && (forall|j: int|
                0 <= j < k ==> lookup(files, with_extension(base, #[trigger] script_extensions()[j])) is None) && lookup(
                files,
                with_extension(base, script_extensions()[k]),
            ) is Some ==> resolve_ts_spec(base, files) == Some(with_extension(base, #[trigger] script_extensions()[k])),
        forall|m: int|
            0 <= m < index_names().len() && (forall|j: int|
                0 <= j < script_extensions().len() ==> lookup(files, with_extension(base, #[trigger] script_extensions()[j]))
                    is None) && (forall|j: int| 0 <= j < m ==> lookup(files, join(base, #[trigger] index_names()[j])) is None)
                && lookup(files, join(base, index_names()[m])) is Some ==> resolve_ts_spec(base, files) == Some(
                join(base, #[trigger] index_names()[m]),
            ),
        resolve_ts_spec(base, files) matches Some(f) ==> lookup(files, f) is Some,
{
    let c = ts_candidates(base);
    let e = script_extensions();
    let x = index_names();
    assert forall|j: int| 0 <= j < 5 implies c[j] == with_extension(base, #[trigger] e[j]) by {}
    assert forall|j: int| 0 <= j < 3 implies c[5 + j] == join(base, #[trigger] x[j]) by {}
    assert forall|k: int|
        0 <= k < e.len() && (forall|j: int| 0 <= j < k ==> lookup(files, with_extension(base, #[trigger] e[j])) is None)
            && lookup(files, with_extension(base, e[k])) is Some implies resolve_ts_spec(base, files) == Some(
        with_extension(base, #[trigger] e[k]),
    ) by {
        assert forall|j: int| 0 <= j < k implies lookup(files, #[trigger] c[j]) is None by {
            assert(c[j] == with_extension(base, e[j]));
        }
        assert(c[k] == with_extension(base, e[k]));
        lemma_first_present_at(c, files, k);
    }
    assert forall|m: int|
        0 <= m < x.len() && (forall|j: int| 0 <= j < e.len() ==> lookup(files, with_extension(base, #[trigger] e[j])) is None)
            && (forall|j: int| 0 <= j < m ==> lookup(files, join(base, #[trigger] x[j])) is None) && lookup(
            files,
            join(base, x[m]),
        ) is Some implies resolve_ts_spec(base, files) == Some(join(base, #[trigger] x[m])) by {
        assert forall|j: int| 0 <= j < 5 + m implies lookup(files, #[trigger] c[j]) is None by {
            if j < 5 {
                assert(c[j] == with_extension(base, e[j]));
            } else {
                assert(c[j] == join(base, x[j - 5]));
            }
        }
        assert(c[5 + m] == join(base, x[m]));
        lemma_first_present_at(c, files, 5 + m);
    }
    lemma_first_present_found(c, files);
}

proof fn lemma_first_present_found(cands: Seq<Seq<char>>, files: Seq<(Seq<char>, Seq<char>)>)
    ensures
        first_present(cands, files) matches Some(f) ==> lookup(files, f) is Some,
    decreases cands.len(),
{
    if cands.len() > 0 && lookup(files, cands[0]) is None {
        lemma_first_present_found(cands.drop_first(), files);
    }
}

} // verus!
