//! A lightweight symbol scanner over the assembled unit, powering hover and
//! go-to-definition. Deliberately line-based (like the assembler and the lints),
//! not a full GLSL parser — it recognizes the shapes luma/deck shaders actually
//! use: UBO/interface blocks, top-level `uniform`/`in`/`out` declarations, and
//! function definitions. Every symbol carries its original `Loc` via the line
//! map, so a `wind.uMin` access in one file resolves to its declaration in the
//! injected `windUniforms.glsl`.
//!
//! Each table maps a name to one entry (a later declaration replaces an earlier
//! one in place) and lists its names in the order they were first declared.

use vstd::prelude::*;
use crate::assemble::{Assembled, AssembledModel, Loc, LocModel, oloc};
use crate::text::{
    contains, contains_exec, ends_with, ends_with_exec, from_chars, index_of, index_of_from, is_ident, is_ident_exec,
    is_word, is_word_exec, lines, slice_vec, split_whitespace, starts_with, starts_with_exec, to_chars, trim,
    trim_end, trim_end_vec, trim_start, trim_start_vec, trim_vec, vviews, words,
};

verus! {

// ---------------------------------------------------------------------------
// Name tables
// ---------------------------------------------------------------------------

/// A table's content: `(name, value)` pairs, each name once.
pub open spec fn kv_view<T: View>(m: Seq<(String, T)>) -> Seq<(Seq<char>, T::V)> {
    m.map_values(|e: (String, T)| (e.0@, e.1@))
}

/// The value bound to `k`.
pub open spec fn kv_get<V>(m: Seq<(Seq<char>, V)>, k: Seq<char>) -> Option<V>
    decreases m.len(),
{
    if m.len() == 0 {
        None
    } else if m[0].0 == k {
        Some(m[0].1)
    } else {
        kv_get(m.drop_first(), k)
    }
}

/// Bind `k` to `v`: an existing binding is replaced in place, a new one appended.
pub open spec fn kv_insert<V>(m: Seq<(Seq<char>, V)>, k: Seq<char>, v: V) -> Seq<(Seq<char>, V)>
    decreases m.len(),
{
    if m.len() == 0 {
        seq![(k, v)]
    } else if m[0].0 == k {
        seq![(k, v)] + m.drop_first()
    } else {
        seq![m[0]] + kv_insert(m.drop_first(), k, v)
    }
}

/// Bind `k` to `v` unless `k` is bound already.
pub open spec fn kv_or_insert<V>(m: Seq<(Seq<char>, V)>, k: Seq<char>, v: V) -> Seq<(Seq<char>, V)> {
    if kv_get(m, k) is Some {
        m
    } else {
        m.push((k, v))
    }
}

proof fn lemma_kv_at<V>(m: Seq<(Seq<char>, V)>, k: Seq<char>, v: V, i: int)
    requires
        0 <= i <= m.len(),
        i < m.len() ==> m[i].0 == k,
        forall|j: int| 0 <= j < i ==> m[j].0 != k,
    ensures
        kv_insert(m, k, v) == if i < m.len() {
            m.update(i, (k, v))
        } else {
            m.push((k, v))
        },
        kv_get(m, k) == if i < m.len() {
            Some(m[i].1)
        } else {
            None::<V>
        },
    decreases m.len(),
{
    if m.len() > 0 && i > 0 {
        assert forall|j: int| 0 <= j < i - 1 implies m.drop_first()[j].0 != k by {
            assert(m.drop_first()[j] == m[j + 1]);
        }
        lemma_kv_at(m.drop_first(), k, v, i - 1);
        if i < m.len() {
            assert(seq![m[0]] + m.drop_first().update(i - 1, (k, v)) =~= m.update(i, (k, v)));
        } else {
            assert(seq![m[0]] + m.drop_first().push((k, v)) =~= m.push((k, v)));
        }
    } else if m.len() > 0 {
        assert(seq![(k, v)] + m.drop_first() =~= m.update(0, (k, v)));
    } else {
        assert(seq![(k, v)] =~= m.push((k, v)));
    }
}

/// The index of `k` in `m`, or its length.
fn kv_find<T: View>(m: &Vec<(String, T)>, k: &[char]) -> (r: usize)
    ensures
        r <= m@.len(),
        r < m@.len() ==> kv_view(m@)[r as int].0 == k@,
        forall|j: int| 0 <= j < r ==> kv_view(m@)[j].0 != k@,
{
    let mut i: usize = 0;
    while i < m.len()
        invariant
            0 <= i <= m.len(),
            forall|j: int| 0 <= j < i ==> kv_view(m@)[j].0 != k@,
        decreases m.len() - i,
    {
        if crate::text::string_eq(&m[i].0, k) {
            return i;
        }
        i = i + 1;
    }
    i
}

fn kv_put<T: View>(m: &mut Vec<(String, T)>, k: String, v: T)
    ensures
        kv_view(final(m)@) == kv_insert(kv_view(old(m)@), k@, v@),
{
    let kc = to_chars(k.as_str());
    let i = kv_find(m, kc.as_slice());
    proof {
        lemma_kv_at(kv_view(m@), k@, v@, i as int);
    }
    let ghost before = m@;
    let ghost kv = k@;
    let ghost vv = v@;
    if i < m.len() {
        m.set(i, (k, v));
        proof {
            assert(kv_view(m@) =~= kv_view(before).update(i as int, (kv, vv)));
        }
    } else {
        m.push((k, v));
        proof {
            assert(kv_view(m@) =~= kv_view(before).push((kv, vv)));
        }
    }
}

fn kv_put_new<T: View>(m: &mut Vec<(String, T)>, k: String, v: T)
    ensures
        kv_view(final(m)@) == kv_or_insert(kv_view(old(m)@), k@, v@),
{
    let kc = to_chars(k.as_str());
    let i = kv_find(m, kc.as_slice());
    proof {
        lemma_kv_at(kv_view(m@), k@, v@, i as int);
    }
    if i >= m.len() {
        let ghost before = m@;
        let ghost kv = k@;
        let ghost vv = v@;
        m.push((k, v));
        proof {
            assert(kv_view(m@) =~= kv_view(before).push((kv, vv)));
        }
    }
}

/// The entry for `k`, if any.
fn kv_lookup<'a, T: View>(m: &'a Vec<(String, T)>, k: &[char]) -> (r: Option<&'a T>)
    ensures
        match r {
            Some(v) => kv_get(kv_view(m@), k@) == Some(v@),
            None => kv_get(kv_view(m@), k@) is None,
        },
{
    let i = kv_find(m, k);
    proof {
        lemma_kv_at(kv_view(m@), k@, arbitrary(), i as int);
    }
    if i < m.len() {
        Some(&m[i].1)
    } else {
        None
    }
}

// ---------------------------------------------------------------------------
// The index
// ---------------------------------------------------------------------------

/// A declaration and where it lives.
#[derive(Debug)]
pub struct Symbol {
    pub detail: String,
    pub loc: Loc,
}

pub struct SymbolModel {
    pub detail: Seq<char>,
    pub loc: LocModel,
}

impl View for Symbol {
    type V = SymbolModel;

    open spec fn view(&self) -> SymbolModel {
        SymbolModel { detail: self.detail@, loc: self.loc@ }
    }
}

/// A built-in function — deck.gl prelude or core GLSL. Hover/completion only.
#[derive(Debug)]
pub struct Builtin {
    pub signature: String,
    pub origin: String,
}

pub struct BuiltinModel {
    pub signature: Seq<char>,
    pub origin: Seq<char>,
}

impl View for Builtin {
    type V = BuiltinModel;

    open spec fn view(&self) -> BuiltinModel {
        BuiltinModel { signature: self.signature@, origin: self.origin@ }
    }
}

/// A uniform block, keyed in the index by its instance name.
#[derive(Debug)]
pub struct Ubo {
    pub block_name: String,
    pub detail: String,
    pub loc: Loc,
    pub members: Vec<(String, Symbol)>,
}

pub struct UboModel {
    pub block_name: Seq<char>,
    pub detail: Seq<char>,
    pub loc: LocModel,
    pub members: Seq<(Seq<char>, SymbolModel)>,
}

impl View for Ubo {
    type V = UboModel;

    open spec fn view(&self) -> UboModel {
        UboModel { block_name: self.block_name@, detail: self.detail@, loc: self.loc@, members: kv_view(self.members@) }
    }
}

/// Every symbol of an assembled unit, by name.
#[derive(Debug)]
pub struct SymbolIndex {
    pub globals: Vec<(String, Symbol)>,
    pub functions: Vec<(String, Symbol)>,
    /// Keyed by the block *instance* name (e.g. `wind`), not the block type.
    pub ubos: Vec<(String, Ubo)>,
    /// Built-in functions (deck prelude + core GLSL) keyed by name.
    pub builtins: Vec<(String, Builtin)>,
}

pub struct IndexModel {
    pub globals: Seq<(Seq<char>, SymbolModel)>,
    pub functions: Seq<(Seq<char>, SymbolModel)>,
    pub ubos: Seq<(Seq<char>, UboModel)>,
    pub builtins: Seq<(Seq<char>, BuiltinModel)>,
}

impl View for SymbolIndex {
    type V = IndexModel;

    open spec fn view(&self) -> IndexModel {
        IndexModel {
            globals: kv_view(self.globals@),
            functions: kv_view(self.functions@),
            ubos: kv_view(self.ubos@),
            builtins: kv_view(self.builtins@),
        }
    }
}

impl Default for SymbolIndex {
    /// An empty index.
    fn default() -> (r: SymbolIndex)
        ensures
            r@.globals.len() == 0,
            r@.functions.len() == 0,
            r@.ubos.len() == 0,
            r@.builtins.len() == 0,
    {
        SymbolIndex { globals: Vec::new(), functions: Vec::new(), ubos: Vec::new(), builtins: Vec::new() }
    }
}

/// A resolved hover / definition target. `loc` is `None` for builtins, which can
/// be hovered but have no source location to navigate to.
#[derive(Debug)]
pub struct Hit {
    pub detail: String,
    pub note: Option<String>,
    pub loc: Option<Loc>,
}

pub struct HitModel {
    pub detail: Seq<char>,
    pub note: Option<Seq<char>>,
    pub loc: Option<LocModel>,
}

impl View for Hit {
    type V = HitModel;

    open spec fn view(&self) -> HitModel {
        HitModel { detail: self.detail@, note: crate::text::ov(self.note), loc: oloc(self.loc) }
    }
}

/// The flavor of a symbol, mapped to LSP completion/symbol kinds by the server.
#[derive(Debug, Clone, Copy, PartialEq, Eq, Structural)]
pub enum SymKind {
    Field,
    Function,
    Variable,
    Builtin,
    Block,
}

/// A completion candidate.
#[derive(Debug)]
pub struct Completion {
    pub label: String,
    pub detail: String,
    pub kind: SymKind,
}

pub struct CompletionModel {
    pub label: Seq<char>,
    pub detail: Seq<char>,
    pub kind: SymKind,
}

impl View for Completion {
    type V = CompletionModel;

    open spec fn view(&self) -> CompletionModel {
        CompletionModel { label: self.label@, detail: self.detail@, kind: self.kind }
    }
}

pub open spec fn completions_view(v: Seq<Completion>) -> Seq<CompletionModel> {
    v.map_values(|c: Completion| c@)
}

/// A document-outline entry (1-based `line` into the open document).
#[derive(Debug)]
pub struct DocSym {
    pub name: String,
    pub detail: String,
    pub kind: SymKind,
    pub line: u32,
    pub children: Vec<DocSym>,
}

/// An outline entry's content; `children` are the entries of a block.
pub struct DocSymModel {
    pub name: Seq<char>,
    pub detail: Seq<char>,
    pub kind: SymKind,
    pub line: u32,
    pub children: Seq<DocLeaf>,
}

/// A child entry (members have no children of their own).
pub struct DocLeaf {
    pub name: Seq<char>,
    pub detail: Seq<char>,
    pub kind: SymKind,
    pub line: u32,
}

pub open spec fn leaf_view(d: DocSym) -> DocLeaf {
    DocLeaf { name: d.name@, detail: d.detail@, kind: d.kind, line: d.line }
}

pub open spec fn leaves_view(v: Seq<DocSym>) -> Seq<DocLeaf> {
    v.map_values(|d: DocSym| leaf_view(d))
}

pub open spec fn docsym_view(d: DocSym) -> DocSymModel {
    DocSymModel { name: d.name@, detail: d.detail@, kind: d.kind, line: d.line, children: leaves_view(d.children@) }
}

pub open spec fn docsyms_view(v: Seq<DocSym>) -> Seq<DocSymModel> {
    v.map_values(|d: DocSym| docsym_view(d))
}

// ---------------------------------------------------------------------------
// Line shapes
// ---------------------------------------------------------------------------

/// The length of the leading `[A-Za-z0-9_]` run.
pub open spec fn word_run(s: Seq<char>) -> int
    decreases s.len(),
{
    if s.len() > 0 && is_word(s[0]) {
        1 + word_run(s.drop_first())
    } else {
        0
    }
}

proof fn lemma_word_run(s: Seq<char>)
    ensures
        0 <= word_run(s) <= s.len(),
        forall|j: int| 0 <= j < word_run(s) ==> is_word(s[j]),
        word_run(s) < s.len() ==> !is_word(s[word_run(s)]),
    decreases s.len(),
{
    if s.len() > 0 && is_word(s[0]) {
        lemma_word_run(s.drop_first());
        assert forall|j: int| 0 <= j < word_run(s) implies is_word(s[j]) by {
            if j > 0 {
                assert(s[j] == s.drop_first()[j - 1]);
            }
        }
    }
}

fn word_run_exec(s: &[char]) -> (r: usize)
    ensures
        r == word_run(s@),
{
    let mut i: usize = 0;
    proof {
        assert(s@.skip(0) =~= s@);
    }
    while i < s.len() && is_word_exec(s[i])
        invariant
            0 <= i <= s.len(),
            word_run(s@) == i + word_run(s@.skip(i as int)),
        decreases s.len() - i,
    {
        proof {
            assert(s@.skip(i as int).drop_first() =~= s@.skip(i + 1));
        }
        i = i + 1;
    }
    i
}

/// The block name, if a trimmed line opens a UBO/interface block — e.g.
/// `layout(std140) uniform windUniforms {`.
pub open spec fn block_start_spec(t: Seq<char>) -> Option<Seq<char>> {
    if !ends_with(t, "{"@) {
        None
    } else {
        let r0 = if starts_with(t, "layout"@) {
            trim_start(t.skip(6))
        } else {
            t
        };
        let r1: Option<Seq<char>> = if r0.len() > 0 && r0[0] == '(' {
            let ap = r0.skip(1);
            let c = index_of(ap, ')');
            if c < ap.len() {
                Some(ap.skip(c + 1))
            } else {
                None
            }
        } else {
            Some(r0)
        };
        match r1 {
            None => None,
            Some(x) => {
                let r2 = trim_start(x);
                let r3: Option<Seq<char>> = if starts_with(r2, "uniform"@) {
                    Some(r2.skip(7))
                } else if starts_with(r2, "buffer"@) {
                    Some(r2.skip(6))
                } else {
                    None
                };
                match r3 {
                    None => None,
                    Some(y) => {
                        let r4 = trim_start(y);
                        let n = r4.take(word_run(r4));
                        if n.len() > 0 {
                            Some(n)
                        } else {
                            None
                        }
                    },
                }
            },
        }
    }
}

fn block_start(t: &[char]) -> (r: Option<Vec<char>>)
    ensures
        match r {
            Some(n) => block_start_spec(t@) == Some(n@),
            None => block_start_spec(t@) is None,
        },
{
    proof {
        reveal_strlit("layout");
        reveal_strlit("uniform");
        reveal_strlit("buffer");
        reveal_strlit("{");
    }
    if !ends_with_exec(t, to_chars("{").as_slice()) {
        return None;
    }
    let r0 = if starts_with_exec(t, to_chars("layout").as_slice()) {
        let x = slice_vec(t, 6, t.len());
        proof {
            assert(x@ =~= t@.skip(6));
        }
        trim_start_vec(x.as_slice())
    } else {
        let x = slice_vec(t, 0, t.len());
        proof {
            assert(x@ =~= t@);
        }
        x
    };
    let ghost r1s: Option<Seq<char>> = if r0@.len() > 0 && r0@[0] == '(' {
        let ap = r0@.skip(1);
        let c = index_of(ap, ')');
        if c < ap.len() {
            Some(ap.skip(c + 1))
        } else {
            None
        }
    } else {
        Some(r0@)
    };
    let r1 = if r0.len() > 0 && r0[0] == '(' {
        let ap = slice_vec(r0.as_slice(), 1, r0.len());
        proof {
            assert(ap@ =~= r0@.skip(1));
            assert(ap@.skip(0) =~= ap@);
        }
        let c = index_of_from(ap.as_slice(), ')', 0);
        if c < ap.len() {
            let y = slice_vec(ap.as_slice(), c + 1, ap.len());
            proof {
                assert(y@ =~= ap@.skip(c + 1));
            }
            y
        } else {
            proof {
                assert(r1s is None);
            }
            return None;
        }
    } else {
        r0
    };
    proof {
        assert(r1s == Some(r1@));
    }
    let r2 = trim_start_vec(r1.as_slice());
    let r3 = if starts_with_exec(r2.as_slice(), to_chars("uniform").as_slice()) {
        let y = slice_vec(r2.as_slice(), 7, r2.len());
        proof {
            assert(y@ =~= r2@.skip(7));
        }
        y
    } else if starts_with_exec(r2.as_slice(), to_chars("buffer").as_slice()) {
        let y = slice_vec(r2.as_slice(), 6, r2.len());
        proof {
            assert(y@ =~= r2@.skip(6));
        }
        y
    } else {
        return None;
    };
    let r4 = trim_start_vec(r3.as_slice());
    let k = word_run_exec(r4.as_slice());
    proof {
        lemma_word_run(r4@);
    }
    if k > 0 {
        let n = slice_vec(r4.as_slice(), 0, k);
        proof {
            assert(n@ =~= r4@.take(k as int));
        }
        Some(n)
    } else {
        None
    }
}

/// The text before the first `[` (the name of an array declaration).
pub open spec fn before_bracket(s: Seq<char>) -> Seq<char> {
    s.take(index_of(s, '['))
}

fn before_bracket_exec(s: &[char]) -> (r: Vec<char>)
    ensures
        r@ == before_bracket(s@),
{
    let k = index_of_from(s, '[', 0);
    proof {
        assert(s@.skip(0) =~= s@);
    }
    slice_vec(s, 0, k)
}

/// `float uMin;` -> `("float", "uMin")`: exactly a type and a name.
pub open spec fn member_decl_spec(t: Seq<char>) -> Option<(Seq<char>, Seq<char>)> {
    if !ends_with(t, ";"@) {
        None
    } else {
        let ws = words(t.drop_last());
        if ws.len() != 2 {
            None
        } else {
            let name = before_bracket(ws[1]);
            if is_ident(ws[0]) && is_ident(name) {
                Some((ws[0], name))
            } else {
                None
            }
        }
    }
}

fn member_decl(t: &[char]) -> (r: Option<(Vec<char>, Vec<char>)>)
    ensures
        match r {
            Some((a, b)) => member_decl_spec(t@) == Some((a@, b@)),
            None => member_decl_spec(t@) is None,
        },
{
    if !ends_with_exec(t, to_chars(";").as_slice()) {
        return None;
    }
    proof {
        reveal_strlit(";");
    }
    let body = slice_vec(t, 0, t.len() - 1);
    let ws = split_whitespace(body.as_slice());
    proof {
        assert(body@ =~= t@.drop_last());
    }
    if ws.len() != 2 {
        return None;
    }
    let name = before_bracket_exec(ws[1].as_slice());
    proof {
        assert(vviews(ws@)[0] == ws@[0]@);
        assert(vviews(ws@)[1] == ws@[1]@);
    }
    if is_ident_exec(ws[0].as_slice()) && is_ident_exec(name.as_slice()) {
        Some((slice_vec(ws[0].as_slice(), 0, ws[0].len()), name))
    } else {
        None
    }
}

/// `} wind;` -> `"wind"`.
pub open spec fn block_end_spec(t: Seq<char>) -> Option<Seq<char>> {
    if !(t.len() > 0 && t[0] == '}') {
        None
    } else {
        let b = trim_start(t.skip(1));
        if !ends_with(b, ";"@) {
            None
        } else {
            let name = trim(before_bracket(trim(b.drop_last())));
            if is_ident(name) {
                Some(name)
            } else {
                None
            }
        }
    }
}

fn block_end(t: &[char]) -> (r: Option<Vec<char>>)
    ensures
        match r {
            Some(n) => block_end_spec(t@) == Some(n@),
            None => block_end_spec(t@) is None,
        },
{
    if !(t.len() > 0 && t[0] == '}') {
        return None;
    }
    let x = slice_vec(t, 1, t.len());
    let b = trim_start_vec(x.as_slice());
    proof {
        assert(x@ =~= t@.skip(1));
        reveal_strlit(";");
    }
    if !ends_with_exec(b.as_slice(), to_chars(";").as_slice()) {
        return None;
    }
    let body = slice_vec(b.as_slice(), 0, b.len() - 1);
    proof {
        assert(body@ =~= b@.drop_last());
    }
    let tb = trim_vec(body.as_slice());
    let nb = before_bracket_exec(tb.as_slice());
    let name = trim_vec(nb.as_slice());
    if is_ident_exec(name.as_slice()) {
        Some(name)
    } else {
        None
    }
}

pub open spec fn qualifiers() -> Seq<Seq<char>> {
    seq!["uniform"@, "in"@, "out"@, "attribute"@, "varying"@, "const"@]
}

/// `uniform sampler2D u_wind;` -> `("u_wind", "uniform sampler2D u_wind")`: a
/// qualified declaration, named by the last word before any `=`.
pub open spec fn global_decl_spec(t: Seq<char>) -> Option<(Seq<char>, Seq<char>)> {
    if !ends_with(t, ";"@) {
        None
    } else {
        let body = t.drop_last();
        let ws = words(body);
        if ws.len() == 0 || !qualifiers().contains(ws[0]) {
            None
        } else {
            let lw = words(body.take(index_of(body, '=')));
            if lw.len() == 0 {
                None
            } else {
                let name = before_bracket(lw.last());
                if is_ident(name) {
                    Some((name, trim(body)))
                } else {
                    None
                }
            }
        }
    }
}

fn global_decl(t: &[char]) -> (r: Option<(Vec<char>, Vec<char>)>)
    ensures
        match r {
            Some((a, b)) => global_decl_spec(t@) == Some((a@, b@)),
            None => global_decl_spec(t@) is None,
        },
{
    proof {
        reveal_strlit(";");
    }
    if !ends_with_exec(t, to_chars(";").as_slice()) {
        return None;
    }
    let body = slice_vec(t, 0, t.len() - 1);
    proof {
        assert(body@ =~= t@.drop_last());
    }
    let ws = split_whitespace(body.as_slice());
    if ws.len() == 0 {
        return None;
    }
    let q = qualifiers_exec();
    let first = ws[0].as_slice();
    let mut known = false;
    let mut k: usize = 0;
    proof {
        assert(vviews(ws@)[0] == ws@[0]@);
    }
    while k < q.len()
        invariant
            0 <= k <= q.len(),
            vviews(q@) == qualifiers(),
            known == exists|j: int| 0 <= j < k && qualifiers()[j] == first@,
        decreases q.len() - k,
    {
        proof {
            assert(vviews(q@)[k as int] == q@[k as int]@);
        }
        if crate::text::eq_chars(q[k].as_slice(), first) {
            known = true;
        }
        k = k + 1;
    }
    proof {
        if qualifiers().contains(first@) {
            let j = choose|j: int| 0 <= j < qualifiers().len() && qualifiers()[j] == first@;
            assert(0 <= j < k);
        }
    }
    if !known {
        return None;
    }
    let eq = index_of_from(body.as_slice(), '=', 0);
    proof {
        assert(body@.skip(0) =~= body@);
    }
    let lhs = slice_vec(body.as_slice(), 0, eq);
    let lw = split_whitespace(lhs.as_slice());
    if lw.len() == 0 {
        return None;
    }
    proof {
        assert(vviews(lw@).last() == lw@[lw@.len() - 1]@);
    }
    let name = before_bracket_exec(lw[lw.len() - 1].as_slice());
    if is_ident_exec(name.as_slice()) {
        Some((name, trim_vec(body.as_slice())))
    } else {
        None
    }
}

fn qualifiers_exec() -> (r: Vec<Vec<char>>)
    ensures
        vviews(r@) == qualifiers(),
{
    let mut v: Vec<Vec<char>> = Vec::new();
    v.push(to_chars("uniform"));
    v.push(to_chars("in"));
    v.push(to_chars("out"));
    v.push(to_chars("attribute"));
    v.push(to_chars("varying"));
    v.push(to_chars("const"));
    proof {
        assert(vviews(v@) =~= qualifiers());
    }
    v
}

/// `vec2 windAt(sampler2D w, vec2 p) {` -> `("windAt", "vec2 windAt(sampler2D w, vec2 p)")`:
/// exactly `<type> <name>(...)` before the `{`.
pub open spec fn function_def_spec(t: Seq<char>) -> Option<(Seq<char>, Seq<char>)> {
    if !ends_with(t, "{"@) {
        None
    } else {
        let head = trim_end(t.drop_last());
        if !ends_with(head, ")"@) {
            None
        } else {
            let p = index_of(head, '(');
            if p >= head.len() {
                None
            } else {
                let ws = words(head.take(p));
                if ws.len() != 2 || !is_ident(ws[1]) {
                    None
                } else {
                    Some((ws[1], trim(head)))
                }
            }
        }
    }
}

fn function_def(t: &[char]) -> (r: Option<(Vec<char>, Vec<char>)>)
    ensures
        match r {
            Some((a, b)) => function_def_spec(t@) == Some((a@, b@)),
            None => function_def_spec(t@) is None,
        },
{
    proof {
        reveal_strlit("{");
    }
    if !ends_with_exec(t, to_chars("{").as_slice()) {
        return None;
    }
    let x = slice_vec(t, 0, t.len() - 1);
    proof {
        assert(x@ =~= t@.drop_last());
    }
    let head = trim_end_vec(x.as_slice());
    if !ends_with_exec(head.as_slice(), to_chars(")").as_slice()) {
        return None;
    }
    let p = index_of_from(head.as_slice(), '(', 0);
    proof {
        assert(head@.skip(0) =~= head@);
    }
    if p >= head.len() {
        return None;
    }
    let before = slice_vec(head.as_slice(), 0, p);
    let ws = split_whitespace(before.as_slice());
    if ws.len() != 2 {
        return None;
    }
    proof {
        assert(vviews(ws@)[1] == ws@[1]@);
    }
    if !is_ident_exec(ws[1].as_slice()) {
        return None;
    }
    Some((slice_vec(ws[1].as_slice(), 0, ws[1].len()), trim_vec(head.as_slice())))
}

/// `(name, signature)` of a function definition line with its `{` on it, e.g.
/// `vec2 project_pixel_size_to_clipspace(vec2 pixels) { return pixels; }`: the
/// signature runs to the first `)` after the first `(`.
pub open spec fn builtin_signature_spec(line: Seq<char>) -> Option<(Seq<char>, Seq<char>)> {
    if !contains(line, "{"@) {
        None
    } else {
        let open = index_of(line, '(');
        if open >= line.len() {
            None
        } else {
            let rel = index_of(line.skip(open), ')');
            if rel >= line.len() - open {
                None
            } else {
                let ws = words(line.take(open));
                if ws.len() != 2 || !is_ident(ws[1]) {
                    None
                } else {
                    Some((ws[1], trim(line.take(open + rel + 1))))
                }
            }
        }
    }
}

fn builtin_signature(line: &[char]) -> (r: Option<(Vec<char>, Vec<char>)>)
    ensures
        match r {
            Some((a, b)) => builtin_signature_spec(line@) == Some((a@, b@)),
            None => builtin_signature_spec(line@) is None,
        },
{
    if !contains_exec(line, to_chars("{").as_slice()) {
        return None;
    }
    let open = index_of_from(line, '(', 0);
    proof {
        assert(line@.skip(0) =~= line@);
    }
    if open >= line.len() {
        return None;
    }
    let rest = slice_vec(line, open, line.len());
    proof {
        assert(rest@ =~= line@.skip(open as int));
        assert(rest@.skip(0) =~= rest@);
    }
    let rel = index_of_from(rest.as_slice(), ')', 0);
    if rel >= rest.len() {
        return None;
    }
    let before = slice_vec(line, 0, open);
    let ws = split_whitespace(before.as_slice());
    if ws.len() != 2 {
        return None;
    }
    proof {
        assert(vviews(ws@)[1] == ws@[1]@);
    }
    if !is_ident_exec(ws[1].as_slice()) {
        return None;
    }
    let sig = slice_vec(line, 0, open + rel + 1);
    Some((slice_vec(ws[1].as_slice(), 0, ws[1].len()), trim_vec(sig.as_slice())))
}

// ---------------------------------------------------------------------------
// Words around a cursor
// ---------------------------------------------------------------------------

/// Back over identifier characters ending at `i`.
pub open spec fn word_back(s: Seq<char>, i: int) -> int
    decreases i,
{
    if 0 < i <= s.len() && is_word(s[i - 1]) {
        word_back(s, i - 1)
    } else {
        i
    }
}

/// Forward over identifier characters from `i`.
pub open spec fn word_fwd(s: Seq<char>, i: int) -> int
    decreases s.len() - i,
{
    if 0 <= i < s.len() && is_word(s[i]) {
        word_fwd(s, i + 1)
    } else {
        i
    }
}

proof fn lemma_word_back(s: Seq<char>, i: int)
    requires
        0 <= i <= s.len(),
    ensures
        0 <= word_back(s, i) <= i,
    decreases i,
{
    if i > 0 && is_word(s[i - 1]) {
        lemma_word_back(s, i - 1);
    }
}

proof fn lemma_word_fwd(s: Seq<char>, i: int)
    requires
        0 <= i <= s.len(),
    ensures
        i <= word_fwd(s, i) <= s.len(),
    decreases s.len() - i,
{
    if i < s.len() && is_word(s[i]) {
        lemma_word_fwd(s, i + 1);
    }
}

fn word_back_exec(s: &[char], start: usize) -> (r: usize)
    requires
        start <= s@.len(),
    ensures
        r == word_back(s@, start as int),
{
    let mut i = start;
    while i > 0 && is_word_exec(s[i - 1])
        invariant
            i <= s@.len(),
            word_back(s@, start as int) == word_back(s@, i as int),
        decreases i,
    {
        i = i - 1;
    }
    i
}

fn word_fwd_exec(s: &[char], start: usize) -> (r: usize)
    requires
        start <= s@.len(),
    ensures
        r == word_fwd(s@, start as int),
{
    let mut i = start;
    while i < s.len() && is_word_exec(s[i])
        invariant
            start <= i <= s@.len(),
            word_fwd(s@, start as int) == word_fwd(s@, i as int),
        decreases s.len() - i,
    {
        i = i + 1;
    }
    i
}

/// The identifier covering `col` (a character index, clamped to the line) and
/// where it starts; `None` if `col` isn't on a word.
pub open spec fn word_at_spec(line: Seq<char>, col: int) -> Option<(Seq<char>, int)> {
    let c = if col < line.len() {
        col
    } else {
        line.len() as int
    };
    let start = word_back(line, c);
    let end = word_fwd(line, c);
    if start != end {
        Some((line.subrange(start, end), start))
    } else {
        None
    }
}

fn word_at(line: &[char], col: usize) -> (r: Option<(Vec<char>, usize)>)
    ensures
        match r {
            Some((w, st)) => word_at_spec(line@, col as int) == Some((w@, st as int)),
            None => word_at_spec(line@, col as int) is None,
        },
{
    let c = if col < line.len() { col } else { line.len() };
    proof {
        lemma_word_back(line@, c as int);
        lemma_word_fwd(line@, c as int);
    }
    let start = word_back_exec(line, c);
    let end = word_fwd_exec(line, c);
    if start != end {
        Some((slice_vec(line, start, end), start))
    } else {
        None
    }
}

/// The identifier at the very end of `s`.
pub open spec fn trailing_ident_spec(s: Seq<char>) -> Option<Seq<char>> {
    if s.len() == 0 || !is_word(s.last()) {
        None
    } else {
        Some(s.subrange(word_back(s, s.len() as int), s.len() as int))
    }
}

fn trailing_ident(s: &[char]) -> (r: Option<Vec<char>>)
    ensures
        match r {
            Some(w) => trailing_ident_spec(s@) == Some(w@),
            None => trailing_ident_spec(s@) is None,
        },
{
    if s.len() == 0 || !is_word_exec(s[s.len() - 1]) {
        return None;
    }
    proof {
        lemma_word_back(s@, s@.len() as int);
    }
    let start = word_back_exec(s, s.len());
    Some(slice_vec(s, start, s.len()))
}

/// If `prefix` ends with `<instance>.<partial>`, the instance name.
pub open spec fn member_context_spec(prefix: Seq<char>) -> Option<Seq<char>> {
    let head = prefix.take(word_back(prefix, prefix.len() as int));
    if head.len() > 0 && head.last() == '.' {
        trailing_ident_spec(head.drop_last())
    } else {
        None
    }
}

fn member_context(prefix: &[char]) -> (r: Option<Vec<char>>)
    ensures
        match r {
            Some(w) => member_context_spec(prefix@) == Some(w@),
            None => member_context_spec(prefix@) is None,
        },
{
    proof {
        lemma_word_back(prefix@, prefix@.len() as int);
    }
    let end = word_back_exec(prefix, prefix.len());
    if end > 0 && prefix[end - 1] == '.' {
        let head = slice_vec(prefix, 0, end - 1);
        proof {
            assert(head@ =~= prefix@.take(end as int).drop_last());
        }
        trailing_ident(head.as_slice())
    } else {
        None
    }
}

// ---------------------------------------------------------------------------
// Indexing
// ---------------------------------------------------------------------------

/// The original location of assembled line `i` (`None` for synthetic lines).
pub open spec fn loc_at_spec(a: AssembledModel, i: int) -> Option<LocModel> {
    if 0 <= i < a.map.len() {
        a.map[i]
    } else {
        None
    }
}

fn loc_at(a: &Assembled, i: usize) -> (r: Option<Loc>)
    ensures
        oloc(r) == loc_at_spec(a@, i as int),
{
    if i < a.map.len() {
        match &a.map[i] {
            Some(l) => Some(l.copy()),
            None => None,
        }
    } else {
        None
    }
}

/// The first line at or after `j` containing a `}`.
pub open spec fn close_line(ls: Seq<Seq<char>>, j: int) -> int
    decreases ls.len() - j,
{
    if j < 0 || j >= ls.len() {
        ls.len() as int
    } else if contains(ls[j], "}"@) {
        j
    } else {
        close_line(ls, j + 1)
    }
}

proof fn lemma_close_line(ls: Seq<Seq<char>>, j: int)
    requires
        0 <= j <= ls.len(),
    ensures
        j <= close_line(ls, j) <= ls.len(),
    decreases ls.len() - j,
{
    if j < ls.len() && !contains(ls[j], "}"@) {
        lemma_close_line(ls, j + 1);
    }
}

/// The members declared on lines `lo..k` that map to a source file.
pub open spec fn members_upto(a: AssembledModel, ls: Seq<Seq<char>>, lo: int, k: int) -> Seq<
    (Seq<char>, SymbolModel),
>
    decreases k - lo,
{
    if k <= lo {
        seq![]
    } else {
        let m = members_upto(a, ls, lo, k - 1);
        match (member_decl_spec(trim(ls[k - 1])), loc_at_spec(a, k - 1)) {
            (Some((ty, n)), Some(loc)) => kv_insert(m, n, SymbolModel { detail: ty + " "@ + n, loc }),
            _ => m,
        }
    }
}

/// A block opened at line `start`: its members up to the first line with a `}`,
/// recorded under the instance name that line declares (located at the opening
/// line, else the closing one). Yields the line after the block; a block that
/// never closes records nothing and the scan resumes after its opening line.
pub open spec fn scan_block_spec(
    a: AssembledModel,
    ls: Seq<Seq<char>>,
    start: int,
    bn: Seq<char>,
    idx: IndexModel,
) -> (int, IndexModel) {
    let j = close_line(ls, start + 1);
    if j < ls.len() {
        let idx2 = match block_end_spec(trim(ls[j])) {
            Some(inst) => {
                let l = match loc_at_spec(a, start) {
                    Some(x) => Some(x),
                    None => loc_at_spec(a, j),
                };
                match l {
                    Some(loc) => IndexModel {
                        ubos: kv_insert(
                            idx.ubos,
                            inst,
                            UboModel {
                                block_name: bn,
                                detail: "uniform "@ + bn + " { … } "@ + inst,
                                loc,
                                members: members_upto(a, ls, start + 1, j),
                            },
                        ),
                        ..idx
                    },
                    None => idx,
                }
            },
            None => idx,
        };
        (j + 1, idx2)
    } else {
        (start + 1, idx)
    }
}

/// What one ordinary line adds: a global, else a function definition, when the
/// line maps to a source file.
pub open spec fn line_step(a: AssembledModel, t: Seq<char>, i: int, idx: IndexModel) -> IndexModel {
    match loc_at_spec(a, i) {
        Some(loc) => match global_decl_spec(t) {
            Some((n, d)) => IndexModel { globals: kv_insert(idx.globals, n, SymbolModel { detail: d, loc }), ..idx },
            None => match function_def_spec(t) {
                Some((n, d)) => IndexModel {
                    functions: kv_insert(idx.functions, n, SymbolModel { detail: d, loc }),
                    ..idx
                },
                None => idx,
            },
        },
        None => idx,
    }
}

/// The index of assembled lines `i..`, added to `idx`.
#[verifier::opaque]
pub open spec fn index_from(a: AssembledModel, ls: Seq<Seq<char>>, i: int, idx: IndexModel) -> IndexModel
    decreases ls.len() - i,
{
    if i < 0 || i >= ls.len() {
        idx
    } else {
        let t = trim(ls[i]);
        match block_start_spec(t) {
            Some(bn) => {
                let r = scan_block_spec(a, ls, i, bn, idx);
                if i < r.0 <= ls.len() {
                    index_from(a, ls, r.0, r.1)
                } else {
                    r.1
                }
            },
            None => index_from(a, ls, i + 1, line_step(a, t, i, idx)),
        }
    }
}

proof fn lemma_index_step(a: AssembledModel, ls: Seq<Seq<char>>, i: int, idx: IndexModel)
    ensures
        index_from(a, ls, i, idx) == if i < 0 || i >= ls.len() {
            idx
        } else {
            let t = trim(ls[i]);
            match block_start_spec(t) {
                Some(bn) => {
                    let r = scan_block_spec(a, ls, i, bn, idx);
                    if i < r.0 <= ls.len() {
                        index_from(a, ls, r.0, r.1)
                    } else {
                        r.1
                    }
                },
                None => index_from(a, ls, i + 1, line_step(a, t, i, idx)),
            }
        },
{
    reveal(index_from);
}

pub open spec fn deck_origin() -> Seq<char> {
    "deck.gl built-in (injected at link time)"@
}

pub open spec fn glsl_origin() -> Seq<char> {
    "GLSL ES built-in"@
}

/// The deck prelude's function definitions among `ls`, each kept at its first
/// binding.
pub open spec fn prelude_builtins(b: Seq<(Seq<char>, BuiltinModel)>, ls: Seq<Seq<char>>) -> Seq<
    (Seq<char>, BuiltinModel),
>
    decreases ls.len(),
{
    if ls.len() == 0 {
        b
    } else {
        let b1 = prelude_builtins(b, ls.drop_last());
        match builtin_signature_spec(trim(ls.last())) {
            Some((n, sig)) => kv_or_insert(b1, n, BuiltinModel { signature: sig, origin: deck_origin() }),
            None => b1,
        }
    }
}

/// The core GLSL ES built-in functions (signatures in the specification's
/// shorthand: `genType`, `gvec4`, `sampler`).
pub open spec fn glsl_table() -> Seq<(Seq<char>, Seq<char>)> {
    seq![
        ("radians"@, "genType radians(genType degrees)"@),
        ("degrees"@, "genType degrees(genType radians)"@),
        ("sin"@, "genType sin(genType angle)"@),
        ("cos"@, "genType cos(genType angle)"@),
        ("tan"@, "genType tan(genType angle)"@),
        ("asin"@, "genType asin(genType x)"@),
        ("acos"@, "genType acos(genType x)"@),
        ("atan"@, "genType atan(genType y, genType x)"@),
        ("pow"@, "genType pow(genType x, genType y)"@),
        ("exp"@, "genType exp(genType x)"@),
        ("log"@, "genType log(genType x)"@),
        ("exp2"@, "genType exp2(genType x)"@),
        ("log2"@, "genType log2(genType x)"@),
        ("sqrt"@, "genType sqrt(genType x)"@),
        ("inversesqrt"@, "genType inversesqrt(genType x)"@),
        ("abs"@, "genType abs(genType x)"@),
        ("sign"@, "genType sign(genType x)"@),
        ("floor"@, "genType floor(genType x)"@),
        ("ceil"@, "genType ceil(genType x)"@),
        ("fract"@, "genType fract(genType x)"@),
        ("mod"@, "genType mod(genType x, genType y)"@),
        ("round"@, "genType round(genType x)"@),
        ("min"@, "genType min(genType x, genType y)"@),
        ("max"@, "genType max(genType x, genType y)"@),
        ("clamp"@, "genType clamp(genType x, genType minVal, genType maxVal)"@),
        ("mix"@, "genType mix(genType x, genType y, genType a)"@),
        ("step"@, "genType step(genType edge, genType x)"@),
        ("smoothstep"@, "genType smoothstep(genType edge0, genType edge1, genType x)"@),
        ("length"@, "float length(genType x)"@),
        ("distance"@, "float distance(genType p0, genType p1)"@),
        ("dot"@, "float dot(genType x, genType y)"@),
        ("cross"@, "vec3 cross(vec3 x, vec3 y)"@),
        ("normalize"@, "genType normalize(genType x)"@),
        ("reflect"@, "genType reflect(genType I, genType N)"@),
        ("refract"@, "genType refract(genType I, genType N, float eta)"@),
        ("texture"@, "gvec4 texture(sampler tex, vec coord [, float bias])"@),
        ("textureLod"@, "gvec4 textureLod(sampler tex, vec coord, float lod)"@),
        ("texelFetch"@, "gvec4 texelFetch(sampler tex, ivec coord, int lod)"@),
        ("textureSize"@, "ivec textureSize(sampler tex, int lod)"@),
        ("dFdx"@, "genType dFdx(genType p)"@),
        ("dFdy"@, "genType dFdy(genType p)"@),
        ("fwidth"@, "genType fwidth(genType p)"@),
        ("transpose"@, "mat transpose(mat m)"@),
        ("inverse"@, "mat inverse(mat m)"@)
    ]
}

pub open spec fn glsl_builtins(b: Seq<(Seq<char>, BuiltinModel)>, tbl: Seq<(Seq<char>, Seq<char>)>) -> Seq<
    (Seq<char>, BuiltinModel),
>
    decreases tbl.len(),
{
    if tbl.len() == 0 {
        b
    } else {
        let b1 = glsl_builtins(b, tbl.drop_last());
        kv_or_insert(b1, tbl.last().0, BuiltinModel { signature: tbl.last().1, origin: glsl_origin() })
    }
}

pub open spec fn empty_index() -> IndexModel {
    IndexModel { globals: seq![], functions: seq![], ubos: seq![], builtins: seq![] }
}

/// The symbol index of an assembled unit: its blocks, globals and functions
/// (only lines that map to a source file), then the deck prelude's functions and
/// the core GLSL built-ins as hover-only builtins.
pub open spec fn index_spec(a: AssembledModel) -> IndexModel {
    let i1 = index_from(a, lines(a.source), 0, empty_index());
    IndexModel {
        builtins: glsl_builtins(
            prelude_builtins(i1.builtins, lines(crate::assemble::BUILTIN_PRELUDE@)),
            glsl_table(),
        ),
        ..i1
    }
}

fn join3(a: &[char], b: &str, c: &[char]) -> (r: String)
    ensures
        r@ == a@ + b@ + c@,
{
    let mut v = slice_vec(a, 0, a.len());
    let bc = to_chars(b);
    crate::text::extend_chars(&mut v, bc.as_slice());
    crate::text::extend_chars(&mut v, c);
    proof {
        assert(v@ =~= a@ + b@ + c@);
    }
    from_chars(v.as_slice())
}

/// Consume a block's members and its `} instance;` line, recording the UBO.
/// Returns the index of the first line after the block.
fn scan_block(a: &Assembled, ls: &Vec<Vec<char>>, start: usize, block_name: Vec<char>, idx: &mut SymbolIndex) -> (r:
    usize)
    requires
        vviews(ls@) == lines(a@.source),
        start < ls@.len(),
    ensures
        (r as int, final(idx)@) == scan_block_spec(a@, vviews(ls@), start as int, block_name@, old(idx)@),
{
    let ghost lv = vviews(ls@);
    let mut members: Vec<(String, Symbol)> = Vec::new();
    let n = ls.len();
    assert(start < n);
    let mut j = start + 1;
    proof {
        assert(kv_view(members@) =~= members_upto(a@, lv, start + 1, j as int));
    }
    while j < ls.len() && !contains_exec(ls[j].as_slice(), to_chars("}").as_slice())
        invariant
            start + 1 <= j <= ls@.len(),
            lv == vviews(ls@),
            close_line(lv, start + 1) == close_line(lv, j as int),
            kv_view(members@) == members_upto(a@, lv, start + 1, j as int),
        decreases ls.len() - j,
    {
        proof {
            assert(lv[j as int] == ls@[j as int]@);
        }
        let t = trim_vec(ls[j].as_slice());
        match (member_decl(t.as_slice()), loc_at(a, j)) {
            (Some((ty, name)), Some(loc)) => {
                let detail = join3(ty.as_slice(), " ", name.as_slice());
                kv_put(&mut members, from_chars(name.as_slice()), Symbol { detail, loc });
            },
            _ => {},
        }
        j = j + 1;
    }
    proof {
        if j < ls@.len() {
            assert(lv[j as int] == ls@[j as int]@);
        }
    }
    if j < ls.len() {
        let t = trim_vec(ls[j].as_slice());
        match block_end(t.as_slice()) {
            Some(instance) => {
                let l = match loc_at(a, start) {
                    Some(x) => Some(x),
                    None => loc_at(a, j),
                };
                match l {
                    Some(loc) => {
                        let mut d = to_chars("uniform ");
                        crate::text::extend_chars(&mut d, block_name.as_slice());
                        let d2 = join3(d.as_slice(), " { … } ", instance.as_slice());
                        proof {
                            assert(d2@ =~= "uniform "@ + block_name@ + " { … } "@ + instance@);
                        }
                        let ubo = Ubo { block_name: from_chars(block_name.as_slice()), detail: d2, loc, members };
                        kv_put(&mut idx.ubos, from_chars(instance.as_slice()), ubo);
                    },
                    None => {},
                }
            },
            None => {},
        }
        return j + 1;
    }
    start + 1
}

fn index_builtins(idx: &mut SymbolIndex)
    ensures
        final(idx)@ == (IndexModel {
            builtins: prelude_builtins(old(idx)@.builtins, lines(crate::assemble::BUILTIN_PRELUDE@)),
            ..old(idx)@
        }),
{
    let ls = crate::text::str_lines(crate::assemble::BUILTIN_PRELUDE);
    let ghost lv = vviews(ls@);
    let ghost b0 = old(idx)@.builtins;
    let mut k: usize = 0;
    proof {
        assert(lv.take(0) =~= Seq::<Seq<char>>::empty());
    }
    while k < ls.len()
        invariant
            0 <= k <= ls.len(),
            lv == vviews(ls@),
            lv == lines(crate::assemble::BUILTIN_PRELUDE@),
            idx@ == (IndexModel { builtins: prelude_builtins(b0, lv.take(k as int)), ..old(idx)@ }),
        decreases ls.len() - k,
    {
        proof {
            assert(lv.take(k + 1).drop_last() =~= lv.take(k as int));
            assert(lv.take(k + 1).last() == ls@[k as int]@);
        }
        let t = trim_vec(ls[k].as_slice());
        match builtin_signature(t.as_slice()) {
            Some((name, sig)) => {
                kv_put_new(
                    &mut idx.builtins,
                    from_chars(name.as_slice()),
                    Builtin { signature: from_chars(sig.as_slice()), origin: "deck.gl built-in (injected at link time)".to_owned() },
                );
            },
            None => {},
        }
        k = k + 1;
    }
    proof {
        assert(lv.take(ls@.len() as int) =~= lv);
    }
}

fn glsl_table_exec() -> (r: Vec<(String, String)>)
    ensures
        r@.map_values(|e: (String, String)| (e.0@, e.1@)) == glsl_table(),
{
    let tbl: [(&str, &str); 44] = [
        ("radians", "genType radians(genType degrees)"),
        ("degrees", "genType degrees(genType radians)"),
        ("sin", "genType sin(genType angle)"),
        ("cos", "genType cos(genType angle)"),
        ("tan", "genType tan(genType angle)"),
        ("asin", "genType asin(genType x)"),
        ("acos", "genType acos(genType x)"),
        ("atan", "genType atan(genType y, genType x)"),
        ("pow", "genType pow(genType x, genType y)"),
        ("exp", "genType exp(genType x)"),
        ("log", "genType log(genType x)"),
        ("exp2", "genType exp2(genType x)"),
        ("log2", "genType log2(genType x)"),
        ("sqrt", "genType sqrt(genType x)"),
        ("inversesqrt", "genType inversesqrt(genType x)"),
        ("abs", "genType abs(genType x)"),
        ("sign", "genType sign(genType x)"),
        ("floor", "genType floor(genType x)"),
        ("ceil", "genType ceil(genType x)"),
        ("fract", "genType fract(genType x)"),
        ("mod", "genType mod(genType x, genType y)"),
        ("round", "genType round(genType x)"),
        ("min", "genType min(genType x, genType y)"),
        ("max", "genType max(genType x, genType y)"),
        ("clamp", "genType clamp(genType x, genType minVal, genType maxVal)"),
        ("mix", "genType mix(genType x, genType y, genType a)"),
        ("step", "genType step(genType edge, genType x)"),
        ("smoothstep", "genType smoothstep(genType edge0, genType edge1, genType x)"),
        ("length", "float length(genType x)"),
        ("distance", "float distance(genType p0, genType p1)"),
        ("dot", "float dot(genType x, genType y)"),
        ("cross", "vec3 cross(vec3 x, vec3 y)"),
        ("normalize", "genType normalize(genType x)"),
        ("reflect", "genType reflect(genType I, genType N)"),
        ("refract", "genType refract(genType I, genType N, float eta)"),
        ("texture", "gvec4 texture(sampler tex, vec coord [, float bias])"),
        ("textureLod", "gvec4 textureLod(sampler tex, vec coord, float lod)"),
        ("texelFetch", "gvec4 texelFetch(sampler tex, ivec coord, int lod)"),
        ("textureSize", "ivec textureSize(sampler tex, int lod)"),
        ("dFdx", "genType dFdx(genType p)"),
        ("dFdy", "genType dFdy(genType p)"),
        ("fwidth", "genType fwidth(genType p)"),
        ("transpose", "mat transpose(mat m)"),
        ("inverse", "mat inverse(mat m)")
    ];
    let mut out: Vec<(String, String)> = Vec::new();
    let mut k: usize = 0;
    while k < 44
        invariant
            0 <= k <= 44,
            out@.len() == k,
            tbl@.len() == 44,
            tbl@ == seq![("radians", "genType radians(genType degrees)"),
        ("degrees", "genType degrees(genType radians)"),
        ("sin", "genType sin(genType angle)"),
        ("cos", "genType cos(genType angle)"),
        ("tan", "genType tan(genType angle)"),
        ("asin", "genType asin(genType x)"),
        ("acos", "genType acos(genType x)"),
        ("atan", "genType atan(genType y, genType x)"),
        ("pow", "genType pow(genType x, genType y)"),
        ("exp", "genType exp(genType x)"),
        ("log", "genType log(genType x)"),
        ("exp2", "genType exp2(genType x)"),
        ("log2", "genType log2(genType x)"),
        ("sqrt", "genType sqrt(genType x)"),
        ("inversesqrt", "genType inversesqrt(genType x)"),
        ("abs", "genType abs(genType x)"),
        ("sign", "genType sign(genType x)"),
        ("floor", "genType floor(genType x)"),
        ("ceil", "genType ceil(genType x)"),
        ("fract", "genType fract(genType x)"),
        ("mod", "genType mod(genType x, genType y)"),
        ("round", "genType round(genType x)"),
        ("min", "genType min(genType x, genType y)"),
        ("max", "genType max(genType x, genType y)"),
        ("clamp", "genType clamp(genType x, genType minVal, genType maxVal)"),
        ("mix", "genType mix(genType x, genType y, genType a)"),
        ("step", "genType step(genType edge, genType x)"),
        ("smoothstep", "genType smoothstep(genType edge0, genType edge1, genType x)"),
        ("length", "float length(genType x)"),
        ("distance", "float distance(genType p0, genType p1)"),
        ("dot", "float dot(genType x, genType y)"),
        ("cross", "vec3 cross(vec3 x, vec3 y)"),
        ("normalize", "genType normalize(genType x)"),
        ("reflect", "genType reflect(genType I, genType N)"),
        ("refract", "genType refract(genType I, genType N, float eta)"),
        ("texture", "gvec4 texture(sampler tex, vec coord [, float bias])"),
        ("textureLod", "gvec4 textureLod(sampler tex, vec coord, float lod)"),
        ("texelFetch", "gvec4 texelFetch(sampler tex, ivec coord, int lod)"),
        ("textureSize", "ivec textureSize(sampler tex, int lod)"),
        ("dFdx", "genType dFdx(genType p)"),
        ("dFdy", "genType dFdy(genType p)"),
        ("fwidth", "genType fwidth(genType p)"),
        ("transpose", "mat transpose(mat m)"),
        ("inverse", "mat inverse(mat m)")],
            out@.map_values(|e: (String, String)| (e.0@, e.1@)) == tbl@.take(k as int).map_values(
                |e: (&str, &str)| (e.0@, e.1@),
            ),
        decreases 44 - k,
    {
        let (a, b) = tbl[k];
        let ghost ob = out@;
        let pair = (a.to_owned(), b.to_owned());
        proof {
            assert(pair.0@ == tbl@[k as int].0@);
            assert(pair.1@ == tbl@[k as int].1@);
        }
        out.push(pair);
        proof {
            let lhs = out@.map_values(|e: (String, String)| (e.0@, e.1@));
            let rhs = tbl@.take(k + 1).map_values(|e: (&str, &str)| (e.0@, e.1@));
            let prev = tbl@.take(k as int).map_values(|e: (&str, &str)| (e.0@, e.1@));
            assert(lhs.len() == rhs.len());
            assert forall|j: int| 0 <= j < lhs.len() implies lhs[j] == rhs[j] by {
                if j < k {
                    assert(lhs[j] == ob.map_values(|e: (String, String)| (e.0@, e.1@))[j]);
                    assert(rhs[j] == prev[j]);
                } else {
                    assert(lhs[j] == (pair.0@, pair.1@));
                }
            }
            assert(lhs =~= rhs);
        }
        k = k + 1;
    }
    proof {
        assert(tbl@.take(44) =~= tbl@);
        assert(tbl@.map_values(|e: (&str, &str)| (e.0@, e.1@)) =~= glsl_table());
    }
    out
}

fn index_glsl_builtins(idx: &mut SymbolIndex)
    ensures
        final(idx)@ == (IndexModel { builtins: glsl_builtins(old(idx)@.builtins, glsl_table()), ..old(idx)@ }),
{
    let tbl = glsl_table_exec();
    let ghost tv = tbl@.map_values(|e: (String, String)| (e.0@, e.1@));
    let ghost b0 = old(idx)@.builtins;
    let mut k: usize = 0;
    proof {
        assert(tv.take(0) =~= Seq::<(Seq<char>, Seq<char>)>::empty());
    }
    while k < tbl.len()
        invariant
            0 <= k <= tbl.len(),
            tv == tbl@.map_values(|e: (String, String)| (e.0@, e.1@)),
            tv == glsl_table(),
            idx@ == (IndexModel { builtins: glsl_builtins(b0, tv.take(k as int)), ..old(idx)@ }),
        decreases tbl.len() - k,
    {
        proof {
            assert(tv.take(k + 1).drop_last() =~= tv.take(k as int));
            assert(tv.take(k + 1).last() == (tbl@[k as int].0@, tbl@[k as int].1@));
        }
        kv_put_new(
            &mut idx.builtins,
            tbl[k].0.clone(),
            Builtin { signature: tbl[k].1.clone(), origin: "GLSL ES built-in".to_owned() },
        );
        k = k + 1;
    }
    proof {
        assert(tv.take(tbl@.len() as int) =~= tv);
    }
}

/// Scan the assembled source into a symbol index. Synthetic lines (which have
/// no `Loc`) are skipped — only symbols that live in a real source file are
/// indexed.
pub fn index(a: &Assembled) -> (r: SymbolIndex)
    ensures
        r@ == index_spec(a@),
{
    let mut idx = SymbolIndex::default();
    let ls = crate::text::str_lines(a.source.as_str());
    let ghost lv = vviews(ls@);
    let mut i: usize = 0;
    proof {
        assert(idx@.globals =~= Seq::<(Seq<char>, SymbolModel)>::empty());
        assert(idx@.functions =~= Seq::<(Seq<char>, SymbolModel)>::empty());
        assert(idx@.ubos =~= Seq::<(Seq<char>, UboModel)>::empty());
        assert(idx@.builtins =~= Seq::<(Seq<char>, BuiltinModel)>::empty());
        assert(idx@ == empty_index());
    }
    while i < ls.len()
        invariant
            0 <= i <= ls.len(),
            lv == vviews(ls@),
            lv == lines(a@.source),
            index_from(a@, lv, 0, empty_index()) == index_from(a@, lv, i as int, idx@),
        decreases ls.len() - i,
    {
        proof {
            lemma_index_step(a@, lv, i as int, idx@);
            assert(lv[i as int] == ls@[i as int]@);
        }
        let t = trim_vec(ls[i].as_slice());
        match block_start(t.as_slice()) {
            Some(bn) => {
                proof {
                    lemma_close_line(lv, i + 1);
                }
                i = scan_block(a, &ls, i, bn, &mut idx);
            },
            None => {
                match loc_at(a, i) {
                    Some(loc) => {
                        match global_decl(t.as_slice()) {
                            Some((name, detail)) => {
                                kv_put(
                                    &mut idx.globals,
                                    from_chars(name.as_slice()),
                                    Symbol { detail: from_chars(detail.as_slice()), loc },
                                );
                            },
                            None => {
                                match function_def(t.as_slice()) {
                                    Some((name, detail)) => {
                                        kv_put(
                                            &mut idx.functions,
                                            from_chars(name.as_slice()),
                                            Symbol { detail: from_chars(detail.as_slice()), loc },
                                        );
                                    },
                                    None => {},
                                }
                            },
                        }
                    },
                    None => {},
                }
                i = i + 1;
            },
        }
    }
    proof {
        lemma_index_step(a@, lv, i as int, idx@);
    }
    index_builtins(&mut idx);
    index_glsl_builtins(&mut idx);
    idx
}

// ---------------------------------------------------------------------------
// Queries
// ---------------------------------------------------------------------------

pub open spec fn sym_hit(s: SymbolModel) -> HitModel {
    HitModel { detail: s.detail, note: None, loc: Some(s.loc) }
}

/// The hover/definition target of the identifier at `col` (a character index)
/// on `line`: after `<instance>.` the member of that block (nothing when either
/// is unknown); otherwise a function, else a global, else a block instance, else
/// a builtin (hover only, no location).
pub open spec fn resolve_spec(idx: IndexModel, line: Seq<char>, col: int) -> Option<HitModel> {
    match word_at_spec(line, col) {
        None => None,
        Some((word, start)) => {
            let before = trim_end(line.take(start));
            if before.len() > 0 && before.last() == '.' {
                match trailing_ident_spec(trim_end(before.drop_last())) {
                    None => None,
                    Some(inst) => match kv_get(idx.ubos, inst) {
                        None => None,
                        Some(u) => match kv_get(u.members, word) {
                            None => None,
                            Some(m) => Some(
                                HitModel {
                                    detail: m.detail,
                                    note: Some("member of `"@ + u.block_name + "`"@),
                                    loc: Some(m.loc),
                                },
                            ),
                        },
                    },
                }
            } else {
                match kv_get(idx.functions, word) {
                    Some(f) => Some(sym_hit(f)),
                    None => match kv_get(idx.globals, word) {
                        Some(g) => Some(sym_hit(g)),
                        None => match kv_get(idx.ubos, word) {
                            Some(u) => Some(HitModel { detail: u.detail, note: None, loc: Some(u.loc) }),
                            None => match kv_get(idx.builtins, word) {
                                Some(b) => Some(HitModel { detail: b.signature, note: Some(b.origin), loc: None }),
                                None => None,
                            },
                        },
                    },
                }
            }
        },
    }
}

/// Resolve the identifier at `col` (0-based, in characters) on `line` to a
/// hover/definition hit.
pub fn resolve(index: &SymbolIndex, line: &str, col: usize) -> (r: Option<Hit>)
    ensures
        match r {
            Some(h) => resolve_spec(index@, line@, col as int) == Some(h@),
            None => resolve_spec(index@, line@, col as int) is None,
        },
{
    let lc = to_chars(line);
    let (word, start) = match word_at(lc.as_slice(), col) {
        Some(x) => x,
        None => return None,
    };
    proof {
        lemma_word_back(lc@, if col < lc@.len() { col as int } else { lc@.len() as int });
    }
    let head = slice_vec(lc.as_slice(), 0, start);
    let before = trim_end_vec(head.as_slice());
    proof {
        assert(head@ =~= lc@.take(start as int));
    }
    if before.len() > 0 && before[before.len() - 1] == '.' {
        let pre = slice_vec(before.as_slice(), 0, before.len() - 1);
        proof {
            assert(pre@ =~= before@.drop_last());
        }
        let pt = trim_end_vec(pre.as_slice());
        let inst = match trailing_ident(pt.as_slice()) {
            Some(x) => x,
            None => return None,
        };
        let ubo = match kv_lookup(&index.ubos, inst.as_slice()) {
            Some(u) => u,
            None => return None,
        };
        let m = match kv_lookup(&ubo.members, word.as_slice()) {
            Some(m) => m,
            None => return None,
        };
        let bn = to_chars(ubo.block_name.as_str());
        let note = join3(to_chars("member of `").as_slice(), "", bn.as_slice());
        let mut nc = to_chars(note.as_str());
        nc.push('`');
        proof {
            assert(nc@ =~= "member of `"@ + ubo.block_name@ + "`"@) by {
                reveal_strlit("`");
                reveal_strlit("");
            }
        }
        return Some(Hit { detail: m.detail.clone(), note: Some(from_chars(nc.as_slice())), loc: Some(m.loc.copy()) });
    }
    match kv_lookup(&index.functions, word.as_slice()) {
        Some(f) => {
            return Some(Hit { detail: f.detail.clone(), note: None, loc: Some(f.loc.copy()) });
        },
        None => {},
    }
    match kv_lookup(&index.globals, word.as_slice()) {
        Some(g) => {
            return Some(Hit { detail: g.detail.clone(), note: None, loc: Some(g.loc.copy()) });
        },
        None => {},
    }
    match kv_lookup(&index.ubos, word.as_slice()) {
        Some(u) => {
            return Some(Hit { detail: u.detail.clone(), note: None, loc: Some(u.loc.copy()) });
        },
        None => {},
    }
    match kv_lookup(&index.builtins, word.as_slice()) {
        Some(b) => Some(Hit { detail: b.signature.clone(), note: Some(b.origin.clone()), loc: None }),
        None => None,
    }
}

pub open spec fn completions_of_syms(m: Seq<(Seq<char>, SymbolModel)>, kind: SymKind) -> Seq<CompletionModel> {
    m.map_values(|e: (Seq<char>, SymbolModel)| CompletionModel { label: e.0, detail: e.1.detail, kind })
}

/// Completion candidates for the cursor at `col` (0-based, in characters) on
/// `line`: after `<instance>.` that block's members (nothing when the instance
/// is unknown); otherwise the functions, globals, block instances and builtins,
/// each table in declaration order.
pub open spec fn complete_spec(idx: IndexModel, line: Seq<char>, col: int) -> Seq<CompletionModel> {
    let prefix = line.take(
        if col < line.len() {
            col
        } else {
            line.len() as int
        },
    );
    match member_context_spec(prefix) {
        Some(inst) => match kv_get(idx.ubos, inst) {
            Some(u) => completions_of_syms(u.members, SymKind::Field),
            None => seq![],
        },
        None => completions_of_syms(idx.functions, SymKind::Function) + completions_of_syms(
            idx.globals,
            SymKind::Variable,
        ) + idx.ubos.map_values(
            |e: (Seq<char>, UboModel)| CompletionModel { label: e.0, detail: e.1.detail, kind: SymKind::Block },
        ) + idx.builtins.map_values(
            |e: (Seq<char>, BuiltinModel)|
                CompletionModel { label: e.0, detail: e.1.signature, kind: SymKind::Builtin },
        ),
    }
}

fn push_completion(out: &mut Vec<Completion>, c: Completion)
    ensures
        completions_view(final(out)@) == completions_view(old(out)@).push(c@),
{
    let ghost before = out@;
    let ghost cv = c@;
    out.push(c);
    proof {
        assert(completions_view(out@) =~= completions_view(before).push(cv));
    }
}

fn add_sym_completions(out: &mut Vec<Completion>, m: &Vec<(String, Symbol)>, kind: SymKind)
    ensures
        completions_view(final(out)@) == completions_view(old(out)@) + completions_of_syms(kv_view(m@), kind),
{
    let ghost start = completions_view(out@);
    let ghost mv = kv_view(m@);
    let mut k: usize = 0;
    while k < m.len()
        invariant
            0 <= k <= m.len(),
            mv == kv_view(m@),
            completions_view(out@) == start + completions_of_syms(mv.take(k as int), kind),
        decreases m.len() - k,
    {
        push_completion(out, Completion { label: m[k].0.clone(), detail: m[k].1.detail.clone(), kind });
        proof {
            assert(mv.take(k + 1) =~= mv.take(k as int).push(mv[k as int]));
            assert(completions_of_syms(mv.take(k + 1), kind) =~= completions_of_syms(mv.take(k as int), kind).push(
                CompletionModel { label: m@[k as int].0@, detail: m@[k as int].1.detail@, kind },
            ));
        }
        k = k + 1;
    }
    proof {
        assert(mv.take(m@.len() as int) =~= mv);
    }
}

/// Completion candidates for the cursor at `col` (0-based) on `line`. After
/// `<instance>.` it offers that block's members; otherwise the visible
/// functions, globals, block instances, and builtins.
pub fn complete(index: &SymbolIndex, line: &str, col: usize) -> (r: Vec<Completion>)
    ensures
        completions_view(r@) == complete_spec(index@, line@, col as int),
{
    let lc = to_chars(line);
    let c = if col < lc.len() { col } else { lc.len() };
    let prefix = slice_vec(lc.as_slice(), 0, c);
    proof {
        assert(prefix@ =~= lc@.take(c as int));
    }
    let mut out: Vec<Completion> = Vec::new();
    proof {
        assert(completions_view(out@) =~= Seq::<CompletionModel>::empty());
    }
    match member_context(prefix.as_slice()) {
        Some(inst) => {
            match kv_lookup(&index.ubos, inst.as_slice()) {
                Some(ubo) => {
                    add_sym_completions(&mut out, &ubo.members, SymKind::Field);
                    proof {
                        assert(completions_view(out@) =~= complete_spec(index@, line@, col as int));
                    }
                },
                None => {},
            }
            return out;
        },
        None => {},
    }
    add_sym_completions(&mut out, &index.functions, SymKind::Function);
    add_sym_completions(&mut out, &index.globals, SymKind::Variable);
    let ghost s1 = completions_view(out@);
    let ghost uv = kv_view(index.ubos@);
    let mut k: usize = 0;
    while k < index.ubos.len()
        invariant
            0 <= k <= index.ubos.len(),
            uv == kv_view(index.ubos@),
            completions_view(out@) == s1 + uv.take(k as int).map_values(
                |e: (Seq<char>, UboModel)| CompletionModel { label: e.0, detail: e.1.detail, kind: SymKind::Block },
            ),
        decreases index.ubos.len() - k,
    {
        push_completion(
            &mut out,
            Completion { label: index.ubos[k].0.clone(), detail: index.ubos[k].1.detail.clone(), kind: SymKind::Block },
        );
        proof {
            assert(uv.take(k + 1) =~= uv.take(k as int).push(uv[k as int]));
            assert(uv.take(k + 1).map_values(
                |e: (Seq<char>, UboModel)| CompletionModel { label: e.0, detail: e.1.detail, kind: SymKind::Block },
            ) =~= uv.take(k as int).map_values(
                |e: (Seq<char>, UboModel)| CompletionModel { label: e.0, detail: e.1.detail, kind: SymKind::Block },
            ).push(CompletionModel { label: uv[k as int].0, detail: uv[k as int].1.detail, kind: SymKind::Block }));
        }
        k = k + 1;
    }
    proof {
        assert(uv.take(index.ubos@.len() as int) =~= uv);
    }
    let ghost s2 = completions_view(out@);
    let ghost bv = kv_view(index.builtins@);
    let mut k: usize = 0;
    while k < index.builtins.len()
        invariant
            0 <= k <= index.builtins.len(),
            bv == kv_view(index.builtins@),
            completions_view(out@) == s2 + bv.take(k as int).map_values(
                |e: (Seq<char>, BuiltinModel)|
                    CompletionModel { label: e.0, detail: e.1.signature, kind: SymKind::Builtin },
            ),
        decreases index.builtins.len() - k,
    {
        push_completion(
            &mut out,
            Completion {
                label: index.builtins[k].0.clone(),
                detail: index.builtins[k].1.signature.clone(),
                kind: SymKind::Builtin,
            },
        );
        proof {
            assert(bv.take(k + 1) =~= bv.take(k as int).push(bv[k as int]));
            assert(bv.take(k + 1).map_values(
                |e: (Seq<char>, BuiltinModel)|
                    CompletionModel { label: e.0, detail: e.1.signature, kind: SymKind::Builtin },
            ) =~= bv.take(k as int).map_values(
                |e: (Seq<char>, BuiltinModel)|
                    CompletionModel { label: e.0, detail: e.1.signature, kind: SymKind::Builtin },
            ).push(CompletionModel { label: bv[k as int].0, detail: bv[k as int].1.signature, kind: SymKind::Builtin }));
        }
        k = k + 1;
    }
    proof {
        assert(bv.take(index.builtins@.len() as int) =~= bv);
        assert(completions_view(out@) =~= complete_spec(index@, line@, col as int));
    }
    out
}

// ---------------------------------------------------------------------------
// Outline
// ---------------------------------------------------------------------------

/// `x` placed after every element of `s` whose key is not greater, counting
/// from the end (a stable insertion).
pub open spec fn insert_by<T>(s: Seq<T>, x: T, key: spec_fn(T) -> u32) -> Seq<T>
    decreases s.len(),
{
    if s.len() == 0 {
        seq![x]
    } else if key(x) < key(s.last()) {
        insert_by(s.drop_last(), x, key).push(s.last())
    } else {
        s.push(x)
    }
}

/// The stable sort of `s` by `key`.
pub open spec fn sort_by<T>(s: Seq<T>, key: spec_fn(T) -> u32) -> Seq<T>
    decreases s.len(),
{
    if s.len() == 0 {
        seq![]
    } else {
        insert_by(sort_by(s.drop_last(), key), s.last(), key)
    }
}

proof fn lemma_insert_by_at<T>(s: Seq<T>, x: T, key: spec_fn(T) -> u32, j: int)
    requires
        0 <= j <= s.len(),
        forall|k: int| j <= k < s.len() ==> key(x) < key(#[trigger] s[k]),
        j == 0 || !(key(x) < key(s[j - 1])),
    ensures
        insert_by(s, x, key) == s.take(j).push(x) + s.skip(j),
    decreases s.len(),
{
    if s.len() == 0 {
        assert(s.take(j).push(x) + s.skip(j) =~= seq![x]);
    } else if j == s.len() {
        assert(s.take(j).push(x) + s.skip(j) =~= s.push(x));
    } else {
        let t = s.drop_last();
        assert(key(x) < key(s[s.len() - 1]));
        assert forall|k: int| j <= k < t.len() implies key(x) < key(#[trigger] t[k]) by {
            assert(t[k] == s[k]);
        }
        if j > 0 {
            assert(t[j - 1] == s[j - 1]);
        }
        lemma_insert_by_at(t, x, key, j);
        assert(t.take(j).push(x) + t.skip(j) + seq![s.last()] =~= s.take(j).push(x) + s.skip(j));
    }
}

pub open spec fn leaf_key() -> spec_fn(DocLeaf) -> u32 {
    |d: DocLeaf| d.line
}

pub open spec fn sym_key() -> spec_fn(DocSymModel) -> u32 {
    |d: DocSymModel| d.line
}

/// Sort outline entries (seen as leaves) by line, keeping the order of equals.
fn sort_leaves(v: Vec<DocSym>) -> (r: Vec<DocSym>)
    ensures
        leaves_view(r@) == sort_by(leaves_view(v@), leaf_key()),
{
    let ghost lv = leaves_view(v@);
    let mut v = v;
    let mut out: Vec<DocSym> = Vec::new();
    let mut i: usize = 0;
    let n = v.len();
    proof {
        assert(leaves_view(out@) =~= sort_by(lv.take(0), leaf_key()));
    }
    while v.len() > 0
        invariant
            i + v@.len() == n,
            n == lv.len(),
            leaves_view(v@) == lv.skip(i as int),
            leaves_view(out@) == sort_by(lv.take(i as int), leaf_key()),
        decreases v.len(),
    {
        let ghost vb = v@;
        let d = v.remove(0);
        proof {
            assert(leaf_view(d) == lv[i as int]) by {
                assert(leaves_view(vb)[0] == lv.skip(i as int)[0]);
            }
            assert(leaves_view(v@) =~= lv.skip(i + 1)) by {
                assert(v@ =~= vb.subrange(1, vb.len() as int));
                assert forall|k: int| 0 <= k < v@.len() implies leaves_view(v@)[k] == lv.skip(i + 1)[k] by {
                    assert(leaves_view(v@)[k] == leaf_view(vb[k + 1]));
                    assert(leaves_view(vb)[k + 1] == lv.skip(i as int)[k + 1]);
                }
            }
            assert(lv.take(i + 1).drop_last() =~= lv.take(i as int));
            assert(lv.take(i + 1).last() == leaf_view(d));
        }
        let mut j: usize = out.len();
        while j > 0 && d.line < out[j - 1].line
            invariant
                0 <= j <= out@.len(),
                forall|k: int| j <= k < out@.len() ==> leaf_key()(leaf_view(d)) < leaf_key()(
                    #[trigger] leaves_view(out@)[k],
                ),
            decreases j,
        {
            proof {
                assert(leaves_view(out@)[j - 1] == leaf_view(out@[j - 1]));
            }
            j = j - 1;
        }
        proof {
            if j > 0 {
                assert(leaves_view(out@)[j - 1] == leaf_view(out@[j - 1]));
            }
            lemma_insert_by_at(leaves_view(out@), leaf_view(d), leaf_key(), j as int);
        }
        let ghost ob = out@;
        let ghost dv = leaf_view(d);
        out.insert(j, d);
        proof {
            assert(leaves_view(out@) =~= leaves_view(ob).take(j as int).push(dv) + leaves_view(ob).skip(j as int));
        }
        i = i + 1;
    }
    proof {
        assert(lv.take(i as int) =~= lv);
    }
    out
}

/// Sort outline entries by line, keeping the order of equals.
fn sort_syms(v: Vec<DocSym>) -> (r: Vec<DocSym>)
    ensures
        docsyms_view(r@) == sort_by(docsyms_view(v@), sym_key()),
{
    let ghost lv = docsyms_view(v@);
    let mut v = v;
    let mut out: Vec<DocSym> = Vec::new();
    let mut i: usize = 0;
    let n = v.len();
    proof {
        assert(docsyms_view(out@) =~= sort_by(lv.take(0), sym_key()));
    }
    while v.len() > 0
        invariant
            i + v@.len() == n,
            n == lv.len(),
            docsyms_view(v@) == lv.skip(i as int),
            docsyms_view(out@) == sort_by(lv.take(i as int), sym_key()),
        decreases v.len(),
    {
        let ghost vb = v@;
        let d = v.remove(0);
        proof {
            assert(docsym_view(d) == lv[i as int]) by {
                assert(docsyms_view(vb)[0] == lv.skip(i as int)[0]);
            }
            assert(docsyms_view(v@) =~= lv.skip(i + 1)) by {
                assert(v@ =~= vb.subrange(1, vb.len() as int));
                assert forall|k: int| 0 <= k < v@.len() implies docsyms_view(v@)[k] == lv.skip(i + 1)[k] by {
                    assert(docsyms_view(v@)[k] == docsym_view(vb[k + 1]));
                    assert(docsyms_view(vb)[k + 1] == lv.skip(i as int)[k + 1]);
                }
            }
            assert(lv.take(i + 1).drop_last() =~= lv.take(i as int));
            assert(lv.take(i + 1).last() == docsym_view(d));
        }
        let mut j: usize = out.len();
        while j > 0 && d.line < out[j - 1].line
            invariant
                0 <= j <= out@.len(),
                forall|k: int| j <= k < out@.len() ==> sym_key()(docsym_view(d)) < sym_key()(
                    #[trigger] docsyms_view(out@)[k],
                ),
            decreases j,
        {
            proof {
                assert(docsyms_view(out@)[j - 1] == docsym_view(out@[j - 1]));
            }
            j = j - 1;
        }
        proof {
            if j > 0 {
                assert(docsyms_view(out@)[j - 1] == docsym_view(out@[j - 1]));
            }
            lemma_insert_by_at(docsyms_view(out@), docsym_view(d), sym_key(), j as int);
        }
        let ghost ob = out@;
        let ghost dv = docsym_view(d);
        out.insert(j, d);
        proof {
            assert(docsyms_view(out@) =~= docsyms_view(ob).take(j as int).push(dv) + docsyms_view(ob).skip(j as int));
        }
        i = i + 1;
    }
    proof {
        assert(lv.take(i as int) =~= lv);
    }
    out
}

/// The members of a block declared in `f`, as outline leaves.
pub open spec fn member_leaves(ms: Seq<(Seq<char>, SymbolModel)>, f: Seq<char>) -> Seq<DocLeaf>
    decreases ms.len(),
{
    if ms.len() == 0 {
        seq![]
    } else {
        let p = member_leaves(ms.drop_last(), f);
        let e = ms.last();
        if crate::path::same_file(e.1.loc.path, f) {
            p.push(DocLeaf { name: e.0, detail: e.1.detail, kind: SymKind::Field, line: e.1.loc.line })
        } else {
            p
        }
    }
}

/// The blocks declared in `f`, each with its members in `f` ordered by line.
pub open spec fn ubo_docs(us: Seq<(Seq<char>, UboModel)>, f: Seq<char>) -> Seq<DocSymModel>
    decreases us.len(),
{
    if us.len() == 0 {
        seq![]
    } else {
        let p = ubo_docs(us.drop_last(), f);
        let e = us.last();
        if crate::path::same_file(e.1.loc.path, f) {
            p.push(
                DocSymModel {
                    name: e.0,
                    detail: "uniform "@ + e.1.block_name,
                    kind: SymKind::Block,
                    line: e.1.loc.line,
                    children: sort_by(member_leaves(e.1.members, f), leaf_key()),
                },
            )
        } else {
            p
        }
    }
}

/// The symbols of a table declared in `f`.
pub open spec fn sym_docs(ms: Seq<(Seq<char>, SymbolModel)>, f: Seq<char>, kind: SymKind) -> Seq<DocSymModel>
    decreases ms.len(),
{
    if ms.len() == 0 {
        seq![]
    } else {
        let p = sym_docs(ms.drop_last(), f, kind);
        let e = ms.last();
        if crate::path::same_file(e.1.loc.path, f) {
            p.push(DocSymModel { name: e.0, detail: e.1.detail, kind, line: e.1.loc.line, children: seq![] })
        } else {
            p
        }
    }
}

/// The outline of `file`: its blocks, functions and globals, ordered by line
/// (equals in that order).
pub open spec fn document_symbols_spec(idx: IndexModel, f: Seq<char>) -> Seq<DocSymModel> {
    sort_by(
        ubo_docs(idx.ubos, f) + sym_docs(idx.functions, f, SymKind::Function) + sym_docs(
            idx.globals,
            f,
            SymKind::Variable,
        ),
        sym_key(),
    )
}

fn push_doc(out: &mut Vec<DocSym>, d: DocSym)
    ensures
        docsyms_view(final(out)@) == docsyms_view(old(out)@).push(docsym_view(d)),
        leaves_view(final(out)@) == leaves_view(old(out)@).push(leaf_view(d)),
{
    let ghost before = out@;
    let ghost dv = docsym_view(d);
    let ghost lv = leaf_view(d);
    out.push(d);
    proof {
        assert(docsyms_view(out@) =~= docsyms_view(before).push(dv));
        assert(leaves_view(out@) =~= leaves_view(before).push(lv));
    }
}

fn add_sym_docs(out: &mut Vec<DocSym>, m: &Vec<(String, Symbol)>, f: &[char], kind: SymKind)
    ensures
        docsyms_view(final(out)@) == docsyms_view(old(out)@) + sym_docs(kv_view(m@), f@, kind),
{
    let ghost start = docsyms_view(out@);
    let ghost mv = kv_view(m@);
    let mut k: usize = 0;
    proof {
        assert(start + sym_docs(mv.take(0), f@, kind) =~= start);
    }
    while k < m.len()
        invariant
            0 <= k <= m.len(),
            mv == kv_view(m@),
            docsyms_view(out@) == start + sym_docs(mv.take(k as int), f@, kind),
        decreases m.len() - k,
    {
        proof {
            assert(mv.take(k + 1).drop_last() =~= mv.take(k as int));
            assert(mv.take(k + 1).last() == mv[k as int]);
        }
        if crate::path::same_file_exec(to_chars(m[k].1.loc.path.as_str()).as_slice(), f) {
            let ghost ob = docsyms_view(out@);
            push_doc(
                out,
                DocSym {
                    name: m[k].0.clone(),
                    detail: m[k].1.detail.clone(),
                    kind,
                    line: m[k].1.loc.line,
                    children: Vec::new(),
                },
            );
            proof {
                assert(leaves_view(Seq::<DocSym>::empty()) =~= Seq::<DocLeaf>::empty());
                assert(docsyms_view(out@) =~= start + sym_docs(mv.take(k + 1), f@, kind));
            }
        }
        k = k + 1;
    }
    proof {
        assert(mv.take(m@.len() as int) =~= mv);
    }
}

/// Outline of the symbols *declared in* `file` (so opening a stage shader lists
/// its own globals/functions, and opening a `*Uniforms.glsl` lists the block).
pub fn document_symbols(index: &SymbolIndex, file: &str) -> (r: Vec<DocSym>)
    ensures
        docsyms_view(r@) == document_symbols_spec(index@, file@),
{
    let f = to_chars(file);
    let mut out: Vec<DocSym> = Vec::new();
    let ghost uv = kv_view(index.ubos@);
    let mut k: usize = 0;
    proof {
        assert(docsyms_view(out@) =~= ubo_docs(uv.take(0), file@));
    }
    while k < index.ubos.len()
        invariant
            0 <= k <= index.ubos.len(),
            uv == kv_view(index.ubos@),
            f@ == file@,
            docsyms_view(out@) == ubo_docs(uv.take(k as int), file@),
        decreases index.ubos.len() - k,
    {
        proof {
            assert(uv.take(k + 1).drop_last() =~= uv.take(k as int));
            assert(uv.take(k + 1).last() == uv[k as int]);
        }
        let u = &index.ubos[k].1;
        if crate::path::same_file_exec(to_chars(u.loc.path.as_str()).as_slice(), f.as_slice()) {
            let mut members: Vec<DocSym> = Vec::new();
            let ghost mv = kv_view(u.members@);
            let mut m: usize = 0;
            proof {
                assert(leaves_view(members@) =~= member_leaves(mv.take(0), file@));
            }
            while m < u.members.len()
                invariant
                    0 <= m <= u.members.len(),
                    mv == kv_view(u.members@),
                    f@ == file@,
                    leaves_view(members@) == member_leaves(mv.take(m as int), file@),
                decreases u.members.len() - m,
            {
                proof {
                    assert(mv.take(m + 1).drop_last() =~= mv.take(m as int));
                    assert(mv.take(m + 1).last() == mv[m as int]);
                }
                let ms = &u.members[m].1;
                if crate::path::same_file_exec(to_chars(ms.loc.path.as_str()).as_slice(), f.as_slice()) {
                    push_doc(
                        &mut members,
                        DocSym {
                            name: u.members[m].0.clone(),
                            detail: ms.detail.clone(),
                            kind: SymKind::Field,
                            line: ms.loc.line,
                            children: Vec::new(),
                        },
                    );
                }
                m = m + 1;
            }
            proof {
                assert(mv.take(u.members@.len() as int) =~= mv);
            }
            let sorted = sort_leaves(members);
            let mut d = to_chars("uniform ");
            let bn = to_chars(u.block_name.as_str());
            crate::text::extend_chars(&mut d, bn.as_slice());
            push_doc(
                &mut out,
                DocSym {
                    name: index.ubos[k].0.clone(),
                    detail: from_chars(d.as_slice()),
                    kind: SymKind::Block,
                    line: u.loc.line,
                    children: sorted,
                },
            );
        }
        k = k + 1;
    }
    proof {
        assert(uv.take(index.ubos@.len() as int) =~= uv);
    }
    add_sym_docs(&mut out, &index.functions, f.as_slice(), SymKind::Function);
    add_sym_docs(&mut out, &index.globals, f.as_slice(), SymKind::Variable);
    sort_syms(out)
}

// ---------------------------------------------------------------------------
// Laws
// ---------------------------------------------------------------------------

/// No two entries of a table share a name.
pub open spec fn keys_distinct<V>(m: Seq<(Seq<char>, V)>) -> bool {
    forall|i: int, j: int| 0 <= i < j < m.len() ==> (#[trigger] m[i]).0 != (#[trigger] m[j]).0
}

/// `loc` is an original `(path, line)` the unit's line map records.
pub open spec fn on_map(a: AssembledModel, loc: LocModel) -> bool {
    exists|k: int| 0 <= k < a.map.len() && a.map[k] == Some(loc)
}

/// A symbol table naming each symbol once, every one located on the line map.
pub open spec fn syms_ok(a: AssembledModel, m: Seq<(Seq<char>, SymbolModel)>) -> bool {
    &&& keys_distinct(m)
    &&& forall|i: int| 0 <= i < m.len() ==> on_map(a, (#[trigger] m[i]).1.loc)
}

/// The index's tables each name a symbol once, and every global, function,
/// block and block member is located on the unit's line map.
pub open spec fn index_ok(a: AssembledModel, idx: IndexModel) -> bool {
    &&& syms_ok(a, idx.globals)
    &&& syms_ok(a, idx.functions)
    &&& keys_distinct(idx.ubos)
    &&& forall|i: int| 0 <= i < idx.ubos.len() ==> on_map(a, (#[trigger] idx.ubos[i]).1.loc) && syms_ok(a, idx.ubos[i].1.members)
}

proof fn lemma_kv_insert_shape<V>(m: Seq<(Seq<char>, V)>, k: Seq<char>, v: V)
    ensures
        forall|i: int| 0 <= i < kv_insert(m, k, v).len() ==> #[trigger] kv_insert(m, k, v)[i] == (k, v) || m.contains(kv_insert(m, k, v)[i]),
        keys_distinct(m) ==> keys_distinct(kv_insert(m, k, v)),
    decreases m.len(),
{
    let r = kv_insert(m, k, v);
    if m.len() > 0 {
        let t = m.drop_first();
        if m[0].0 == k {
            assert forall|i: int| 0 <= i < r.len() implies #[trigger] r[i] == (k, v) || m.contains(r[i]) by {
                if i > 0 {
                    assert(r[i] == m[i]);
                }
            }
            if keys_distinct(m) {
                assert forall|i: int, j: int| 0 <= i < j < r.len() implies (#[trigger] r[i]).0 != (#[trigger] r[j]).0 by {
                    assert(r[j] == m[j]);
                    if i > 0 {
                        assert(r[i] == m[i]);
                    } else {
                        assert(m[0].0 != m[j].0);
                    }
                }
            }
        } else {
            lemma_kv_insert_shape(t, k, v);
            let u = kv_insert(t, k, v);
            assert(r == seq![m[0]] + u);
            assert forall|i: int| 0 <= i < r.len() implies #[trigger] r[i] == (k, v) || m.contains(r[i]) by {
                if i == 0 {
                    assert(m[0] == r[0]);
                } else {
                    assert(r[i] == u[i - 1]);
                    if u[i - 1] != (k, v) {
                        let w = choose|w: int| 0 <= w < t.len() && t[w] == u[i - 1];
                        assert(m[w + 1] == t[w]);
                    }
                }
            }
            if keys_distinct(m) {
                assert(keys_distinct(t)) by {
                    assert forall|i: int, j: int| 0 <= i < j < t.len() implies (#[trigger] t[i]).0 != (#[trigger] t[j]).0 by {
                        assert(t[i] == m[i + 1] && t[j] == m[j + 1]);
                    }
                }
                assert forall|i: int, j: int| 0 <= i < j < r.len() implies (#[trigger] r[i]).0 != (#[trigger] r[j]).0 by {
                    assert(r[j] == u[j - 1]);
                    if i == 0 {
                        if u[j - 1] != (k, v) {
                            let w = choose|w: int| 0 <= w < t.len() && t[w] == u[j - 1];
                            assert(m[w + 1] == t[w]);
                            assert(m[0].0 != m[w + 1].0);
                        }
                    } else {
                        assert(r[i] == u[i - 1]);
                    }
                }
            }
        }
    }
}

proof fn lemma_kv_insert_sym(a: AssembledModel, m: Seq<(Seq<char>, SymbolModel)>, k: Seq<char>, v: SymbolModel)
    requires
        syms_ok(a, m),
        on_map(a, v.loc),
    ensures
        syms_ok(a, kv_insert(m, k, v)),
{
    lemma_kv_insert_shape(m, k, v);
    let r = kv_insert(m, k, v);
    assert forall|i: int| 0 <= i < r.len() implies on_map(a, (#[trigger] r[i]).1.loc) by {
        if r[i] != (k, v) {
            let w = choose|w: int| 0 <= w < m.len() && m[w] == r[i];
        }
    }
}

proof fn lemma_loc_at_on_map(a: AssembledModel, i: int)
    ensures
        loc_at_spec(a, i) matches Some(l) ==> on_map(a, l),
{
}

proof fn lemma_members_ok(a: AssembledModel, ls: Seq<Seq<char>>, lo: int, k: int)
    ensures
        syms_ok(a, members_upto(a, ls, lo, k)),
    decreases k - lo,
{
    if k > lo {
        lemma_members_ok(a, ls, lo, k - 1);
        let m = members_upto(a, ls, lo, k - 1);
        if let (Some((ty, n)), Some(loc)) = (member_decl_spec(trim(ls[k - 1])), loc_at_spec(a, k - 1)) {
            lemma_loc_at_on_map(a, k - 1);
            lemma_kv_insert_sym(a, m, n, SymbolModel { detail: ty + " "@ + n, loc });
        }
    }
}

proof fn lemma_scan_block_ok(a: AssembledModel, ls: Seq<Seq<char>>, start: int, bn: Seq<char>, idx: IndexModel)
    requires
        index_ok(a, idx),
    ensures
        index_ok(a, scan_block_spec(a, ls, start, bn, idx).1),
{
    let j = close_line(ls, start + 1);
    if j < ls.len() {
        if let Some(inst) = block_end_spec(trim(ls[j])) {
            let l = match loc_at_spec(a, start) {
                Some(x) => Some(x),
                None => loc_at_spec(a, j),
            };
            lemma_loc_at_on_map(a, start);
            lemma_loc_at_on_map(a, j);
            if let Some(loc) = l {
                let u = UboModel {
                    block_name: bn,
                    detail: "uniform "@ + bn + " { … } "@ + inst,
                    loc,
                    members: members_upto(a, ls, start + 1, j),
                };
                lemma_members_ok(a, ls, start + 1, j);
                lemma_kv_insert_shape(idx.ubos, inst, u);
                let r = kv_insert(idx.ubos, inst, u);
                assert forall|i: int| 0 <= i < r.len() implies on_map(a, (#[trigger] r[i]).1.loc) && syms_ok(a, r[i].1.members) by {
                    if r[i] != (inst, u) {
                        let w = choose|w: int| 0 <= w < idx.ubos.len() && idx.ubos[w] == r[i];
                    }
                }
            }
        }
    }
}

proof fn lemma_line_step_ok(a: AssembledModel, t: Seq<char>, i: int, idx: IndexModel)
    requires
        index_ok(a, idx),
    ensures
        index_ok(a, line_step(a, t, i, idx)),
{
    lemma_loc_at_on_map(a, i);
    if let Some(loc) = loc_at_spec(a, i) {
        if let Some((n, d)) = global_decl_spec(t) {
            lemma_kv_insert_sym(a, idx.globals, n, SymbolModel { detail: d, loc });
        } else if let Some((n, d)) = function_def_spec(t) {
            lemma_kv_insert_sym(a, idx.functions, n, SymbolModel { detail: d, loc });
        }
    }
}

proof fn lemma_index_from_ok(a: AssembledModel, ls: Seq<Seq<char>>, i: int, idx: IndexModel)
    requires
        index_ok(a, idx),
    ensures
        index_ok(a, index_from(a, ls, i, idx)),
    decreases ls.len() - i,
{
    lemma_index_step(a, ls, i, idx);
    if 0 <= i < ls.len() {
        let t = trim(ls[i]);
        match block_start_spec(t) {
            Some(bn) => {
                lemma_scan_block_ok(a, ls, i, bn, idx);
                let r = scan_block_spec(a, ls, i, bn, idx);
                if i < r.0 <= ls.len() {
                    lemma_index_from_ok(a, ls, r.0, r.1);
                }
            },
            None => {
                lemma_line_step_ok(a, t, i, idx);
                lemma_index_from_ok(a, ls, i + 1, line_step(a, t, i, idx));
            },
        }
    }
}

/// Every global, function, block and block member the index records is located
/// at an original `(path, line)` that the unit's line map records — so hover and
/// go-to-definition point into a source file, never into the assembled unit —
/// and each table names a symbol once.
pub proof fn lemma_index_symbols_are_mapped_once(a: AssembledModel)
    ensures
        index_ok(a, index_spec(a)),
{
    lemma_index_from_ok(a, lines(a.source), 0, empty_index());
}

/// Ordered by `key`.
pub open spec fn sorted_by_key<T>(s: Seq<T>, key: spec_fn(T) -> u32) -> bool {
    forall|i: int, j: int| 0 <= i < j < s.len() ==> key(#[trigger] s[i]) <= key(#[trigger] s[j])
}

proof fn lemma_insert_by_sorted<T>(s: Seq<T>, x: T, key: spec_fn(T) -> u32)
    requires
        sorted_by_key(s, key),
    ensures
        sorted_by_key(insert_by(s, x, key), key),
        insert_by(s, x, key).to_multiset() =~= s.to_multiset().insert(x),
    decreases s.len(),
{
    broadcast use vstd::seq_lib::group_to_multiset_ensures;

    if s.len() > 0 {
        let t = s.drop_last();
        let l = s.last();
        assert(s =~= t.push(l));
        if key(x) < key(l) {
            assert(sorted_by_key(t, key)) by {
                assert forall|i: int, j: int| 0 <= i < j < t.len() implies key(#[trigger] t[i]) <= key(#[trigger] t[j]) by {
                    assert(t[i] == s[i] && t[j] == s[j]);
                }
            }
            lemma_insert_by_sorted(t, x, key);
            let u = insert_by(t, x, key);
            let r = u.push(l);
            assert forall|i: int, j: int| 0 <= i < j < r.len() implies key(#[trigger] r[i]) <= key(#[trigger] r[j]) by {
                if j == r.len() - 1 {
                    assert(r[i] == u[i]);
                    assert(u.to_multiset().count(u[i]) > 0);
                    if u[i] != x {
                        assert(t.to_multiset().count(u[i]) > 0);
                        assert(t.contains(u[i]));
                        let k = choose|k: int| 0 <= k < t.len() && t[k] == u[i];
                        assert(s[k] == t[k]);
                        assert(s[s.len() - 1] == l);
                    }
                } else {
                    assert(r[i] == u[i] && r[j] == u[j]);
                }
            }
        } else {
            let r = s.push(x);
            assert forall|i: int, j: int| 0 <= i < j < r.len() implies key(#[trigger] r[i]) <= key(#[trigger] r[j]) by {
                if j == r.len() - 1 {
                    assert(r[i] == s[i]);
                    if i < s.len() - 1 {
                        assert(key(s[i]) <= key(s[s.len() - 1]));
                    }
                } else {
                    assert(r[i] == s[i] && r[j] == s[j]);
                }
            }
        }
    }
}

proof fn lemma_sort_by_sorted<T>(s: Seq<T>, key: spec_fn(T) -> u32)
    ensures
        sorted_by_key(sort_by(s, key), key),
        sort_by(s, key).to_multiset() =~= s.to_multiset(),
    decreases s.len(),
{
    broadcast use vstd::seq_lib::group_to_multiset_ensures;

    if s.len() > 0 {
        lemma_sort_by_sorted(s.drop_last(), key);
        lemma_insert_by_sorted(sort_by(s.drop_last(), key), s.last(), key);
        assert(s =~= s.drop_last().push(s.last()));
    }
}

proof fn lemma_ubo_docs_children_sorted(us: Seq<(Seq<char>, UboModel)>, f: Seq<char>)
    ensures
        forall|i: int| 0 <= i < ubo_docs(us, f).len() ==> sorted_by_key((#[trigger] ubo_docs(us, f)[i]).children, leaf_key()),
    decreases us.len(),
{
    if us.len() > 0 {
        lemma_ubo_docs_children_sorted(us.drop_last(), f);
        lemma_sort_by_sorted(member_leaves(us.last().1.members, f), leaf_key());
        let p = ubo_docs(us.drop_last(), f);
        let r = ubo_docs(us, f);
        assert forall|i: int| 0 <= i < r.len() implies sorted_by_key((#[trigger] r[i]).children, leaf_key()) by {
            if i < p.len() {
                assert(r[i] == p[i]);
            }
        }
    }
}

proof fn lemma_sym_docs_childless(ms: Seq<(Seq<char>, SymbolModel)>, f: Seq<char>, kind: SymKind)
    ensures
        forall|i: int| 0 <= i < sym_docs(ms, f, kind).len() ==> (#[trigger] sym_docs(ms, f, kind)[i]).children.len() == 0,
    decreases ms.len(),
{
    if ms.len() > 0 {
        lemma_sym_docs_childless(ms.drop_last(), f, kind);
        let p = sym_docs(ms.drop_last(), f, kind);
        let r = sym_docs(ms, f, kind);
        assert forall|i: int| 0 <= i < r.len() implies (#[trigger] r[i]).children.len() == 0 by {
            if i < p.len() {
                assert(r[i] == p[i]);
            }
        }
    }
}

/// A file's outline lists its blocks, functions and globals ordered by line,
/// each block's members ordered by line too, and nothing else: the entries are
/// exactly those of the index located in the file.
pub proof fn lemma_outline_is_ordered_by_line(idx: IndexModel, f: Seq<char>)
    ensures
        sorted_by_key(document_symbols_spec(idx, f), sym_key()),
        forall|i: int| 0 <= i < document_symbols_spec(idx, f).len() ==> sorted_by_key(
            (#[trigger] document_symbols_spec(idx, f)[i]).children,
            leaf_key(),
        ),
        document_symbols_spec(idx, f).to_multiset() =~= (ubo_docs(idx.ubos, f) + sym_docs(idx.functions, f, SymKind::Function)
            + sym_docs(idx.globals, f, SymKind::Variable)).to_multiset(),
{
    broadcast use vstd::seq_lib::group_to_multiset_ensures;

    let all = ubo_docs(idx.ubos, f) + sym_docs(idx.functions, f, SymKind::Function) + sym_docs(idx.globals, f, SymKind::Variable);
    lemma_sort_by_sorted(all, sym_key());
    lemma_ubo_docs_children_sorted(idx.ubos, f);
    lemma_sym_docs_childless(idx.functions, f, SymKind::Function);
    lemma_sym_docs_childless(idx.globals, f, SymKind::Variable);
    let r = document_symbols_spec(idx, f);
    let u = ubo_docs(idx.ubos, f);
    let g = sym_docs(idx.functions, f, SymKind::Function);
    let h = sym_docs(idx.globals, f, SymKind::Variable);
    assert forall|i: int| 0 <= i < all.len() implies sorted_by_key((#[trigger] all[i]).children, leaf_key()) by {
        if i < u.len() {
            assert(all[i] == u[i]);
        } else if i < u.len() + g.len() {
            assert(all[i] == g[i - u.len()]);
        } else {
            assert(all[i] == h[i - u.len() - g.len()]);
        }
    }
    assert forall|i: int| 0 <= i < r.len() implies sorted_by_key((#[trigger] r[i]).children, leaf_key()) by {
        assert(r.to_multiset().count(r[i]) > 0);
        assert(all.to_multiset().count(r[i]) > 0);
        assert(all.contains(r[i]));
        let k = choose|k: int| 0 <= k < all.len() && all[k] == r[i];
    }
}

proof fn lemma_kv_get_entry<V>(m: Seq<(Seq<char>, V)>, k: Seq<char>)
    ensures
        kv_get(m, k) matches Some(v) ==> exists|i: int| 0 <= i < m.len() && #[trigger] m[i] == (k, v),
    decreases m.len(),
{
    if m.len() > 0 && m[0].0 != k {
        lemma_kv_get_entry(m.drop_first(), k);
        if let Some(v) = kv_get(m, k) {
            let i = choose|i: int| 0 <= i < m.drop_first().len() && #[trigger] m.drop_first()[i] == (k, v);
            assert(m[i + 1] == (k, v));
        }
    } else if m.len() > 0 {
        assert(m[0] == (k, m[0].1));
    }
}

/// Hover and go-to-definition on an index of a unit point into a source file:
/// whatever the identifier under the cursor resolves to, its location (a
/// builtin has none) is an original `(path, line)` that the unit's line map
/// records — a member after `<instance>.` included.
pub proof fn lemma_definitions_point_into_sources(a: AssembledModel, line: Seq<char>, col: int)
    ensures
        resolve_spec(index_spec(a), line, col) matches Some(h) ==> (h.loc matches Some(l) ==> on_map(a, l)),
{
    let idx = index_spec(a);
    lemma_index_symbols_are_mapped_once(a);
    if let Some((word, start)) = word_at_spec(line, col) {
        let before = trim_end(line.take(start));
        if before.len() > 0 && before.last() == '.' {
            if let Some(inst) = trailing_ident_spec(trim_end(before.drop_last())) {
                lemma_kv_get_entry(idx.ubos, inst);
                if let Some(u) = kv_get(idx.ubos, inst) {
                    let i = choose|i: int| 0 <= i < idx.ubos.len() && #[trigger] idx.ubos[i] == (inst, u);
                    assert(syms_ok(a, idx.ubos[i].1.members));
                    lemma_kv_get_entry(u.members, word);
                    if let Some(m) = kv_get(u.members, word) {
                        let j = choose|j: int| 0 <= j < u.members.len() && #[trigger] u.members[j] == (word, m);
                        assert(on_map(a, u.members[j].1.loc));
                    }
                }
            }
        } else {
            lemma_kv_get_entry(idx.functions, word);
            lemma_kv_get_entry(idx.globals, word);
            lemma_kv_get_entry(idx.ubos, word);
            if let Some(f) = kv_get(idx.functions, word) {
                let i = choose|i: int| 0 <= i < idx.functions.len() && #[trigger] idx.functions[i] == (word, f);
                assert(on_map(a, idx.functions[i].1.loc));
            } else if let Some(g) = kv_get(idx.globals, word) {
                let i = choose|i: int| 0 <= i < idx.globals.len() && #[trigger] idx.globals[i] == (word, g);
                assert(on_map(a, idx.globals[i].1.loc));
            } else if let Some(u) = kv_get(idx.ubos, word) {
                let i = choose|i: int| 0 <= i < idx.ubos.len() && #[trigger] idx.ubos[i] == (word, u);
                assert(on_map(a, idx.ubos[i].1.loc));
            }
        }
    }
}

proof fn lemma_kv_get_some<V>(m: Seq<(Seq<char>, V)>, i: int)
    requires
        0 <= i < m.len(),
    ensures
        kv_get(m, m[i].0) is Some,
    decreases m.len(),
{
    if i > 0 && m[0].0 != m[i].0 {
        assert(m.drop_first()[i - 1] == m[i]);
        lemma_kv_get_some(m.drop_first(), i - 1);
    }
}

/// Completion offers only what hover and go-to-definition can find: after
/// `<instance>.` every candidate is a member of that instance's block; otherwise
/// every candidate names a function, a global, a block instance or a builtin of
/// the index, each table's own kind.
pub proof fn lemma_completions_name_known_symbols(idx: IndexModel, line: Seq<char>, col: int)
    ensures
        ({
            let prefix = line.take(
                if col < line.len() {
                    col
                } else {
                    line.len() as int
                },
            );
            let r = complete_spec(idx, line, col);
            forall|k: int| 0 <= k < r.len() ==> match member_context_spec(prefix) {
                Some(inst) => kv_get(idx.ubos, inst) matches Some(u) && kv_get(u.members, (#[trigger] r[k]).label) is Some
                    && r[k].kind == SymKind::Field,
                None => {
                    ||| kv_get(idx.functions, (#[trigger] r[k]).label) is Some && r[k].kind == SymKind::Function
                    ||| kv_get(idx.globals, r[k].label) is Some && r[k].kind == SymKind::Variable
                    ||| kv_get(idx.ubos, r[k].label) is Some && r[k].kind == SymKind::Block
                    ||| kv_get(idx.builtins, r[k].label) is Some && r[k].kind == SymKind::Builtin
                },
            }
        }),
{
    let prefix = line.take(
        if col < line.len() {
            col
        } else {
            line.len() as int
        },
    );
    let r = complete_spec(idx, line, col);
    match member_context_spec(prefix) {
        Some(inst) => {
            if let Some(u) = kv_get(idx.ubos, inst) {
                assert forall|k: int| 0 <= k < r.len() implies kv_get(u.members, (#[trigger] r[k]).label) is Some by {
                    lemma_kv_get_some(u.members, k);
                }
            }
        },
        None => {
            let f = completions_of_syms(idx.functions, SymKind::Function);
            let g = completions_of_syms(idx.globals, SymKind::Variable);
            let nf = f.len();
            let ng = g.len();
            let nu = idx.ubos.len();
            assert forall|k: int| 0 <= k < r.len() implies {
                ||| kv_get(idx.functions, (#[trigger] r[k]).label) is Some && r[k].kind == SymKind::Function
                ||| kv_get(idx.globals, r[k].label) is Some && r[k].kind == SymKind::Variable
                ||| kv_get(idx.ubos, r[k].label) is Some && r[k].kind == SymKind::Block
                ||| kv_get(idx.builtins, r[k].label) is Some && r[k].kind == SymKind::Builtin
            } by {
                if k < nf {
                    lemma_kv_get_some(idx.functions, k);
                } else if k < nf + ng {
                    lemma_kv_get_some(idx.globals, k - nf);
                } else if k < nf + ng + nu {
                    lemma_kv_get_some(idx.ubos, k - nf - ng);
                } else {
                    lemma_kv_get_some(idx.builtins, k - nf - ng - nu);
                }
            }
        },
    }
}

proof fn lemma_index_from_builtins(a: AssembledModel, ls: Seq<Seq<char>>, i: int, idx: IndexModel)
    ensures
        index_from(a, ls, i, idx).builtins == idx.builtins,
    decreases ls.len() - i,
{
    lemma_index_step(a, ls, i, idx);
    if 0 <= i < ls.len() {
        let t = trim(ls[i]);
        match block_start_spec(t) {
            Some(bn) => {
                let r = scan_block_spec(a, ls, i, bn, idx);
                if i < r.0 <= ls.len() {
                    lemma_index_from_builtins(a, ls, r.0, r.1);
                }
            },
            None => {
                lemma_index_from_builtins(a, ls, i + 1, line_step(a, t, i, idx));
            },
        }
    }
}

proof fn lemma_glsl_builtins_bind(b: Seq<(Seq<char>, BuiltinModel)>, tbl: Seq<(Seq<char>, Seq<char>)>)
    ensures
        forall|k: int| 0 <= k < tbl.len() ==> kv_get(glsl_builtins(b, tbl), #[trigger] tbl[k].0) is Some,
        forall|n: Seq<char>| kv_get(b, n) is Some ==> kv_get(glsl_builtins(b, tbl), n) is Some,
    decreases tbl.len(),
{
    if tbl.len() > 0 {
        let t = tbl.drop_last();
        lemma_glsl_builtins_bind(b, t);
        let b1 = glsl_builtins(b, t);
        let v = BuiltinModel { signature: tbl.last().1, origin: glsl_origin() };
        lemma_kv_or_insert_binds(b1, tbl.last().0, v);
        assert forall|k: int| 0 <= k < tbl.len() implies kv_get(glsl_builtins(b, tbl), #[trigger] tbl[k].0) is Some by {
            if k < t.len() {
                assert(t[k] == tbl[k]);
            }
        }
    }
}

proof fn lemma_kv_push_binds<V>(m: Seq<(Seq<char>, V)>, k: Seq<char>, v: V)
    ensures
        kv_get(m.push((k, v)), k) is Some,
        forall|n: Seq<char>| kv_get(m, n) is Some ==> kv_get(m.push((k, v)), n) is Some,
    decreases m.len(),
{
    let r = m.push((k, v));
    if m.len() > 0 {
        lemma_kv_push_binds(m.drop_first(), k, v);
        assert(r.drop_first() =~= m.drop_first().push((k, v)));
        assert(r[0] == m[0]);
        assert forall|n: Seq<char>| kv_get(m, n) is Some implies kv_get(r, n) is Some by {
            if m[0].0 != n {
                assert(kv_get(m, n) == kv_get(m.drop_first(), n));
            }
        }
    } else {
        assert(r[0] == (k, v));
    }
}

proof fn lemma_kv_or_insert_binds<V>(m: Seq<(Seq<char>, V)>, k: Seq<char>, v: V)
    ensures
        kv_get(kv_or_insert(m, k, v), k) is Some,
        forall|n: Seq<char>| kv_get(m, n) is Some ==> kv_get(kv_or_insert(m, k, v), n) is Some,
{
    lemma_kv_push_binds(m, k, v);
}

/// The builtin table of an index is the same whatever unit was indexed, and it
/// binds every core GLSL ES function (`clamp`, `texture`, …) and every function
/// the deck prelude defines — so hover over one always finds its signature.
pub proof fn lemma_builtins_are_always_complete(a: AssembledModel, b: AssembledModel)
    ensures
        index_spec(a).builtins == index_spec(b).builtins,
        forall|n: Seq<char>|
            kv_get(prelude_builtins(seq![], lines(crate::assemble::BUILTIN_PRELUDE@)), n) is Some ==> #[trigger] kv_get(
                index_spec(a).builtins,
                n,
            ) is Some,
        forall|k: int| 0 <= k < glsl_table().len() ==> kv_get(index_spec(a).builtins, #[trigger] glsl_table()[k].0) is Some,
{
    lemma_index_from_builtins(a, lines(a.source), 0, empty_index());
    lemma_index_from_builtins(b, lines(b.source), 0, empty_index());
    lemma_glsl_builtins_bind(
        prelude_builtins(empty_index().builtins, lines(crate::assemble::BUILTIN_PRELUDE@)),
        glsl_table(),
    );
}

/// [`word_at_spec`] finds the identifier touching the cursor: the maximal run of
/// `[A-Za-z0-9_]` that contains the clamped cursor position or ends right at
/// it, and nothing when no identifier character touches it.
pub proof fn lemma_word_at_touches_the_cursor(line: Seq<char>, col: int)
    requires
        col >= 0,
    ensures
        ({
            let c = if col < line.len() {
                col
            } else {
                line.len() as int
            };
            match word_at_spec(line, col) {
                Some((w, st)) => {
                    &&& 0 <= st <= c <= st + w.len() <= line.len()
                    &&& w.len() > 0
                    &&& w == line.subrange(st, st + w.len())
                    &&& forall|k: int| 0 <= k < w.len() ==> is_word(#[trigger] w[k])
                    &&& (st == 0 || !is_word(line[st - 1]))
                    &&& (st + w.len() == line.len() || !is_word(line[st + w.len()]))
                },
                None => !(c > 0 && is_word(line[c - 1])) && !(c < line.len() && is_word(line[c])),
            }
        }),
{
    let c = if col < line.len() {
        col
    } else {
        line.len() as int
    };
    lemma_word_back(line, c);
    lemma_word_fwd(line, c);
    lemma_word_back_chars(line, c);
    lemma_word_fwd_chars(line, c);
    if let Some((w, st)) = word_at_spec(line, col) {
        assert forall|k: int| 0 <= k < w.len() implies is_word(#[trigger] w[k]) by {
            assert(w[k] == line[st + k]);
        }
    }
}

proof fn lemma_word_back_chars(s: Seq<char>, i: int)
    requires
        0 <= i <= s.len(),
    ensures
        forall|k: int| word_back(s, i) <= k < i ==> is_word(#[trigger] s[k]),
        word_back(s, i) == 0 || !is_word(s[word_back(s, i) - 1]),
    decreases i,
{
    if i > 0 && is_word(s[i - 1]) {
        lemma_word_back_chars(s, i - 1);
    }
}

proof fn lemma_word_fwd_chars(s: Seq<char>, i: int)
    requires
        0 <= i <= s.len(),
    ensures
        forall|k: int| i <= k < word_fwd(s, i) ==> is_word(#[trigger] s[k]),
        word_fwd(s, i) == s.len() || !is_word(s[word_fwd(s, i)]),
    decreases s.len() - i,
{
    if i < s.len() && is_word(s[i]) {
        lemma_word_fwd_chars(s, i + 1);
    }
}

/// Hover and go-to-definition look up the identifier touching the cursor.
/// Right after `<instance>.` they find that instance's member or nothing — no
/// fallback to other symbols of that name; anywhere else they find the
/// function of that name, else the global, else the block instance, else the
/// builtin, and nothing when none has it.
pub proof fn lemma_resolve_looks_up_the_word_at_the_cursor(idx: IndexModel, line: Seq<char>, col: int)
    ensures
        word_at_spec(line, col) is None ==> resolve_spec(idx, line, col) is None,
        word_at_spec(line, col) matches Some((w, st)) ==> {
            let b = trim_end(line.take(st));
            if b.len() > 0 && b.last() == '.' {
                &&& (resolve_spec(idx, line, col) is Some <==> (trailing_ident_spec(trim_end(b.drop_last())) matches Some(
                    inst,
                ) && kv_get(idx.ubos, inst) matches Some(u) && kv_get(u.members, w) is Some))
                &&& resolve_spec(idx, line, col) matches Some(h) ==> h.note is Some && h.loc is Some
            } else {
                &&& (resolve_spec(idx, line, col) is Some <==> (kv_get(idx.functions, w) is Some || kv_get(
                    idx.globals,
                    w,
                ) is Some || kv_get(idx.ubos, w) is Some || kv_get(idx.builtins, w) is Some))
                &&& kv_get(idx.functions, w) matches Some(f) ==> resolve_spec(idx, line, col) == Some(sym_hit(f))
                &&& kv_get(idx.functions, w) is None ==> (kv_get(idx.globals, w) matches Some(g) ==> resolve_spec(
                    idx,
                    line,
                    col,
                ) == Some(sym_hit(g)))
                &&& resolve_spec(idx, line, col) matches Some(h) ==> (h.loc is None ==> kv_get(idx.builtins, w) is Some)
            }
        },
{
}

/// Outside a member context, completion offers every function, global, block
/// instance and builtin of the index — each table whole, under its own kind,
/// and nothing else.
pub proof fn lemma_completion_offers_all_four_tables(idx: IndexModel, line: Seq<char>, col: int)
    ensures
        ({
            let prefix = line.take(
                if col < line.len() {
                    col
                } else {
                    line.len() as int
                },
            );
            let r = complete_spec(idx, line, col);
            member_context_spec(prefix) is None ==> {
                &&& r.len() == idx.functions.len() + idx.globals.len() + idx.ubos.len() + idx.builtins.len()
                &&& forall|i: int| 0 <= i < idx.functions.len() ==> r.contains(
                    CompletionModel { label: (#[trigger] idx.functions[i]).0, detail: idx.functions[i].1.detail, kind: SymKind::Function },
                )
                &&& forall|i: int| 0 <= i < idx.globals.len() ==> r.contains(
                    CompletionModel { label: (#[trigger] idx.globals[i]).0, detail: idx.globals[i].1.detail, kind: SymKind::Variable },
                )
                &&& forall|i: int| 0 <= i < idx.ubos.len() ==> r.contains(
                    CompletionModel { label: (#[trigger] idx.ubos[i]).0, detail: idx.ubos[i].1.detail, kind: SymKind::Block },
                )
                &&& forall|i: int| 0 <= i < idx.builtins.len() ==> r.contains(
                    CompletionModel { label: (#[trigger] idx.builtins[i]).0, detail: idx.builtins[i].1.signature, kind: SymKind::Builtin },
                )
            }
        }),
{
    let prefix = line.take(
        if col < line.len() {
            col
        } else {
            line.len() as int
        },
    );
    if member_context_spec(prefix) is None {
        let r = complete_spec(idx, line, col);
        let nf = idx.functions.len();
        let ng = idx.globals.len();
        let nu = idx.ubos.len();
        assert forall|i: int| 0 <= i < idx.functions.len() implies r.contains(
            CompletionModel { label: (#[trigger] idx.functions[i]).0, detail: idx.functions[i].1.detail, kind: SymKind::Function },
        ) by {
            assert(r[i] == CompletionModel { label: idx.functions[i].0, detail: idx.functions[i].1.detail, kind: SymKind::Function });
        }
        assert forall|i: int| 0 <= i < idx.globals.len() implies r.contains(
            CompletionModel { label: (#[trigger] idx.globals[i]).0, detail: idx.globals[i].1.detail, kind: SymKind::Variable },
        ) by {
            assert(r[nf + i] == CompletionModel { label: idx.globals[i].0, detail: idx.globals[i].1.detail, kind: SymKind::Variable });
        }
        assert forall|i: int| 0 <= i < idx.ubos.len() implies r.contains(
            CompletionModel { label: (#[trigger] idx.ubos[i]).0, detail: idx.ubos[i].1.detail, kind: SymKind::Block },
        ) by {
            assert(r[nf + ng + i] == CompletionModel { label: idx.ubos[i].0, detail: idx.ubos[i].1.detail, kind: SymKind::Block });
        }
        assert forall|i: int| 0 <= i < idx.builtins.len() implies r.contains(
            CompletionModel { label: (#[trigger] idx.builtins[i]).0, detail: idx.builtins[i].1.signature, kind: SymKind::Builtin },
        ) by {
            assert(r[nf + ng + nu + i] == CompletionModel { label: idx.builtins[i].0, detail: idx.builtins[i].1.signature, kind: SymKind::Builtin });
        }
    }
}

/// The initializer of a qualified declaration never names the global: a line
/// `<lhs> = <init>;` declares the same global, under the same name, as the
/// line `<lhs>;` without its initializer, whatever the initializer is — the
/// name is the last word before the first `=`.
pub proof fn lemma_initializer_never_names_the_global(lhs: Seq<char>, init: Seq<char>)
    requires
        lhs.len() > 0,
        crate::text::is_ws(lhs.last()),
        forall|i: int| 0 <= i < lhs.len() ==> lhs[i] != '=',
    ensures
        ({
            let with_init = global_decl_spec(lhs + seq!['='] + init + seq![';']);
            let without = global_decl_spec(lhs + seq![';']);
            &&& (with_init is Some <==> without is Some)
            &&& with_init matches Some((n, _)) ==> (without matches Some((m, _)) && n == m)
        }),
{
    reveal_strlit(";");
    let t1 = lhs + seq!['='] + init + seq![';'];
    let t0 = lhs + seq![';'];
    assert(ends_with(t1, ";"@)) by {
        assert(t1.subrange(t1.len() - 1, t1.len() as int) =~= ";"@);
    }
    assert(ends_with(t0, ";"@)) by {
        assert(t0.subrange(t0.len() - 1, t0.len() as int) =~= ";"@);
    }
    let b1 = t1.drop_last();
    let b0 = t0.drop_last();
    assert(b1 =~= lhs + (seq!['='] + init));
    assert(b0 =~= lhs);
    crate::text::lemma_index_of_is(b1, '=', lhs.len() as int);
    crate::text::lemma_index_of_is(b0, '=', lhs.len() as int);
    assert(b1.take(lhs.len() as int) =~= lhs);
    assert(b0.take(lhs.len() as int) =~= lhs);
    crate::text::lemma_words_append(lhs, seq!['='] + init);
    if words(lhs).len() > 0 {
        assert(words(b1)[0] == words(lhs)[0]);
    }
}

/// Every qualified declaration `<qualifier> <type> <name> ;` — the qualifier
/// one of `uniform`, `in`, `out`, `attribute`, `varying`, `const`, and the name
/// an identifier — declares a global of that name, and so does the same
/// declaration with an initializer `<qualifier> <type> <name> = <init>;`.
pub proof fn lemma_qualified_declarations_declare_globals(
    q: Seq<char>,
    ty: Seq<char>,
    name: Seq<char>,
    init: Seq<char>,
)
    requires
        seq!["uniform"@, "in"@, "out"@, "attribute"@, "varying"@, "const"@].contains(q),
        ty.len() > 0,
        forall|i: int| 0 <= i < q.len() ==> !crate::text::is_ws(#[trigger] q[i]) && q[i] != '=',
        forall|i: int| 0 <= i < ty.len() ==> !crate::text::is_ws(#[trigger] ty[i]) && ty[i] != '=',
        forall|i: int| 0 <= i < name.len() ==> !crate::text::is_ws(#[trigger] name[i]) && name[i] != '=' && name[i] != '[',
        is_ident(name),
    ensures
        ({
            let lhs = q + seq![' '] + ty + seq![' '] + name + seq![' '];
            &&& global_decl_spec(lhs + seq![';']) matches Some((n, _)) && n == name
            &&& global_decl_spec(lhs + seq!['='] + init + seq![';']) matches Some((n, _)) && n == name
        }),
{
    let a = q + seq![' '];
    let b = ty + seq![' '];
    let c = name + seq![' '];
    let lhs = q + seq![' '] + ty + seq![' '] + name + seq![' '];
    assert(lhs =~= a + (b + c));
    assert(qualifiers() =~= seq!["uniform"@, "in"@, "out"@, "attribute"@, "varying"@, "const"@]);
    assert(q.len() > 0) by {
        let k = choose|k: int| 0 <= k < qualifiers().len() && qualifiers()[k] == q;
        reveal_strlit("uniform");
        reveal_strlit("in");
        reveal_strlit("out");
        reveal_strlit("attribute");
        reveal_strlit("varying");
        reveal_strlit("const");
    }
    assert(name.len() > 0) by {
        assert(is_ident(name));
    }
    crate::text::lemma_words_word_space(q);
    crate::text::lemma_words_word_space(ty);
    crate::text::lemma_words_word_space(name);
    assert(crate::text::is_ws(' '));
    crate::text::lemma_words_append(b, c);
    crate::text::lemma_words_append(a, b + c);
    assert(words(lhs) =~= seq![q, ty, name]);
    assert forall|i: int| 0 <= i < lhs.len() implies lhs[i] != '=' by {}
    crate::text::lemma_index_of_is(name, '[', name.len() as int);
    assert(before_bracket(name) =~= name);
    lemma_initializer_never_names_the_global(lhs, init);
    reveal_strlit(";");
    let t0 = lhs + seq![';'];
    assert(ends_with(t0, ";"@)) by {
        assert(t0.subrange(t0.len() - 1, t0.len() as int) =~= ";"@);
    }
    assert(t0.drop_last() =~= lhs);
    crate::text::lemma_index_of_is(lhs, '=', lhs.len() as int);
    assert(lhs.take(lhs.len() as int) =~= lhs);
}

} // verus!
