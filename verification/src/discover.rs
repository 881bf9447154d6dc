//! Discover a project's shader-assembly *from the project itself*, so glslint
//! works on an unfamiliar repo without a per-ecosystem profile of hardcoded
//! filenames. Two universal signals, neither of which names any ecosystem:
//!
//! - **Shared libraries.** A shader is a translation unit with a `main`; a sibling
//!   file with no `main` is a shared library the build concatenates in ahead of
//!   the shader. Mutually-exclusive variants (mercator vs globe both define
//!   `projectTile`) are deduped by function name — the first wins.
//! - **Injected defines.** A build often injects `#define NAME ${…}` from JS before
//!   compiling. Scanning the project's own JS/TS for those gives the names to
//!   supply an `#ifndef`-guarded default for, so a *typo* in a macro name is still
//!   flagged.
//!
//! The directory listing and the file reads are the caller's; this module decides
//! from what they produced.

use vstd::prelude::*;
use crate::assemble::{Stage, detect_stage, detect_stage_spec};
use crate::check::{
    lemma_path_lt_asymmetric, lemma_path_lt_between, lemma_path_lt_transitive, path_lt,
    path_less,
};
use crate::text::{
    contains, contains_exec, find_from, find_from_exec, is_ascii_alnum, is_ident, is_ident_exec, lemma_find_from,
    lemma_sv_push, lines, occurs_at, slice_vec, split_whitespace, starts_with, starts_with_exec, strip_all_ws,
    strip_all_ws_vec, str_lines, sv, to_chars, trim_start, trim_start_vec, vviews, words,
};
use crate::workspace::{Workspace, lookup};

verus! {

// ---------------------------------------------------------------------------
// Injected defines
// ---------------------------------------------------------------------------

pub open spec fn define_kw() -> Seq<char> {
    seq!['#', 'd', 'e', 'f', 'i', 'n', 'e', ' ']
}

/// The length of the leading `[A-Za-z0-9_]` run.
pub open spec fn name_run(s: Seq<char>) -> int
    decreases s.len(),
{
    if s.len() > 0 && (is_ascii_alnum(s[0]) || s[0] == '_') {
        1 + name_run(s.drop_first())
    } else {
        0
    }
}

proof fn lemma_name_run(s: Seq<char>)
    ensures
        0 <= name_run(s) <= s.len(),
    decreases s.len(),
{
    if s.len() > 0 && (is_ascii_alnum(s[0]) || s[0] == '_') {
        lemma_name_run(s.drop_first());
    }
}

fn name_run_exec(s: &[char]) -> (r: usize)
    ensures
        r == name_run(s@),
{
    let mut i: usize = 0;
    proof {
        assert(s@.skip(0) =~= s@);
    }
    while i < s.len() && (crate::text::is_ascii_alpha_exec(s[i]) || crate::text::is_ascii_digit_exec(s[i]) || s[i]
        == '_')
        invariant
            0 <= i <= s.len(),
            name_run(s@) == i + name_run(s@.skip(i as int)),
        decreases s.len() - i,
    {
        proof {
            assert(s@.skip(i as int).drop_first() =~= s@.skip(i + 1));
        }
        i = i + 1;
    }
    i
}

/// The macro a `#define ` whose name starts at `rest` injects: a concrete name
/// (two or more characters, starting with an ASCII capital) followed by a space
/// or tab and then, modulo whitespace, a `${…}` interpolation.
pub open spec fn injected_name(rest: Seq<char>) -> Option<Seq<char>> {
    let n = name_run(rest);
    let name = rest.take(n);
    let after = rest.skip(n);
    if name.len() >= 2 && 'A' <= name[0] <= 'Z' && starts_with(trim_start(after), seq!['$', '{']) && after.len()
        > 0 && (after[0] == ' ' || after[0] == '\t') {
        Some(name)
    } else {
        None
    }
}

/// `names` with `n` added unless present.
pub open spec fn set_add(names: Seq<Seq<char>>, n: Seq<char>) -> Seq<Seq<char>> {
    if names.contains(n) {
        names
    } else {
        names.push(n)
    }
}

/// The injected macro names of `text` from index `from` on, added to `names`.
#[verifier::opaque]
pub open spec fn defines_from(text: Seq<char>, from: int, names: Seq<Seq<char>>) -> Seq<Seq<char>>
    decreases text.len() - from,
{
    match find_from(text, define_kw(), from) {
        None => names,
        Some(i) => {
            proof {
                lemma_find_from(text, define_kw(), from);
            }
            let next = match injected_name(text.skip(i + 8)) {
                Some(n) => set_add(names, n),
                None => names,
            };
            defines_from(text, i + 8, next)
        },
    }
}

proof fn lemma_defines_step(text: Seq<char>, from: int, names: Seq<Seq<char>>)
    ensures
        defines_from(text, from, names) == match find_from(text, define_kw(), from) {
            None => names,
            Some(i) => defines_from(
                text,
                i + 8,
                match injected_name(text.skip(i + 8)) {
                    Some(n) => set_add(names, n),
                    None => names,
                },
            ),
        },
{
    reveal(defines_from);
}

fn add_name(names: &mut Vec<String>, n: &[char])
    ensures
        sv(final(names)@) == set_add(sv(old(names)@), n@),
{
    let mut k: usize = 0;
    while k < names.len()
        invariant
            0 <= k <= names.len(),
            forall|j: int| 0 <= j < k ==> sv(names@)[j] != n@,
        decreases names.len() - k,
    {
        if crate::text::string_eq(&names[k], n) {
            proof {
                assert(sv(names@)[k as int] == n@);
            }
            return;
        }
        k = k + 1;
    }
    let s = crate::text::from_chars(n);
    proof {
        lemma_sv_push(names@, s);
    }
    names.push(s);
}

/// Pull the names of *runtime-injected* macros out of `text`: `#define NAME
/// ${…}`, where the value is a template interpolation — what distinguishes them
/// from a shader's own literal-valued `#define`. Templated *names*
/// (`HAS_UNIFORM_${name}`) are skipped.
pub fn collect_define_names(text: &str, out: &mut Vec<String>)
    ensures
        sv(final(out)@) == defines_from(text@, 0, sv(old(out)@)),
{
    let t = to_chars(text);
    let kw = vec!['#', 'd', 'e', 'f', 'i', 'n', 'e', ' '];
    proof {
        assert(kw@ =~= define_kw());
    }
    let mut from: usize = 0;
    loop
        invariant
            0 <= from <= t@.len(),
            t@ == text@,
            kw@ == define_kw(),
            defines_from(text@, 0, sv(old(out)@)) == defines_from(t@, from as int, sv(out@)),
        decreases t@.len() - from,
    {
        proof {
            lemma_defines_step(t@, from as int, sv(out@));
        }
        match find_from_exec(t.as_slice(), kw.as_slice(), from) {
            None => {
                return;
            },
            Some(i) => {
                let tl = t.len();
                assert(i + 8 <= tl);
                let rest = slice_vec(t.as_slice(), i + 8, tl);
                let n = name_run_exec(rest.as_slice());
                proof {
                    assert(rest@ =~= t@.skip(i + 8));
                    lemma_name_run(rest@);
                }
                let name = slice_vec(rest.as_slice(), 0, n);
                let after = slice_vec(rest.as_slice(), n, rest.len());
                let ta = trim_start_vec(after.as_slice());
                let iv = vec!['$', '{'];
                proof {
                    assert(iv@ =~= seq!['$', '{']);
                    assert(name@ =~= rest@.take(n as int));
                    assert(after@ =~= rest@.skip(n as int));
                }
                if name.len() >= 2 && 'A' <= name[0] && name[0] <= 'Z' && starts_with_exec(ta.as_slice(), iv.as_slice())
                    && after.len() > 0 && (after[0] == ' ' || after[0] == '\t') {
                    add_name(out, name.as_slice());
                }
                from = i + 8;
            },
        }
    }
}

/// `a` sorts before `b` (`str` order: by code point, a prefix first).
pub open spec fn str_lt(a: Seq<char>, b: Seq<char>) -> bool
    decreases a.len(),
{
    if a.len() == 0 {
        b.len() > 0
    } else if b.len() == 0 {
        false
    } else if a[0] == b[0] {
        str_lt(a.drop_first(), b.drop_first())
    } else {
        a[0] < b[0]
    }
}

proof fn lemma_str_lt_skip(a: Seq<char>, b: Seq<char>, i: int)
    requires
        0 <= i <= a.len(),
        i <= b.len(),
        forall|k: int| 0 <= k < i ==> a[k] == b[k],
    ensures
        str_lt(a, b) == str_lt(a.skip(i), b.skip(i)),
    decreases i,
{
    if i == 0 {
        assert(a.skip(0) =~= a);
        assert(b.skip(0) =~= b);
    } else {
        lemma_str_lt_skip(a.drop_first(), b.drop_first(), i - 1);
        assert(a.drop_first().skip(i - 1) =~= a.skip(i));
        assert(b.drop_first().skip(i - 1) =~= b.skip(i));
    }
}

fn str_less(a: &[char], b: &[char]) -> (r: bool)
    ensures
        r == str_lt(a@, b@),
{
    let mut i: usize = 0;
    while i < a.len() && i < b.len() && a[i] == b[i]
        invariant
            0 <= i <= a.len(),
            i <= b.len(),
            forall|k: int| 0 <= k < i ==> a@[k] == b@[k],
        decreases a.len() - i,
    {
        i = i + 1;
    }
    proof {
        lemma_str_lt_skip(a@, b@, i as int);
    }
    if i == a.len() {
        i < b.len()
    } else if i == b.len() {
        false
    } else {
        proof {
            assert(a@.skip(i as int)[0] == a@[i as int]);
            assert(b@.skip(i as int)[0] == b@[i as int]);
        }
        a[i] < b[i]
    }
}

/// `x` placed after every element of `s` that does not sort after it under
/// `lt`, counting from the end.
pub open spec fn insert_lt(s: Seq<Seq<char>>, x: Seq<char>, lt: spec_fn(Seq<char>, Seq<char>) -> bool) -> Seq<
    Seq<char>,
>
    decreases s.len(),
{
    if s.len() == 0 {
        seq![x]
    } else if lt(x, s.last()) {
        insert_lt(s.drop_last(), x, lt).push(s.last())
    } else {
        s.push(x)
    }
}

/// The stable sort of `s` under `lt`.
pub open spec fn sort_lt(s: Seq<Seq<char>>, lt: spec_fn(Seq<char>, Seq<char>) -> bool) -> Seq<Seq<char>>
    decreases s.len(),
{
    if s.len() == 0 {
        seq![]
    } else {
        insert_lt(sort_lt(s.drop_last(), lt), s.last(), lt)
    }
}

proof fn lemma_insert_lt_at(
    s: Seq<Seq<char>>,
    x: Seq<char>,
    lt: spec_fn(Seq<char>, Seq<char>) -> bool,
    j: int,
)
    requires
        0 <= j <= s.len(),
        forall|k: int| j <= k < s.len() ==> lt(x, #[trigger] s[k]),
        j == 0 || !lt(x, s[j - 1]),
    ensures
        insert_lt(s, x, lt) == s.take(j).push(x) + s.skip(j),
    decreases s.len(),
{
    if s.len() == 0 {
        assert(s.take(j).push(x) + s.skip(j) =~= seq![x]);
    } else if j == s.len() {
        assert(s.take(j).push(x) + s.skip(j) =~= s.push(x));
    } else {
        let t = s.drop_last();
        assert(lt(x, s[s.len() - 1]));
        assert forall|k: int| j <= k < t.len() implies lt(x, #[trigger] t[k]) by {
            assert(t[k] == s[k]);
        }
        if j > 0 {
            assert(t[j - 1] == s[j - 1]);
        }
        lemma_insert_lt_at(t, x, lt, j);
        assert(t.take(j).push(x) + t.skip(j) + seq![s.last()] =~= s.take(j).push(x) + s.skip(j));
    }
}

pub open spec fn str_order() -> spec_fn(Seq<char>, Seq<char>) -> bool {
    |a: Seq<char>, b: Seq<char>| str_lt(a, b)
}

pub open spec fn path_order() -> spec_fn(Seq<char>, Seq<char>) -> bool {
    |a: Seq<char>, b: Seq<char>| path_lt(a, b)
}

/// Sort strings, by `str` order when `by_path` is false and by `Path` order
/// (component by component) when it is true; equal ones keep their order.
fn sort_strings(v: &Vec<String>, by_path: bool) -> (r: Vec<String>)
    ensures
        sv(r@) == sort_lt(sv(v@), if by_path { path_order() } else { str_order() }),
{
    let ghost lt = if by_path { path_order() } else { str_order() };
    let ghost vv = sv(v@);
    let mut out: Vec<String> = Vec::new();
    let mut i: usize = 0;
    proof {
        assert(sv(out@) =~= sort_lt(vv.take(0), lt));
    }
    while i < v.len()
        invariant
            0 <= i <= v.len(),
            vv == sv(v@),
            lt == (if by_path { path_order() } else { str_order() }),
            sv(out@) == sort_lt(vv.take(i as int), lt),
        decreases v.len() - i,
    {
        let x = v[i].clone();
        let xc = to_chars(x.as_str());
        proof {
            assert(vv[i as int] == x@);
            assert(vv.take(i + 1).drop_last() =~= vv.take(i as int));
            assert(vv.take(i + 1).last() == x@);
        }
        let mut j: usize = out.len();
        loop
            invariant
                0 <= j <= out@.len(),
                xc@ == x@,
                lt == (if by_path { path_order() } else { str_order() }),
                forall|k: int| j <= k < out@.len() ==> lt(x@, #[trigger] sv(out@)[k]),
            ensures
                0 <= j <= out@.len(),
                forall|k: int| j <= k < out@.len() ==> lt(x@, #[trigger] sv(out@)[k]),
                j == 0 || !lt(x@, sv(out@)[j - 1]),
            decreases j,
        {
            if j == 0 {
                break;
            }
            let oc = to_chars(out[j - 1].as_str());
            let less = if by_path { path_less(xc.as_slice(), oc.as_slice()) } else { str_less(xc.as_slice(), oc.as_slice()) };
            proof {
                assert(sv(out@)[j - 1] == out@[j - 1]@);
                assert(less == lt(x@, sv(out@)[j - 1]));
            }
            if !less {
                break;
            }
            j = j - 1;
        }
        proof {
            lemma_insert_lt_at(sv(out@), x@, lt, j as int);
        }
        let ghost ob = out@;
        let ghost xv = x@;
        out.insert(j, x);
        proof {
            assert(sv(out@) =~= sv(ob).take(j as int).push(xv) + sv(ob).skip(j as int));
        }
        i = i + 1;
    }
    proof {
        assert(vv.take(i as int) =~= vv);
    }
    out
}

/// The injected macro names of every text, each once, sorted.
pub open spec fn injected_defines_spec(texts: Seq<Seq<char>>) -> Seq<Seq<char>>
    decreases texts.len(),
{
    sort_lt(defines_of(texts), str_order())
}

/// The injected names of `texts`, in order of discovery.
pub open spec fn defines_of(texts: Seq<Seq<char>>) -> Seq<Seq<char>>
    decreases texts.len(),
{
    if texts.len() == 0 {
        seq![]
    } else {
        defines_from(texts.last(), 0, defines_of(texts.drop_last()))
    }
}

/// `#define NAME ${…}` macros the project's JS/TS injects into shaders at build
/// time, from the texts of the project's source files (the caller walks the
/// tree, skipping dependency and build directories and generated shader-string
/// files): the concrete names, each once, sorted.
pub fn injected_defines(texts: &Vec<String>) -> (r: Vec<String>)
    ensures
        sv(r@) == injected_defines_spec(sv(texts@)),
{
    let ghost tv = sv(texts@);
    let mut names: Vec<String> = Vec::new();
    let mut k: usize = 0;
    proof {
        assert(sv(names@) =~= defines_of(tv.take(0)));
    }
    while k < texts.len()
        invariant
            0 <= k <= texts.len(),
            tv == sv(texts@),
            sv(names@) == defines_of(tv.take(k as int)),
        decreases texts.len() - k,
    {
        proof {
            assert(tv.take(k + 1).drop_last() =~= tv.take(k as int));
            assert(tv.take(k + 1).last() == texts@[k as int]@);
        }
        collect_define_names(texts[k].as_str(), &mut names);
        k = k + 1;
    }
    proof {
        assert(tv.take(texts@.len() as int) =~= tv);
    }
    sort_strings(&names, false)
}

// ---------------------------------------------------------------------------
// Shared libraries
// ---------------------------------------------------------------------------

/// Whether `source` declares its own `main` — the universal shader-vs-library
/// signal: once its comments are blanked, some line reads `voidmain(` with its
/// whitespace removed.
pub open spec fn has_main_spec(source: Seq<char>) -> bool {
    crate::dialect::has_main_spec(source)
}

pub fn has_main(source: &str) -> (r: bool)
    ensures
        r == has_main_spec(source@),
{
    crate::dialect::has_main(source)
}

/// A control keyword, not a function name.
pub open spec fn is_keyword(n: Seq<char>) -> bool {
    n == "if"@ || n == "for"@ || n == "while"@ || n == "switch"@ || n == "return"@
}

/// The function a file-scope line defines: a line starting in column 0 shaped
/// `<returnType> ... <name>(`, both identifiers, the name no control keyword.
pub open spec fn fn_name_of(line: Seq<char>) -> Option<Seq<char>> {
    if line.len() == 0 || line[0] == ' ' || line[0] == '\t' {
        None
    } else {
        let paren = crate::text::index_of(line, '(');
        if paren >= line.len() {
            None
        } else {
            let toks = words(line.take(paren));
            if toks.len() < 2 {
                None
            } else if is_ident(toks[0]) && is_ident(toks.last()) && !is_keyword(toks.last()) {
                Some(toks.last())
            } else {
                None
            }
        }
    }
}

/// The names of the functions defined at file scope, line by line.
pub open spec fn fn_names(ls: Seq<Seq<char>>) -> Seq<Seq<char>>
    decreases ls.len(),
{
    if ls.len() == 0 {
        seq![]
    } else {
        match fn_name_of(ls.last()) {
            Some(n) => fn_names(ls.drop_last()).push(n),
            None => fn_names(ls.drop_last()),
        }
    }
}

fn is_keyword_exec(n: &[char]) -> (r: bool)
    ensures
        r == is_keyword(n@),
{
    crate::text::eq_chars(n, to_chars("if").as_slice()) || crate::text::eq_chars(n, to_chars("for").as_slice())
        || crate::text::eq_chars(n, to_chars("while").as_slice()) || crate::text::eq_chars(
        n,
        to_chars("switch").as_slice(),
    ) || crate::text::eq_chars(n, to_chars("return").as_slice())
}

fn fn_name_of_exec(line: &[char]) -> (r: Option<Vec<char>>)
    ensures
        match r {
            Some(n) => fn_name_of(line@) == Some(n@),
            None => fn_name_of(line@) is None,
        },
{
    if line.len() == 0 || line[0] == ' ' || line[0] == '\t' {
        return None;
    }
    let paren = crate::text::index_of_from(line, '(', 0);
    proof {
        assert(line@.skip(0) =~= line@);
    }
    if paren >= line.len() {
        return None;
    }
    let head = slice_vec(line, 0, paren);
    let toks = split_whitespace(head.as_slice());
    if toks.len() < 2 {
        return None;
    }
    let last = toks.len() - 1;
    proof {
        assert(vviews(toks@)[0] == toks@[0]@);
        assert(vviews(toks@).last() == toks@[last as int]@);
    }
    if is_ident_exec(toks[0].as_slice()) && is_ident_exec(toks[last].as_slice()) && !is_keyword_exec(
        toks[last].as_slice(),
    ) {
        Some(slice_vec(toks[last].as_slice(), 0, toks[last].len()))
    } else {
        None
    }
}

/// Names of functions defined at file scope: a line beginning in column 0
/// shaped `<returnType> <name>(`. Deliberately conservative — indented lines
/// (locals, bodies) and control keywords are ignored.
pub fn top_level_fn_names(source: &str) -> (r: Vec<String>)
    ensures
        sv(r@) == fn_names(lines(source@)),
{
    let ls = str_lines(source);
    let ghost lv = vviews(ls@);
    let mut out: Vec<String> = Vec::new();
    let mut k: usize = 0;
    proof {
        assert(sv(out@) =~= fn_names(lv.take(0)));
    }
    while k < ls.len()
        invariant
            0 <= k <= ls.len(),
            lv == vviews(ls@),
            lv == lines(source@),
            sv(out@) == fn_names(lv.take(k as int)),
        decreases ls.len() - k,
    {
        proof {
            assert(lv.take(k + 1).drop_last() =~= lv.take(k as int));
            assert(lv.take(k + 1).last() == ls@[k as int]@);
        }
        match fn_name_of_exec(ls[k].as_slice()) {
            Some(n) => {
                let s = crate::text::from_chars(n.as_slice());
                proof {
                    lemma_sv_push(out@, s);
                }
                out.push(s);
            },
            None => {},
        }
        k = k + 1;
    }
    proof {
        assert(lv.take(ls@.len() as int) =~= lv);
    }
    out
}

/// Some name of `fns` is in `seen`.
pub open spec fn overlaps(fns: Seq<Seq<char>>, seen: Seq<Seq<char>>) -> bool {
    exists|k: int| 0 <= k < fns.len() && seen.contains(#[trigger] fns[k])
}

/// Whether `p` (a path of the listing) is a candidate shared library: a `.glsl`
/// file other than the target, its stage (if its name has one) the wanted one,
/// readable, with no `main`.
pub open spec fn lib_candidate(
    p: Seq<char>,
    stage: Stage,
    target: Seq<char>,
    files: Seq<(Seq<char>, Seq<char>)>,
) -> Option<Seq<char>> {
    if crate::path::extension(p) != Some("glsl"@) || crate::path::same_file(p, target) {
        None
    } else if detect_stage_spec(p) is Some && detect_stage_spec(p) != Some(stage) {
        None
    } else {
        match lookup(files, p) {
            None => None,
            Some(content) => if has_main_spec(content) {
                None
            } else {
                Some(content)
            },
        }
    }
}

/// The libraries among `ps` (in order), each skipped when it redefines a
/// function an earlier library provides; with the function names seen.
pub open spec fn libs_of(
    ps: Seq<Seq<char>>,
    stage: Stage,
    target: Seq<char>,
    files: Seq<(Seq<char>, Seq<char>)>,
) -> (Seq<Seq<char>>, Seq<Seq<char>>)
    decreases ps.len(),
{
    if ps.len() == 0 {
        (seq![], seq![])
    } else {
        let (out, seen) = libs_of(ps.drop_last(), stage, target, files);
        let p = ps.last();
        match lib_candidate(p, stage, target, files) {
            None => (out, seen),
            Some(content) => {
                let fns = fn_names(lines(content));
                if overlaps(fns, seen) {
                    (out, seen)
                } else {
                    (out.push(p), seen + fns)
                }
            },
        }
    }
}

/// The shared libraries of a directory listing for `stage`: the listed paths in
/// path order, filtered as [`lib_candidate`] says and variant-deduped by
/// function name. The listing is sorted as `Path`s sort, component by
/// component; paths equal as `Path`s keep their listing order.
pub open spec fn shared_libraries_spec(
    entries: Seq<Seq<char>>,
    stage: Stage,
    target: Seq<char>,
    files: Seq<(Seq<char>, Seq<char>)>,
) -> Seq<Seq<char>> {
    libs_of(sort_lt(entries, path_order()), stage, target, files).0
}

fn overlaps_exec(fns: &Vec<String>, seen: &Vec<String>) -> (r: bool)
    ensures
        r == overlaps(sv(fns@), sv(seen@)),
{
    let mut k: usize = 0;
    while k < fns.len()
        invariant
            0 <= k <= fns.len(),
            forall|j: int| 0 <= j < k ==> !sv(seen@).contains(#[trigger] sv(fns@)[j]),
        decreases fns.len() - k,
    {
        proof {
            assert(sv(fns@)[k as int] == fns@[k as int]@);
        }
        if crate::text::strs_contain(seen, &fns[k]) {
            return true;
        }
        k = k + 1;
    }
    false
}

/// Sibling `.glsl` shared libraries (no `main`) that apply to `stage`, in the
/// order they should be spliced, variant-deduped by function name. `entries`
/// is the directory listing, `ws` holds the readable files' contents, `target`
/// (the shader under check) is excluded.
pub fn shared_libraries(entries: &Vec<String>, stage: Stage, target: &str, ws: &Workspace) -> (r: Vec<String>)
    ensures
        sv(r@) == shared_libraries_spec(sv(entries@), stage, target@, ws@.files),
{
    let ps = sort_strings(entries, true);
    let ghost pv = sv(ps@);
    let mut out: Vec<String> = Vec::new();
    let mut seen: Vec<String> = Vec::new();
    let mut k: usize = 0;
    let tc = to_chars(target);
    let glsl = to_chars("glsl");
    proof {
        assert((sv(out@), sv(seen@)) =~= libs_of(pv.take(0), stage, target@, ws@.files));
    }
    while k < ps.len()
        invariant
            0 <= k <= ps.len(),
            pv == sv(ps@),
            tc@ == target@,
            glsl@ == "glsl"@,
            (sv(out@), sv(seen@)) == libs_of(pv.take(k as int), stage, target@, ws@.files),
        decreases ps.len() - k,
    {
        proof {
            assert(pv.take(k + 1).drop_last() =~= pv.take(k as int));
            assert(pv.take(k + 1).last() == ps@[k as int]@);
        }
        let pc = to_chars(ps[k].as_str());
        let is_glsl = match crate::path::extension_exec(pc.as_slice()) {
            Some(e) => crate::text::eq_chars(e.as_slice(), glsl.as_slice()),
            None => false,
        };
        let wrong_stage = match detect_stage(ps[k].as_str()) {
            Some(s) => s != stage,
            None => false,
        };
        if is_glsl && !crate::path::same_file_exec(pc.as_slice(), tc.as_slice()) && !wrong_stage {
            match ws.read(pc.as_slice()) {
                Some(content) => {
                    if !has_main(content.as_str()) {
                        let fns = top_level_fn_names(content.as_str());
                        if !overlaps_exec(&fns, &seen) {
                            let ghost sb = sv(seen@);
                            let mut k2: usize = 0;
                            while k2 < fns.len()
                                invariant
                                    0 <= k2 <= fns.len(),
                                    sv(seen@) == sb + sv(fns@).take(k2 as int),
                                decreases fns.len() - k2,
                            {
                                proof {
                                    lemma_sv_push(seen@, fns@[k2 as int]);
                                    assert(sv(fns@).take(k2 + 1) =~= sv(fns@).take(k2 as int).push(fns@[k2 as int]@));
                                }
                                seen.push(fns[k2].clone());
                                proof {
                                    assert(sv(seen@) =~= sb + sv(fns@).take(k2 + 1));
                                }
                                k2 = k2 + 1;
                            }
                            proof {
                                assert(sv(fns@).take(fns@.len() as int) =~= sv(fns@));
                                lemma_sv_push(out@, ps@[k as int]);
                            }
                            out.push(ps[k].clone());
                        }
                    }
                },
                None => {},
            }
        }
        k = k + 1;
    }
    proof {
        assert(pv.take(ps@.len() as int) =~= pv);
    }
    out
}

// ---------------------------------------------------------------------------
// Laws
// ---------------------------------------------------------------------------

/// `lt` is a strict weak order: asymmetric, transitive, and whatever lies
/// between two ordered elements is ordered against one of them.
pub open spec fn strict_weak(lt: spec_fn(Seq<char>, Seq<char>) -> bool) -> bool {
    &&& forall|a: Seq<char>, b: Seq<char>| #[trigger] lt(a, b) ==> !lt(b, a)
    &&& forall|a: Seq<char>, b: Seq<char>, c: Seq<char>| #![trigger lt(a, b), lt(b, c)] lt(a, b) && lt(b, c) ==> lt(a, c)
    &&& forall|a: Seq<char>, b: Seq<char>, c: Seq<char>| #![trigger lt(a, c), lt(a, b)] #![trigger lt(a, c), lt(b, c)] lt(a, c) ==> lt(a, b) || lt(b, c)
}

/// No element sorts before one that precedes it.
pub open spec fn sorted_by(s: Seq<Seq<char>>, lt: spec_fn(Seq<char>, Seq<char>) -> bool) -> bool {
    forall|i: int, j: int| 0 <= i < j < s.len() ==> !lt(#[trigger] s[j], #[trigger] s[i])
}

proof fn lemma_insert_lt_sorted(s: Seq<Seq<char>>, x: Seq<char>, lt: spec_fn(Seq<char>, Seq<char>) -> bool)
    requires
        strict_weak(lt),
        sorted_by(s, lt),
    ensures
        sorted_by(insert_lt(s, x, lt), lt),
        insert_lt(s, x, lt).to_multiset() =~= s.to_multiset().insert(x),
    decreases s.len(),
{
    broadcast use vstd::seq_lib::group_to_multiset_ensures;

    if s.len() > 0 {
        let t = s.drop_last();
        let l = s.last();
        assert(s =~= t.push(l));
        if lt(x, l) {
            assert(sorted_by(t, lt)) by {
                assert forall|i: int, j: int| 0 <= i < j < t.len() implies !lt(#[trigger] t[j], #[trigger] t[i]) by {
                    assert(t[i] == s[i] && t[j] == s[j]);
                }
            }
            lemma_insert_lt_sorted(t, x, lt);
            let u = insert_lt(t, x, lt);
            let r = u.push(l);
            assert forall|i: int, j: int| 0 <= i < j < r.len() implies !lt(#[trigger] r[j], #[trigger] r[i]) by {
                if j == r.len() - 1 {
                    assert(r[i] == u[i]);
                    assert(u.to_multiset().count(u[i]) > 0);
                    if u[i] == x {
                        assert(!lt(l, x));
                    } else {
                        assert(t.to_multiset().count(u[i]) > 0);
                        assert(t.contains(u[i]));
                        let k = choose|k: int| 0 <= k < t.len() && t[k] == u[i];
                        assert(s[k] == t[k]);
                        assert(s[s.len() - 1] == l);
                        assert(!lt(s[s.len() - 1], s[k]));
                    }
                } else {
                    assert(r[i] == u[i] && r[j] == u[j]);
                }
            }
        } else {
            let r = s.push(x);
            assert forall|i: int, j: int| 0 <= i < j < r.len() implies !lt(#[trigger] r[j], #[trigger] r[i]) by {
                if j == r.len() - 1 {
                    assert(r[i] == s[i]);
                    if i < s.len() - 1 {
                        assert(!lt(s[s.len() - 1], s[i]));
                        if lt(x, s[i]) {
                            assert(lt(x, l) || lt(l, s[i]));
                        }
                    }
                } else {
                    assert(r[i] == s[i] && r[j] == s[j]);
                }
            }
        }
    }
}

/// Sorting under a strict weak order orders its input and keeps every element.
pub proof fn lemma_sort_lt_sorts(s: Seq<Seq<char>>, lt: spec_fn(Seq<char>, Seq<char>) -> bool)
    requires
        strict_weak(lt),
    ensures
        sorted_by(sort_lt(s, lt), lt),
        sort_lt(s, lt).to_multiset() =~= s.to_multiset(),
    decreases s.len(),
{
    broadcast use vstd::seq_lib::group_to_multiset_ensures;

    if s.len() > 0 {
        lemma_sort_lt_sorts(s.drop_last(), lt);
        lemma_insert_lt_sorted(sort_lt(s.drop_last(), lt), s.last(), lt);
        assert(s =~= s.drop_last().push(s.last()));
    }
}

proof fn lemma_str_lt_order(a: Seq<char>, b: Seq<char>, c: Seq<char>)
    ensures
        str_lt(a, b) ==> !str_lt(b, a),
        str_lt(a, b) && str_lt(b, c) ==> str_lt(a, c),
        a != b ==> str_lt(a, b) || str_lt(b, a),
    decreases a.len(),
{
    if a.len() > 0 && b.len() > 0 && c.len() > 0 {
        lemma_str_lt_order(a.drop_first(), b.drop_first(), c.drop_first());
    } else if a.len() > 0 && b.len() > 0 {
        lemma_str_lt_order(a.drop_first(), b.drop_first(), c);
    }
    if a.len() > 0 && b.len() > 0 && a[0] == b[0] && a.drop_first() == b.drop_first() {
        assert(a =~= seq![a[0]] + a.drop_first());
        assert(b =~= seq![b[0]] + b.drop_first());
    }
    if a.len() == 0 && b.len() == 0 {
        assert(a =~= b);
    }
}

proof fn lemma_str_order_weak()
    ensures
        strict_weak(str_order()),
{
    let lt = str_order();
    assert forall|a: Seq<char>, b: Seq<char>| #[trigger] lt(a, b) implies !lt(b, a) by {
        lemma_str_lt_order(a, b, b);
    }
    assert forall|a: Seq<char>, b: Seq<char>, c: Seq<char>| #[trigger] lt(a, b) && #[trigger] lt(b, c) implies lt(a, c) by {
        lemma_str_lt_order(a, b, c);
    }
    assert forall|a: Seq<char>, b: Seq<char>, c: Seq<char>| #![trigger lt(a, c), lt(a, b)] #![trigger lt(a, c), lt(b, c)] lt(a, c) implies lt(a, b) || lt(b, c) by {
        lemma_str_lt_order(a, b, c);
        lemma_str_lt_order(b, a, c);
        lemma_str_lt_order(a, c, b);
        lemma_str_lt_order(c, b, a);
        lemma_str_lt_order(b, c, a);
    }
}

proof fn lemma_path_order_weak()
    ensures
        strict_weak(path_order()),
{
    let lt = path_order();
    assert forall|a: Seq<char>, b: Seq<char>| #[trigger] lt(a, b) implies !lt(b, a) by {
        lemma_path_lt_asymmetric(a, b);
    }
    assert forall|a: Seq<char>, b: Seq<char>, c: Seq<char>| #[trigger] lt(a, b) && #[trigger] lt(b, c) implies lt(a, c) by {
        lemma_path_lt_transitive(a, b, c);
    }
    assert forall|a: Seq<char>, b: Seq<char>, c: Seq<char>| #![trigger lt(a, c), lt(a, b)] #![trigger lt(a, c), lt(b, c)] lt(a, c) implies lt(a, b) || lt(b, c) by {
        lemma_path_lt_between(a, b, c);
    }
}

proof fn lemma_set_add_distinct(names: Seq<Seq<char>>, n: Seq<char>)
    requires
        names.no_duplicates(),
    ensures
        set_add(names, n).no_duplicates(),
{
    if !names.contains(n) {
        assert forall|i: int, j: int| 0 <= i < names.push(n).len() && 0 <= j < names.push(n).len() && i != j implies names.push(n)[i] != names.push(n)[j] by {
            if i == names.len() {
                assert(names.push(n)[j] == names[j]);
            } else if j == names.len() {
                assert(names.push(n)[i] == names[i]);
            }
        }
    }
}

proof fn lemma_defines_from_distinct(text: Seq<char>, from: int, names: Seq<Seq<char>>)
    requires
        names.no_duplicates(),
    ensures
        defines_from(text, from, names).no_duplicates(),
    decreases text.len() - from,
{
    lemma_defines_step(text, from, names);
    lemma_find_from(text, define_kw(), from);
    if let Some(i) = find_from(text, define_kw(), from) {
        let next = match injected_name(text.skip(i + 8)) {
            Some(n) => set_add(names, n),
            None => names,
        };
        if let Some(n) = injected_name(text.skip(i + 8)) {
            lemma_set_add_distinct(names, n);
        }
        assert(define_kw().len() == 8) by {
            reveal_strlit("#define ");
        }
        lemma_defines_from_distinct(text, i + 8, next);
    }
}

proof fn lemma_defines_of_distinct(texts: Seq<Seq<char>>)
    ensures
        defines_of(texts).no_duplicates(),
    decreases texts.len(),
{
    if texts.len() > 0 {
        lemma_defines_of_distinct(texts.drop_last());
        lemma_defines_from_distinct(texts.last(), 0, defines_of(texts.drop_last()));
    }
}

/// The injected macro names are reported each once, in strictly increasing
/// `str` order, and are exactly the names found in the project's texts.
pub proof fn lemma_injected_defines_are_sorted_and_distinct(texts: Seq<Seq<char>>)
    ensures
        forall|i: int, j: int| 0 <= i < j < injected_defines_spec(texts).len() ==> str_lt(
            #[trigger] injected_defines_spec(texts)[i],
            #[trigger] injected_defines_spec(texts)[j],
        ),
        forall|n: Seq<char>| injected_defines_spec(texts).contains(n) <==> defines_of(texts).contains(n),
{
    broadcast use vstd::seq_lib::group_to_multiset_ensures;

    let d = defines_of(texts);
    let r = injected_defines_spec(texts);
    lemma_str_order_weak();
    lemma_sort_lt_sorts(d, str_order());
    lemma_defines_of_distinct(texts);
    d.lemma_multiset_has_no_duplicates();
    r.lemma_multiset_has_no_duplicates_conv();
    assert forall|n: Seq<char>| r.contains(n) <==> d.contains(n) by {
        assert(r.to_multiset().count(n) == d.to_multiset().count(n));
    }
    assert forall|i: int, j: int| 0 <= i < j < r.len() implies str_lt(#[trigger] r[i], #[trigger] r[j]) by {
        assert(!str_order()(r[j], r[i]));
        assert(r[i] != r[j]);
        lemma_str_lt_order(r[i], r[j], r[j]);
    }
}

/// A macro name: two or more characters, an ASCII capital first, and only
/// ASCII letters, digits and `_`.
pub open spec fn macro_name_shape(n: Seq<char>) -> bool {
    &&& n.len() >= 2
    &&& 'A' <= n[0] <= 'Z'
    &&& forall|k: int| 0 <= k < n.len() ==> is_ascii_alnum(#[trigger] n[k]) || n[k] == '_'
}

proof fn lemma_name_run_chars(s: Seq<char>)
    ensures
        forall|k: int| 0 <= k < name_run(s) ==> is_ascii_alnum(#[trigger] s[k]) || s[k] == '_',
    decreases s.len(),
{
    lemma_name_run(s);
    if s.len() > 0 && (is_ascii_alnum(s[0]) || s[0] == '_') {
        lemma_name_run_chars(s.drop_first());
        assert forall|k: int| 0 <= k < name_run(s) implies is_ascii_alnum(#[trigger] s[k]) || s[k] == '_' by {
            if k > 0 {
                assert(s[k] == s.drop_first()[k - 1]);
            }
        }
    }
}

proof fn lemma_injected_name_shape(rest: Seq<char>)
    ensures
        injected_name(rest) matches Some(n) ==> macro_name_shape(n),
{
    lemma_name_run(rest);
    lemma_name_run_chars(rest);
}

proof fn lemma_defines_from_shape(text: Seq<char>, from: int, names: Seq<Seq<char>>)
    requires
        forall|k: int| 0 <= k < names.len() ==> macro_name_shape(#[trigger] names[k]),
    ensures
        forall|k: int| 0 <= k < defines_from(text, from, names).len() ==> macro_name_shape(
            #[trigger] defines_from(text, from, names)[k],
        ),
    decreases text.len() - from,
{
    lemma_defines_step(text, from, names);
    lemma_find_from(text, define_kw(), from);
    if let Some(i) = find_from(text, define_kw(), from) {
        let next = match injected_name(text.skip(i + 8)) {
            Some(n) => set_add(names, n),
            None => names,
        };
        lemma_injected_name_shape(text.skip(i + 8));
        assert forall|k: int| 0 <= k < next.len() implies macro_name_shape(#[trigger] next[k]) by {
            if k < names.len() {
                assert(next[k] == names[k]);
            }
        }
        assert(define_kw().len() == 8) by {
            reveal_strlit("#define ");
        }
        lemma_defines_from_shape(text, i + 8, next);
    }
}

/// Every injected macro name reported has a macro's shape: two or more
/// characters, an ASCII capital first, then ASCII letters, digits and `_` —
/// a templated name such as `HAS_UNIFORM_${name}` is never one.
pub proof fn lemma_injected_defines_have_macro_shape(texts: Seq<Seq<char>>)
    ensures
        forall|i: int| 0 <= i < injected_defines_spec(texts).len() ==> macro_name_shape(
            #[trigger] injected_defines_spec(texts)[i],
        ),
    decreases texts.len(),
{
    broadcast use vstd::seq_lib::group_to_multiset_ensures;

    if texts.len() > 0 {
        lemma_injected_defines_have_macro_shape(texts.drop_last());
        let prev = defines_of(texts.drop_last());
        lemma_str_order_weak();
        lemma_sort_lt_sorts(prev, str_order());
        assert forall|k: int| 0 <= k < prev.len() implies macro_name_shape(#[trigger] prev[k]) by {
            let s = injected_defines_spec(texts.drop_last());
            assert(prev.to_multiset().count(prev[k]) > 0);
            assert(s.to_multiset().count(prev[k]) > 0);
            assert(s.contains(prev[k]));
            let j = choose|j: int| 0 <= j < s.len() && s[j] == prev[k];
        }
        lemma_defines_from_shape(texts.last(), 0, prev);
    }
    let d = defines_of(texts);
    let r = injected_defines_spec(texts);
    lemma_str_order_weak();
    lemma_sort_lt_sorts(d, str_order());
    assert forall|i: int| 0 <= i < r.len() implies macro_name_shape(#[trigger] r[i]) by {
        assert(r.to_multiset().count(r[i]) > 0);
        assert(d.to_multiset().count(r[i]) > 0);
        assert(d.contains(r[i]));
    }
}

/// The function names a listed library defines.
pub open spec fn lib_fns(p: Seq<char>, stage: Stage, target: Seq<char>, files: Seq<(Seq<char>, Seq<char>)>) -> Seq<Seq<char>> {
    match lib_candidate(p, stage, target, files) {
        Some(content) => fn_names(lines(content)),
        None => seq![],
    }
}

proof fn lemma_libs_of(ps: Seq<Seq<char>>, stage: Stage, target: Seq<char>, files: Seq<(Seq<char>, Seq<char>)>)
    ensures
        ({
            let (out, seen) = libs_of(ps, stage, target, files);
            &&& forall|i: int| 0 <= i < out.len() ==> ps.contains(#[trigger] out[i])
            &&& forall|i: int| 0 <= i < out.len() ==> lib_candidate(#[trigger] out[i], stage, target, files) is Some
            &&& forall|i: int, k: int| 0 <= i < out.len() && 0 <= k < lib_fns(out[i], stage, target, files).len()
                ==> seen.contains(#[trigger] lib_fns(#[trigger] out[i], stage, target, files)[k])
            &&& forall|i: int, j: int, k: int| 0 <= i < j < out.len() && 0 <= k < lib_fns(out[j], stage, target, files).len()
                ==> !lib_fns(#[trigger] out[i], stage, target, files).contains(#[trigger] lib_fns(#[trigger] out[j], stage, target, files)[k])
            &&& sorted_by(ps, path_order()) ==> sorted_by(out, path_order())
        }),
    decreases ps.len(),
{
    if ps.len() > 0 {
        let t = ps.drop_last();
        let p = ps.last();
        lemma_libs_of(t, stage, target, files);
        let (out0, seen0) = libs_of(t, stage, target, files);
        let (out, seen) = libs_of(ps, stage, target, files);
        assert forall|i: int| 0 <= i < out0.len() implies ps.contains(#[trigger] out0[i]) by {
            let k = choose|k: int| 0 <= k < t.len() && t[k] == out0[i];
            assert(ps[k] == t[k]);
        }
        if sorted_by(ps, path_order()) {
            assert forall|i: int, j: int| 0 <= i < j < t.len() implies !path_order()(#[trigger] t[j], #[trigger] t[i]) by {
                assert(t[i] == ps[i] && t[j] == ps[j]);
            }
        }
        if let Some(content) = lib_candidate(p, stage, target, files) {
            let fns = fn_names(lines(content));
            if !overlaps(fns, seen0) {
                assert(out == out0.push(p));
                assert(seen == seen0 + fns);
                assert(ps.contains(p)) by {
                    assert(ps[ps.len() - 1] == p);
                }
                assert forall|i: int, k: int| 0 <= i < out.len() && 0 <= k < lib_fns(out[i], stage, target, files).len()
                    implies seen.contains(#[trigger] lib_fns(#[trigger] out[i], stage, target, files)[k]) by {
                    let f = lib_fns(out[i], stage, target, files)[k];
                    if i < out0.len() {
                        assert(out[i] == out0[i]);
                        assert(seen0.contains(f));
                        let m = choose|m: int| 0 <= m < seen0.len() && seen0[m] == f;
                        assert(seen[m] == f);
                    } else {
                        assert(seen[seen0.len() + k] == fns[k]);
                    }
                }
                assert forall|i: int, j: int, k: int| 0 <= i < j < out.len() && 0 <= k < lib_fns(out[j], stage, target, files).len()
                    implies !lib_fns(#[trigger] out[i], stage, target, files).contains(#[trigger] lib_fns(#[trigger] out[j], stage, target, files)[k]) by {
                    assert(out[i] == out0[i]);
                    if j < out0.len() {
                        assert(out[j] == out0[j]);
                    } else {
                        let f = fns[k];
                        assert(lib_fns(out[j], stage, target, files) == fns);
                        if lib_fns(out0[i], stage, target, files).contains(f) {
                            let m = choose|m: int| 0 <= m < lib_fns(out0[i], stage, target, files).len() && lib_fns(out0[i], stage, target, files)[m] == f;
                            assert(seen0.contains(lib_fns(out0[i], stage, target, files)[m]));
                            assert(seen0.contains(fns[k]));
                        }
                    }
                }
                if sorted_by(ps, path_order()) {
                    assert forall|i: int, j: int| 0 <= i < j < out.len() implies !path_order()(#[trigger] out[j], #[trigger] out[i]) by {
                        assert(out[i] == out0[i]);
                        if j == out.len() - 1 {
                            let k = choose|k: int| 0 <= k < t.len() && t[k] == out0[i];
                            assert(ps[k] == out0[i]);
                            assert(ps[ps.len() - 1] == p);
                        } else {
                            assert(out[j] == out0[j]);
                        }
                    }
                }
            }
        }
    }
}

/// The shared libraries spliced for a shader are listed `.glsl` files other
/// than the shader, of its stage or stageless, readable and without a `main`,
/// in path order; and no two define a function of the same name — of
/// mutually exclusive variants, the first in path order wins.
pub proof fn lemma_shared_libraries_are_distinct_variants(
    entries: Seq<Seq<char>>,
    stage: Stage,
    target: Seq<char>,
    files: Seq<(Seq<char>, Seq<char>)>,
)
    ensures
        ({
            let r = shared_libraries_spec(entries, stage, target, files);
            &&& forall|i: int| 0 <= i < r.len() ==> entries.contains(#[trigger] r[i])
            &&& forall|i: int| 0 <= i < r.len() ==> lib_candidate(#[trigger] r[i], stage, target, files) is Some
            &&& sorted_by(r, path_order())
            &&& forall|i: int, j: int, k: int| 0 <= i < j < r.len() && 0 <= k < lib_fns(r[j], stage, target, files).len()
                ==> !lib_fns(#[trigger] r[i], stage, target, files).contains(#[trigger] lib_fns(#[trigger] r[j], stage, target, files)[k])
        }),
{
    broadcast use vstd::seq_lib::group_to_multiset_ensures;

    let ps = sort_lt(entries, path_order());
    lemma_path_order_weak();
    lemma_sort_lt_sorts(entries, path_order());
    lemma_libs_of(ps, stage, target, files);
    let r = shared_libraries_spec(entries, stage, target, files);
    assert forall|i: int| 0 <= i < r.len() implies entries.contains(#[trigger] r[i]) by {
        assert(ps.contains(r[i]));
        assert(ps.to_multiset().count(r[i]) > 0);
    }
}

} // verus!
