//! `#include` resolution — the one cross-file mechanism GLSL actually
//! standardizes.
//!
//! glslint feeds glslang over stdin, so glslang has no base directory to resolve
//! includes against. So glslint resolves them itself: it splices each included
//! file in place, recursively, mapping every spliced line back to its own file so
//! a diagnostic lands there.
//!
//! Resolution is lenient: any `#include "path"` / `#include <path>` whose target
//! is readable (relative to the including file) is spliced. An include that can't
//! be resolved is left verbatim, so glslang reports it at the include site. A file
//! that (transitively) includes itself is spliced once; the cycle is broken.

use vstd::prelude::*;
use crate::assemble::{Loc, LocModel, line_no, line_no_spec};
use crate::path::{join, join_exec, normalize, normalize_exec, parent_or_dot, parent_or_dot_exec, path_key, same_file, same_file_exec};
use crate::text::{
    from_chars, index_of, index_of_from, lines, lemma_sv_push, slice_vec, starts_with, starts_with_exec, str_lines,
    sv, to_chars, trim_start, trim_start_vec, vviews,
};
use crate::workspace::{Workspace, lemma_lookup_is_a_file, line_counts_fit, lookup};

verus! {

/// The path inside a `#include "path"` or `#include <path>` line (a space or tab
/// must follow `#include`), or `None` if the line isn't an include directive.
pub open spec fn parse_spec(line: Seq<char>) -> Option<Seq<char>> {
    let t = trim_start(line);
    if !starts_with(t, "#include"@) {
        None
    } else {
        let rest = t.skip(8);
        if !(rest.len() > 0 && (rest[0] == ' ' || rest[0] == '\t')) {
            None
        } else {
            let r2 = trim_start(rest);
            if r2.len() == 0 || !(r2[0] == '"' || r2[0] == '<') {
                None
            } else {
                let close = if r2[0] == '"' {
                    '"'
                } else {
                    '>'
                };
                let inner = r2.skip(1);
                let end = index_of(inner, close);
                if end < inner.len() {
                    Some(inner.take(end))
                } else {
                    None
                }
            }
        }
    }
}

/// The path inside a `#include "path"` or `#include <path>` line, or `None` if
/// the line isn't an include directive.
pub fn parse(line: &str) -> (r: Option<String>)
    ensures
        crate::text::ov(r) == parse_spec(line@),
{
    let lc = to_chars(line);
    let t = trim_start_vec(lc.as_slice());
    proof {
        reveal_strlit("#include");
    }
    if !starts_with_exec(t.as_slice(), to_chars("#include").as_slice()) {
        return None;
    }
    let rest = slice_vec(t.as_slice(), 8, t.len());
    proof {
        assert(rest@ =~= t@.skip(8));
    }
    if !(rest.len() > 0 && (rest[0] == ' ' || rest[0] == '\t')) {
        return None;
    }
    let r2 = trim_start_vec(rest.as_slice());
    if r2.len() == 0 || !(r2[0] == '"' || r2[0] == '<') {
        return None;
    }
    let close = if r2[0] == '"' { '"' } else { '>' };
    let inner = slice_vec(r2.as_slice(), 1, r2.len());
    proof {
        assert(inner@ =~= r2@.skip(1));
        assert(inner@.skip(0) =~= inner@);
    }
    let end = index_of_from(inner.as_slice(), close, 0);
    if end < inner.len() {
        let p = slice_vec(inner.as_slice(), 0, end);
        Some(from_chars(p.as_slice()))
    } else {
        None
    }
}

/// The readable files of `files`, each by what identifies it.
pub open spec fn keys(files: Seq<(Seq<char>, Seq<char>)>) -> Set<(bool, Seq<Seq<char>>)> {
    files.map_values(|e: (Seq<char>, Seq<char>)| path_key(e.0)).to_set()
}

/// The files on the include stack `seen`.
pub open spec fn stack_keys(seen: Seq<Seq<char>>) -> Set<(bool, Seq<Seq<char>>)> {
    seen.map_values(|p: Seq<char>| path_key(p)).to_set()
}

/// `p` names a file on the include stack `seen`.
pub open spec fn on_stack(seen: Seq<Seq<char>>, p: Seq<char>) -> bool {
    exists|i: int| 0 <= i < seen.len() && same_file(#[trigger] seen[i], p)
}

/// How many readable files are not on the include stack `seen`.
pub open spec fn unseen(files: Seq<(Seq<char>, Seq<char>)>, seen: Seq<Seq<char>>) -> nat {
    keys(files).difference(stack_keys(seen)).len()
}

pub proof fn lemma_lookup_key(files: Seq<(Seq<char>, Seq<char>)>, p: Seq<char>)
    requires
        lookup(files, p) is Some,
    ensures
        keys(files).contains(path_key(p)),
    decreases files.len(),
{
    if same_file(files[0].0, p) {
        assert(files.map_values(|e: (Seq<char>, Seq<char>)| path_key(e.0))[0] == path_key(p));
    } else {
        lemma_lookup_key(files.drop_first(), p);
        let k = files.drop_first().map_values(|e: (Seq<char>, Seq<char>)| path_key(e.0));
        let j = choose|j: int| 0 <= j < k.len() && k[j] == path_key(p);
        assert(files.map_values(|e: (Seq<char>, Seq<char>)| path_key(e.0))[j + 1] == path_key(p));
    }
}

/// Pushing a readable file that is not on the stack leaves fewer unseen.
pub proof fn lemma_unseen_push(files: Seq<(Seq<char>, Seq<char>)>, seen: Seq<Seq<char>>, p: Seq<char>)
    requires
        lookup(files, p) is Some,
        !on_stack(seen, p),
    ensures
        unseen(files, seen.push(p)) < unseen(files, seen),
{
    broadcast use vstd::set::group_set_axioms, vstd::seq_lib::seq_to_set_is_finite;
    lemma_lookup_key(files, p);
    let k = keys(files);
    let d = k.difference(stack_keys(seen));
    assert(k.finite());
    vstd::set_lib::lemma_len_subset(d, k);
    let m = seen.map_values(|q: Seq<char>| path_key(q));
    let m2 = seen.push(p).map_values(|q: Seq<char>| path_key(q));
    assert(m2 =~= m.push(path_key(p)));
    assert forall|a: (bool, Seq<Seq<char>>)| m2.contains(a) <==> m.contains(a) || a == path_key(p) by {
        if m2.contains(a) {
            let i = choose|i: int| 0 <= i < m2.len() && m2[i] == a;
            if i < m.len() {
                assert(m[i] == a);
            }
        }
        if m.contains(a) {
            let i = choose|i: int| 0 <= i < m.len() && m[i] == a;
            assert(m2[i] == a);
        }
        if a == path_key(p) {
            assert(m2[m.len() as int] == a);
        }
    }
    assert(stack_keys(seen.push(p)) =~= stack_keys(seen).insert(path_key(p)));
    assert(!stack_keys(seen).contains(path_key(p))) by {
        if m.contains(path_key(p)) {
            let i = choose|i: int| 0 <= i < m.len() && m[i] == path_key(p);
            assert(same_file(seen[i], p));
        }
    }
    assert(k.difference(stack_keys(seen.push(p))) =~= d.remove(path_key(p)));
    assert(d.contains(path_key(p)));
}

/// The lines of an included file, each replaced by its own expansion when it is
/// a resolvable include, else kept and mapped to `(canon, its line)`.
pub open spec fn expand_lines(
    ls: Seq<Seq<char>>,
    inc_dir: Seq<char>,
    seen: Seq<Seq<char>>,
    canon: Seq<char>,
    files: Seq<(Seq<char>, Seq<char>)>,
) -> Seq<(Seq<char>, LocModel)>
    decreases unseen(files, seen), ls.len(),
{
    if ls.len() == 0 {
        seq![]
    } else {
        let prev = expand_lines(ls.drop_last(), inc_dir, seen, canon, files);
        let l = ls.last();
        match expand_spec(l, inc_dir, seen, files) {
            Some(nested) => prev + nested,
            None => prev.push((l, LocModel { path: canon, line: line_no_spec(ls.len() - 1) })),
        }
    }
}

/// If `line` is an `#include` that resolves to a readable file (relative to
/// `dir`), its lines — recursively expanded, each mapped to its own file under
/// that file's plainly spelled path ([`normalize`]); a file already on the
/// include stack `seen` (however its path is spelled) expands to nothing.
/// `None` for a non-include line or an unresolvable include.
pub open spec fn expand_spec(
    line: Seq<char>,
    dir: Seq<char>,
    seen: Seq<Seq<char>>,
    files: Seq<(Seq<char>, Seq<char>)>,
) -> Option<Seq<(Seq<char>, LocModel)>>
    decreases unseen(files, seen), 0nat,
{
    match parse_spec(line) {
        None => None,
        Some(rel) => {
            let canon = normalize(join(dir, rel));
            if on_stack(seen, canon) {
                Some(seq![])
            } else {
                match lookup(files, canon) {
                    None => None,
                    Some(content) => {
                        proof {
                            lemma_unseen_push(files, seen, canon);
                        }
                        Some(expand_lines(lines(content), parent_or_dot(canon), seen.push(canon), canon, files))
                    },
                }
            }
        },
    }
}

/// Whether `p` names a file on the include stack `seen`.
fn on_stack_exec(seen: &Vec<String>, p: &str) -> (r: bool)
    ensures
        r == on_stack(sv(seen@), p@),
{
    let pc = to_chars(p);
    let mut i: usize = 0;
    while i < seen.len()
        invariant
            0 <= i <= seen.len(),
            pc@ == p@,
            forall|j: int| 0 <= j < i ==> !same_file(#[trigger] sv(seen@)[j], p@),
        decreases seen.len() - i,
    {
        proof {
            assert(sv(seen@)[i as int] == seen@[i as int]@);
        }
        if same_file_exec(to_chars(seen[i].as_str()).as_slice(), pc.as_slice()) {
            return true;
        }
        i = i + 1;
    }
    false
}

pub open spec fn spliced_view(v: Seq<(String, Loc)>) -> Seq<(Seq<char>, LocModel)> {
    v.map_values(|e: (String, Loc)| (e.0@, e.1@))
}

/// If `line` is an `#include` that resolves to a readable file (relative to
/// `dir`), its lines — recursively expanded, each mapped to its own file. `None`
/// for a non-include line or an unresolvable include (left verbatim by the
/// caller). `seen` is the current include stack, for cycle-breaking; it is the
/// same after the call.
pub fn expand(line: &str, dir: &str, seen: &mut Vec<String>, ws: &Workspace) -> (r: Option<Vec<(String, Loc)>>)
    ensures
        sv(final(seen)@) == sv(old(seen)@),
        match r {
            Some(v) => expand_spec(line@, dir@, sv(old(seen)@), ws@.files) == Some(spliced_view(v@)),
            None => expand_spec(line@, dir@, sv(old(seen)@), ws@.files) is None,
        },
    decreases unseen(ws@.files, sv(old(seen)@)),
{
    let rel = match parse(line) {
        Some(r) => r,
        None => return None,
    };
    let joined = join_exec(dir, rel.as_str());
    let canon = normalize_exec(joined.as_str());
    if on_stack_exec(seen, canon.as_str()) {
        let out: Vec<(String, Loc)> = Vec::new();
        proof {
            assert(spliced_view(out@) =~= Seq::<(Seq<char>, LocModel)>::empty());
        }
        return Some(out);
    }
    let cc = to_chars(canon.as_str());
    let content = match ws.read(cc.as_slice()) {
        Some(c) => c,
        None => return None,
    };
    let inc_dir = parent_or_dot_exec(canon.as_str());
    let ghost s0 = sv(seen@);
    proof {
        lemma_unseen_push(ws@.files, s0, canon@);
        lemma_sv_push(seen@, canon);
    }
    seen.push(canon.clone());
    let ghost s1 = sv(seen@);
    let ls = str_lines(content.as_str());
    let ghost lv = vviews(ls@);
    let mut out: Vec<(String, Loc)> = Vec::new();
    let mut i: usize = 0;
    proof {
        assert(spliced_view(out@) =~= expand_lines(lv.take(0), inc_dir@, s1, canon@, ws@.files));
    }
    while i < ls.len()
        invariant
            0 <= i <= ls.len(),
            lv == vviews(ls@),
            s1 == s0.push(canon@),
            sv(seen@) == s1,
            unseen(ws@.files, s1) < unseen(ws@.files, s0),
            s0 == sv(old(seen)@),
            spliced_view(out@) == expand_lines(lv.take(i as int), inc_dir@, s1, canon@, ws@.files),
        decreases ls.len() - i,
    {
        proof {
            assert(lv.take(i + 1).drop_last() =~= lv.take(i as int));
            assert(lv.take(i + 1).last() == ls@[i as int]@);
        }
        let l = from_chars(ls[i].as_slice());
        match expand(l.as_str(), inc_dir.as_str(), seen, ws) {
            Some(nested) => {
                let ghost ob = spliced_view(out@);
                let ghost nv = spliced_view(nested@);
                let mut nested = nested;
                out.append(&mut nested);
                proof {
                    assert(spliced_view(out@) =~= ob + nv);
                }
            },
            None => {
                let ghost ob = spliced_view(out@);
                let entry = (l, Loc { path: canon.clone(), line: line_no(i) });
                let ghost ev = (entry.0@, entry.1@);
                out.push(entry);
                proof {
                    assert(spliced_view(out@) =~= ob.push(ev));
                }
            },
        }
        i = i + 1;
    }
    proof {
        assert(lv.take(ls@.len() as int) =~= lv);
    }
    let ghost before_pop = seen@;
    proof {
        assert(sv(before_pop).len() == before_pop.len());
        assert(before_pop.len() > 0);
    }
    seen.pop();
    proof {
        assert(seen@ =~= before_pop.drop_last());
        assert(sv(seen@) =~= sv(before_pop).drop_last());
        assert(sv(seen@) =~= s0);
    }
    Some(out)
}

// ---------------------------------------------------------------------------
// Laws
// ---------------------------------------------------------------------------

/// `e` is line `e.1.line` of the readable file `e.1.path`, verbatim.
pub open spec fn spliced_from_its_file(e: (Seq<char>, LocModel), files: Seq<(Seq<char>, Seq<char>)>) -> bool {
    match lookup(files, e.1.path) {
        Some(c) => 1 <= e.1.line <= lines(c).len() && e.0 == lines(c)[e.1.line - 1],
        None => false,
    }
}

proof fn lemma_expand_lines_faithful(
    ls: Seq<Seq<char>>,
    inc_dir: Seq<char>,
    seen: Seq<Seq<char>>,
    canon: Seq<char>,
    files: Seq<(Seq<char>, Seq<char>)>,
    content: Seq<char>,
)
    requires
        line_counts_fit(files),
        seen.len() > 0,
        seen.last() == canon,
        !on_stack(seen.drop_last(), canon),
        lookup(files, canon) == Some(content),
        ls.len() <= lines(content).len(),
        forall|i: int| 0 <= i < ls.len() ==> ls[i] == lines(content)[i],
    ensures
        forall|k: int| 0 <= k < expand_lines(ls, inc_dir, seen, canon, files).len() ==> {
            let e = #[trigger] expand_lines(ls, inc_dir, seen, canon, files)[k];
            !on_stack(seen.drop_last(), e.1.path) && spliced_from_its_file(e, files)
        },
    decreases unseen(files, seen), ls.len(),
{
    if ls.len() > 0 {
        let t = ls.drop_last();
        lemma_expand_lines_faithful(t, inc_dir, seen, canon, files, content);
        let l = ls.last();
        lemma_expand_faithful(l, inc_dir, seen, files);
        lemma_lookup_is_a_file(files, canon);
        let prev = expand_lines(t, inc_dir, seen, canon, files);
        let r = expand_lines(ls, inc_dir, seen, canon, files);
        match expand_spec(l, inc_dir, seen, files) {
            Some(nested) => {
                assert forall|k: int| 0 <= k < r.len() implies {
                    let e = #[trigger] r[k];
                    !on_stack(seen.drop_last(), e.1.path) && spliced_from_its_file(e, files)
                } by {
                    if k < prev.len() {
                        assert(r[k] == prev[k]);
                    } else {
                        let e = nested[k - prev.len()];
                        assert(r[k] == e);
                        assert(!on_stack(seen, e.1.path));
                        if on_stack(seen.drop_last(), e.1.path) {
                            let i = choose|i: int| 0 <= i < seen.drop_last().len() && same_file(#[trigger] seen.drop_last()[i], e.1.path);
                            assert(seen[i] == seen.drop_last()[i]);
                        }
                    }
                }
            },
            None => {
                let i = ls.len() - 1;
                assert(line_no_spec(i) == i + 1);
                assert(r == prev.push((l, LocModel { path: canon, line: line_no_spec(i) })));
                assert(l == lines(content)[i]);
            },
        }
    }
}

proof fn lemma_expand_faithful(line: Seq<char>, dir: Seq<char>, seen: Seq<Seq<char>>, files: Seq<(Seq<char>, Seq<char>)>)
    requires
        line_counts_fit(files),
    ensures
        expand_spec(line, dir, seen, files) matches Some(out) ==> forall|k: int| 0 <= k < out.len() ==> {
            let e = #[trigger] out[k];
            !on_stack(seen, e.1.path) && spliced_from_its_file(e, files)
        },
    decreases unseen(files, seen), 0nat,
{
    if let Some(rel) = parse_spec(line) {
        let canon = normalize(join(dir, rel));
        if !on_stack(seen, canon) {
            if let Some(content) = lookup(files, canon) {
                lemma_unseen_push(files, seen, canon);
                let s2 = seen.push(canon);
                assert(s2.drop_last() =~= seen);
                lemma_expand_lines_faithful(lines(content), parent_or_dot(canon), s2, canon, files, content);
                let out = expand_lines(lines(content), parent_or_dot(canon), s2, canon, files);
                assert(expand_spec(line, dir, seen, files) == Some(out));
                assert forall|k: int| 0 <= k < out.len() implies {
                    let e = #[trigger] out[k];
                    !on_stack(seen, e.1.path) && spliced_from_its_file(e, files)
                } by {
                    assert(!on_stack(s2.drop_last(), out[k].1.path));
                }
            }
        }
    }
}

/// Splicing an `#include` maps every spliced line to its own file: each is, verbatim,
/// the line its location names in that readable file. And no spliced line comes
/// from a file already on the include stack (however its path is spelled), so a
/// file that (transitively) includes itself is spliced once and the cycle is
/// broken.
pub proof fn lemma_spliced_lines_come_from_their_files(
    line: Seq<char>,
    dir: Seq<char>,
    seen: Seq<Seq<char>>,
    files: Seq<(Seq<char>, Seq<char>)>,
)
    requires
        line_counts_fit(files),
    ensures
        expand_spec(line, dir, seen, files) matches Some(out) ==> forall|k: int| 0 <= k < out.len() ==> {
            let e = #[trigger] out[k];
            !on_stack(seen, e.1.path) && spliced_from_its_file(e, files)
        },
{
    lemma_expand_faithful(line, dir, seen, files);
}

} // verus!
