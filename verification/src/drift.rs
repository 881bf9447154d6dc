//! Cross-check a module's GLSL UBO block against the `uniformTypes` declared for
//! it in JS/TS. luma keeps these two in sync by hand, and nothing else can see
//! both sides at once. This warns when they drift: a member on one side but not
//! the other, or a type mismatch.
//!
//! It is deliberately conservative — a heuristic scan of the JS, not a parser. If
//! it can't confidently read the `uniformTypes` object, it stays silent rather
//! than risk a false positive.

use vstd::prelude::*;
use crate::derive::{bracket_span, bracket_span_spec, const_from, find_decl};
use crate::diagnostics::{Diag, DiagModel, Severity, diags_view, push_diag};
use crate::path::{file_name, file_name_exec};
use crate::text::{
    contains, contains_exec, ends_with, ends_with_exec, extend_chars, find_from, find_from_exec, from_chars,
    index_of, index_of_from, is_alphanumeric, lines, slice_vec, split_whitespace, starts_with, starts_with_exec,
    str_lines, to_chars, trim, trim_vec, unicode_alphanumeric, vviews, words,
};

verus! {

/// A drift warning.
pub open spec fn warn_spec(path: Seq<char>, line: u32, col: u32, len: u32, message: Seq<char>) -> DiagModel {
    DiagModel { path, line, col, len, severity: Severity::Warning, message, source: "drift"@ }
}

fn warn(path: &str, line: u32, col: u32, len: u32, message: Vec<char>) -> (r: Diag)
    ensures
        r@ == warn_spec(path@, line, col, len, message@),
{
    Diag {
        path: path.to_owned(),
        line,
        col,
        len,
        severity: Severity::Warning,
        message: from_chars(message.as_slice()),
        source: "drift".to_owned(),
    }
}

/// The text before the first `[`.
pub open spec fn before_bracket(s: Seq<char>) -> Seq<char> {
    s.take(index_of(s, '['))
}

/// The members of the lines `i..` of a block's body (`inside` once the first
/// `uniform … {` line has been passed), up to its `}` line: each
/// `<type> <name>;` line as `(name, type, line, column of the name)`, the
/// column counting bytes (one past the UTF-8 length of the text before the
/// name's first occurrence, `1` when it does not occur).
pub open spec fn members_scan(
    ls: Seq<Seq<char>>,
    i: int,
    inside: bool,
    acc: Seq<(Seq<char>, Seq<char>, u32, u32)>,
) -> Seq<(Seq<char>, Seq<char>, u32, u32)>
    decreases ls.len() - i,
{
    if i < 0 || i >= ls.len() {
        acc
    } else {
        let t = trim(ls[i]);
        if !inside {
            members_scan(ls, i + 1, contains(t, "uniform"@) && ends_with(t, "{"@), acc)
        } else if starts_with(t, "}"@) {
            acc
        } else if ends_with(t, ";"@) && words(t.drop_last()).len() == 2 {
            let ws = words(t.drop_last());
            let name = before_bracket(ws[1]);
            let col = match find_from(ls[i], name, 0) {
                Some(b) => crate::text::utf8_len(ls[i].take(b)) + 1,
                None => 1,
            };
            members_scan(ls, i + 1, true, acc.push((name, ws[0], (i + 1) as u32, col as u32)))
        } else {
            members_scan(ls, i + 1, true, acc)
        }
    }
}

/// Members of the first `uniform … { … }` block: `(name, glsl_type, line, col)`.
pub open spec fn glsl_members_spec(source: Seq<char>) -> Seq<(Seq<char>, Seq<char>, u32, u32)> {
    members_scan(lines(source), 0, false, seq![])
}

pub open spec fn members_view(v: Seq<(String, String, u32, u32)>) -> Seq<(Seq<char>, Seq<char>, u32, u32)> {
    v.map_values(|e: (String, String, u32, u32)| (e.0@, e.1@, e.2, e.3))
}

fn glsl_members(source: &str) -> (r: Vec<(String, String, u32, u32)>)
    requires
        crate::text::lines_fit(source@),
    ensures
        members_view(r@) == glsl_members_spec(source@),
{
    let ls = str_lines(source);
    let ghost lv = vviews(ls@);
    let mut out: Vec<(String, String, u32, u32)> = Vec::new();
    let mut inside = false;
    let mut i: usize = 0;
    proof {
        assert(members_view(out@) =~= Seq::<(Seq<char>, Seq<char>, u32, u32)>::empty());
    }
    while i < ls.len()
        invariant
            0 <= i <= ls.len(),
            lv == vviews(ls@),
            lv == lines(source@),
            lv.len() < u32::MAX,
            forall|j: int| 0 <= j < lv.len() ==> (#[trigger] lv[j]).len() < u32::MAX,
            glsl_members_spec(source@) == members_scan(lv, i as int, inside, members_view(out@)),
        decreases ls.len() - i,
    {
        proof {
            assert(lv[i as int] == ls@[i as int]@);
        }
        let t = trim_vec(ls[i].as_slice());
        if !inside {
            inside = contains_exec(t.as_slice(), to_chars("uniform").as_slice()) && ends_with_exec(
                t.as_slice(),
                to_chars("{").as_slice(),
            );
        } else if starts_with_exec(t.as_slice(), to_chars("}").as_slice()) {
            return out;
        } else if ends_with_exec(t.as_slice(), to_chars(";").as_slice()) {
            proof {
                reveal_strlit(";");
            }
            let body = slice_vec(t.as_slice(), 0, t.len() - 1);
            proof {
                assert(body@ =~= t@.drop_last());
            }
            let ws = split_whitespace(body.as_slice());
            if ws.len() == 2 {
                proof {
                    assert(vviews(ws@)[0] == ws@[0]@);
                    assert(vviews(ws@)[1] == ws@[1]@);
                }
                let k = index_of_from(ws[1].as_slice(), '[', 0);
                proof {
                    assert(ws@[1]@.skip(0) =~= ws@[1]@);
                }
                let name = slice_vec(ws[1].as_slice(), 0, k);
                let col: u32 = match find_from_exec(ls[i].as_slice(), name.as_slice(), 0) {
                    Some(b) => {
                        proof {
                            assert(b + name@.len() <= lv[i as int].len());
                        }
                        let bytes = crate::text::utf8_len_exec(ls[i].as_slice(), b);
                        #[verifier::truncate]
                        ((bytes + 1) as u32)
                    },
                    None => 1,
                };
                let ghost ob = out@;
                let entry = (
                    from_chars(name.as_slice()),
                    from_chars(ws[0].as_slice()),
                    (i as u32) + 1,
                    col,
                );
                out.push(entry);
                proof {
                    assert(members_view(out@) =~= members_view(ob).push(
                        (name@, ws@[0]@, (i + 1) as u32, col),
                    ));
                }
            }
        }
        i = i + 1;
    }
    out
}

/// `  uMin: 'f32',` -> `("uMin", "f32")`: a key of alphanumerics or `_` before
/// the first `:`, and the first single-quoted text after it.
pub open spec fn parse_pair_spec(line: Seq<char>) -> Option<(Seq<char>, Seq<char>)> {
    let k = index_of(line, ':');
    if k >= line.len() {
        None
    } else {
        let key = trim(line.take(k));
        let rest = line.skip(k + 1);
        if key.len() == 0 || !(forall|j: int| 0 <= j < key.len() ==> unicode_alphanumeric(#[trigger] key[j]) || key[j] == '_') {
            None
        } else {
            let q1 = index_of(rest, '\'');
            if q1 >= rest.len() {
                None
            } else {
                let after = rest.skip(q1 + 1);
                let q2 = index_of(after, '\'');
                if q2 >= after.len() {
                    None
                } else {
                    Some((key, after.take(q2)))
                }
            }
        }
    }
}

fn parse_pair(line: &[char]) -> (r: Option<(Vec<char>, Vec<char>)>)
    ensures
        match r {
            Some((k, v)) => parse_pair_spec(line@) == Some((k@, v@)),
            None => parse_pair_spec(line@) is None,
        },
{
    let k = index_of_from(line, ':', 0);
    proof {
        assert(line@.skip(0) =~= line@);
    }
    if k >= line.len() {
        return None;
    }
    let head = slice_vec(line, 0, k);
    let key = trim_vec(head.as_slice());
    let rest = slice_vec(line, k + 1, line.len());
    proof {
        assert(head@ =~= line@.take(k as int));
        assert(rest@ =~= line@.skip(k + 1));
    }
    if key.len() == 0 {
        return None;
    }
    let mut j: usize = 0;
    while j < key.len()
        invariant
            0 <= j <= key.len(),
            k < line@.len(),
            k == crate::text::index_of(line@, ':'),
            key@ == trim(line@.take(k as int)),
            key@.len() > 0,
            forall|m: int| 0 <= m < j ==> unicode_alphanumeric(#[trigger] key@[m]) || key@[m] == '_',
        decreases key.len() - j,
    {
        if !(is_alphanumeric(key[j]) || key[j] == '_') {
            proof {
                assert(!(unicode_alphanumeric(key@[j as int]) || key@[j as int] == '_'));
            }
            return None;
        }
        j = j + 1;
    }
    let q1 = index_of_from(rest.as_slice(), '\'', 0);
    proof {
        assert(rest@.skip(0) =~= rest@);
    }
    if q1 >= rest.len() {
        return None;
    }
    let after = slice_vec(rest.as_slice(), q1 + 1, rest.len());
    proof {
        assert(after@ =~= rest@.skip(q1 + 1));
        assert(after@.skip(0) =~= after@);
    }
    let q2 = index_of_from(after.as_slice(), '\'', 0);
    if q2 >= after.len() {
        return None;
    }
    Some((key, slice_vec(after.as_slice(), 0, q2)))
}

/// The pairs read from `ls`, in order.
pub open spec fn pairs_of(ls: Seq<Seq<char>>) -> Seq<(Seq<char>, Seq<char>)>
    decreases ls.len(),
{
    if ls.len() == 0 {
        seq![]
    } else {
        match parse_pair_spec(ls.last()) {
            Some(p) => pairs_of(ls.drop_last()).push(p),
            None => pairs_of(ls.drop_last()),
        }
    }
}

/// Byte offset just past a `const|let|var <name>` declaration, trying the
/// keywords in that order.
pub open spec fn decl_offset_spec(js: Seq<char>, name: Seq<char>) -> Option<int> {
    match const_from(js, "const "@ + name, 0) {
        Some(a) => Some(a),
        None => match const_from(js, "let "@ + name, 0) {
            Some(a) => Some(a),
            None => const_from(js, "var "@ + name, 0),
        },
    }
}

fn decl_offset(js: &[char], name: &[char]) -> (r: Option<usize>)
    ensures
        match r {
            Some(a) => decl_offset_spec(js@, name@) == Some(a as int),
            None => decl_offset_spec(js@, name@) is None,
        },
{
    let mut n1 = to_chars("const ");
    extend_chars(&mut n1, name);
    match find_decl(js, n1.as_slice()) {
        Some(a) => {
            return Some(a);
        },
        None => {},
    }
    let mut n2 = to_chars("let ");
    extend_chars(&mut n2, name);
    match find_decl(js, n2.as_slice()) {
        Some(a) => {
            return Some(a);
        },
        None => {},
    }
    let mut n3 = to_chars("var ");
    extend_chars(&mut n3, name);
    find_decl(js, n3.as_slice())
}

/// The `{ key: 'type', … }` of the `uniformTypes` after the JS declaration named
/// `module_name`. `None` if it can't be located confidently, or holds no pair.
pub open spec fn extract_uniform_types_spec(js: Seq<char>, module_name: Seq<char>) -> Option<
    Seq<(Seq<char>, Seq<char>)>,
> {
    match decl_offset_spec(js, module_name) {
        None => None,
        Some(decl) => match find_from(js, "uniformTypes"@, decl) {
            None => None,
            Some(kw) => match find_from(js, seq!['{'], kw) {
                None => None,
                Some(open) => match bracket_span_spec(js, open, '{', '}') {
                    None => None,
                    Some((inner, _)) => {
                        let pairs = pairs_of(lines(inner));
                        if pairs.len() > 0 {
                            Some(pairs)
                        } else {
                            None
                        }
                    },
                },
            },
        },
    }
}

pub open spec fn pairs_view(v: Seq<(Vec<char>, Vec<char>)>) -> Seq<(Seq<char>, Seq<char>)> {
    v.map_values(|e: (Vec<char>, Vec<char>)| (e.0@, e.1@))
}

fn extract_uniform_types(js: &[char], module_name: &[char]) -> (r: Option<Vec<(Vec<char>, Vec<char>)>>)
    ensures
        match r {
            Some(p) => extract_uniform_types_spec(js@, module_name@) == Some(pairs_view(p@)),
            None => extract_uniform_types_spec(js@, module_name@) is None,
        },
{
    let decl = match decl_offset(js, module_name) {
        Some(d) => d,
        None => return None,
    };
    let kw = match find_from_exec(js, to_chars("uniformTypes").as_slice(), decl) {
        Some(k) => k,
        None => return None,
    };
    let ob = vec!['{'];
    proof {
        assert(ob@ =~= seq!['{']);
    }
    let open = match find_from_exec(js, ob.as_slice(), kw) {
        Some(o) => o,
        None => return None,
    };
    let inner = match bracket_span(js, open, '{', '}') {
        Some((i, _)) => i,
        None => return None,
    };
    let ls = crate::text::split_lines(inner.as_slice());
    let ghost lv = vviews(ls@);
    let mut pairs: Vec<(Vec<char>, Vec<char>)> = Vec::new();
    let mut k: usize = 0;
    proof {
        assert(pairs_view(pairs@) =~= pairs_of(lv.take(0)));
    }
    while k < ls.len()
        invariant
            0 <= k <= ls.len(),
            lv == vviews(ls@),
            pairs_view(pairs@) == pairs_of(lv.take(k as int)),
        decreases ls.len() - k,
    {
        proof {
            assert(lv.take(k + 1).drop_last() =~= lv.take(k as int));
            assert(lv.take(k + 1).last() == ls@[k as int]@);
        }
        match parse_pair(ls[k].as_slice()) {
            Some(p) => {
                let ghost pb = pairs@;
                let ghost pv = (p.0@, p.1@);
                pairs.push(p);
                proof {
                    assert(pairs_view(pairs@) =~= pairs_view(pb).push(pv));
                }
            },
            None => {},
        }
        k = k + 1;
    }
    proof {
        assert(lv.take(ls@.len() as int) =~= lv);
    }
    if pairs.len() > 0 {
        Some(pairs)
    } else {
        None
    }
}

/// luma's WGSL-ish `uniformTypes` strings -> the GLSL type. `None` for shapes
/// not modelled (the type comparison is then skipped).
pub open spec fn luma_to_glsl_spec(t: Seq<char>) -> Option<Seq<char>> {
    if t == "f32"@ {
        Some("float"@)
    } else if t == "i32"@ {
        Some("int"@)
    } else if t == "u32"@ {
        Some("uint"@)
    } else if t == "bool"@ {
        Some("bool"@)
    } else if t == "vec2<f32>"@ {
        Some("vec2"@)
    } else if t == "vec3<f32>"@ {
        Some("vec3"@)
    } else if t == "vec4<f32>"@ {
        Some("vec4"@)
    } else if t == "vec2<i32>"@ {
        Some("ivec2"@)
    } else if t == "vec3<i32>"@ {
        Some("ivec3"@)
    } else if t == "vec4<i32>"@ {
        Some("ivec4"@)
    } else if t == "vec2<u32>"@ {
        Some("uvec2"@)
    } else if t == "vec3<u32>"@ {
        Some("uvec3"@)
    } else if t == "vec4<u32>"@ {
        Some("uvec4"@)
    } else if t == "mat2x2<f32>"@ {
        Some("mat2"@)
    } else if t == "mat3x3<f32>"@ {
        Some("mat3"@)
    } else if t == "mat4x4<f32>"@ {
        Some("mat4"@)
    } else {
        None
    }
}

pub fn luma_to_glsl(t: &str) -> (r: Option<&'static str>)
    ensures
        match r {
            Some(g) => luma_to_glsl_spec(t@) == Some(g@),
            None => luma_to_glsl_spec(t@) is None,
        },
{
    let tc = to_chars(t);
    let ts = tc.as_slice();
    if crate::text::eq_chars(ts, to_chars("f32").as_slice()) {
        Some("float")
    } else if crate::text::eq_chars(ts, to_chars("i32").as_slice()) {
        Some("int")
    } else if crate::text::eq_chars(ts, to_chars("u32").as_slice()) {
        Some("uint")
    } else if crate::text::eq_chars(ts, to_chars("bool").as_slice()) {
        Some("bool")
    } else if crate::text::eq_chars(ts, to_chars("vec2<f32>").as_slice()) {
        Some("vec2")
    } else if crate::text::eq_chars(ts, to_chars("vec3<f32>").as_slice()) {
        Some("vec3")
    } else if crate::text::eq_chars(ts, to_chars("vec4<f32>").as_slice()) {
        Some("vec4")
    } else if crate::text::eq_chars(ts, to_chars("vec2<i32>").as_slice()) {
        Some("ivec2")
    } else if crate::text::eq_chars(ts, to_chars("vec3<i32>").as_slice()) {
        Some("ivec3")
    } else if crate::text::eq_chars(ts, to_chars("vec4<i32>").as_slice()) {
        Some("ivec4")
    } else if crate::text::eq_chars(ts, to_chars("vec2<u32>").as_slice()) {
        Some("uvec2")
    } else if crate::text::eq_chars(ts, to_chars("vec3<u32>").as_slice()) {
        Some("uvec3")
    } else if crate::text::eq_chars(ts, to_chars("vec4<u32>").as_slice()) {
        Some("uvec4")
    } else if crate::text::eq_chars(ts, to_chars("mat2x2<f32>").as_slice()) {
        Some("mat2")
    } else if crate::text::eq_chars(ts, to_chars("mat3x3<f32>").as_slice()) {
        Some("mat3")
    } else if crate::text::eq_chars(ts, to_chars("mat4x4<f32>").as_slice()) {
        Some("mat4")
    } else {
        None
    }
}

/// The value of the last pair keyed `k` (a later duplicate key wins).
pub open spec fn last_value(pairs: Seq<(Seq<char>, Seq<char>)>, k: Seq<char>) -> Option<Seq<char>>
    decreases pairs.len(),
{
    if pairs.len() == 0 {
        None
    } else if pairs.last().0 == k {
        Some(pairs.last().1)
    } else {
        last_value(pairs.drop_last(), k)
    }
}

pub open spec fn missing_in_js(name: Seq<char>, label: Seq<char>) -> Seq<char> {
    "`"@ + name + "` is in the GLSL block but not in `"@ + label + "` uniformTypes"@
}

pub open spec fn type_drift(gtype: Seq<char>, name: Seq<char>, luma: Seq<char>, expected: Seq<char>) -> Seq<char> {
    "type drift: GLSL `"@ + gtype + " "@ + name + "` vs uniformTypes `"@ + name + ": '"@ + luma + "'` (expected `"@
        + expected + "`)"@
}

pub open spec fn missing_in_glsl(label: Seq<char>, name: Seq<char>) -> Seq<char> {
    "`"@ + label + "` declares `"@ + name + "`, but the GLSL block has no such member"@
}

/// The warnings for the GLSL members: missing from the JS, or of a type the JS
/// maps to a different GLSL type.
pub open spec fn member_diags(
    g: Seq<(Seq<char>, Seq<char>, u32, u32)>,
    jt: Seq<(Seq<char>, Seq<char>)>,
    path: Seq<char>,
    label: Seq<char>,
) -> Seq<DiagModel>
    decreases g.len(),
{
    if g.len() == 0 {
        seq![]
    } else {
        let prev = member_diags(g.drop_last(), jt, path, label);
        let (name, gtype, line, col) = g.last();
        match last_value(jt, name) {
            None => prev.push(warn_spec(path, line, col, name.len() as u32, missing_in_js(name, label))),
            Some(luma) => match luma_to_glsl_spec(luma) {
                Some(expected) => if expected != gtype {
                    prev.push(warn_spec(path, line, col, name.len() as u32, type_drift(gtype, name, luma, expected)))
                } else {
                    prev
                },
                None => prev,
            },
        }
    }
}

/// The warnings for JS keys with no GLSL member of that name, in JS order.
pub open spec fn js_diags(
    jt: Seq<(Seq<char>, Seq<char>)>,
    g: Seq<(Seq<char>, Seq<char>, u32, u32)>,
    path: Seq<char>,
    label: Seq<char>,
) -> Seq<DiagModel>
    decreases jt.len(),
{
    if jt.len() == 0 {
        seq![]
    } else {
        let prev = js_diags(jt.drop_last(), g, path, label);
        let name = jt.last().0;
        if exists|i: int| 0 <= i < g.len() && (#[trigger] g[i]).0 == name {
            prev
        } else {
            prev.push(warn_spec(path, 1, 1, 1, missing_in_glsl(label, name)))
        }
    }
}

/// The drift warnings for a GLSL block and its JS `uniformTypes`; silent when
/// the JS can't be read confidently or either side is empty.
pub open spec fn check_against_spec(
    path: Seq<char>,
    source: Seq<char>,
    module_name: Seq<char>,
    js: Seq<char>,
    label: Seq<char>,
) -> Seq<DiagModel> {
    match extract_uniform_types_spec(js, module_name) {
        None => seq![],
        Some(jt) => {
            let g = glsl_members_spec(source);
            if g.len() == 0 {
                seq![]
            } else {
                member_diags(g, jt, path, label) + js_diags(jt, g, path, label)
            }
        },
    }
}

fn last_value_exec(pairs: &Vec<(Vec<char>, Vec<char>)>, k: &[char]) -> (r: Option<Vec<char>>)
    ensures
        match r {
            Some(v) => last_value(pairs_view(pairs@), k@) == Some(v@),
            None => last_value(pairs_view(pairs@), k@) is None,
        },
{
    let ghost pv = pairs_view(pairs@);
    let mut i = pairs.len();
    proof {
        assert(pv.take(pv.len() as int) =~= pv);
    }
    while i > 0
        invariant
            0 <= i <= pairs.len(),
            pv == pairs_view(pairs@),
            last_value(pv, k@) == last_value(pv.take(i as int), k@),
        decreases i,
    {
        proof {
            assert(pv.take(i as int).drop_last() =~= pv.take(i - 1));
            assert(pv.take(i as int).last() == (pairs@[i - 1].0@, pairs@[i - 1].1@));
        }
        if crate::text::eq_chars(pairs[i - 1].0.as_slice(), k) {
            return Some(slice_vec(pairs[i - 1].1.as_slice(), 0, pairs[i - 1].1.len()));
        }
        i = i - 1;
    }
    None
}

fn lit_chars(s: &str) -> (r: Vec<char>)
    ensures
        r@ == s@,
{
    to_chars(s)
}

/// The drift warnings for `glsl_path`'s block against the JS text `js` (shown as
/// `js_label`).
pub fn check_against(glsl_path: &str, glsl_source: &str, module_name: &str, js: &str, js_label: &str) -> (r: Vec<
    Diag,
>)
    requires
        crate::text::lines_fit(glsl_source@),
    ensures
        diags_view(r@) == check_against_spec(glsl_path@, glsl_source@, module_name@, js@, js_label@),
{
    let jc = to_chars(js);
    let mc = to_chars(module_name);
    let lc = to_chars(js_label);
    let jt = match extract_uniform_types(jc.as_slice(), mc.as_slice()) {
        Some(p) => p,
        None => return Vec::new(),
    };
    let g = glsl_members(glsl_source);
    let mut out: Vec<Diag> = Vec::new();
    if g.len() == 0 {
        return out;
    }
    member_warnings(glsl_path, &g, &jt, lc.as_slice(), &mut out);
    js_warnings(glsl_path, &g, &jt, lc.as_slice(), &mut out);
    out
}

fn member_warnings(
    glsl_path: &str,
    g: &Vec<(String, String, u32, u32)>,
    jt: &Vec<(Vec<char>, Vec<char>)>,
    lc: &[char],
    out: &mut Vec<Diag>,
)
    ensures
        diags_view(final(out)@) == diags_view(old(out)@) + member_diags(
            members_view(g@),
            pairs_view(jt@),
            glsl_path@,
            lc@,
        ),
{
    let ghost gv = members_view(g@);
    let ghost jv = pairs_view(jt@);
    let ghost start = diags_view(out@);
    proof {
        assert(diags_view(out@) =~= start + member_diags(gv.take(0), jv, glsl_path@, lc@));
    }
    let mut k: usize = 0;
    while k < g.len()
        invariant
            0 <= k <= g.len(),
            gv == members_view(g@),
            jv == pairs_view(jt@),
            diags_view(out@) == start + member_diags(gv.take(k as int), jv, glsl_path@, lc@),
        decreases g.len() - k,
    {
        proof {
            assert(gv.take(k + 1).drop_last() =~= gv.take(k as int));
            assert(gv.take(k + 1).last() == gv[k as int]);
            assert(gv[k as int] == (g@[k as int].0@, g@[k as int].1@, g@[k as int].2, g@[k as int].3));
        }
        let name = to_chars(g[k].0.as_str());
        let gtype = to_chars(g[k].1.as_str());
        let nlen = name.len() as u32;
        let ghost before = diags_view(out@);
        match last_value_exec(jt, name.as_slice()) {
            None => {
                let mut m = lit_chars("`");
                extend_chars(&mut m, name.as_slice());
                extend_chars(&mut m, lit_chars("` is in the GLSL block but not in `").as_slice());
                extend_chars(&mut m, lc);
                extend_chars(&mut m, lit_chars("` uniformTypes").as_slice());
                proof {
                    assert(m@ =~= missing_in_js(name@, lc@));
                }
                push_diag(out, warn(glsl_path, g[k].2, g[k].3, nlen, m));
            },
            Some(luma) => {
                let ls = from_chars(luma.as_slice());
                match luma_to_glsl(ls.as_str()) {
                    Some(expected) => {
                        let ec = to_chars(expected);
                        if !crate::text::eq_chars(ec.as_slice(), gtype.as_slice()) {
                            let mut m = lit_chars("type drift: GLSL `");
                            extend_chars(&mut m, gtype.as_slice());
                            extend_chars(&mut m, lit_chars(" ").as_slice());
                            extend_chars(&mut m, name.as_slice());
                            extend_chars(&mut m, lit_chars("` vs uniformTypes `").as_slice());
                            extend_chars(&mut m, name.as_slice());
                            extend_chars(&mut m, lit_chars(": '").as_slice());
                            extend_chars(&mut m, luma.as_slice());
                            extend_chars(&mut m, lit_chars("'` (expected `").as_slice());
                            extend_chars(&mut m, ec.as_slice());
                            extend_chars(&mut m, lit_chars("`)").as_slice());
                            proof {
                                assert(m@ =~= type_drift(gtype@, name@, luma@, expected@));
                            }
                            push_diag(out, warn(glsl_path, g[k].2, g[k].3, nlen, m));
                        }
                    },
                    None => {},
                }
            },
        }
        proof {
            assert(start + member_diags(gv.take(k + 1), jv, glsl_path@, lc@) =~= diags_view(out@));
        }
        k = k + 1;
    }
    proof {
        assert(gv.take(g@.len() as int) =~= gv);
    }
}

fn js_warnings(
    glsl_path: &str,
    g: &Vec<(String, String, u32, u32)>,
    jt: &Vec<(Vec<char>, Vec<char>)>,
    lc: &[char],
    out: &mut Vec<Diag>,
)
    ensures
        diags_view(final(out)@) == diags_view(old(out)@) + js_diags(
            pairs_view(jt@),
            members_view(g@),
            glsl_path@,
            lc@,
        ),
{
    let ghost gv = members_view(g@);
    let ghost jv = pairs_view(jt@);
    let ghost mid = diags_view(out@);
    let mut k: usize = 0;
    proof {
        assert(diags_view(out@) =~= mid + js_diags(jv.take(0), gv, glsl_path@, lc@));
    }
    while k < jt.len()
        invariant
            0 <= k <= jt.len(),
            gv == members_view(g@),
            jv == pairs_view(jt@),
            diags_view(out@) == mid + js_diags(jv.take(k as int), gv, glsl_path@, lc@),
        decreases jt.len() - k,
    {
        proof {
            assert(jv.take(k + 1).drop_last() =~= jv.take(k as int));
            assert(jv.take(k + 1).last() == jv[k as int]);
            assert(jv[k as int] == (jt@[k as int].0@, jt@[k as int].1@));
        }
        let mut found = false;
        let mut i: usize = 0;
        while i < g.len()
            invariant
                0 <= i <= g.len(),
                k < jt.len(),
                gv == members_view(g@),
                jv == pairs_view(jt@),
                found == exists|j: int| 0 <= j < i && (#[trigger] gv[j]).0 == jt@[k as int].0@,
            decreases g.len() - i,
        {
            proof {
                assert(gv[i as int] == (g@[i as int].0@, g@[i as int].1@, g@[i as int].2, g@[i as int].3));
            }
            if crate::text::string_eq(&g[i].0, jt[k].0.as_slice()) {
                found = true;
            }
            i = i + 1;
        }
        let ghost before = diags_view(out@);
        if !found {
            let mut m = lit_chars("`");
            extend_chars(&mut m, lc);
            extend_chars(&mut m, lit_chars("` declares `").as_slice());
            extend_chars(&mut m, jt[k].0.as_slice());
            extend_chars(&mut m, lit_chars("`, but the GLSL block has no such member").as_slice());
            proof {
                assert(m@ =~= missing_in_glsl(lc@, jt@[k as int].0@));
            }
            push_diag(out, warn(glsl_path, 1, 1, 1, m));
        }
        proof {
            assert(mid + js_diags(jv.take(k + 1), gv, glsl_path@, lc@) =~= diags_view(out@));
        }
        k = k + 1;
    }
    proof {
        assert(jv.take(jt@.len() as int) =~= jv);
    }
}

/// The label a JS file is shown under: its file name.
pub open spec fn js_label_spec(types_path: Seq<char>) -> Seq<char> {
    match file_name(types_path) {
        Some(n) => n,
        None => "uniformTypes"@,
    }
}

/// Drift-check `glsl_path` (a module's UBO block) against the text of its
/// `types` JS file (`None` when unreadable: then silent).
pub fn check(glsl_path: &str, glsl_source: &str, module_name: &str, js: &Option<String>, types_path: &str) -> (r:
    Vec<Diag>)
    requires
        crate::text::lines_fit(glsl_source@),
    ensures
        diags_view(r@) == match js {
            Some(text) => check_against_spec(
                glsl_path@,
                glsl_source@,
                module_name@,
                text@,
                js_label_spec(types_path@),
            ),
            None => Seq::<DiagModel>::empty(),
        },
{
    let text = match js {
        Some(t) => t,
        None => {
            let out: Vec<Diag> = Vec::new();
            proof {
                assert(diags_view(out@) =~= Seq::<DiagModel>::empty());
            }
            return out;
        },
    };
    let tc = to_chars(types_path);
    let label = match file_name_exec(tc.as_slice()) {
        Some(n) => from_chars(n.as_slice()),
        None => "uniformTypes".to_owned(),
    };
    check_against(glsl_path, glsl_source, module_name, text.as_str(), label.as_str())
}

// ---------------------------------------------------------------------------
// Laws
// ---------------------------------------------------------------------------

/// The two sides agree: every GLSL member has a JS key, whose type (when luma's
/// spelling is one this check models) maps to the member's GLSL type, and every
/// JS key names a GLSL member.
pub open spec fn in_sync(g: Seq<(Seq<char>, Seq<char>, u32, u32)>, jt: Seq<(Seq<char>, Seq<char>)>) -> bool {
    &&& forall|i: int| 0 <= i < g.len() ==> match last_value(jt, (#[trigger] g[i]).0) {
        Some(t) => match luma_to_glsl_spec(t) {
            Some(e) => e == g[i].1,
            None => true,
        },
        None => false,
    }
    &&& forall|k: int| 0 <= k < jt.len() ==> has_member(g, (#[trigger] jt[k]).0)
}

/// Some GLSL member is named `name`.
pub open spec fn has_member(g: Seq<(Seq<char>, Seq<char>, u32, u32)>, name: Seq<char>) -> bool {
    exists|i: int| 0 <= i < g.len() && (#[trigger] g[i]).0 == name
}

proof fn lemma_members_in_sync(g: Seq<(Seq<char>, Seq<char>, u32, u32)>, jt: Seq<(Seq<char>, Seq<char>)>, path: Seq<char>, label: Seq<char>)
    requires
        forall|i: int| 0 <= i < g.len() ==> match last_value(jt, (#[trigger] g[i]).0) {
            Some(t) => match luma_to_glsl_spec(t) {
                Some(e) => e == g[i].1,
                None => true,
            },
            None => false,
        },
    ensures
        member_diags(g, jt, path, label).len() == 0,
    decreases g.len(),
{
    if g.len() > 0 {
        let t = g.drop_last();
        assert forall|i: int| 0 <= i < t.len() implies match last_value(jt, (#[trigger] t[i]).0) {
            Some(x) => match luma_to_glsl_spec(x) {
                Some(e) => e == t[i].1,
                None => true,
            },
            None => false,
        } by {
            assert(t[i] == g[i]);
        }
        lemma_members_in_sync(t, jt, path, label);
        assert(g.last() == g[g.len() - 1]);
    }
}

proof fn lemma_keys_in_sync(g: Seq<(Seq<char>, Seq<char>, u32, u32)>, jt: Seq<(Seq<char>, Seq<char>)>, path: Seq<char>, label: Seq<char>)
    requires
        forall|k: int| 0 <= k < jt.len() ==> has_member(g, (#[trigger] jt[k]).0),
    ensures
        js_diags(jt, g, path, label).len() == 0,
    decreases jt.len(),
{
    if jt.len() > 0 {
        let t = jt.drop_last();
        assert forall|k: int| 0 <= k < t.len() implies has_member(g, (#[trigger] t[k]).0) by {
            assert(t[k] == jt[k]);
        }
        lemma_keys_in_sync(g, t, path, label);
        assert(has_member(g, jt[jt.len() - 1].0));
    }
}

/// When the GLSL block and the JS `uniformTypes` agree, the drift check is silent.
pub proof fn lemma_in_sync_is_silent(
    path: Seq<char>,
    source: Seq<char>,
    module_name: Seq<char>,
    js: Seq<char>,
    label: Seq<char>,
)
    requires
        extract_uniform_types_spec(js, module_name) matches Some(jt) ==> in_sync(glsl_members_spec(source), jt),
    ensures
        check_against_spec(path, source, module_name, js, label).len() == 0,
{
    if let Some(jt) = extract_uniform_types_spec(js, module_name) {
        let g = glsl_members_spec(source);
        lemma_members_in_sync(g, jt, path, label);
        lemma_keys_in_sync(g, jt, path, label);
    }
}

/// Only drift warnings on `path`.
pub open spec fn drift_warnings_on(ds: Seq<DiagModel>, path: Seq<char>) -> bool {
    forall|i: int| 0 <= i < ds.len() ==> {
        let d = #[trigger] ds[i];
        d.path == path && d.severity == Severity::Warning && d.source == "drift"@
    }
}

proof fn lemma_member_diags_warn(g: Seq<(Seq<char>, Seq<char>, u32, u32)>, jt: Seq<(Seq<char>, Seq<char>)>, path: Seq<char>, label: Seq<char>)
    ensures
        drift_warnings_on(member_diags(g, jt, path, label), path),
    decreases g.len(),
{
    if g.len() > 0 {
        lemma_member_diags_warn(g.drop_last(), jt, path, label);
    }
}

proof fn lemma_js_diags_warn(g: Seq<(Seq<char>, Seq<char>, u32, u32)>, jt: Seq<(Seq<char>, Seq<char>)>, path: Seq<char>, label: Seq<char>)
    ensures
        drift_warnings_on(js_diags(jt, g, path, label), path),
    decreases jt.len(),
{
    if jt.len() > 0 {
        lemma_js_diags_warn(g, jt.drop_last(), path, label);
    }
}

/// Drift never fails a check: everything it reports is a warning on the
/// module's GLSL file.
pub proof fn lemma_drift_only_warns(
    path: Seq<char>,
    source: Seq<char>,
    module_name: Seq<char>,
    js: Seq<char>,
    label: Seq<char>,
)
    ensures
        drift_warnings_on(check_against_spec(path, source, module_name, js, label), path),
{
    if let Some(jt) = extract_uniform_types_spec(js, module_name) {
        let g = glsl_members_spec(source);
        lemma_member_diags_warn(g, jt, path, label);
        lemma_js_diags_warn(g, jt, path, label);
        let a = member_diags(g, jt, path, label);
        let b = js_diags(jt, g, path, label);
        assert forall|i: int| 0 <= i < (a + b).len() implies {
            let d = #[trigger] (a + b)[i];
            d.path == path && d.severity == Severity::Warning && d.source == "drift"@
        } by {
            if i < a.len() {
                assert((a + b)[i] == a[i]);
            } else {
                assert((a + b)[i] == b[i - a.len()]);
            }
        }
    }
}

/// The digit naming a dimension `n` (2, 3 or 4).
pub open spec fn dim_digit(n: int) -> char {
    if n == 2 {
        '2'
    } else if n == 3 {
        '3'
    } else {
        '4'
    }
}

/// luma's spelling of an `n`-component vector of `scalar` (`f32`, `i32`, `u32`).
pub open spec fn luma_vector(n: int, scalar: Seq<char>) -> Seq<char> {
    "vec"@ + seq![dim_digit(n), '<'] + scalar + seq!['>']
}

/// luma's spelling of an `n`×`n` matrix of `f32`.
pub open spec fn luma_matrix(n: int) -> Seq<char> {
    "mat"@ + seq![dim_digit(n), 'x', dim_digit(n)] + "<f32>"@
}

/// GLSL's spelling of an `n`-component vector, after the scalar's prefix
/// (nothing for `float`, `i` for `int`, `u` for `uint`).
pub open spec fn glsl_vector(n: int, prefix: Seq<char>) -> Seq<char> {
    prefix + "vec"@ + seq![dim_digit(n)]
}

proof fn lemma_luma_shape(n: int)
    requires
        2 <= n <= 4,
    ensures
        luma_to_glsl_spec(luma_vector(n, "f32"@)) == Some(glsl_vector(n, seq![])),
        luma_to_glsl_spec(luma_vector(n, "i32"@)) == Some(glsl_vector(n, seq!['i'])),
        luma_to_glsl_spec(luma_vector(n, "u32"@)) == Some(glsl_vector(n, seq!['u'])),
        luma_to_glsl_spec(luma_matrix(n)) == Some("mat"@ + seq![dim_digit(n)]),
{
    reveal_strlit("f32");
    reveal_strlit("i32");
    reveal_strlit("u32");
    reveal_strlit("bool");
    reveal_strlit("vec");
    reveal_strlit("mat");
    reveal_strlit("<f32>");
    reveal_strlit("float");
    reveal_strlit("int");
    reveal_strlit("uint");
    reveal_strlit("vec2<f32>");
    reveal_strlit("vec3<f32>");
    reveal_strlit("vec4<f32>");
    reveal_strlit("vec2<i32>");
    reveal_strlit("vec3<i32>");
    reveal_strlit("vec4<i32>");
    reveal_strlit("vec2<u32>");
    reveal_strlit("vec3<u32>");
    reveal_strlit("vec4<u32>");
    reveal_strlit("mat2x2<f32>");
    reveal_strlit("mat3x3<f32>");
    reveal_strlit("mat4x4<f32>");
    reveal_strlit("vec2");
    reveal_strlit("vec3");
    reveal_strlit("vec4");
    reveal_strlit("ivec2");
    reveal_strlit("ivec3");
    reveal_strlit("ivec4");
    reveal_strlit("uvec2");
    reveal_strlit("uvec3");
    reveal_strlit("uvec4");
    reveal_strlit("mat2");
    reveal_strlit("mat3");
    reveal_strlit("mat4");
    let vf = luma_vector(n, "f32"@);
    let vi = luma_vector(n, "i32"@);
    let vu = luma_vector(n, "u32"@);
    let m = luma_matrix(n);
    assert(vf.len() == 9 && vi.len() == 9 && vu.len() == 9 && m.len() == 11);
    assert(vf[3] == dim_digit(n) && vf[6] == '3' && vf[5] == 'f');
    assert(vi[3] == dim_digit(n) && vi[5] == 'i');
    assert(vu[3] == dim_digit(n) && vu[5] == 'u');
    assert(m[3] == dim_digit(n) && m[5] == dim_digit(n));
    if n == 2 {
        assert(vf =~= "vec2<f32>"@);
        assert(vi =~= "vec2<i32>"@);
        assert(vu =~= "vec2<u32>"@);
        assert(m =~= "mat2x2<f32>"@);
        assert(glsl_vector(n, seq![]) =~= "vec2"@);
        assert(glsl_vector(n, seq!['i']) =~= "ivec2"@);
        assert(glsl_vector(n, seq!['u']) =~= "uvec2"@);
        assert("mat"@ + seq![dim_digit(n)] =~= "mat2"@);
    } else if n == 3 {
        assert(vf =~= "vec3<f32>"@);
        assert(vi =~= "vec3<i32>"@);
        assert(vu =~= "vec3<u32>"@);
        assert(m =~= "mat3x3<f32>"@);
        assert(glsl_vector(n, seq![]) =~= "vec3"@);
        assert(glsl_vector(n, seq!['i']) =~= "ivec3"@);
        assert(glsl_vector(n, seq!['u']) =~= "uvec3"@);
        assert("mat"@ + seq![dim_digit(n)] =~= "mat3"@);
    } else {
        assert(vf =~= "vec4<f32>"@);
        assert(vi =~= "vec4<i32>"@);
        assert(vu =~= "vec4<u32>"@);
        assert(m =~= "mat4x4<f32>"@);
        assert(glsl_vector(n, seq![]) =~= "vec4"@);
        assert(glsl_vector(n, seq!['i']) =~= "ivec4"@);
        assert(glsl_vector(n, seq!['u']) =~= "uvec4"@);
        assert("mat"@ + seq![dim_digit(n)] =~= "mat4"@);
    }
}

proof fn lemma_luma_spellings(n: int)
    requires
        2 <= n <= 4,
    ensures
        n == 2 ==> luma_vector(n, "f32"@) == "vec2<f32>"@ && luma_vector(n, "i32"@) == "vec2<i32>"@ && luma_vector(
            n,
            "u32"@,
        ) == "vec2<u32>"@ && luma_matrix(n) == "mat2x2<f32>"@,
        n == 3 ==> luma_vector(n, "f32"@) == "vec3<f32>"@ && luma_vector(n, "i32"@) == "vec3<i32>"@ && luma_vector(
            n,
            "u32"@,
        ) == "vec3<u32>"@ && luma_matrix(n) == "mat3x3<f32>"@,
        n == 4 ==> luma_vector(n, "f32"@) == "vec4<f32>"@ && luma_vector(n, "i32"@) == "vec4<i32>"@ && luma_vector(
            n,
            "u32"@,
        ) == "vec4<u32>"@ && luma_matrix(n) == "mat4x4<f32>"@,
{
    reveal_strlit("f32");
    reveal_strlit("i32");
    reveal_strlit("u32");
    reveal_strlit("vec");
    reveal_strlit("mat");
    reveal_strlit("<f32>");
    reveal_strlit("vec2<f32>");
    reveal_strlit("vec3<f32>");
    reveal_strlit("vec4<f32>");
    reveal_strlit("vec2<i32>");
    reveal_strlit("vec3<i32>");
    reveal_strlit("vec4<i32>");
    reveal_strlit("vec2<u32>");
    reveal_strlit("vec3<u32>");
    reveal_strlit("vec4<u32>");
    reveal_strlit("mat2x2<f32>");
    reveal_strlit("mat3x3<f32>");
    reveal_strlit("mat4x4<f32>");
    if n == 2 {
        assert(luma_vector(n, "f32"@) =~= "vec2<f32>"@);
        assert(luma_vector(n, "i32"@) =~= "vec2<i32>"@);
        assert(luma_vector(n, "u32"@) =~= "vec2<u32>"@);
        assert(luma_matrix(n) =~= "mat2x2<f32>"@);
    } else if n == 3 {
        assert(luma_vector(n, "f32"@) =~= "vec3<f32>"@);
        assert(luma_vector(n, "i32"@) =~= "vec3<i32>"@);
        assert(luma_vector(n, "u32"@) =~= "vec3<u32>"@);
        assert(luma_matrix(n) =~= "mat3x3<f32>"@);
    } else {
        assert(luma_vector(n, "f32"@) =~= "vec4<f32>"@);
        assert(luma_vector(n, "i32"@) =~= "vec4<i32>"@);
        assert(luma_vector(n, "u32"@) =~= "vec4<u32>"@);
        assert(luma_matrix(n) =~= "mat4x4<f32>"@);
    }
}

/// luma types map to the GLSL types of the same shape: `f32`, `i32`, `u32`
/// and `bool` to `float`, `int`, `uint` and `bool`; an `n`-component vector of
/// `f32`, `i32` or `u32` to `vecN`, `ivecN` or `uvecN`; an `n`×`n` `f32`
/// matrix to `matN` — so a GLSL member and a `uniformTypes` key of the same
/// shape are in sync. No other spelling maps to anything.
pub proof fn lemma_luma_types_keep_their_shape()
    ensures
        forall|t: Seq<char>| #[trigger] luma_to_glsl_spec(t) is Some ==> {
            ||| t == "f32"@ || t == "i32"@ || t == "u32"@ || t == "bool"@
            ||| exists|n: int| 2 <= n <= 4 && (t == luma_vector(n, "f32"@) || t == luma_vector(n, "i32"@) || t
                == luma_vector(n, "u32"@) || t == luma_matrix(n))
        },
        luma_to_glsl_spec("f32"@) == Some("float"@),
        luma_to_glsl_spec("i32"@) == Some("int"@),
        luma_to_glsl_spec("u32"@) == Some("uint"@),
        luma_to_glsl_spec("bool"@) == Some("bool"@),
        forall|n: int|
            2 <= n <= 4 ==> {
                &&& luma_to_glsl_spec(#[trigger] luma_vector(n, "f32"@)) == Some(glsl_vector(n, seq![]))
                &&& luma_to_glsl_spec(luma_vector(n, "i32"@)) == Some(glsl_vector(n, seq!['i']))
                &&& luma_to_glsl_spec(luma_vector(n, "u32"@)) == Some(glsl_vector(n, seq!['u']))
                &&& luma_to_glsl_spec(luma_matrix(n)) == Some("mat"@ + seq![dim_digit(n)])
            },
{
    reveal_strlit("f32");
    reveal_strlit("i32");
    reveal_strlit("u32");
    reveal_strlit("bool");
    reveal_strlit("float");
    reveal_strlit("int");
    reveal_strlit("uint");
    assert("i32"@[0] != "f32"@[0]);
    assert("u32"@[0] != "f32"@[0] && "u32"@[0] != "i32"@[0]);
    assert("bool"@.len() != "f32"@.len());
    assert forall|t: Seq<char>| #[trigger] luma_to_glsl_spec(t) is Some implies {
        ||| t == "f32"@ || t == "i32"@ || t == "u32"@ || t == "bool"@
        ||| exists|n: int| 2 <= n <= 4 && (t == luma_vector(n, "f32"@) || t == luma_vector(n, "i32"@) || t
            == luma_vector(n, "u32"@) || t == luma_matrix(n))
    } by {
        if !(t == "f32"@ || t == "i32"@ || t == "u32"@ || t == "bool"@) {
            let n: int = if t == "vec2<f32>"@ || t == "vec2<i32>"@ || t == "vec2<u32>"@ || t == "mat2x2<f32>"@ {
                2
            } else if t == "vec3<f32>"@ || t == "vec3<i32>"@ || t == "vec3<u32>"@ || t == "mat3x3<f32>"@ {
                3
            } else {
                4
            };
            lemma_luma_spellings(n);
        }
    }
    assert forall|n: int| 2 <= n <= 4 implies {
        &&& luma_to_glsl_spec(#[trigger] luma_vector(n, "f32"@)) == Some(glsl_vector(n, seq![]))
        &&& luma_to_glsl_spec(luma_vector(n, "i32"@)) == Some(glsl_vector(n, seq!['i']))
        &&& luma_to_glsl_spec(luma_vector(n, "u32"@)) == Some(glsl_vector(n, seq!['u']))
        &&& luma_to_glsl_spec(luma_matrix(n)) == Some("mat"@ + seq![dim_digit(n)])
    } by {
        lemma_luma_shape(n);
    }
}

} // verus!
