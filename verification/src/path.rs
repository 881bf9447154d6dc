//! Slash-separated paths as plain strings.
//!
//! The library never touches the file system, so a path is just its text. These
//! helpers follow `std::path::Path` on Unix: `join` appends with a single `/`
//! unless the right side is absolute; `parent` and `file_name` read the path
//! as `Path::components` does, ignoring trailing `/` and `.` components;
//! neither resolves `..`, as `Path` does not either. `strip_prefix` is textual,
//! for a path built by `join` under its base. Whether two paths name the same
//! file is decided lexically ([`same_file`]): `.` and empty components vanish
//! and `..` drops the component before it.

use vstd::prelude::*;
use crate::text::{from_chars, slice_vec, to_chars};

verus! {

/// Index of the last `/` in `s`, or `-1`.
pub open spec fn last_slash(s: Seq<char>) -> int
    decreases s.len(),
{
    if s.len() == 0 {
        -1
    } else if s.last() == '/' {
        s.len() - 1
    } else {
        last_slash(s.drop_last())
    }
}

pub proof fn lemma_last_slash(s: Seq<char>)
    ensures
        -1 <= last_slash(s) < s.len(),
        last_slash(s) >= 0 ==> s[last_slash(s)] == '/',
        forall|j: int| last_slash(s) < j < s.len() ==> s[j] != '/',
    decreases s.len(),
{
    if s.len() > 0 && s.last() != '/' {
        lemma_last_slash(s.drop_last());
        assert forall|j: int| last_slash(s) < j < s.len() implies s[j] != '/' by {
            if j < s.len() - 1 {
                assert(s[j] == s.drop_last()[j]);
            }
        }
    }
}

pub fn last_slash_exec(s: &[char]) -> (r: Option<usize>)
    ensures
        match r {
            Some(i) => last_slash(s@) == i as int && i < s.len(),
            None => last_slash(s@) == -1,
        },
{
    let mut i = s.len();
    assert(s@.take(s.len() as int) == s@);
    while i > 0
        invariant
            0 <= i <= s.len(),
            last_slash(s@) == last_slash(s@.take(i as int)),
        decreases i,
    {
        proof {
            assert(s@.take(i as int).drop_last() == s@.take(i - 1));
        }
        if s[i - 1] == '/' {
            return Some(i - 1);
        }
        i = i - 1;
    }
    None
}

/// `dir.join(name)`: `name` itself when it is absolute or `dir` is empty, else
/// `dir` and `name` separated by exactly one `/`.
pub open spec fn join(dir: Seq<char>, name: Seq<char>) -> Seq<char> {
    if name.len() > 0 && name[0] == '/' {
        name
    } else if dir.len() == 0 {
        name
    } else if dir.last() == '/' {
        dir + name
    } else {
        dir + seq!['/'] + name
    }
}

pub fn join_exec(dir: &str, name: &str) -> (r: String)
    ensures
        r@ == join(dir@, name@),
{
    let d = to_chars(dir);
    let n = to_chars(name);
    if n.len() > 0 && n[0] == '/' {
        return name.to_owned();
    }
    if d.len() == 0 {
        return name.to_owned();
    }
    let mut out = d.clone();
    if d[d.len() - 1] != '/' {
        out.push('/');
    }
    crate::text::extend_chars(&mut out, n.as_slice());
    proof {
        if d@.last() == '/' {
            assert(out@ =~= d@ + n@);
        } else {
            assert(out@ =~= d@ + seq!['/'] + n@);
        }
    }
    from_chars(out.as_slice())
}

/// `p` without what `Path` ignores at its end: trailing `/` and trailing `.`
/// components (a leading `/` or a lone leading `.` stays).
pub open spec fn trim_tail(p: Seq<char>) -> Seq<char>
    decreases p.len(),
{
    if p.len() > 1 && p.last() == '/' {
        trim_tail(p.drop_last())
    } else if p.len() > 1 && p.last() == '.' && p[p.len() - 2] == '/' {
        trim_tail(p.drop_last())
    } else {
        p
    }
}

pub proof fn lemma_trim_tail(p: Seq<char>)
    ensures
        trim_tail(p).len() <= p.len(),
        trim_tail(p) == p.take(trim_tail(p).len() as int),
        p.len() > 0 ==> trim_tail(p).len() > 0,
        p.len() > 0 && p[0] == '/' ==> trim_tail(p)[0] == '/',
    decreases p.len(),
{
    if p.len() > 1 && (p.last() == '/' || (p.last() == '.' && p[p.len() - 2] == '/')) {
        lemma_trim_tail(p.drop_last());
        let t = trim_tail(p.drop_last());
        assert(p.drop_last().take(t.len() as int) =~= p.take(t.len() as int));
    } else {
        assert(p.take(p.len() as int) =~= p);
    }
}

/// The length of [`trim_tail`]`(p)`.
pub fn trim_tail_len(p: &[char]) -> (e: usize)
    ensures
        e == trim_tail(p@).len(),
        e <= p.len(),
        trim_tail(p@) == p@.take(e as int),
{
    let mut e = p.len();
    proof {
        assert(p@.take(e as int) =~= p@);
    }
    while e > 1 && (p[e - 1] == '/' || (p[e - 1] == '.' && p[e - 2] == '/'))
        invariant
            0 <= e <= p.len(),
            trim_tail(p@) == trim_tail(p@.take(e as int)),
        decreases e,
    {
        proof {
            assert(p@.take(e as int).drop_last() =~= p@.take(e - 1));
        }
        e = e - 1;
    }
    proof {
        lemma_trim_tail(p@);
    }
    e
}

/// `path.parent()`: the path without its last component (and without the
/// trailing `/` and `.` components before that), `/` for a component right
/// under the root, the empty path for a lone relative component, and `None`
/// for the empty path and for `/`.
pub open spec fn parent(p: Seq<char>) -> Option<Seq<char>> {
    let q = trim_tail(p);
    let k = last_slash(q);
    if q.len() == 0 {
        None
    } else if k < 0 {
        Some(seq![])
    } else if k == 0 {
        if q.len() == 1 {
            None
        } else {
            Some(seq!['/'])
        }
    } else {
        Some(trim_tail(q.take(k)))
    }
}

/// `path.parent().unwrap_or(".")`.
pub open spec fn parent_or_dot(p: Seq<char>) -> Seq<char> {
    match parent(p) {
        Some(d) => d,
        None => "."@,
    }
}

pub fn parent_or_dot_exec(p: &str) -> (r: String)
    ensures
        r@ == parent_or_dot(p@),
{
    match parent_exec(p) {
        Some(d) => d,
        None => ".".to_owned(),
    }
}

pub fn parent_exec(p: &str) -> (r: Option<String>)
    ensures
        crate::text::ov(r) == parent(p@),
{
    let pc = to_chars(p);
    let e = trim_tail_len(pc.as_slice());
    let cs = slice_vec(pc.as_slice(), 0, e);
    proof {
        assert(cs@ =~= trim_tail(p@));
    }
    if cs.len() == 0 {
        return None;
    }
    match last_slash_exec(cs.as_slice()) {
        None => {
            let r = String::new();
            assert(r@ =~= seq![]);
            Some(r)
        },
        Some(k) => {
            if k == 0 {
                if cs.len() == 1 {
                    None
                } else {
                    let mut r = String::new();
                    crate::text::push_char(&mut r, '/');
                    assert(r@ =~= seq!['/']);
                    Some(r)
                }
            } else {
                let v = slice_vec(cs.as_slice(), 0, k);
                let e2 = trim_tail_len(v.as_slice());
                let w = slice_vec(v.as_slice(), 0, e2);
                proof {
                    assert(v@ =~= cs@.take(k as int));
                    assert(w@ =~= trim_tail(v@));
                }
                Some(from_chars(w.as_slice()))
            }
        },
    }
}

/// `path.file_name()`: the last component, once trailing `/` and `.` components
/// are dropped, unless it is empty, `.` or `..`.
pub open spec fn file_name(p: Seq<char>) -> Option<Seq<char>> {
    let q = trim_tail(p);
    let n = q.skip(last_slash(q) + 1);
    if n.len() == 0 || n == "."@ || n == ".."@ {
        None
    } else {
        Some(n)
    }
}

/// Where the file name of `p` ends: the length of [`trim_tail`]`(p)`.
pub open spec fn file_name_end(p: Seq<char>) -> int {
    trim_tail(p).len() as int
}

pub proof fn lemma_file_name_place(p: Seq<char>)
    ensures
        file_name(p) matches Some(n) ==> n.len() <= file_name_end(p) <= p.len() && p.subrange(
            file_name_end(p) - n.len(),
            file_name_end(p),
        ) == n,
{
    lemma_trim_tail(p);
    let q = trim_tail(p);
    lemma_last_slash(q);
    if let Some(n) = file_name(p) {
        assert(p.subrange(file_name_end(p) - n.len(), file_name_end(p)) =~= n);
    }
}

pub fn file_name_exec(p: &[char]) -> (r: Option<Vec<char>>)
    ensures
        match r {
            Some(n) => file_name(p@) == Some(n@),
            None => file_name(p@) is None,
        },
{
    let e = trim_tail_len(p);
    let q = slice_vec(p, 0, e);
    proof {
        assert(q@ =~= trim_tail(p@));
    }
    let start = match last_slash_exec(q.as_slice()) {
        Some(k) => k + 1,
        None => 0,
    };
    proof {
        lemma_last_slash(q@);
    }
    let n = slice_vec(q.as_slice(), start, q.len());
    proof {
        assert(n@ == q@.skip(last_slash(q@) + 1));
    }
    let d1 = to_chars(".");
    let dd = to_chars("..");
    if n.len() == 0 || crate::text::eq_chars(n.as_slice(), d1.as_slice()) || crate::text::eq_chars(
        n.as_slice(),
        dd.as_slice(),
    ) {
        return None;
    }
    Some(n)
}

/// `path.extension()`: the text after the file name's last `.`, unless that dot
/// is the name's first character.
pub open spec fn extension(p: Seq<char>) -> Option<Seq<char>> {
    match file_name(p) {
        None => None,
        Some(n) => match crate::text::rfind(n, seq!['.']) {
            Some(d) => if d > 0 {
                Some(n.skip(d + 1))
            } else {
                None
            },
            None => None,
        },
    }
}

pub fn extension_exec(p: &[char]) -> (r: Option<Vec<char>>)
    ensures
        match r {
            Some(e) => extension(p@) == Some(e@),
            None => extension(p@) is None,
        },
{
    let n = match file_name_exec(p) {
        Some(n) => n,
        None => return None,
    };
    let dot = vec!['.'];
    proof {
        assert(dot@ =~= seq!['.']);
    }
    match crate::text::rfind_exec(n.as_slice(), dot.as_slice()) {
        Some(d) => {
            if d > 0 {
                proof {
                    crate::text::lemma_rfind_below(n@, seq!['.'], n@.len() + 1int);
                    assert(crate::text::occurs_at(n@, seq!['.'], d as int));
                }
                let nl = n.len();
                assert(d + 1 <= nl);
                Some(slice_vec(n.as_slice(), d + 1, nl))
            } else {
                None
            }
        },
        None => None,
    }
}

/// `path.strip_prefix(base)` for a path known to sit under `base`: the remainder
/// after `base` and one `/`.
pub open spec fn strip_prefix(p: Seq<char>, base: Seq<char>) -> Option<Seq<char>> {
    if base.len() == 0 {
        Some(p)
    } else if p == base {
        Some(seq![])
    } else if base.last() == '/' && base.len() <= p.len() && p.take(base.len() as int) == base {
        Some(p.skip(base.len() as int))
    } else if base.len() < p.len() && p.take(base.len() as int) == base && p[base.len() as int] == '/' {
        Some(p.skip(base.len() + 1int))
    } else {
        None
    }
}

pub fn strip_prefix_exec(p: &[char], base: &[char]) -> (r: Option<Vec<char>>)
    ensures
        match r {
            Some(x) => strip_prefix(p@, base@) == Some(x@),
            None => strip_prefix(p@, base@) is None,
        },
{
    if base.len() == 0 {
        return Some(slice_vec(p, 0, p.len()));
    }
    if crate::text::eq_chars(p, base) {
        return Some(Vec::new());
    }
    let pre = crate::text::starts_with_exec(p, base);
    proof {
        if base@.len() <= p@.len() {
            assert(p@.subrange(0, base@.len() as int) == p@.take(base@.len() as int));
        }
    }
    if base[base.len() - 1] == '/' && base.len() <= p.len() && pre {
        return Some(slice_vec(p, base.len(), p.len()));
    }
    if base.len() < p.len() && pre && p[base.len()] == '/' {
        return Some(slice_vec(p, base.len() + 1, p.len()));
    }
    None
}

// ---------------------------------------------------------------------------
// Which file a path names
// ---------------------------------------------------------------------------

/// Whether `p` is absolute.
pub open spec fn is_abs(p: Seq<char>) -> bool {
    p.len() > 0 && p[0] == '/'
}

/// The component stack after component `c`: empty and `.` components vanish,
/// `..` drops the component before it (at the root of an absolute path it
/// vanishes; leading ones of a relative path stay).
pub open spec fn push_component(stack: Seq<Seq<char>>, c: Seq<char>, abs: bool) -> Seq<Seq<char>> {
    if c.len() == 0 || c == seq!['.'] {
        stack
    } else if c == seq!['.', '.'] {
        if stack.len() > 0 && stack.last() != seq!['.', '.'] {
            stack.drop_last()
        } else if abs {
            stack
        } else {
            stack.push(c)
        }
    } else {
        stack.push(c)
    }
}

/// The normalized components of `p` from index `i`, `cur` being the component
/// read so far and `stack` the ones before it.
pub open spec fn components_from(p: Seq<char>, i: int, cur: Seq<char>, stack: Seq<Seq<char>>, abs: bool) -> Seq<Seq<char>>
    decreases p.len() - i,
{
    if i < 0 || i >= p.len() {
        push_component(stack, cur, abs)
    } else if p[i] == '/' {
        components_from(p, i + 1, seq![], push_component(stack, cur, abs), abs)
    } else {
        components_from(p, i + 1, cur.push(p[i]), stack, abs)
    }
}

/// What identifies the file `p` names, read lexically: whether it is absolute,
/// and its components with `.`, empty components and `..` resolved.
pub open spec fn path_key(p: Seq<char>) -> (bool, Seq<Seq<char>>) {
    (is_abs(p), components_from(p, 0, seq![], seq![], is_abs(p)))
}

/// `a` and `b` name the same file (`/p/src/./a.glsl` and `/p/src/a.glsl` do).
pub open spec fn same_file(a: Seq<char>, b: Seq<char>) -> bool {
    path_key(a) == path_key(b)
}

fn push_component_exec(stack: &mut Vec<Vec<char>>, c: Vec<char>, abs: bool)
    ensures
        crate::text::vviews(final(stack)@) == push_component(crate::text::vviews(old(stack)@), c@, abs),
{
    let ghost sv0 = crate::text::vviews(stack@);
    let dot = c.len() == 1 && c[0] == '.';
    let dotdot = c.len() == 2 && c[0] == '.' && c[1] == '.';
    proof {
        if dot {
            assert(c@ =~= seq!['.']);
        } else if c@.len() == 1 {
            assert(c@[0] != seq!['.'][0]);
        } else {
            assert(c@.len() != seq!['.'].len());
        }
        if dotdot {
            assert(c@ =~= seq!['.', '.']);
        } else if c@.len() == 2 {
            assert(c@[0] != seq!['.', '.'][0] || c@[1] != seq!['.', '.'][1]);
        } else {
            assert(c@.len() != seq!['.', '.'].len());
        }
    }
    if c.len() == 0 || dot {
        return;
    }
    if dotdot {
        let n = stack.len();
        if n > 0 {
            let last = &stack[n - 1];
            let last_dd = last.len() == 2 && last[0] == '.' && last[1] == '.';
            proof {
                assert(sv0.last() == stack@[n - 1]@);
                if last_dd {
                    assert(last@ =~= seq!['.', '.']);
                } else if last@.len() == 2 {
                    assert(last@[0] != seq!['.', '.'][0] || last@[1] != seq!['.', '.'][1]);
                } else {
                    assert(last@.len() != seq!['.', '.'].len());
                }
            }
            if !last_dd {
                stack.pop();
                proof {
                    assert(crate::text::vviews(stack@) =~= sv0.drop_last());
                }
                return;
            }
        }
        if abs {
            return;
        }
    }
    let ghost cv = c@;
    stack.push(c);
    proof {
        assert(crate::text::vviews(stack@) =~= sv0.push(cv));
    }
}

/// The components of `p`, normalized, and whether it is absolute.
pub fn path_key_exec(p: &[char]) -> (r: (bool, Vec<Vec<char>>))
    ensures
        (r.0, crate::text::vviews(r.1@)) == path_key(p@),
{
    let abs = p.len() > 0 && p[0] == '/';
    let mut stack: Vec<Vec<char>> = Vec::new();
    let mut cur: Vec<char> = Vec::new();
    let mut i: usize = 0;
    proof {
        assert(crate::text::vviews(stack@) =~= Seq::<Seq<char>>::empty());
        assert(cur@ =~= Seq::<char>::empty());
    }
    while i < p.len()
        invariant
            0 <= i <= p.len(),
            abs == is_abs(p@),
            path_key(p@).1 == components_from(p@, i as int, cur@, crate::text::vviews(stack@), abs),
        decreases p.len() - i,
    {
        if p[i] == '/' {
            let c = cur;
            cur = Vec::new();
            push_component_exec(&mut stack, c, abs);
            proof {
                assert(cur@ =~= Seq::<char>::empty());
            }
        } else {
            cur.push(p[i]);
        }
        i = i + 1;
    }
    push_component_exec(&mut stack, cur, abs);
    (abs, stack)
}

/// Whether `a` and `b` name the same file.
pub fn same_file_exec(a: &[char], b: &[char]) -> (r: bool)
    ensures
        r == same_file(a@, b@),
{
    let (aa, ka) = path_key_exec(a);
    let (ab, kb) = path_key_exec(b);
    if aa != ab {
        return false;
    }
    if ka.len() != kb.len() {
        proof {
            assert(crate::text::vviews(ka@).len() == ka@.len());
            assert(crate::text::vviews(kb@).len() == kb@.len());
            assert(path_key(a@).1.len() != path_key(b@).1.len());
        }
        return false;
    }
    let mut i: usize = 0;
    while i < ka.len()
        invariant
            0 <= i <= ka.len(),
            ka.len() == kb.len(),
            crate::text::vviews(ka@) == path_key(a@).1,
            crate::text::vviews(kb@) == path_key(b@).1,
            path_key(a@).0 == path_key(b@).0,
            forall|j: int| 0 <= j < i ==> ka@[j]@ == kb@[j]@,
        decreases ka.len() - i,
    {
        if !crate::text::eq_chars(ka[i].as_slice(), kb[i].as_slice()) {
            proof {
                assert(crate::text::vviews(ka@)[i as int] == ka@[i as int]@);
                assert(crate::text::vviews(kb@)[i as int] == kb@[i as int]@);
                assert(path_key(a@).1[i as int] != path_key(b@).1[i as int]);
            }
            return false;
        }
        i = i + 1;
    }
    proof {
        assert(crate::text::vviews(ka@) =~= crate::text::vviews(kb@));
    }
    true
}

// ---------------------------------------------------------------------------
// Components as `Path` compares them
// ---------------------------------------------------------------------------

/// A component of a path as `Path::components` yields it: its kind (`0` the
/// root, `1` a leading `.`, `2` a `..`, `3` a name) and, for a name, its text.
pub type Component = (int, Seq<char>);

/// The component that the text `c` between two `/` makes: none for an empty
/// text or `.`, a `..`, or a name.
pub open spec fn component_of(c: Seq<char>) -> Seq<Component> {
    if c.len() == 0 || c == seq!['.'] {
        seq![]
    } else if c == seq!['.', '.'] {
        seq![(2int, Seq::<char>::empty())]
    } else {
        seq![(3int, c)]
    }
}

/// What comes first: the root of an absolute path, or the `.` that a relative
/// path starts with (`.` alone or `./...`).
pub open spec fn head_component(p: Seq<char>) -> Seq<Component> {
    if p.len() > 0 && p[0] == '/' {
        seq![(0int, Seq::<char>::empty())]
    } else if p.len() > 0 && p[0] == '.' && (p.len() == 1 || p[1] == '/') {
        seq![(1int, Seq::<char>::empty())]
    } else {
        seq![]
    }
}

/// The components of `p` from index `i`, `cur` being the text read so far and
/// `acc` the components before it.
pub open spec fn components_from_index(p: Seq<char>, i: int, cur: Seq<char>, acc: Seq<Component>) -> Seq<Component>
    decreases p.len() - i,
{
    if i < 0 || i >= p.len() {
        acc + component_of(cur)
    } else if p[i] == '/' {
        components_from_index(p, i + 1, seq![], acc + component_of(cur))
    } else {
        components_from_index(p, i + 1, cur.push(p[i]), acc)
    }
}

/// `p.components()`: `/a//b/./c/` has the root, `a`, `b` and `c`.
pub open spec fn components(p: Seq<char>) -> Seq<Component> {
    components_from_index(p, 0, seq![], head_component(p))
}

pub open spec fn components_view(v: Seq<(u8, Vec<char>)>) -> Seq<Component> {
    v.map_values(|e: (u8, Vec<char>)| (e.0 as int, e.1@))
}

fn push_component_of(out: &mut Vec<(u8, Vec<char>)>, c: Vec<char>)
    ensures
        components_view(final(out)@) == components_view(old(out)@) + component_of(c@),
{
    let ghost before = components_view(out@);
    let dot = c.len() == 1 && c[0] == '.';
    let dotdot = c.len() == 2 && c[0] == '.' && c[1] == '.';
    proof {
        if dot {
            assert(c@ =~= seq!['.']);
        } else if c@.len() == 1 {
            assert(c@[0] != seq!['.'][0]);
        } else {
            assert(c@.len() != seq!['.'].len());
        }
        if dotdot {
            assert(c@ =~= seq!['.', '.']);
        } else if c@.len() == 2 {
            assert(c@[0] != seq!['.', '.'][0] || c@[1] != seq!['.', '.'][1]);
        } else {
            assert(c@.len() != seq!['.', '.'].len());
        }
    }
    if c.len() == 0 || dot {
        assert(before + component_of(c@) =~= before);
        return;
    }
    if dotdot {
        out.push((2u8, Vec::new()));
        proof {
            assert(components_view(out@) =~= before + component_of(c@));
        }
        return;
    }
    let ghost cv = c@;
    out.push((3u8, c));
    proof {
        assert(components_view(out@) =~= before + component_of(cv));
    }
}

/// [`components`] of `p`.
pub fn components_exec(p: &[char]) -> (r: Vec<(u8, Vec<char>)>)
    ensures
        components_view(r@) == components(p@),
{
    let mut out: Vec<(u8, Vec<char>)> = Vec::new();
    if p.len() > 0 && p[0] == '/' {
        out.push((0u8, Vec::new()));
    } else if p.len() > 0 && p[0] == '.' && (p.len() == 1 || p[1] == '/') {
        out.push((1u8, Vec::new()));
    }
    proof {
        assert(components_view(out@) =~= head_component(p@));
    }
    let mut cur: Vec<char> = Vec::new();
    let mut i: usize = 0;
    proof {
        assert(cur@ =~= Seq::<char>::empty());
    }
    while i < p.len()
        invariant
            0 <= i <= p.len(),
            components(p@) == components_from_index(p@, i as int, cur@, components_view(out@)),
        decreases p.len() - i,
    {
        if p[i] == '/' {
            let c = cur;
            cur = Vec::new();
            push_component_of(&mut out, c);
            proof {
                assert(cur@ =~= Seq::<char>::empty());
            }
        } else {
            cur.push(p[i]);
        }
        i = i + 1;
    }
    push_component_of(&mut out, cur);
    out
}

/// The components `cs` separated by `/`.
pub open spec fn join_components(cs: Seq<Seq<char>>) -> Seq<char>
    decreases cs.len(),
{
    if cs.len() == 0 {
        seq![]
    } else if cs.len() == 1 {
        cs[0]
    } else {
        join_components(cs.drop_last()) + seq!['/'] + cs.last()
    }
}

/// `p` spelled plainly: its [`path_key`] components separated by single `/`,
/// after a `/` when it is absolute; `.` for a relative path with none left.
pub open spec fn normalize(p: Seq<char>) -> Seq<char> {
    let k = path_key(p);
    if k.0 {
        seq!['/'] + join_components(k.1)
    } else if k.1.len() == 0 {
        "."@
    } else {
        join_components(k.1)
    }
}

/// A resolved component stack: no empty, `.` or `/`-holding component, `..`
/// only in a leading run, and none at all under the root.
pub open spec fn normal_stack(st: Seq<Seq<char>>, abs: bool) -> bool {
    &&& forall|i: int| 0 <= i < st.len() ==> (#[trigger] st[i]).len() > 0 && st[i] != seq!['.'] && !st[i].contains('/')
    &&& forall|i: int, j: int| 0 <= i < j < st.len() && #[trigger] st[j] == seq!['.', '.'] ==> #[trigger] st[i] == seq!['.', '.']
    &&& abs ==> forall|i: int| 0 <= i < st.len() ==> #[trigger] st[i] != seq!['.', '.']
}

proof fn lemma_push_component_normal(st: Seq<Seq<char>>, c: Seq<char>, abs: bool)
    requires
        normal_stack(st, abs),
        !c.contains('/'),
    ensures
        normal_stack(push_component(st, c, abs), abs),
{
    let r = push_component(st, c, abs);
    if c.len() == 0 || c == seq!['.'] {
    } else if c == seq!['.', '.'] {
        if st.len() > 0 && st.last() != seq!['.', '.'] {
            assert forall|i: int| 0 <= i < r.len() implies r[i] == st[i] by {}
        } else if abs {
        } else {
            assert forall|i: int, j: int| 0 <= i < j < r.len() && #[trigger] r[j] == seq!['.', '.'] implies #[trigger] r[i]
                == seq!['.', '.'] by {
                assert(r[i] == st[i]);
                if j < st.len() {
                    assert(r[j] == st[j]);
                } else if st.len() > 0 {
                    assert(st[st.len() - 1] == seq!['.', '.']);
                }
            }
            assert forall|i: int| 0 <= i < r.len() implies (#[trigger] r[i]).len() > 0 && r[i] != seq!['.'] && !r[i].contains('/') by {
                if i < st.len() {
                    assert(r[i] == st[i]);
                } else {
                    assert(r[i] == c);
                    assert(c.len() == 2);
                }
            }
        }
    } else {
        assert forall|i: int, j: int| 0 <= i < j < r.len() && #[trigger] r[j] == seq!['.', '.'] implies #[trigger] r[i]
            == seq!['.', '.'] by {
            assert(r[i] == st[i]);
            assert(j < st.len());
            assert(r[j] == st[j]);
        }
    }
}

proof fn lemma_components_from_normal(p: Seq<char>, i: int, cur: Seq<char>, st: Seq<Seq<char>>, abs: bool)
    requires
        normal_stack(st, abs),
        !cur.contains('/'),
    ensures
        normal_stack(components_from(p, i, cur, st, abs), abs),
    decreases p.len() - i,
{
    if i < 0 || i >= p.len() {
        lemma_push_component_normal(st, cur, abs);
    } else if p[i] == '/' {
        lemma_push_component_normal(st, cur, abs);
        lemma_components_from_normal(p, i + 1, seq![], push_component(st, cur, abs), abs);
    } else {
        assert(!cur.push(p[i]).contains('/')) by {
            if cur.push(p[i]).contains('/') {
                let k = choose|k: int| 0 <= k < cur.push(p[i]).len() && cur.push(p[i])[k] == '/';
                if k < cur.len() {
                    assert(cur[k] == '/');
                }
            }
        }
        lemma_components_from_normal(p, i + 1, cur.push(p[i]), st, abs);
    }
}

/// Reading a `/`-free text from index `i` pushes what was read, all at once.
proof fn lemma_components_plain(t: Seq<char>, i: int, cur: Seq<char>, st: Seq<Seq<char>>, abs: bool)
    requires
        0 <= i <= t.len(),
        !t.contains('/'),
    ensures
        components_from(t, i, cur, st, abs) == push_component(st, cur + t.skip(i), abs),
    decreases t.len() - i,
{
    if i == t.len() {
        assert(cur + t.skip(i) =~= cur);
    } else {
        assert(t[i] != '/');
        lemma_components_plain(t, i + 1, cur.push(t[i]), st, abs);
        assert(cur.push(t[i]) + t.skip(i + 1) =~= cur + t.skip(i));
    }
}

proof fn lemma_components_shift(x: Seq<char>, b: Seq<char>, j: int, cur: Seq<char>, st: Seq<Seq<char>>, abs: bool)
    requires
        0 <= j <= b.len(),
    ensures
        components_from(x + b, x.len() + j, cur, st, abs) == components_from(b, j, cur, st, abs),
    decreases b.len() - j,
{
    if j < b.len() {
        assert((x + b)[x.len() + j] == b[j]);
        if b[j] == '/' {
            lemma_components_shift(x, b, j + 1, seq![], push_component(st, cur, abs), abs);
        } else {
            lemma_components_shift(x, b, j + 1, cur.push(b[j]), st, abs);
        }
    }
}

proof fn lemma_components_split(a: Seq<char>, b: Seq<char>, i: int, cur: Seq<char>, st: Seq<Seq<char>>, abs: bool)
    requires
        0 <= i <= a.len(),
    ensures
        components_from(a + seq!['/'] + b, i, cur, st, abs) == components_from(
            b,
            0,
            seq![],
            components_from(a, i, cur, st, abs),
            abs,
        ),
    decreases a.len() - i,
{
    let s = a + seq!['/'] + b;
    if i == a.len() {
        assert(s[i] == '/');
        let x = a + seq!['/'];
        assert(s =~= x + b);
        lemma_components_shift(x, b, 0, seq![], push_component(st, cur, abs), abs);
    } else {
        assert(s[i] == a[i]);
        if a[i] == '/' {
            lemma_components_split(a, b, i + 1, seq![], push_component(st, cur, abs), abs);
        } else {
            lemma_components_split(a, b, i + 1, cur.push(a[i]), st, abs);
        }
    }
}

proof fn lemma_join_components_read_back(cs: Seq<Seq<char>>, abs: bool)
    requires
        normal_stack(cs, abs),
        cs.len() > 0,
    ensures
        components_from(join_components(cs), 0, seq![], seq![], abs) == cs,
    decreases cs.len(),
{
    let l = cs.last();
    assert(!l.contains('/'));
    if cs.len() == 1 {
        lemma_components_plain(l, 0, seq![], seq![], abs);
        assert(Seq::<char>::empty() + l.skip(0) =~= l);
        assert(seq![l] =~= cs);
    } else {
        let d = cs.drop_last();
        assert(normal_stack(d, abs)) by {
            assert forall|i: int| 0 <= i < d.len() implies d[i] == cs[i] by {}
            assert forall|i: int, j: int| 0 <= i < j < d.len() && #[trigger] d[j] == seq!['.', '.'] implies #[trigger] d[i]
                == seq!['.', '.'] by {
                assert(d[i] == cs[i] && d[j] == cs[j]);
            }
        }
        lemma_join_components_read_back(d, abs);
        lemma_components_split(join_components(d), l, 0, seq![], seq![], abs);
        lemma_components_plain(l, 0, seq![], d, abs);
        assert(Seq::<char>::empty() + l.skip(0) =~= l);
        if l == seq!['.', '.'] {
            assert(d.last() == seq!['.', '.']) by {
                assert(cs[cs.len() - 2] == d.last());
            }
        }
        assert(d.push(l) =~= cs);
    }
}

/// Spelling a path plainly keeps the file it names: [`normalize`]`(p)` and `p`
/// name the same file.
pub proof fn lemma_normalize_names_the_same_file(p: Seq<char>)
    ensures
        same_file(normalize(p), p),
{
    let k = path_key(p);
    let abs = k.0;
    let cs = k.1;
    assert(normal_stack(Seq::<Seq<char>>::empty(), abs));
    lemma_components_from_normal(p, 0, seq![], seq![], abs);
    let n = normalize(p);
    if abs {
        let j = join_components(cs);
        assert(n =~= seq!['/'] + j);
        assert(n[0] == '/');
        lemma_components_shift(seq!['/'], j, 0, seq![], seq![], abs);
        assert(push_component(Seq::<Seq<char>>::empty(), seq![], abs) =~= Seq::<Seq<char>>::empty());
        if cs.len() > 0 {
            lemma_join_components_read_back(cs, abs);
        } else {
            assert(j =~= Seq::<char>::empty());
            assert(cs =~= Seq::<Seq<char>>::empty());
        }
    } else if cs.len() == 0 {
        reveal_strlit(".");
        assert(n =~= seq!['.']);
        assert(components_from(n, 1, seq!['.'], seq![], false) == push_component(seq![], seq!['.'], false));
        assert(cs =~= Seq::<Seq<char>>::empty());
    } else {
        lemma_join_components_read_back(cs, abs);
        assert(n[0] != '/') by {
            lemma_join_first(cs);
        }
    }
}

proof fn lemma_join_first(cs: Seq<Seq<char>>)
    requires
        cs.len() > 0,
        cs[0].len() > 0,
    ensures
        join_components(cs).len() > 0,
        join_components(cs)[0] == cs[0][0],
    decreases cs.len(),
{
    if cs.len() > 1 {
        let d = cs.drop_last();
        assert(d[0] == cs[0]);
        lemma_join_first(d);
    }
}

/// `p` spelled plainly (see [`normalize`]).
pub fn normalize_exec(p: &str) -> (r: String)
    ensures
        r@ == normalize(p@),
{
    let pc = to_chars(p);
    let (abs, cs) = path_key_exec(pc.as_slice());
    let ghost cv = crate::text::vviews(cs@);
    if !abs && cs.len() == 0 {
        proof {
            assert(cv.len() == 0);
        }
        return ".".to_owned();
    }
    let mut out: Vec<char> = Vec::new();
    if abs {
        out.push('/');
    }
    let ghost base = out@;
    let mut i: usize = 0;
    proof {
        assert(out@ =~= base + join_components(cv.take(0)));
    }
    while i < cs.len()
        invariant
            0 <= i <= cs.len(),
            cv == crate::text::vviews(cs@),
            out@ == base + join_components(cv.take(i as int)),
        decreases cs.len() - i,
    {
        let ghost before = out@;
        if i > 0 {
            out.push('/');
        }
        crate::text::extend_chars(&mut out, cs[i].as_slice());
        proof {
            let t = cv.take(i + 1);
            assert(t.drop_last() =~= cv.take(i as int));
            assert(t.last() == cs@[i as int]@);
            if i == 0 {
                assert(join_components(t) == t[0]);
                assert(out@ =~= base + join_components(t));
            } else {
                assert(out@ =~= base + join_components(t));
            }
        }
        i = i + 1;
    }
    proof {
        assert(cv.take(cs@.len() as int) =~= cv);
        if abs {
            assert(base =~= seq!['/']);
        } else {
            assert(base =~= Seq::<char>::empty());
            assert(out@ =~= join_components(cv));
        }
    }
    from_chars(out.as_slice())
}

/// `same_file_exec` on strings.
pub fn same_file_str(a: &str, b: &str) -> (r: bool)
    ensures
        r == same_file(a@, b@),
{
    same_file_exec(to_chars(a).as_slice(), to_chars(b).as_slice())
}

} // verus!
