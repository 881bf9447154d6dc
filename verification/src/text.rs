//! Character-level text primitives shared by every scanner in the crate.
//!
//! Text is modelled as `Seq<char>` (the view of a `str`/`String`). The exec
//! helpers here work on `Vec<char>` / `&[char]` and are specified against the
//! spec functions of this module: `lines` mirrors `str::lines`, `words` mirrors
//! `str::split_whitespace`, `is_ws` is exactly the Unicode `White_Space` set that
//! `char::is_whitespace` tests.

use vstd::prelude::*;

verus! {

// ---------------------------------------------------------------------------
// Character classes
// ---------------------------------------------------------------------------

/// The Unicode `White_Space` property, i.e. `char::is_whitespace`.
pub open spec fn is_ws(c: char) -> bool {
    let u = c as u32;
    ||| 0x09 <= u <= 0x0D
    ||| u == 0x20
    ||| u == 0x85
    ||| u == 0xA0
    ||| u == 0x1680
    ||| 0x2000 <= u <= 0x200A
    ||| u == 0x2028
    ||| u == 0x2029
    ||| u == 0x202F
    ||| u == 0x205F
    ||| u == 0x3000
}

pub open spec fn is_ascii_alpha(c: char) -> bool {
    ('a' <= c <= 'z') || ('A' <= c <= 'Z')
}

pub open spec fn is_ascii_digit(c: char) -> bool {
    '0' <= c <= '9'
}

pub open spec fn is_ascii_alnum(c: char) -> bool {
    is_ascii_alpha(c) || is_ascii_digit(c)
}

/// `[A-Za-z0-9_]`: a character that may continue a GLSL/JS identifier.
pub open spec fn is_word(c: char) -> bool {
    is_ascii_alnum(c) || c == '_'
}

/// `[A-Za-z_][A-Za-z0-9_]*`.
pub open spec fn is_ident(s: Seq<char>) -> bool {
    &&& s.len() > 0
    &&& (is_ascii_alpha(s[0]) || s[0] == '_')
    &&& forall|i: int| 0 <= i < s.len() ==> #[trigger] is_word(s[i])
}

pub open spec fn lower(c: char) -> char {
    if 'A' <= c <= 'Z' {
        ((c as u32) + 32) as char
    } else {
        c
    }
}

pub open spec fn lower_seq(s: Seq<char>) -> Seq<char> {
    s.map_values(|c: char| lower(c))
}

pub fn is_ws_exec(c: char) -> (r: bool)
    ensures
        r == is_ws(c),
{
    let u = c as u32;
    (0x09 <= u && u <= 0x0D) || u == 0x20 || u == 0x85 || u == 0xA0 || u == 0x1680 || (0x2000
        <= u && u <= 0x200A) || u == 0x2028 || u == 0x2029 || u == 0x202F || u == 0x205F || u
        == 0x3000
}

pub fn is_ascii_alpha_exec(c: char) -> (r: bool)
    ensures
        r == is_ascii_alpha(c),
{
    ('a' <= c && c <= 'z') || ('A' <= c && c <= 'Z')
}

pub fn is_ascii_digit_exec(c: char) -> (r: bool)
    ensures
        r == is_ascii_digit(c),
{
    '0' <= c && c <= '9'
}

pub fn is_word_exec(c: char) -> (r: bool)
    ensures
        r == is_word(c),
{
    is_ascii_alpha_exec(c) || is_ascii_digit_exec(c) || c == '_'
}

pub fn is_ident_exec(s: &[char]) -> (r: bool)
    ensures
        r == is_ident(s@),
{
    if s.len() == 0 {
        return false;
    }
    if !(is_ascii_alpha_exec(s[0]) || s[0] == '_') {
        return false;
    }
    let mut i: usize = 0;
    while i < s.len()
        invariant
            0 <= i <= s.len(),
            forall|j: int| 0 <= j < i ==> #[trigger] is_word(s@[j]),
        decreases s.len() - i,
    {
        if !is_word_exec(s[i]) {
            return false;
        }
        i = i + 1;
    }
    true
}

pub fn lower_exec(c: char) -> (r: char)
    ensures
        r == lower(c),
{
    if 'A' <= c && c <= 'Z' {
        let u = (c as u32) + 32;
        assert(0x61 <= u <= 0x7A);
        // The shifted code point is an ASCII lowercase letter.
        char_from_ascii(u)
    } else {
        c
    }
}

/// The `char` with ASCII code `u`.
fn char_from_ascii(u: u32) -> (r: char)
    requires
        u < 0x80,
    ensures
        r == u as char,
{
    let b = u as u8;
    b as char
}

pub fn lower_vec(s: &[char]) -> (r: Vec<char>)
    ensures
        r@ == lower_seq(s@),
{
    let mut out: Vec<char> = Vec::new();
    let mut i: usize = 0;
    while i < s.len()
        invariant
            0 <= i <= s.len(),
            out@ == lower_seq(s@.take(i as int)),
        decreases s.len() - i,
    {
        out.push(lower_exec(s[i]));
        proof {
            assert(s@.take(i + 1) == s@.take(i as int).push(s@[i as int]));
        }
        i = i + 1;
    }
    assert(s@.take(s.len() as int) == s@);
    out
}

// ---------------------------------------------------------------------------
// Conversions between `str`/`String` and `Vec<char>`
// ---------------------------------------------------------------------------

/// The characters of `s`, in order.
pub fn to_chars(s: &str) -> (r: Vec<char>)
    ensures
        r@ == s@,
{
    let mut out: Vec<char> = Vec::new();
    proof {
        vstd::string::axiom_spec_iter(s);
    }
    for c in it: s.chars()
        invariant
            it.seq() == s@,
            out@ == s@.take(it.index()),
    {
        proof {
            assert(s@.take(it.index() + 1) == s@.take(it.index()).push(c));
        }
        out.push(c);
    }
    assert(out@ =~= s@);
    out
}

/// `String::push`: append one character.
#[verifier::external_body]
pub(crate) fn push_char(s: &mut String, c: char)
    ensures
        final(s)@ == old(s)@.push(c),
{
    s.push(c);
}

/// A `String` holding exactly the characters of `v`.
pub fn from_chars(v: &[char]) -> (r: String)
    ensures
        r@ == v@,
{
    let mut out = String::new();
    let mut i: usize = 0;
    while i < v.len()
        invariant
            0 <= i <= v.len(),
            out@ == v@.take(i as int),
        decreases v.len() - i,
    {
        push_char(&mut out, v[i]);
        proof {
            assert(v@.take(i + 1) == v@.take(i as int).push(v@[i as int]));
        }
        i = i + 1;
    }
    assert(out@ =~= v@);
    out
}

/// `String` copy of a `str`.
pub fn to_string(s: &str) -> (r: String)
    ensures
        r@ == s@,
{
    s.to_owned()
}

/// Append all of `v` to `out`.
pub fn extend_chars(out: &mut Vec<char>, v: &[char])
    ensures
        final(out)@ == old(out)@ + v@,
{
    let ghost start = out@;
    let mut i: usize = 0;
    while i < v.len()
        invariant
            0 <= i <= v.len(),
            out@ == start + v@.take(i as int),
        decreases v.len() - i,
    {
        out.push(v[i]);
        proof {
            assert(v@.take(i + 1) == v@.take(i as int).push(v@[i as int]));
        }
        i = i + 1;
    }
    assert(v@.take(v.len() as int) == v@);
}

/// Copy of `s[lo..hi]`.
pub fn slice_vec(s: &[char], lo: usize, hi: usize) -> (r: Vec<char>)
    requires
        lo <= hi <= s.len(),
    ensures
        r@ == s@.subrange(lo as int, hi as int),
{
    let mut out: Vec<char> = Vec::new();
    let mut i: usize = lo;
    while i < hi
        invariant
            lo <= i <= hi <= s.len(),
            out@ == s@.subrange(lo as int, i as int),
        decreases hi - i,
    {
        out.push(s[i]);
        proof {
            assert(s@.subrange(lo as int, i + 1) == s@.subrange(lo as int, i as int).push(s@[i as int]));
        }
        i = i + 1;
    }
    out
}

// ---------------------------------------------------------------------------
// Searching
// ---------------------------------------------------------------------------

/// `p` occurs in `s` starting at index `i`.
pub open spec fn occurs_at(s: Seq<char>, p: Seq<char>, i: int) -> bool {
    0 <= i && i + p.len() <= s.len() && s.subrange(i, i + p.len()) == p
}

pub open spec fn contains(s: Seq<char>, p: Seq<char>) -> bool {
    exists|i: int| occurs_at(s, p, i)
}

pub open spec fn starts_with(s: Seq<char>, p: Seq<char>) -> bool {
    occurs_at(s, p, 0)
}

pub open spec fn ends_with(s: Seq<char>, p: Seq<char>) -> bool {
    p.len() <= s.len() && occurs_at(s, p, s.len() - p.len())
}

/// The least index `>= from` at which `p` occurs, as `str::find` on `s[from..]`
/// (offset back into `s`).
pub open spec fn find_from(s: Seq<char>, p: Seq<char>, from: int) -> Option<int> {
    if exists|i: int| from <= i && occurs_at(s, p, i) {
        Some(choose|i: int| from <= i && occurs_at(s, p, i) && forall|j: int| from <= j < i ==> !occurs_at(s, p, j))
    } else {
        None
    }
}

pub fn occurs_at_exec(s: &[char], p: &[char], i: usize) -> (r: bool)
    ensures
        r == occurs_at(s@, p@, i as int),
{
    if i > s.len() || p.len() > s.len() - i {
        return false;
    }
    let mut k: usize = 0;
    while k < p.len()
        invariant
            0 <= k <= p.len(),
            i + p.len() <= s.len(),
            forall|j: int| 0 <= j < k ==> s@[i + j] == p@[j],
        decreases p.len() - k,
    {
        if s[i + k] != p[k] {
            assert(s@.subrange(i as int, i + p.len())[k as int] != p@[k as int]);
            return false;
        }
        k = k + 1;
    }
    assert(s@.subrange(i as int, i + p.len()) =~= p@);
    true
}

/// How many bytes `c` takes in UTF-8.
pub open spec fn utf8_width(c: char) -> int {
    if (c as u32) < 0x80 {
        1
    } else if (c as u32) < 0x800 {
        2
    } else if (c as u32) < 0x10000 {
        3
    } else {
        4
    }
}

/// How many bytes `s` takes in UTF-8.
pub open spec fn utf8_len(s: Seq<char>) -> int
    decreases s.len(),
{
    if s.len() == 0 {
        0
    } else {
        utf8_len(s.drop_last()) + utf8_width(s.last())
    }
}

/// The UTF-8 length of the first `n` characters of `s`.
pub fn utf8_len_exec(s: &[char], n: usize) -> (r: u64)
    requires
        n <= s.len(),
        s.len() < u32::MAX,
    ensures
        r == utf8_len(s@.take(n as int)),
        r <= 4 * n,
{
    let mut r: u64 = 0;
    let mut i: usize = 0;
    proof {
        assert(s@.take(0) =~= Seq::<char>::empty());
    }
    while i < n
        invariant
            0 <= i <= n <= s.len(),
            s.len() < u32::MAX,
            r == utf8_len(s@.take(i as int)),
            r <= 4 * i,
        decreases n - i,
    {
        let c = s[i];
        let w: u64 = if (c as u32) < 0x80 {
            1
        } else if (c as u32) < 0x800 {
            2
        } else if (c as u32) < 0x10000 {
            3
        } else {
            4
        };
        proof {
            assert(s@.take(i + 1).drop_last() =~= s@.take(i as int));
            assert(s@.take(i + 1).last() == c);
        }
        r = r + w;
        i = i + 1;
    }
    r
}

/// Least `i >= from` where `p` occurs in `s`.
pub fn find_from_exec(s: &[char], p: &[char], from: usize) -> (r: Option<usize>)
    ensures
        match r {
            Some(i) => {
                &&& from <= i
                &&& occurs_at(s@, p@, i as int)
                &&& forall|j: int| from <= j < i ==> !occurs_at(s@, p@, j)
            },
            None => forall|j: int| from <= j ==> !occurs_at(s@, p@, j),
        },
        r matches Some(i) ==> find_from(s@, p@, from as int) == Some(i as int),
        r is None ==> find_from(s@, p@, from as int) is None,
{
    let mut i: usize = from;
    if from > s.len() {
        return None;
    }
    loop
        invariant
            from <= i <= s.len(),
            forall|j: int| from <= j < i ==> !occurs_at(s@, p@, j),
        decreases s.len() - i,
    {
        if occurs_at_exec(s, p, i) {
            proof {
                let w = choose|k: int| from <= k && occurs_at(s@, p@, k) && forall|j: int| from <= j < k ==> !occurs_at(s@, p@, j);
                assert(from <= i && occurs_at(s@, p@, i as int) && forall|j: int| from <= j < i ==> !occurs_at(s@, p@, j));
                if w < i {
                } else if w > i {
                }
            }
            return Some(i);
        }
        if i == s.len() {
            return None;
        }
        i = i + 1;
    }
}

pub fn contains_exec(s: &[char], p: &[char]) -> (r: bool)
    ensures
        r == contains(s@, p@),
{
    match find_from_exec(s, p, 0) {
        Some(i) => true,
        None => {
            assert(forall|j: int| !occurs_at(s@, p@, j));
            false
        },
    }
}

pub fn starts_with_exec(s: &[char], p: &[char]) -> (r: bool)
    ensures
        r == starts_with(s@, p@),
{
    occurs_at_exec(s, p, 0)
}

pub fn ends_with_exec(s: &[char], p: &[char]) -> (r: bool)
    ensures
        r == ends_with(s@, p@),
{
    if p.len() > s.len() {
        false
    } else {
        occurs_at_exec(s, p, s.len() - p.len())
    }
}

proof fn lemma_min_occurrence(s: Seq<char>, p: Seq<char>, from: int, k: int)
    requires
        from <= k,
        occurs_at(s, p, k),
    ensures
        exists|i: int| from <= i <= k && occurs_at(s, p, i) && forall|j: int| from <= j < i ==> !occurs_at(s, p, j),
    decreases k - from,
{
    if exists|j: int| from <= j < k && occurs_at(s, p, j) {
        let j = choose|j: int| from <= j < k && occurs_at(s, p, j);
        lemma_min_occurrence(s, p, from, j);
    } else {
        assert(forall|j: int| from <= j < k ==> !occurs_at(s, p, j));
    }
}

/// What `find_from` gives: the least occurrence at or after `from`, if any.
pub proof fn lemma_find_from(s: Seq<char>, p: Seq<char>, from: int)
    ensures
        match find_from(s, p, from) {
            Some(i) => from <= i && occurs_at(s, p, i) && i + p.len() <= s.len() && forall|j: int|
                from <= j < i ==> !occurs_at(s, p, j),
            None => forall|j: int| from <= j ==> !occurs_at(s, p, j),
        },
{
    if exists|i: int| from <= i && occurs_at(s, p, i) {
        let k = choose|i: int| from <= i && occurs_at(s, p, i);
        lemma_min_occurrence(s, p, from, k);
    }
}

/// The last occurrence of `p` starting below `k`.
pub open spec fn rfind_below(s: Seq<char>, p: Seq<char>, k: int) -> Option<int>
    decreases k,
{
    if k <= 0 {
        None
    } else if occurs_at(s, p, k - 1) {
        Some(k - 1)
    } else {
        rfind_below(s, p, k - 1)
    }
}

/// The last occurrence of `p` in `s` (`str::rfind`).
pub open spec fn rfind(s: Seq<char>, p: Seq<char>) -> Option<int> {
    rfind_below(s, p, s.len() + 1int)
}

pub proof fn lemma_rfind_below(s: Seq<char>, p: Seq<char>, k: int)
    ensures
        match rfind_below(s, p, k) {
            Some(i) => 0 <= i < k && occurs_at(s, p, i) && i + p.len() <= s.len(),
            None => forall|j: int| 0 <= j < k ==> !occurs_at(s, p, j),
        },
    decreases k,
{
    if k > 0 && !occurs_at(s, p, k - 1) {
        lemma_rfind_below(s, p, k - 1);
    }
}

pub fn rfind_exec(s: &[char], p: &[char]) -> (r: Option<usize>)
    ensures
        match r {
            Some(i) => rfind(s@, p@) == Some(i as int),
            None => rfind(s@, p@) is None,
        },
{
    if p.len() > s.len() {
        proof {
            lemma_rfind_below(s@, p@, s@.len() + 1int);
            assert(rfind(s@, p@) is None) by {
                if rfind(s@, p@) is Some {
                    assert(false);
                }
            }
        }
        return None;
    }
    let top: usize = s.len() - p.len();
    proof {
        lemma_rfind_below_step(s@, p@, top + 1, s@.len() + 1int);
    }
    if occurs_at_exec(s, p, top) {
        return Some(top);
    }
    let mut k: usize = top;
    while k > 0
        invariant
            0 <= k <= s.len() + 1,
            rfind(s@, p@) == rfind_below(s@, p@, k as int),
        decreases k,
    {
        if occurs_at_exec(s, p, k - 1) {
            return Some(k - 1);
        }
        k = k - 1;
    }
    None
}

proof fn lemma_rfind_below_step(s: Seq<char>, p: Seq<char>, k: int, m: int)
    requires
        0 <= k <= m,
        forall|j: int| k <= j < m ==> !occurs_at(s, p, j),
    ensures
        rfind_below(s, p, m) == rfind_below(s, p, k),
    decreases m - k,
{
    if m > k {
        lemma_rfind_below_step(s, p, k, m - 1);
    }
}

// ---------------------------------------------------------------------------
// Lines (`str::lines`)
// ---------------------------------------------------------------------------

/// Index of the first `c` in `s`, or `s.len()` when there is none.
pub open spec fn index_of(s: Seq<char>, c: char) -> int
    decreases s.len(),
{
    if s.len() == 0 {
        0
    } else if s[0] == c {
        0
    } else {
        1 + index_of(s.drop_first(), c)
    }
}

pub proof fn lemma_index_of(s: Seq<char>, c: char)
    ensures
        0 <= index_of(s, c) <= s.len(),
        index_of(s, c) < s.len() ==> s[index_of(s, c)] == c,
        forall|j: int| 0 <= j < index_of(s, c) ==> s[j] != c,
    decreases s.len(),
{
    if s.len() > 0 && s[0] != c {
        lemma_index_of(s.drop_first(), c);
        assert forall|j: int| 0 <= j < index_of(s, c) implies s[j] != c by {
            if j > 0 {
                assert(s[j] == s.drop_first()[j - 1]);
            }
        }
    }
}

pub proof fn lemma_index_of_is(s: Seq<char>, c: char, k: int)
    requires
        0 <= k <= s.len(),
        k < s.len() ==> s[k] == c,
        forall|j: int| 0 <= j < k ==> s[j] != c,
    ensures
        index_of(s, c) == k,
    decreases s.len(),
{
    if s.len() > 0 && k > 0 {
        assert forall|j: int| 0 <= j < k - 1 implies s.drop_first()[j] != c by {
            assert(s.drop_first()[j] == s[j + 1]);
        }
        lemma_index_of_is(s.drop_first(), c, k - 1);
    }
}

/// A line with a trailing `\r` (from a `\r\n` ending) removed.
pub open spec fn strip_cr(l: Seq<char>) -> Seq<char> {
    if l.len() > 0 && l.last() == '\r' {
        l.drop_last()
    } else {
        l
    }
}

/// `str::lines`: split on `\n`, drop a `\r` that precedes a `\n`, and yield no
/// trailing empty line for a final line ending.
pub open spec fn lines(s: Seq<char>) -> Seq<Seq<char>>
    decreases s.len(),
{
    if s.len() == 0 {
        seq![]
    } else {
        let k = index_of(s, '\n');
        if k >= s.len() {
            seq![s]
        } else {
            proof {
                lemma_index_of(s, '\n');
            }
            seq![strip_cr(s.take(k))] + lines(s.skip(k + 1))
        }
    }
}

pub open spec fn vviews(v: Seq<Vec<char>>) -> Seq<Seq<char>> {
    v.map_values(|x: Vec<char>| x@)
}

pub proof fn lemma_vviews_push(v: Seq<Vec<char>>, x: Vec<char>)
    ensures
        vviews(v.push(x)) == vviews(v).push(x@),
{
    assert(vviews(v.push(x)) =~= vviews(v).push(x@));
}

/// `lines` of a suffix starting at a line start: one more line, then the rest.
proof fn lemma_lines_step(s: Seq<char>, j: int, k: int)
    requires
        0 <= j <= k < s.len(),
        s[k] == '\n',
        forall|t: int| j <= t < k ==> s[t] != '\n',
    ensures
        lines(s.skip(j)) == seq![strip_cr(s.subrange(j, k))] + lines(s.skip(k + 1)),
{
    let t = s.skip(j);
    assert forall|i: int| 0 <= i < k - j implies t[i] != '\n' by {
        assert(t[i] == s[j + i]);
    }
    lemma_index_of_is(t, '\n', k - j);
    assert(t.take(k - j) == s.subrange(j, k));
    assert(t.skip(k - j + 1) == s.skip(k + 1));
}

proof fn lemma_lines_last(s: Seq<char>, j: int)
    requires
        0 <= j < s.len(),
        forall|t: int| j <= t < s.len() ==> s[t] != '\n',
    ensures
        lines(s.skip(j)) == seq![s.subrange(j, s.len() as int)],
{
    let t = s.skip(j);
    assert forall|i: int| 0 <= i < t.len() implies t[i] != '\n' by {
        assert(t[i] == s[j + i]);
    }
    lemma_index_of_is(t, '\n', t.len() as int);
    assert(t == s.subrange(j, s.len() as int));
}

/// `str::lines`, on characters.
pub fn split_lines(s: &[char]) -> (r: Vec<Vec<char>>)
    ensures
        vviews(r@) == lines(s@),
{
    let mut out: Vec<Vec<char>> = Vec::new();
    let mut j: usize = 0;
    proof {
        assert(s@.skip(0) == s@);
        assert(vviews(out@) =~= Seq::<Seq<char>>::empty());
    }
    while j < s.len()
        invariant
            0 <= j <= s.len(),
            lines(s@) == vviews(out@) + lines(s@.skip(j as int)),
        decreases s.len() - j,
    {
        let mut k: usize = j;
        while k < s.len() && s[k] != '\n'
            invariant
                j <= k <= s.len(),
                forall|t: int| j <= t < k ==> s@[t] != '\n',
            decreases s.len() - k,
        {
            k = k + 1;
        }
        let ghost before = out@;
        if k == s.len() {
            proof {
                lemma_lines_last(s@, j as int);
            }
            let line = slice_vec(s, j, k);
            out.push(line);
            proof {
                lemma_vviews_push(before, line);
                assert(s@.skip(k as int).len() == 0);
                assert(lines(s@.skip(k as int)) =~= Seq::<Seq<char>>::empty());
                assert(vviews(out@) + lines(s@.skip(k as int)) =~= vviews(before) + lines(s@.skip(j as int)));
            }
            j = k;
        } else {
            proof {
                lemma_lines_step(s@, j as int, k as int);
            }
            let end = if k > j && s[k - 1] == '\r' { k - 1 } else { k };
            let line = slice_vec(s, j, end);
            assert(line@ == strip_cr(s@.subrange(j as int, k as int)));
            out.push(line);
            proof {
                lemma_vviews_push(before, line);
                assert(vviews(out@) + lines(s@.skip(k + 1)) =~= vviews(before) + lines(s@.skip(j as int)));
            }
            j = k + 1;
        }
    }
    proof {
        assert(s@.skip(j as int).len() == 0);
        assert(lines(s@.skip(j as int)) =~= Seq::<Seq<char>>::empty());
        assert(vviews(out@) + lines(s@.skip(j as int)) =~= vviews(out@));
    }
    out
}

/// `lines` of a `str`.
pub fn str_lines(s: &str) -> (r: Vec<Vec<char>>)
    ensures
        vviews(r@) == lines(s@),
{
    let cs = to_chars(s);
    split_lines(cs.as_slice())
}

/// Line numbers and columns of `s` fit in a `u32`: it has fewer than
/// `u32::MAX` lines, each shorter than `u32::MAX` characters.
pub open spec fn lines_fit(s: Seq<char>) -> bool {
    &&& lines(s).len() < u32::MAX
    &&& forall|i: int| 0 <= i < lines(s).len() ==> (#[trigger] lines(s)[i]).len() < u32::MAX
}

/// Whether line numbers and columns of `s` fit in a `u32`.
pub fn lines_fit_exec(s: &str) -> (r: bool)
    ensures
        r == lines_fit(s@),
{
    let ls = str_lines(s);
    let ghost lv = vviews(ls@);
    if ls.len() >= 0xFFFF_FFFFusize {
        return false;
    }
    let mut i: usize = 0;
    while i < ls.len()
        invariant
            0 <= i <= ls.len(),
            lv == vviews(ls@),
            lv == lines(s@),
            forall|j: int| 0 <= j < i ==> (#[trigger] lv[j]).len() < u32::MAX,
        decreases ls.len() - i,
    {
        proof {
            assert(lv[i as int] == ls@[i as int]@);
        }
        if ls[i].len() >= 0xFFFF_FFFFusize {
            return false;
        }
        i = i + 1;
    }
    true
}

/// A line never contains `\n`.
pub proof fn lemma_lines_no_newline(s: Seq<char>)
    ensures
        forall|i: int, t: int|
            0 <= i < lines(s).len() && 0 <= t < lines(s)[i].len() ==> #[trigger] lines(s)[i][t] != '\n',
    decreases s.len(),
{
    if s.len() > 0 {
        let k = index_of(s, '\n');
        lemma_index_of(s, '\n');
        if k < s.len() {
            lemma_lines_no_newline(s.skip(k + 1));
            let rest = lines(s.skip(k + 1));
            let first = strip_cr(s.take(k));
            assert forall|i: int, t: int|
                0 <= i < lines(s).len() && 0 <= t < lines(s)[i].len() implies #[trigger] lines(s)[i][t] != '\n' by {
                if i == 0 {
                    assert(lines(s)[0] == first);
                    assert(first[t] == s[t]);
                } else {
                    assert(lines(s)[i] == rest[i - 1]);
                }
            }
        } else {
            assert forall|i: int, t: int|
                0 <= i < lines(s).len() && 0 <= t < lines(s)[i].len() implies #[trigger] lines(s)[i][t] != '\n' by {
                assert(lines(s)[0] == s);
            }
        }
    }
}

/// No line is longer than the text, nor are there more lines than characters.
pub proof fn lemma_lines_shorter(s: Seq<char>)
    ensures
        lines(s).len() <= s.len(),
        forall|i: int| 0 <= i < lines(s).len() ==> (#[trigger] lines(s)[i]).len() <= s.len(),
    decreases s.len(),
{
    if s.len() > 0 {
        let k = index_of(s, '\n');
        lemma_index_of(s, '\n');
        if k < s.len() {
            lemma_lines_shorter(s.skip(k + 1));
            assert forall|i: int| 0 <= i < lines(s).len() implies (#[trigger] lines(s)[i]).len() <= s.len() by {
                if i > 0 {
                    assert(lines(s)[i] == lines(s.skip(k + 1))[i - 1]);
                }
            }
        }
    }
}

/// Each line followed by `\n`: what `lines.join("\n") + "\n"` builds for a
/// non-empty list of lines.
pub open spec fn terminated(ls: Seq<Seq<char>>) -> Seq<char>
    decreases ls.len(),
{
    if ls.len() == 0 {
        seq![]
    } else {
        ls[0] + seq!['\n'] + terminated(ls.drop_first())
    }
}

pub proof fn lemma_terminated_push(ls: Seq<Seq<char>>, x: Seq<char>)
    ensures
        terminated(ls.push(x)) == terminated(ls) + x + seq!['\n'],
    decreases ls.len(),
{
    if ls.len() == 0 {
        assert(ls.push(x).drop_first() =~= Seq::<Seq<char>>::empty());
        assert(terminated(ls.push(x).drop_first()) =~= Seq::<char>::empty());
        assert(terminated(ls) =~= Seq::<char>::empty());
        assert(terminated(ls.push(x)) =~= x + seq!['\n']);
    } else {
        assert(ls.push(x).drop_first() =~= ls.drop_first().push(x));
        lemma_terminated_push(ls.drop_first(), x);
        assert(terminated(ls.push(x)) =~= terminated(ls) + x + seq!['\n']);
    }
}

pub open spec fn no_newline(l: Seq<char>) -> bool {
    forall|t: int| 0 <= t < l.len() ==> #[trigger] l[t] != '\n'
}

/// A non-empty newline-free text is one line.
pub proof fn lemma_lines_single(a: Seq<char>)
    requires
        a.len() > 0,
        no_newline(a),
    ensures
        lines(a) == seq![a],
{
    lemma_index_of_is(a, '\n', a.len() as int);
}

/// Two newline-free texts joined by a newline are two lines (the first not
/// ending in a carriage return, the second not empty).
pub proof fn lemma_lines_pair(a: Seq<char>, b: Seq<char>)
    requires
        no_newline(a),
        no_newline(b),
        b.len() > 0,
        !(a.len() > 0 && a.last() == '\r'),
    ensures
        lines(a + seq!['\n'] + b) == seq![a, b],
{
    let s = a + seq!['\n'] + b;
    assert forall|j: int| 0 <= j < a.len() implies s[j] != '\n' by {
        assert(s[j] == a[j]);
    }
    lemma_index_of_is(s, '\n', a.len() as int);
    assert(s.take(a.len() as int) =~= a);
    assert(s.skip(a.len() + 1int) =~= b);
    lemma_lines_single(b);
}

/// Reading back the lines of a `\n`-terminated list of newline-free lines gives
/// one line per element (a `\r` before a line ending is dropped, as `lines` does).
pub proof fn lemma_lines_terminated(ls: Seq<Seq<char>>)
    requires
        forall|i: int| 0 <= i < ls.len() ==> no_newline(#[trigger] ls[i]),
    ensures
        lines(terminated(ls)) == ls.map_values(|l: Seq<char>| strip_cr(l)),
    decreases ls.len(),
{
    if ls.len() == 0 {
        assert(ls.map_values(|l: Seq<char>| strip_cr(l)) =~= Seq::<Seq<char>>::empty());
    } else {
        let l0 = ls[0];
        let rest = ls.drop_first();
        assert forall|i: int| 0 <= i < rest.len() implies no_newline(#[trigger] rest[i]) by {
            assert(rest[i] == ls[i + 1]);
        }
        lemma_lines_terminated(rest);
        let s = terminated(ls);
        assert(s == l0 + seq!['\n'] + terminated(rest));
        assert forall|j: int| 0 <= j < l0.len() implies s[j] != '\n' by {
            assert(no_newline(ls[0]));
            assert(s[j] == l0[j]);
        }
        assert(s[l0.len() as int] == '\n');
        lemma_index_of_is(s, '\n', l0.len() as int);
        assert(s.take(l0.len() as int) =~= l0);
        assert(s.skip(l0.len() + 1int) =~= terminated(rest));
        assert(lines(s) == seq![strip_cr(l0)] + lines(terminated(rest)));
        assert(lines(s) =~= ls.map_values(|l: Seq<char>| strip_cr(l)));
    }
}

// ---------------------------------------------------------------------------
// Trimming (`str::trim_start` / `trim_end` / `trim`)
// ---------------------------------------------------------------------------

/// Number of leading whitespace characters.
pub open spec fn lead_ws(s: Seq<char>) -> int
    decreases s.len(),
{
    if s.len() > 0 && is_ws(s[0]) {
        1 + lead_ws(s.drop_first())
    } else {
        0
    }
}

/// Number of trailing whitespace characters.
pub open spec fn trail_ws(s: Seq<char>) -> int
    decreases s.len(),
{
    if s.len() > 0 && is_ws(s.last()) {
        1 + trail_ws(s.drop_last())
    } else {
        0
    }
}

pub open spec fn trim_start(s: Seq<char>) -> Seq<char> {
    s.skip(lead_ws(s))
}

pub open spec fn trim_end(s: Seq<char>) -> Seq<char> {
    s.take(s.len() - trail_ws(s))
}

pub open spec fn trim(s: Seq<char>) -> Seq<char> {
    trim_end(trim_start(s))
}

pub proof fn lemma_lead_ws(s: Seq<char>, k: int)
    requires
        0 <= k <= s.len(),
        forall|j: int| 0 <= j < k ==> is_ws(#[trigger] s[j]),
        k < s.len() ==> !is_ws(s[k]),
    ensures
        lead_ws(s) == k,
    decreases s.len(),
{
    if k > 0 {
        assert forall|j: int| 0 <= j < k - 1 implies is_ws(#[trigger] s.drop_first()[j]) by {
            assert(s.drop_first()[j] == s[j + 1]);
        }
        lemma_lead_ws(s.drop_first(), k - 1);
    }
}

pub proof fn lemma_trail_ws(s: Seq<char>, k: int)
    requires
        0 <= k <= s.len(),
        forall|j: int| s.len() - k <= j < s.len() ==> is_ws(#[trigger] s[j]),
        k < s.len() ==> !is_ws(s[s.len() - k - 1]),
    ensures
        trail_ws(s) == k,
    decreases s.len(),
{
    if k > 0 {
        assert forall|j: int| s.drop_last().len() - (k - 1) <= j < s.drop_last().len() implies is_ws(
            #[trigger] s.drop_last()[j],
        ) by {
            assert(s.drop_last()[j] == s[j]);
        }
        lemma_trail_ws(s.drop_last(), k - 1);
    }
}

pub proof fn lemma_lead_ws_bounds(s: Seq<char>)
    ensures
        0 <= lead_ws(s) <= s.len(),
    decreases s.len(),
{
    if s.len() > 0 && is_ws(s[0]) {
        lemma_lead_ws_bounds(s.drop_first());
    }
}

pub proof fn lemma_trail_ws_bounds(s: Seq<char>)
    ensures
        0 <= trail_ws(s) <= s.len(),
    decreases s.len(),
{
    if s.len() > 0 && is_ws(s.last()) {
        lemma_trail_ws_bounds(s.drop_last());
    }
}

/// Index of the first non-whitespace character of `s[lo..hi]` (or `hi`).
pub fn skip_ws_from(s: &[char], lo: usize, hi: usize) -> (r: usize)
    requires
        lo <= hi <= s.len(),
    ensures
        lo <= r <= hi,
        r - lo == lead_ws(s@.subrange(lo as int, hi as int)),
{
    let mut i = lo;
    while i < hi && is_ws_exec(s[i])
        invariant
            lo <= i <= hi <= s.len(),
            forall|j: int| lo <= j < i ==> is_ws(#[trigger] s@[j]),
        decreases hi - i,
    {
        i = i + 1;
    }
    proof {
        let t = s@.subrange(lo as int, hi as int);
        assert forall|j: int| 0 <= j < i - lo implies is_ws(#[trigger] t[j]) by {
            assert(t[j] == s@[lo + j]);
        }
        lemma_lead_ws(t, i - lo);
    }
    i
}

/// Index just past the last non-whitespace character of `s[lo..hi]` (or `lo`).
pub fn trim_end_from(s: &[char], lo: usize, hi: usize) -> (r: usize)
    requires
        lo <= hi <= s.len(),
    ensures
        lo <= r <= hi,
        hi - r == trail_ws(s@.subrange(lo as int, hi as int)),
{
    let mut i = hi;
    while i > lo && is_ws_exec(s[i - 1])
        invariant
            lo <= i <= hi <= s.len(),
            forall|j: int| i <= j < hi ==> is_ws(#[trigger] s@[j]),
        decreases i - lo,
    {
        i = i - 1;
    }
    proof {
        let t = s@.subrange(lo as int, hi as int);
        assert forall|j: int| t.len() - (hi - i) <= j < t.len() implies is_ws(#[trigger] t[j]) by {
            assert(t[j] == s@[lo + j]);
        }
        lemma_trail_ws(t, (hi - i) as int);
    }
    i
}

pub fn trim_start_vec(s: &[char]) -> (r: Vec<char>)
    ensures
        r@ == trim_start(s@),
{
    let i = skip_ws_from(s, 0, s.len());
    assert(s@.subrange(0, s.len() as int) == s@);
    slice_vec(s, i, s.len())
}

pub fn trim_end_vec(s: &[char]) -> (r: Vec<char>)
    ensures
        r@ == trim_end(s@),
{
    let i = trim_end_from(s, 0, s.len());
    assert(s@.subrange(0, s.len() as int) == s@);
    slice_vec(s, 0, i)
}

pub fn trim_vec(s: &[char]) -> (r: Vec<char>)
    ensures
        r@ == trim(s@),
{
    let a = trim_start_vec(s);
    trim_end_vec(a.as_slice())
}

// ---------------------------------------------------------------------------
// Whitespace-separated words (`str::split_whitespace`)
// ---------------------------------------------------------------------------

/// Length of the leading run of non-whitespace characters.
pub open spec fn word_len(s: Seq<char>) -> int
    decreases s.len(),
{
    if s.len() > 0 && !is_ws(s[0]) {
        1 + word_len(s.drop_first())
    } else {
        0
    }
}

pub proof fn lemma_word_len(s: Seq<char>, k: int)
    requires
        0 <= k <= s.len(),
        forall|j: int| 0 <= j < k ==> !is_ws(#[trigger] s[j]),
        k < s.len() ==> is_ws(s[k]),
    ensures
        word_len(s) == k,
    decreases s.len(),
{
    if k > 0 {
        assert forall|j: int| 0 <= j < k - 1 implies !is_ws(#[trigger] s.drop_first()[j]) by {
            assert(s.drop_first()[j] == s[j + 1]);
        }
        lemma_word_len(s.drop_first(), k - 1);
    }
}

pub proof fn lemma_word_len_bounds(s: Seq<char>)
    ensures
        0 <= word_len(s) <= s.len(),
    decreases s.len(),
{
    if s.len() > 0 && !is_ws(s[0]) {
        lemma_word_len_bounds(s.drop_first());
    }
}

/// `str::split_whitespace`: the maximal runs of non-whitespace characters.
pub open spec fn words(s: Seq<char>) -> Seq<Seq<char>>
    decreases s.len(),
{
    if s.len() == 0 {
        seq![]
    } else if is_ws(s[0]) {
        words(s.drop_first())
    } else {
        let k = word_len(s);
        proof {
            lemma_word_len_bounds(s);
            lemma_word_len_bounds(s.drop_first());
        }
        seq![s.take(k)] + words(s.skip(k))
    }
}

proof fn lemma_word_len_props(s: Seq<char>)
    ensures
        forall|j: int| 0 <= j < word_len(s) ==> !is_ws(#[trigger] s[j]),
        word_len(s) < s.len() ==> is_ws(s[word_len(s)]),
    decreases s.len(),
{
    lemma_word_len_bounds(s);
    if s.len() > 0 && !is_ws(s[0]) {
        lemma_word_len_props(s.drop_first());
        assert forall|j: int| 0 <= j < word_len(s) implies !is_ws(#[trigger] s[j]) by {
            if j > 0 {
                assert(s[j] == s.drop_first()[j - 1]);
            }
        }
        lemma_word_len_bounds(s.drop_first());
        if word_len(s) < s.len() {
            assert(word_len(s) == 1 + word_len(s.drop_first()));
            assert(s[word_len(s)] == s.drop_first()[word_len(s.drop_first())]);
        }
    }
}

/// A non-empty whitespace-free text followed by a space is one word.
pub proof fn lemma_words_word_space(w: Seq<char>)
    requires
        w.len() > 0,
        forall|i: int| 0 <= i < w.len() ==> !is_ws(#[trigger] w[i]),
    ensures
        words(w + seq![' ']) == seq![w],
{
    let s = w + seq![' '];
    assert(is_ws(' '));
    assert forall|j: int| 0 <= j < w.len() implies !is_ws(#[trigger] s[j]) by {
        assert(s[j] == w[j]);
    }
    assert(s[w.len() as int] == ' ');
    lemma_word_len(s, w.len() as int);
    lemma_word_len_bounds(s);
    assert(s.take(w.len() as int) =~= w);
    let r = s.skip(w.len() as int);
    assert(r =~= seq![' ']);
    assert(words(r) == words(r.drop_first()));
    assert(r.drop_first() =~= Seq::<char>::empty());
    assert(!is_ws(s[0]));
    assert(words(s) == seq![s.take(word_len(s))] + words(s.skip(word_len(s))));
    assert(words(s) =~= seq![w]);
}

/// Splitting at whitespace: the words of `a + b`, where `a` is empty or ends
/// in whitespace, are the words of `a` followed by those of `b`.
pub proof fn lemma_words_append(a: Seq<char>, b: Seq<char>)
    requires
        a.len() == 0 || is_ws(a.last()),
    ensures
        words(a + b) == words(a) + words(b),
    decreases a.len(),
{
    if a.len() == 0 {
        assert(a + b =~= b);
        assert(words(a) + words(b) =~= words(b));
    } else if is_ws(a[0]) {
        assert((a + b)[0] == a[0]);
        assert((a + b).drop_first() =~= a.drop_first() + b);
        if a.len() > 1 {
            assert(a.drop_first().last() == a.last());
        }
        lemma_words_append(a.drop_first(), b);
        assert(words(a + b) == words((a + b).drop_first()));
        assert(words(a) == words(a.drop_first()));
    } else {
        let k = word_len(a);
        lemma_word_len_props(a);
        lemma_word_len_bounds(a);
        assert(k < a.len()) by {
            if k == a.len() {
                assert(!is_ws(a[a.len() - 1]));
            }
        }
        assert forall|j: int| 0 <= j < k implies !is_ws(#[trigger] (a + b)[j]) by {
            assert((a + b)[j] == a[j]);
        }
        assert((a + b)[k] == a[k]);
        lemma_word_len(a + b, k);
        assert((a + b).take(k) =~= a.take(k));
        assert((a + b).skip(k) =~= a.skip(k) + b);
        assert(a.skip(k).last() == a.last());
        assert((a + b)[0] == a[0]);
        lemma_words_append(a.skip(k), b);
        assert(words(a + b) =~= words(a) + words(b));
    }
}

pub fn split_whitespace(s: &[char]) -> (r: Vec<Vec<char>>)
    ensures
        vviews(r@) == words(s@),
{
    let mut out: Vec<Vec<char>> = Vec::new();
    let mut i: usize = 0;
    proof {
        assert(s@.skip(0) == s@);
        assert(vviews(out@) =~= Seq::<Seq<char>>::empty());
    }
    while i < s.len()
        invariant
            0 <= i <= s.len(),
            words(s@) == vviews(out@) + words(s@.skip(i as int)),
        decreases s.len() - i,
    {
        if is_ws_exec(s[i]) {
            proof {
                assert(s@.skip(i as int).drop_first() == s@.skip(i + 1));
            }
            i = i + 1;
        } else {
            let mut k = i;
            while k < s.len() && !is_ws_exec(s[k])
                invariant
                    i <= k <= s.len(),
                    forall|j: int| i <= j < k ==> !is_ws(#[trigger] s@[j]),
                decreases s.len() - k,
            {
                k = k + 1;
            }
            let ghost before = out@;
            proof {
                let t = s@.skip(i as int);
                assert forall|j: int| 0 <= j < k - i implies !is_ws(#[trigger] t[j]) by {
                    assert(t[j] == s@[i + j]);
                }
                lemma_word_len(t, k - i);
                assert(t.take(k - i) == s@.subrange(i as int, k as int));
                assert(t.skip(k - i) == s@.skip(k as int));
            }
            let w = slice_vec(s, i, k);
            out.push(w);
            proof {
                lemma_vviews_push(before, w);
                assert(vviews(out@) + words(s@.skip(k as int)) =~= vviews(before) + words(s@.skip(i as int)));
            }
            i = k;
        }
    }
    proof {
        assert(s@.skip(i as int).len() == 0);
        assert(vviews(out@) + words(s@.skip(i as int)) =~= vviews(out@));
    }
    out
}

// ---------------------------------------------------------------------------
// Whitespace removal and replacement
// ---------------------------------------------------------------------------

/// `s` with every whitespace character removed (`s.replace(char::is_whitespace, "")`).
pub open spec fn strip_all_ws(s: Seq<char>) -> Seq<char>
    decreases s.len(),
{
    if s.len() == 0 {
        seq![]
    } else if is_ws(s.last()) {
        strip_all_ws(s.drop_last())
    } else {
        strip_all_ws(s.drop_last()).push(s.last())
    }
}

pub fn strip_all_ws_vec(s: &[char]) -> (r: Vec<char>)
    ensures
        r@ == strip_all_ws(s@),
{
    let mut out: Vec<char> = Vec::new();
    let mut i: usize = 0;
    while i < s.len()
        invariant
            0 <= i <= s.len(),
            out@ == strip_all_ws(s@.take(i as int)),
        decreases s.len() - i,
    {
        proof {
            assert(s@.take(i + 1).drop_last() == s@.take(i as int));
        }
        if !is_ws_exec(s[i]) {
            out.push(s[i]);
        }
        i = i + 1;
    }
    assert(s@.take(s.len() as int) == s@);
    out
}

/// `str::replace(pat, rep)` for a non-empty `pat`: every non-overlapping
/// occurrence, scanning left to right, is replaced.
pub open spec fn replace_all(s: Seq<char>, pat: Seq<char>, rep: Seq<char>) -> Seq<char>
    decreases s.len(),
{
    if s.len() == 0 || pat.len() == 0 {
        s
    } else if starts_with(s, pat) {
        rep + replace_all(s.skip(pat.len() as int), pat, rep)
    } else {
        seq![s[0]] + replace_all(s.drop_first(), pat, rep)
    }
}

pub fn replace_all_vec(s: &[char], pat: &[char], rep: &[char]) -> (r: Vec<char>)
    requires
        pat.len() > 0,
    ensures
        r@ == replace_all(s@, pat@, rep@),
{
    let mut out: Vec<char> = Vec::new();
    let mut i: usize = 0;
    proof {
        assert(s@.skip(0) == s@);
    }
    while i < s.len()
        invariant
            0 <= i <= s.len(),
            pat@.len() > 0,
            replace_all(s@, pat@, rep@) == out@ + replace_all(s@.skip(i as int), pat@, rep@),
        decreases s.len() - i,
    {
        let ghost before = out@;
        if occurs_at_exec(s, pat, i) {
            proof {
                let t = s@.skip(i as int);
                assert(t.subrange(0, pat@.len() as int) == s@.subrange(i as int, i + pat@.len()));
                assert(t.skip(pat@.len() as int) == s@.skip(i + pat@.len()));
            }
            extend_chars(&mut out, rep);
            i = i + pat.len();
            proof {
                assert(out@ + replace_all(s@.skip(i as int), pat@, rep@) =~= before + (rep@ + replace_all(
                    s@.skip(i as int),
                    pat@,
                    rep@,
                )));
            }
        } else {
            proof {
                let t = s@.skip(i as int);
                if starts_with(t, pat@) {
                    assert(t.subrange(0, pat@.len() as int) == s@.subrange(i as int, i + pat@.len()));
                }
                assert(t.drop_first() == s@.skip(i + 1));
            }
            out.push(s[i]);
            i = i + 1;
            proof {
                assert(out@ + replace_all(s@.skip(i as int), pat@, rep@) =~= before + (seq![s@[i - 1]]
                    + replace_all(s@.skip(i as int), pat@, rep@)));
            }
        }
    }
    proof {
        assert(s@.skip(i as int).len() == 0);
        assert(out@ + replace_all(s@.skip(i as int), pat@, rep@) =~= out@);
    }
    out
}

/// `a == b` on characters.
pub fn eq_chars(a: &[char], b: &[char]) -> (r: bool)
    ensures
        r == (a@ == b@),
{
    if a.len() != b.len() {
        return false;
    }
    let r = occurs_at_exec(a, b, 0);
    proof {
        if r {
            assert(a@.subrange(0, b@.len() as int) =~= a@);
        } else {
            assert(a@.subrange(0, a@.len() as int) =~= a@);
        }
    }
    r
}

/// Index of the first `c` in `s[from..]` (or `s.len()`).
pub fn index_of_from(s: &[char], c: char, from: usize) -> (r: usize)
    requires
        from <= s.len(),
    ensures
        from <= r <= s.len(),
        r - from == index_of(s@.skip(from as int), c),
        r < s.len() ==> s@[r as int] == c,
        forall|j: int| from <= j < r ==> s@[j] != c,
{
    let mut i = from;
    while i < s.len() && s[i] != c
        invariant
            from <= i <= s.len(),
            forall|j: int| from <= j < i ==> s@[j] != c,
        decreases s.len() - i,
    {
        i = i + 1;
    }
    proof {
        let t = s@.skip(from as int);
        assert forall|j: int| 0 <= j < i - from implies t[j] != c by {
            assert(t[j] == s@[from + j]);
        }
        lemma_index_of_is(t, c, i - from);
    }
    i
}

// ---------------------------------------------------------------------------
// Views of owned strings and their copies
// ---------------------------------------------------------------------------

pub open spec fn ov(o: Option<String>) -> Option<Seq<char>> {
    match o {
        Some(s) => Some(s@),
        None => None,
    }
}

pub open spec fn sv(v: Seq<String>) -> Seq<Seq<char>> {
    v.map_values(|s: String| s@)
}

pub proof fn lemma_sv_push(v: Seq<String>, x: String)
    ensures
        sv(v.push(x)) == sv(v).push(x@),
{
    assert(sv(v.push(x)) =~= sv(v).push(x@));
}

pub fn clone_opt(o: &Option<String>) -> (r: Option<String>)
    ensures
        ov(r) == ov(*o),
{
    match o {
        Some(s) => Some(s.clone()),
        None => None,
    }
}

pub fn clone_strs(v: &Vec<String>) -> (r: Vec<String>)
    ensures
        sv(r@) == sv(v@),
{
    let mut out: Vec<String> = Vec::new();
    let mut i: usize = 0;
    while i < v.len()
        invariant
            0 <= i <= v.len(),
            sv(out@) == sv(v@.take(i as int)),
        decreases v.len() - i,
    {
        let ghost before = out@;
        out.push(v[i].clone());
        proof {
            lemma_sv_push(before, v@[i as int]);
            assert(v@.take(i + 1) == v@.take(i as int).push(v@[i as int]));
            lemma_sv_push(v@.take(i as int), v@[i as int]);
        }
        i = i + 1;
    }
    assert(v@.take(v.len() as int) == v@);
    out
}

/// `s == t` for a `String` and characters.
pub fn string_eq(s: &String, t: &[char]) -> (r: bool)
    ensures
        r == (s@ == t@),
{
    let cs = to_chars(s.as_str());
    eq_chars(cs.as_slice(), t)
}

/// `s == t` for two `String`s.
pub fn strings_eq(s: &String, t: &String) -> (r: bool)
    ensures
        r == (s@ == t@),
{
    let b = to_chars(t.as_str());
    string_eq(s, b.as_slice())
}

/// Whether `v` holds a string equal to `t`.
pub fn strs_contain(v: &Vec<String>, t: &String) -> (r: bool)
    ensures
        r == sv(v@).contains(t@),
{
    let mut i: usize = 0;
    while i < v.len()
        invariant
            0 <= i <= v.len(),
            forall|j: int| 0 <= j < i ==> v@[j]@ != t@,
        decreases v.len() - i,
    {
        if strings_eq(&v[i], t) {
            assert(sv(v@)[i as int] == t@);
            return true;
        }
        i = i + 1;
    }
    proof {
        if sv(v@).contains(t@) {
            let j = choose|j: int| 0 <= j < sv(v@).len() && sv(v@)[j] == t@;
            assert(v@[j]@ == t@);
        }
    }
    false
}

/// `char::is_alphanumeric`: the Unicode `Alphabetic` property or a numeric
/// general category.
pub uninterp spec fn unicode_alphanumeric(c: char) -> bool;

/// `char::is_alphanumeric`. Among ASCII characters the alphanumeric ones are
/// exactly `[A-Za-z0-9]`; beyond ASCII the result is the Unicode property.
#[verifier::external_body]
pub(crate) fn is_alphanumeric(c: char) -> (r: bool)
    ensures
        r == unicode_alphanumeric(c),
        (c as u32) < 0x80 ==> r == is_ascii_alnum(c),
{
    c.is_alphanumeric()
}

// ---------------------------------------------------------------------------
// Integers
// ---------------------------------------------------------------------------

/// The value of a run of ASCII digits.
pub open spec fn digits_value(d: Seq<char>) -> int
    decreases d.len(),
{
    if d.len() == 0 {
        0
    } else {
        digits_value(d.drop_last()) * 10 + (d.last() as u32 - '0' as u32)
    }
}

pub open spec fn all_digits(d: Seq<char>) -> bool {
    forall|i: int| 0 <= i < d.len() ==> is_ascii_digit(#[trigger] d[i])
}

/// `str::parse::<u32>`: an optional `+`, then one or more ASCII digits whose
/// value fits in a `u32`.
pub open spec fn parse_u32_spec(s: Seq<char>) -> Option<u32> {
    let d = if s.len() > 0 && s[0] == '+' {
        s.drop_first()
    } else {
        s
    };
    if d.len() > 0 && all_digits(d) && digits_value(d) <= u32::MAX {
        Some(digits_value(d) as u32)
    } else {
        None
    }
}

proof fn lemma_digits_value_nonneg(d: Seq<char>)
    requires
        all_digits(d),
    ensures
        digits_value(d) >= 0,
    decreases d.len(),
{
    if d.len() > 0 {
        assert(all_digits(d.drop_last())) by {
            assert forall|i: int| 0 <= i < d.drop_last().len() implies is_ascii_digit(#[trigger] d.drop_last()[i]) by {
                assert(d.drop_last()[i] == d[i]);
            }
        }
        lemma_digits_value_nonneg(d.drop_last());
        assert(is_ascii_digit(d[d.len() - 1]));
    }
}

/// `str::parse::<u32>` on characters.
pub fn parse_u32(s: &[char]) -> (r: Option<u32>)
    ensures
        r == parse_u32_spec(s@),
{
    let start: usize = if s.len() > 0 && s[0] == '+' { 1 } else { 0 };
    let ghost d = if s@.len() > 0 && s@[0] == '+' { s@.drop_first() } else { s@ };
    if start == s.len() {
        assert(d.len() == 0);
        return None;
    }
    let mut v: u64 = 0;
    let mut i: usize = start;
    proof {
        assert(s@.subrange(start as int, start as int) =~= Seq::<char>::empty());
        assert(d =~= s@.subrange(start as int, s@.len() as int));
    }
    while i < s.len()
        invariant
            start <= i <= s.len(),
            d == s@.subrange(start as int, s@.len() as int),
            d == (if s@.len() > 0 && s@[0] == '+' { s@.drop_first() } else { s@ }),
            start == (if s@.len() > 0 && s@[0] == '+' { 1int } else { 0int }),
            all_digits(s@.subrange(start as int, i as int)),
            v as int == digits_value(s@.subrange(start as int, i as int)),
            v <= u32::MAX,
        decreases s.len() - i,
    {
        let c = s[i];
        let ghost pre = s@.subrange(start as int, i as int);
        let ghost nxt = s@.subrange(start as int, i + 1);
        proof {
            assert(nxt.drop_last() =~= pre);
            assert(nxt.last() == c);
        }
        if !is_ascii_digit_exec(c) {
            proof {
                assert(d[i - start] == c);
                assert(!all_digits(d));
            }
            return None;
        }
        let dv = (c as u32 - '0' as u32) as u64;
        v = v * 10 + dv;
        proof {
            assert forall|j: int| 0 <= j < nxt.len() implies is_ascii_digit(#[trigger] nxt[j]) by {
                if j < nxt.len() - 1 {
                    assert(nxt[j] == pre[j]);
                }
            }
        }
        if v > 0xFFFF_FFFFu64 {
            proof {
                // Digits only grow the value, so the whole run is out of range.
                assert(d.take(nxt.len() as int) =~= nxt);
                lemma_digits_prefix_bound(d, nxt.len() as int);
            }
            return None;
        }
        i = i + 1;
    }
    proof {
        assert(s@.subrange(start as int, s@.len() as int) == d);
    }
    Some(v as u32)
}

/// A longer run of digits has at least the value of its prefix.
proof fn lemma_digits_prefix_bound(d: Seq<char>, k: int)
    requires
        0 <= k <= d.len(),
        all_digits(d.take(k)),
    ensures
        all_digits(d) ==> digits_value(d) >= digits_value(d.take(k)),
    decreases d.len() - k,
{
    if k < d.len() && all_digits(d) {
        assert(all_digits(d.take(k + 1))) by {
            assert forall|i: int| 0 <= i < d.take(k + 1).len() implies is_ascii_digit(#[trigger] d.take(k + 1)[i]) by {
                assert(d.take(k + 1)[i] == d[i]);
            }
        }
        lemma_digits_prefix_bound(d, k + 1);
        assert(d.take(k + 1).drop_last() =~= d.take(k));
        lemma_digits_value_nonneg(d.take(k));
        assert(is_ascii_digit(d[k]));
    } else if k == d.len() {
        assert(d.take(k) =~= d);
    }
}

} // verus!
