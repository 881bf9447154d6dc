//! Shader "dialects": the third way a `.glsl` file fails to be a standalone
//! translation unit.
//!
//! `assemble` already handles the first two — implicit globals injected at link
//! time (deck builtins, via the prelude) and declarations that live in sibling
//! module fragments (luma/deck UBOs, via `[[module]]` bindings). The third is an
//! **in-file directive DSL**: pragmas an ecosystem's own build step expands into
//! real declarations before any compiler sees the file. maplibre-gl-js is the
//! canonical case — `#pragma maplibre: define lowp float opacity` declares
//! `opacity`, and `#pragma maplibre: initialize lowp float opacity` brings it into
//! `main`'s scope.
//!
//! A [`Dialect`] models one ecosystem as data: an optional per-stage prelude, an
//! optional epilogue, shared-library files, and a set of [`Rule`]s that expand a
//! directive into GLSL. Built-in dialects ([`maplibre`], [`shadertoy`]) are just
//! pre-filled `Dialect`s. Because a rule owns both the `define` and `initialize`
//! templates, the synthesized attribute and varying always agree by construction.

use vstd::prelude::*;
use crate::assemble::Stage;
use crate::preset;
use crate::workspace::{Workspace, WorkspaceModel};
use crate::text::{
    contains, contains_exec, from_chars, index_of, index_of_from, lines, ov, replace_all,
    replace_all_vec, split_lines, split_whitespace, starts_with, starts_with_exec, string_eq,
    strip_all_ws, strip_all_ws_vec, sv, to_chars, trim, trim_start, trim_vec, vviews, words,
    lemma_sv_push, clone_opt, clone_strs, skip_ws_from, lemma_lead_ws_bounds,
};

verus! {

// ---------------------------------------------------------------------------
// Rules
// ---------------------------------------------------------------------------

/// One directive-expansion rule. Matches `#pragma <ns>: <verb> <args…>` and
/// rewrites that single line, in place, into the GLSL declarations named by the
/// stage-appropriate template. Whitespace tokens after the verb bind positionally
/// to `args`; the template substitutes each `{arg}`. A rule with `verb: None`
/// matches on the namespace alone and binds every token to `args`.
#[derive(Debug)]
pub struct Rule {
    /// The pragma namespace, e.g. `"maplibre"` for `#pragma maplibre: …`.
    pub ns: String,
    /// The first token after the namespace (`"define"`), or `None` to match any.
    pub verb: Option<String>,
    /// Names bound, in order, to the remaining whitespace tokens.
    pub args: Vec<String>,
    /// Expansion when the shader is a vertex stage.
    pub vertex: Option<String>,
    /// Expansion when the shader is a fragment stage.
    pub fragment: Option<String>,
    /// Expansion when the shader is a compute stage.
    pub compute: Option<String>,
    /// Expansion used when the stage-specific template is absent.
    pub any: Option<String>,
}

/// The mathematical content of a [`Rule`].
pub struct RuleModel {
    pub ns: Seq<char>,
    pub verb: Option<Seq<char>>,
    pub args: Seq<Seq<char>>,
    pub vertex: Option<Seq<char>>,
    pub fragment: Option<Seq<char>>,
    pub compute: Option<Seq<char>>,
    pub any: Option<Seq<char>>,
}

impl View for Rule {
    type V = RuleModel;

    open spec fn view(&self) -> RuleModel {
        RuleModel {
            ns: self.ns@,
            verb: ov(self.verb),
            args: sv(self.args@),
            vertex: ov(self.vertex),
            fragment: ov(self.fragment),
            compute: ov(self.compute),
            any: ov(self.any),
        }
    }
}

pub open spec fn rules_view(v: Seq<Rule>) -> Seq<RuleModel> {
    v.map_values(|r: Rule| r@)
}

pub proof fn lemma_rules_view_push(v: Seq<Rule>, r: Rule)
    ensures
        rules_view(v.push(r)) == rules_view(v).push(r@),
{
    assert(rules_view(v.push(r)) =~= rules_view(v).push(r@));
}

/// The template a rule uses for `stage`: the stage-specific one, else `any`.
pub open spec fn template_for(r: RuleModel, stage: Stage) -> Option<Seq<char>> {
    let specific = match stage {
        Stage::Vertex => r.vertex,
        Stage::Fragment => r.fragment,
        Stage::Compute => r.compute,
    };
    if specific is Some {
        specific
    } else {
        r.any
    }
}

impl Rule {
    /// A copy of this rule.
    pub fn copy(&self) -> (r: Rule)
        ensures
            r@ == self@,
    {
        Rule {
            ns: self.ns.clone(),
            verb: clone_opt(&self.verb),
            args: clone_strs(&self.args),
            vertex: clone_opt(&self.vertex),
            fragment: clone_opt(&self.fragment),
            compute: clone_opt(&self.compute),
            any: clone_opt(&self.any),
        }
    }

    /// The template for `stage`, falling back to `any`.
    fn template(&self, stage: Stage) -> (r: Option<&String>)
        ensures
            match r {
                Some(t) => template_for(self@, stage) == Some(t@),
                None => template_for(self@, stage) is None,
            },
    {
        let specific = match stage {
            Stage::Vertex => &self.vertex,
            Stage::Fragment => &self.fragment,
            Stage::Compute => &self.compute,
        };
        match specific {
            Some(t) => Some(t),
            None => match &self.any {
                Some(t) => Some(t),
                None => None,
            },
        }
    }
}

pub fn copy_rules(v: &Vec<Rule>) -> (r: Vec<Rule>)
    ensures
        rules_view(r@) == rules_view(v@),
{
    let mut out: Vec<Rule> = Vec::new();
    let mut i: usize = 0;
    while i < v.len()
        invariant
            0 <= i <= v.len(),
            rules_view(out@) == rules_view(v@.take(i as int)),
        decreases v.len() - i,
    {
        let ghost before = out@;
        let c = v[i].copy();
        out.push(c);
        proof {
            lemma_rules_view_push(before, c);
            assert(v@.take(i + 1) == v@.take(i as int).push(v@[i as int]));
            lemma_rules_view_push(v@.take(i as int), v@[i as int]);
        }
        i = i + 1;
    }
    assert(v@.take(v.len() as int) == v@);
    out
}

// ---------------------------------------------------------------------------
// Dialects
// ---------------------------------------------------------------------------

/// An ecosystem's shader conventions, modeled as data. Everything is optional: a
/// pure-prelude dialect (shadertoy) has no rules; a pure-rule dialect has no
/// prelude.
#[derive(Debug)]
pub struct Dialect {
    /// Identifier used by `preset = "…"`.
    pub name: String,
    /// Declarations prepended for a vertex stage (after `#version`/precision).
    pub prelude_vertex: Option<String>,
    /// Declarations prepended for a fragment stage.
    pub prelude_fragment: Option<String>,
    /// Declarations prepended for any stage without a stage-specific prelude.
    pub prelude_any: Option<String>,
    /// Extra prelude appended after the stage prelude for *every* stage. Carries a
    /// project's `[dialect].prelude` so it composes with a preset's own prelude.
    pub prelude_extra: Option<String>,
    /// A wrapper appended after the body (e.g. a `main` that calls `mainImage`),
    /// used only when the source has no `main` of its own.
    pub epilogue: Option<String>,
    /// Shared-library files (relative to the shader's directory) spliced ahead of
    /// a vertex shader, in order.
    pub prelude_files_vertex: Vec<String>,
    /// Shared-library files spliced ahead of a fragment shader, in order.
    pub prelude_files_fragment: Vec<String>,
    /// Names of macros the ecosystem's build injects.
    pub define_names: Vec<String>,
    /// Whether to also discover injected macros by scanning the project's JS/TS.
    pub discover_defines: bool,
    /// Directive-expansion rules.
    pub rules: Vec<Rule>,
    /// Whether the deck.gl builtin prelude still applies. A non-deck dialect
    /// (maplibre, shadertoy) sets this false so `assemble` skips the deck stubs.
    pub deck: bool,
}

/// The mathematical content of a [`Dialect`].
pub struct DialectModel {
    pub name: Seq<char>,
    pub prelude_vertex: Option<Seq<char>>,
    pub prelude_fragment: Option<Seq<char>>,
    pub prelude_any: Option<Seq<char>>,
    pub prelude_extra: Option<Seq<char>>,
    pub epilogue: Option<Seq<char>>,
    pub prelude_files_vertex: Seq<Seq<char>>,
    pub prelude_files_fragment: Seq<Seq<char>>,
    pub define_names: Seq<Seq<char>>,
    pub discover_defines: bool,
    pub rules: Seq<RuleModel>,
    pub deck: bool,
}

impl View for Dialect {
    type V = DialectModel;

    open spec fn view(&self) -> DialectModel {
        DialectModel {
            name: self.name@,
            prelude_vertex: ov(self.prelude_vertex),
            prelude_fragment: ov(self.prelude_fragment),
            prelude_any: ov(self.prelude_any),
            prelude_extra: ov(self.prelude_extra),
            epilogue: ov(self.epilogue),
            prelude_files_vertex: sv(self.prelude_files_vertex@),
            prelude_files_fragment: sv(self.prelude_files_fragment@),
            define_names: sv(self.define_names@),
            discover_defines: self.discover_defines,
            rules: rules_view(self.rules@),
            deck: self.deck,
        }
    }
}

/// A dialect with the given name and deck flag and nothing else.
pub open spec fn empty_model(name: Seq<char>, deck: bool) -> DialectModel {
    DialectModel {
        name,
        prelude_vertex: None,
        prelude_fragment: None,
        prelude_any: None,
        prelude_extra: None,
        epilogue: None,
        prelude_files_vertex: seq![],
        prelude_files_fragment: seq![],
        define_names: seq![],
        discover_defines: false,
        rules: seq![],
        deck,
    }
}

/// The prelude a dialect prepends for `stage`, falling back to `prelude_any`.
pub open spec fn prelude_for(d: DialectModel, stage: Stage) -> Option<Seq<char>> {
    let specific = match stage {
        Stage::Vertex => d.prelude_vertex,
        Stage::Fragment => d.prelude_fragment,
        Stage::Compute => None,
    };
    if specific is Some {
        specific
    } else {
        d.prelude_any
    }
}

/// The shared-library files a dialect splices ahead of a `stage` shader.
pub open spec fn prelude_files_for(d: DialectModel, stage: Stage) -> Seq<Seq<char>> {
    match stage {
        Stage::Vertex => d.prelude_files_vertex,
        Stage::Fragment => d.prelude_files_fragment,
        Stage::Compute => seq![],
    }
}

impl Dialect {
    /// A dialect named `name` with no prelude, library or rules.
    pub fn empty(name: &str, deck: bool) -> (r: Dialect)
        ensures
            r@ == empty_model(name@, deck),
    {
        let r = Dialect {
            name: name.to_owned(),
            prelude_vertex: None,
            prelude_fragment: None,
            prelude_any: None,
            prelude_extra: None,
            epilogue: None,
            prelude_files_vertex: Vec::new(),
            prelude_files_fragment: Vec::new(),
            define_names: Vec::new(),
            discover_defines: false,
            rules: Vec::new(),
            deck,
        };
        assert(r@.prelude_files_vertex =~= Seq::<Seq<char>>::empty());
        assert(r@.prelude_files_fragment =~= Seq::<Seq<char>>::empty());
        assert(r@.define_names =~= Seq::<Seq<char>>::empty());
        assert(r@.rules =~= Seq::<RuleModel>::empty());
        r
    }

    /// A copy of this dialect.
    pub fn copy(&self) -> (r: Dialect)
        ensures
            r@ == self@,
    {
        Dialect {
            name: self.name.clone(),
            prelude_vertex: clone_opt(&self.prelude_vertex),
            prelude_fragment: clone_opt(&self.prelude_fragment),
            prelude_any: clone_opt(&self.prelude_any),
            prelude_extra: clone_opt(&self.prelude_extra),
            epilogue: clone_opt(&self.epilogue),
            prelude_files_vertex: clone_strs(&self.prelude_files_vertex),
            prelude_files_fragment: clone_strs(&self.prelude_files_fragment),
            define_names: clone_strs(&self.define_names),
            discover_defines: self.discover_defines,
            rules: copy_rules(&self.rules),
            deck: self.deck,
        }
    }

    /// The prelude for `stage`, falling back to `prelude_any`.
    pub fn prelude(&self, stage: Stage) -> (r: Option<&String>)
        ensures
            match r {
                Some(p) => prelude_for(self@, stage) == Some(p@),
                None => prelude_for(self@, stage) is None,
            },
    {
        let specific = match stage {
            Stage::Vertex => &self.prelude_vertex,
            Stage::Fragment => &self.prelude_fragment,
            Stage::Compute => &None,
        };
        match specific {
            Some(p) => Some(p),
            None => match &self.prelude_any {
                Some(p) => Some(p),
                None => None,
            },
        }
    }

    /// The shared-library files spliced ahead of a `stage` shader.
    pub fn prelude_files(&self, stage: Stage) -> (r: Vec<String>)
        ensures
            sv(r@) == prelude_files_for(self@, stage),
    {
        match stage {
            Stage::Vertex => clone_strs(&self.prelude_files_vertex),
            Stage::Fragment => clone_strs(&self.prelude_files_fragment),
            Stage::Compute => {
                let v: Vec<String> = Vec::new();
                assert(sv(v@) =~= Seq::<Seq<char>>::empty());
                v
            },
        }
    }

    /// Try to expand one source `line` under `stage`. Returns the replacement
    /// lines when a rule matches (possibly empty), or `None` to keep the line
    /// verbatim.
    pub fn expand_line(&self, line: &str, stage: Stage) -> (r: Option<Vec<String>>)
        ensures
            match r {
                Some(v) => expand_spec(self@, line@, stage) == Some(sv(v@)),
                None => expand_spec(self@, line@, stage) is None,
            },
    {
        let cs = to_chars(line);
        self.expand_chars(cs.as_slice(), stage)
    }

    /// [`Dialect::expand_line`] on characters.
    pub fn expand_chars(&self, line: &[char], stage: Stage) -> (r: Option<Vec<String>>)
        ensures
            match r {
                Some(v) => expand_spec(self@, line@, stage) == Some(sv(v@)),
                None => expand_spec(self@, line@, stage) is None,
            },
    {
        let (ns, rest) = match parse_pragma(line) {
            Some(p) => p,
            None => return None,
        };
        let tokens = split_whitespace(rest.as_slice());
        let ghost toks = words(rest@);
        let mut i: usize = 0;
        assert(self@.rules.skip(0) == self@.rules);
        while i < self.rules.len()
            invariant
                0 <= i <= self.rules.len(),
                vviews(tokens@) == toks,
                toks == words(rest@),
                parse_pragma_spec(line@) == Some((ns@, rest@)),
                expand_rules(self@.rules, ns@, rest@, stage) == expand_rules(
                    self@.rules.skip(i as int),
                    ns@,
                    rest@,
                    stage,
                ),
            decreases self.rules.len() - i,
        {
            let rule = &self.rules[i];
            proof {
                assert(self@.rules.skip(i as int)[0] == rule@);
                assert(self@.rules.skip(i as int).drop_first() == self@.rules.skip(i + 1));
            }
            if string_eq(&rule.ns, ns.as_slice()) {
                let mut start: usize = 0;
                let mut verb_ok = true;
                match &rule.verb {
                    Some(verb) => {
                        if tokens.len() > 0 && string_eq(verb, tokens[0].as_slice()) {
                            start = 1;
                        } else {
                            verb_ok = false;
                        }
                    },
                    None => {},
                }
                if verb_ok && tokens.len() - start == rule.args.len() {
                    let ghost vals = if start == 1 { toks.drop_first() } else { toks };
                    proof {
                        assert(rule_values(rule@, rest@) == Some(vals));
                        assert(vals.len() == rule@.args.len());
                        assert(expand_rules(self@.rules.skip(i as int), ns@, rest@, stage) == match template_for(rule@, stage) {
                            None => None,
                            Some(t) => Some(render_spec(t, rule@.args, vals)),
                        });
                    }
                    match rule.template(stage) {
                        None => {
                            assert(expand_rules(self@.rules.skip(i as int), ns@, rest@, stage) is None);
                            assert(expand_rules(self@.rules, ns@, rest@, stage) is None);
                            assert(parse_pragma_spec(line@) == Some((ns@, rest@)));
                            assert(expand_spec(self@, line@, stage) is None);
                            return None;
                        },
                        Some(t) => {
                            let mut values: Vec<Vec<char>> = Vec::new();
                            let mut k: usize = start;
                            while k < tokens.len()
                                invariant
                                    start <= k <= tokens.len(),
                                    vviews(values@) == vviews(tokens@).subrange(start as int, k as int),
                                decreases tokens.len() - k,
                            {
                                let ghost before = values@;
                                values.push(crate::text::slice_vec(tokens[k].as_slice(), 0, tokens[k].len()));
                                proof {
                                    crate::text::lemma_vviews_push(before, values@.last());
                                    assert(vviews(tokens@).subrange(start as int, k + 1) =~= vviews(tokens@).subrange(start as int, k as int).push(tokens@[k as int]@));
                                    assert(tokens@[k as int]@.subrange(0, tokens@[k as int]@.len() as int) =~= tokens@[k as int]@);
                                }
                                k = k + 1;
                            }
                            proof {
                                assert(vviews(tokens@).subrange(start as int, tokens@.len() as int) =~= vals);
                            }
                            let tc = to_chars(t.as_str());
                            let args = strs_chars(&rule.args);
                            let out = render(tc.as_slice(), &args, &values);
                            return Some(out);
                        },
                    }
                } else {
                    proof {
                        let rv = rule_values(rule@, rest@);
                        if rv is Some {
                            assert(rv.unwrap().len() != rule@.args.len());
                        }
                    }
                }
            }
            i = i + 1;
        }
        None
    }
}

/// The characters of each string.
pub fn strs_chars(v: &Vec<String>) -> (r: Vec<Vec<char>>)
    ensures
        vviews(r@) == sv(v@),
{
    let mut out: Vec<Vec<char>> = Vec::new();
    let mut i: usize = 0;
    while i < v.len()
        invariant
            0 <= i <= v.len(),
            vviews(out@) == sv(v@).take(i as int),
        decreases v.len() - i,
    {
        let ghost before = out@;
        let c = to_chars(v[i].as_str());
        out.push(c);
        proof {
            crate::text::lemma_vviews_push(before, c);
            assert(sv(v@).take(i + 1) =~= sv(v@).take(i as int).push(v@[i as int]@));
        }
        i = i + 1;
    }
    assert(sv(v@).take(v.len() as int) =~= sv(v@));
    out
}

/// Strings holding each line.
pub fn lines_to_strings(v: &Vec<Vec<char>>) -> (r: Vec<String>)
    ensures
        sv(r@) == vviews(v@),
{
    let mut out: Vec<String> = Vec::new();
    let mut i: usize = 0;
    while i < v.len()
        invariant
            0 <= i <= v.len(),
            sv(out@) == vviews(v@).take(i as int),
        decreases v.len() - i,
    {
        let ghost before = out@;
        let s = from_chars(v[i].as_slice());
        out.push(s);
        proof {
            lemma_sv_push(before, s);
            assert(vviews(v@).take(i + 1) =~= vviews(v@).take(i as int).push(v@[i as int]@));
        }
        i = i + 1;
    }
    assert(vviews(v@).take(v.len() as int) =~= vviews(v@));
    out
}

// ---------------------------------------------------------------------------
// Directive parsing and template rendering
// ---------------------------------------------------------------------------

/// `#pragma <ns>: <rest>` split into `(ns, rest)`: the pragma may be indented,
/// `#pragma` must be followed by a space or tab (so `#pragmatic` can't match), and
/// the namespace is everything up to the first `:`, trimmed and non-empty.
pub open spec fn parse_pragma_spec(line: Seq<char>) -> Option<(Seq<char>, Seq<char>)> {
    let t = trim_start(line);
    if !starts_with(t, "#pragma"@) {
        None
    } else {
        let after = t.skip(7);
        if !(after.len() > 0 && (after[0] == ' ' || after[0] == '\t')) {
            None
        } else {
            let k = index_of(after, ':');
            if k >= after.len() {
                None
            } else {
                let ns = trim(after.take(k));
                if ns.len() == 0 {
                    None
                } else {
                    Some((ns, after.skip(k + 1)))
                }
            }
        }
    }
}

/// Split `#pragma <ns>: <rest>` into `(ns, rest)`.
pub fn parse_pragma(line: &[char]) -> (r: Option<(Vec<char>, Vec<char>)>)
    ensures
        match r {
            Some((ns, rest)) => parse_pragma_spec(line@) == Some((ns@, rest@)),
            None => parse_pragma_spec(line@) is None,
        },
{
    let lo = skip_ws_from(line, 0, line.len());
    proof {
        assert(line@.subrange(0, line@.len() as int) == line@);
        assert(trim_start(line@) == line@.skip(lo as int));
    }
    let t = crate::text::slice_vec(line, lo, line.len());
    let kw = to_chars("#pragma");
    proof {
        reveal_strlit("#pragma");
    }
    if !starts_with_exec(t.as_slice(), kw.as_slice()) {
        return None;
    }
    let after = crate::text::slice_vec(t.as_slice(), 7, t.len());
    proof {
        assert(after@ == t@.skip(7));
    }
    if !(after.len() > 0 && (after[0] == ' ' || after[0] == '\t')) {
        return None;
    }
    let k = index_of_from(after.as_slice(), ':', 0);
    proof {
        assert(after@.skip(0) == after@);
    }
    if k >= after.len() {
        return None;
    }
    let head = crate::text::slice_vec(after.as_slice(), 0, k);
    let ns = trim_vec(head.as_slice());
    proof {
        assert(head@ == after@.take(k as int));
    }
    if ns.len() == 0 {
        return None;
    }
    let rest = crate::text::slice_vec(after.as_slice(), k + 1, after.len());
    proof {
        assert(rest@ == after@.skip(k + 1));
    }
    Some((ns, rest))
}

/// The values a rule binds from the tokens after the namespace: all of them for a
/// verb-less rule, the rest after a matching verb otherwise.
pub open spec fn rule_values(r: RuleModel, rest: Seq<char>) -> Option<Seq<Seq<char>>> {
    let toks = words(rest);
    match r.verb {
        None => Some(toks),
        Some(v) => if toks.len() > 0 && toks[0] == v {
            Some(toks.drop_first())
        } else {
            None
        },
    }
}

/// The first rule (in order) whose namespace, verb and arity match decides the
/// expansion: its stage template rendered with the bound values, or no expansion
/// at all when it has no template for the stage.
pub open spec fn expand_rules(
    rules: Seq<RuleModel>,
    ns: Seq<char>,
    rest: Seq<char>,
    stage: Stage,
) -> Option<Seq<Seq<char>>>
    decreases rules.len(),
{
    if rules.len() == 0 {
        None
    } else {
        let r = rules[0];
        let vals = rule_values(r, rest);
        if r.ns == ns && vals is Some && vals.unwrap().len() == r.args.len() {
            match template_for(r, stage) {
                None => None,
                Some(t) => Some(render_spec(t, r.args, vals.unwrap())),
            }
        } else {
            expand_rules(rules.drop_first(), ns, rest, stage)
        }
    }
}

/// What [`Dialect::expand_line`] produces for `line`.
pub open spec fn expand_spec(d: DialectModel, line: Seq<char>, stage: Stage) -> Option<
    Seq<Seq<char>>,
> {
    match parse_pragma_spec(line) {
        None => None,
        Some((ns, rest)) => expand_rules(d.rules, ns, rest, stage),
    }
}

/// `{arg}`.
pub open spec fn placeholder(a: Seq<char>) -> Seq<char> {
    seq!['{'] + a + seq!['}']
}

/// Insert index `i` into `o` after every index whose length is at least `lens[i]`
/// (one step of a stable sort by descending length).
pub open spec fn insert_desc(o: Seq<int>, i: int, lens: Seq<int>) -> Seq<int>
    decreases o.len(),
{
    if o.len() == 0 {
        seq![i]
    } else if lens[o[0]] < lens[i] {
        seq![i] + o
    } else {
        seq![o[0]] + insert_desc(o.drop_first(), i, lens)
    }
}

/// The indices `0..n` stably sorted by descending `lens`.
pub open spec fn desc_order(lens: Seq<int>, n: nat) -> Seq<int>
    decreases n,
{
    if n == 0 {
        seq![]
    } else {
        insert_desc(desc_order(lens, (n - 1) as nat), n - 1, lens)
    }
}

pub open spec fn arg_lens(args: Seq<Seq<char>>) -> Seq<int> {
    args.map_values(|a: Seq<char>| a.len() as int)
}

/// Substitute, in `order`, each `{args[i]}` with `values[i]`.
pub open spec fn subst(
    t: Seq<char>,
    args: Seq<Seq<char>>,
    values: Seq<Seq<char>>,
    order: Seq<int>,
) -> Seq<char>
    decreases order.len(),
{
    if order.len() == 0 {
        t
    } else {
        let i = order.last();
        replace_all(subst(t, args, values, order.drop_last()), placeholder(args[i]), values[i])
    }
}

/// Each `{arg}` replaced by its value — longest-named args first, so `{name}`
/// can't clobber a `{namespace}` — then split into lines.
pub open spec fn render_spec(t: Seq<char>, args: Seq<Seq<char>>, values: Seq<Seq<char>>) -> Seq<
    Seq<char>,
> {
    lines(subst(t, args, values, desc_order(arg_lens(args), args.len())))
}

proof fn lemma_insert_desc(o: Seq<int>, i: int, lens: Seq<int>, p: int)
    requires
        0 <= p <= o.len(),
        forall|j: int| 0 <= j < p ==> lens[o[j]] >= lens[i],
        p < o.len() ==> lens[o[p]] < lens[i],
    ensures
        insert_desc(o, i, lens) == o.insert(p, i),
    decreases o.len(),
{
    if o.len() == 0 {
        assert(o.insert(p, i) =~= seq![i]);
    } else if p == 0 {
        assert(o.insert(p, i) =~= seq![i] + o);
    } else {
        let t = o.drop_first();
        assert forall|j: int| 0 <= j < p - 1 implies lens[t[j]] >= lens[i] by {
            assert(t[j] == o[j + 1]);
        }
        lemma_insert_desc(t, i, lens, p - 1);
        assert(o.insert(p, i) =~= seq![o[0]] + t.insert(p - 1, i));
    }
}

/// Indices `0..lens.len()` stably sorted by descending `lens`.
fn desc_order_exec(lens: &Vec<usize>) -> (r: Vec<usize>)
    ensures
        r@.map_values(|x: usize| x as int) == desc_order(
            lens@.map_values(|x: usize| x as int),
            lens@.len(),
        ),
        r@.len() == lens@.len(),
        forall|j: int| 0 <= j < r@.len() ==> 0 <= #[trigger] r@[j] < lens@.len(),
{
    let ghost il = lens@.map_values(|x: usize| x as int);
    let mut o: Vec<usize> = Vec::new();
    let mut i: usize = 0;
    proof {
        assert(o@.map_values(|x: usize| x as int) =~= desc_order(il, 0));
    }
    while i < lens.len()
        invariant
            0 <= i <= lens.len(),
            il == lens@.map_values(|x: usize| x as int),
            o@.len() == i,
            forall|j: int| 0 <= j < o@.len() ==> 0 <= #[trigger] o@[j] < i,
            o@.map_values(|x: usize| x as int) == desc_order(il, i as nat),
        decreases lens.len() - i,
    {
        let mut p: usize = 0;
        while p < o.len() && lens[o[p]] >= lens[i]
            invariant
                0 <= p <= o.len(),
                i < lens.len(),
                forall|j: int| 0 <= j < o@.len() ==> 0 <= #[trigger] o@[j] < i,
                forall|j: int| 0 <= j < p ==> lens@[o@[j] as int] >= lens@[i as int],
            decreases o.len() - p,
        {
            p = p + 1;
        }
        let ghost oi = o@.map_values(|x: usize| x as int);
        proof {
            assert forall|j: int| 0 <= j < p implies il[oi[j]] >= il[i as int] by {
                assert(oi[j] == o@[j] as int);
            }
            if p < o@.len() {
                assert(oi[p as int] == o@[p as int] as int);
            }
            lemma_insert_desc(oi, i as int, il, p as int);
        }
        o.insert(p, i);
        proof {
            assert(o@.map_values(|x: usize| x as int) =~= oi.insert(p as int, i as int));
            assert(desc_order(il, (i + 1) as nat) == insert_desc(desc_order(il, i as nat), i as int, il));
            assert forall|j: int| 0 <= j < o@.len() implies 0 <= #[trigger] o@[j] < i + 1 by {
                if j < p {
                    assert(o@[j] == oi[j]);
                } else if j > p {
                    assert(o@[j] == oi[j - 1]);
                }
            }
        }
        i = i + 1;
    }
    o
}

/// Substitute each `{arg}` in `template` with its captured value, then split into
/// lines. Longest-named args are replaced first so `{name}` can't clobber a
/// hypothetical `{namespace}`.
pub fn render(template: &[char], args: &Vec<Vec<char>>, values: &Vec<Vec<char>>) -> (r: Vec<String>)
    requires
        args.len() <= values.len(),
    ensures
        sv(r@) == render_spec(template@, vviews(args@), vviews(values@)),
{
    let ghost av = vviews(args@);
    let ghost vv = vviews(values@);
    let mut lens: Vec<usize> = Vec::new();
    let mut i: usize = 0;
    while i < args.len()
        invariant
            0 <= i <= args.len(),
            lens@.len() == i,
            forall|j: int| 0 <= j < i ==> #[trigger] lens@[j] == args@[j]@.len(),
        decreases args.len() - i,
    {
        lens.push(args[i].len());
        i = i + 1;
    }
    let order = desc_order_exec(&lens);
    proof {
        assert(lens@.map_values(|x: usize| x as int) =~= arg_lens(av));
    }
    let ghost oi = order@.map_values(|x: usize| x as int);
    let mut out: Vec<char> = crate::text::slice_vec(template, 0, template.len());
    proof {
        assert(template@.subrange(0, template@.len() as int) =~= template@);
        assert(oi.take(0) =~= Seq::<int>::empty());
    }
    let mut k: usize = 0;
    while k < order.len()
        invariant
            0 <= k <= order.len(),
            order@.len() == args@.len(),
            args@.len() <= values@.len(),
            av == vviews(args@),
            vv == vviews(values@),
            oi == order@.map_values(|x: usize| x as int),
            forall|j: int| 0 <= j < order@.len() ==> 0 <= #[trigger] order@[j] < args@.len(),
            out@ == subst(template@, av, vv, oi.take(k as int)),
        decreases order.len() - k,
    {
        let idx = order[k];
        let mut pat: Vec<char> = Vec::new();
        pat.push('{');
        crate::text::extend_chars(&mut pat, args[idx].as_slice());
        pat.push('}');
        proof {
            assert(pat@ =~= placeholder(av[idx as int]));
            assert(oi.take(k + 1).drop_last() =~= oi.take(k as int));
            assert(oi.take(k + 1).last() == idx as int);
        }
        out = replace_all_vec(out.as_slice(), pat.as_slice(), values[idx].as_slice());
        k = k + 1;
    }
    proof {
        assert(oi.take(order@.len() as int) =~= oi);
    }
    let ls = split_lines(out.as_slice());
    lines_to_strings(&ls)
}

/// Whether `source` declares its own entry point: once its comments are
/// blanked, some line, with whitespace removed, contains `voidmain(`.
pub open spec fn has_main_spec(source: Seq<char>) -> bool {
    let code = crate::embed::blank_comments_spec(source);
    exists|i: int| 0 <= i < lines(code).len() && contains(strip_all_ws(#[trigger] lines(code)[i]), "voidmain("@)
}

/// Whether `source` already declares its own entry point. Used to decide if a
/// dialect's epilogue wrapper should be appended.
pub fn has_main(source: &str) -> (r: bool)
    ensures
        r == has_main_spec(source@),
{
    let cs = to_chars(source);
    has_main_chars(cs.as_slice())
}

/// [`has_main`] on characters.
pub fn has_main_chars(source: &[char]) -> (r: bool)
    ensures
        r == has_main_spec(source@),
{
    let code = crate::embed::blank_comments(source);
    let ls = split_lines(code.as_slice());
    let pat = to_chars("voidmain(");
    let mut i: usize = 0;
    while i < ls.len()
        invariant
            0 <= i <= ls.len(),
            code@ == crate::embed::blank_comments_spec(source@),
            vviews(ls@) == lines(code@),
            pat@ == "voidmain("@,
            forall|j: int| 0 <= j < i ==> !contains(strip_all_ws(#[trigger] lines(code@)[j]), "voidmain("@),
        decreases ls.len() - i,
    {
        let s = strip_all_ws_vec(ls[i].as_slice());
        proof {
            assert(lines(code@)[i as int] == ls@[i as int]@);
        }
        if contains_exec(s.as_slice(), pat.as_slice()) {
            return true;
        }
        i = i + 1;
    }
    false
}

// ---------------------------------------------------------------------------
// Built-in dialects
// ---------------------------------------------------------------------------

pub const MAPLIBRE_DEFINE_VERTEX: &'static str = "#ifndef HAS_UNIFORM_u_{name}\nuniform lowp float u_{name}_t;\nin {prec} {type} a_{name};\nout {prec} {type} {name};\n#else\nuniform {prec} {type} u_{name};\n#endif";

pub const MAPLIBRE_DEFINE_FRAGMENT: &'static str = "#ifndef HAS_UNIFORM_u_{name}\nuniform lowp float u_{name}_t;\nin {prec} {type} {name};\n#else\nuniform {prec} {type} u_{name};\n#endif";

pub const MAPLIBRE_INIT_VERTEX: &'static str = "#ifndef HAS_UNIFORM_u_{name}\n{name} = a_{name};\n#else\n{prec} {type} {name} = u_{name};\n#endif";

pub const MAPLIBRE_INIT_FRAGMENT: &'static str = "#ifdef HAS_UNIFORM_u_{name}\n{prec} {type} {name} = u_{name};\n#endif";

pub const SHADERTOY_PRELUDE: &'static str = "// glslint ShaderToy prelude: implicit uniforms\nuniform vec3 iResolution;\nuniform float iTime;\nuniform float iTimeDelta;\nuniform float iFrameRate;\nuniform int iFrame;\nuniform vec4 iMouse;\nuniform vec4 iDate;\nuniform float iSampleRate;\nuniform vec3 iChannelResolution[4];\nuniform float iChannelTime[4];\nuniform sampler2D iChannel0;\nuniform sampler2D iChannel1;\nuniform sampler2D iChannel2;\nuniform sampler2D iChannel3;\nout vec4 glslint_fragColor;";

pub const SHADERTOY_EPILOGUE: &'static str = "void main() { mainImage(glslint_fragColor, gl_FragCoord.xy); }";

/// `[prec, type, name]`.
pub open spec fn pragma_args() -> Seq<Seq<char>> {
    seq!["prec"@, "type"@, "name"@]
}

pub open spec fn maplibre_define_rule(ns: Seq<char>) -> RuleModel {
    RuleModel {
        ns,
        verb: Some("define"@),
        args: pragma_args(),
        vertex: Some(MAPLIBRE_DEFINE_VERTEX@),
        fragment: Some(MAPLIBRE_DEFINE_FRAGMENT@),
        compute: None,
        any: None,
    }
}

pub open spec fn maplibre_init_rule(ns: Seq<char>) -> RuleModel {
    RuleModel {
        ns,
        verb: Some("initialize"@),
        args: pragma_args(),
        vertex: Some(MAPLIBRE_INIT_VERTEX@),
        fragment: Some(MAPLIBRE_INIT_FRAGMENT@),
        compute: None,
        any: None,
    }
}

/// The maplibre dialect: `define`/`initialize` rules for both the `maplibre` and
/// the `mapbox` namespace, no prelude, and no deck builtins.
pub open spec fn maplibre_model() -> DialectModel {
    DialectModel {
        rules: seq![
            maplibre_define_rule("maplibre"@),
            maplibre_init_rule("maplibre"@),
            maplibre_define_rule("mapbox"@),
            maplibre_init_rule("mapbox"@),
        ],
        ..empty_model("maplibre"@, false)
    }
}

/// The shadertoy dialect: the implicit-uniform fragment prelude and the `main`
/// epilogue that drives `mainImage`.
pub open spec fn shadertoy_model() -> DialectModel {
    DialectModel {
        prelude_fragment: Some(SHADERTOY_PRELUDE@),
        epilogue: Some(SHADERTOY_EPILOGUE@),
        ..empty_model("shadertoy"@, false)
    }
}

fn pragma_args_exec() -> (r: Vec<String>)
    ensures
        sv(r@) == pragma_args(),
{
    let mut v: Vec<String> = Vec::new();
    v.push("prec".to_owned());
    v.push("type".to_owned());
    v.push("name".to_owned());
    assert(sv(v@) =~= pragma_args());
    v
}

fn maplibre_rules_for(ns: &str, out: &mut Vec<Rule>)
    ensures
        rules_view(final(out)@) == rules_view(old(out)@).push(maplibre_define_rule(ns@)).push(
            maplibre_init_rule(ns@),
        ),
{
    let ghost before = out@;
    let d = Rule {
        ns: ns.to_owned(),
        verb: Some("define".to_owned()),
        args: pragma_args_exec(),
        vertex: Some(MAPLIBRE_DEFINE_VERTEX.to_owned()),
        fragment: Some(MAPLIBRE_DEFINE_FRAGMENT.to_owned()),
        compute: None,
        any: None,
    };
    out.push(d);
    proof {
        lemma_rules_view_push(before, d);
    }
    let ghost mid = out@;
    let n = Rule {
        ns: ns.to_owned(),
        verb: Some("initialize".to_owned()),
        args: pragma_args_exec(),
        vertex: Some(MAPLIBRE_INIT_VERTEX.to_owned()),
        fragment: Some(MAPLIBRE_INIT_FRAGMENT.to_owned()),
        compute: None,
        any: None,
    };
    out.push(n);
    proof {
        lemma_rules_view_push(mid, n);
    }
}

/// The maplibre-gl-js / mapbox-gl-js `#pragma <ns>: define|initialize` DSL.
///
/// A `define` at global scope declares the property (an attribute+varying in the
/// data-driven branch, a uniform otherwise), and an `initialize` inside `main`
/// binds it. glslint never defines `HAS_UNIFORM_u_*`, so glslang's preprocessor
/// takes the data-driven branch — the one that exercises the most symbols.
pub fn maplibre() -> (r: Dialect)
    ensures
        r@ == maplibre_model(),
{
    let mut d = Dialect::empty("maplibre", false);
    let mut rules: Vec<Rule> = Vec::new();
    maplibre_rules_for("maplibre", &mut rules);
    maplibre_rules_for("mapbox", &mut rules);
    d.rules = rules;
    assert(d@.rules =~= maplibre_model().rules);
    d
}

/// ShaderToy: a fragment-only environment with a fixed set of implicit uniforms
/// and a `mainImage` entry point instead of `main`.
pub fn shadertoy() -> (r: Dialect)
    ensures
        r@ == shadertoy_model(),
{
    let mut d = Dialect::empty("shadertoy", false);
    d.prelude_fragment = Some(SHADERTOY_PRELUDE.to_owned());
    d.epilogue = Some(SHADERTOY_EPILOGUE.to_owned());
    d
}

/// The built-in dialect named `name`: `maplibre`/`mapbox`, `shadertoy`, or
/// `none`/`raw` (an empty non-deck dialect that disables dialect handling).
pub open spec fn by_name_spec(name: Seq<char>) -> Option<DialectModel> {
    if name == "maplibre"@ || name == "mapbox"@ {
        Some(maplibre_model())
    } else if name == "shadertoy"@ {
        Some(shadertoy_model())
    } else if name == "none"@ || name == "raw"@ {
        Some(empty_model("none"@, false))
    } else {
        None
    }
}

/// Look up a built-in dialect by name. `"none"`/`"raw"` disable dialect handling.
pub fn by_name(name: &str) -> (r: Option<Dialect>)
    ensures
        match r {
            Some(d) => by_name_spec(name@) == Some(d@),
            None => by_name_spec(name@) is None,
        },
{
    let n = to_chars(name);
    if string_eq(&"maplibre".to_owned(), n.as_slice()) || string_eq(&"mapbox".to_owned(), n.as_slice()) {
        Some(maplibre())
    } else if string_eq(&"shadertoy".to_owned(), n.as_slice()) {
        Some(shadertoy())
    } else if string_eq(&"none".to_owned(), n.as_slice()) || string_eq(&"raw".to_owned(), n.as_slice()) {
        Some(Dialect::empty("none", false))
    } else {
        None
    }
}

/// maplibre when the source holds `#pragma maplibre:` or `#pragma mapbox:`;
/// shadertoy when, with whitespace removed, it contains `voidmainImage(`; else none.
pub open spec fn autodetect_spec(source: Seq<char>) -> Option<DialectModel> {
    if contains(source, "#pragma maplibre:"@) || contains(source, "#pragma mapbox:"@) {
        Some(maplibre_model())
    } else if contains(strip_all_ws(source), "voidmainImage("@) {
        Some(shadertoy_model())
    } else {
        None
    }
}

/// Pick a dialect from `source`'s tell-tale signatures. Only fires for
/// unmistakable markers, so a plain deck/luma shader is never misclassified.
pub fn autodetect(source: &str) -> (r: Option<Dialect>)
    ensures
        match r {
            Some(d) => autodetect_spec(source@) == Some(d@),
            None => autodetect_spec(source@) is None,
        },
{
    let s = to_chars(source);
    let a = to_chars("#pragma maplibre:");
    let b = to_chars("#pragma mapbox:");
    if contains_exec(s.as_slice(), a.as_slice()) || contains_exec(s.as_slice(), b.as_slice()) {
        return Some(maplibre());
    }
    let stripped = strip_all_ws_vec(s.as_slice());
    let c = to_chars("voidmainImage(");
    if contains_exec(stripped.as_slice(), c.as_slice()) {
        return Some(shadertoy());
    }
    None
}

// ---------------------------------------------------------------------------
// Preference and resolution
// ---------------------------------------------------------------------------

/// A project's dialect selection, from `[dialect]` in its config. Kept separate
/// from a concrete [`Dialect`] because auto-detection needs the shader source.
#[derive(Debug)]
pub struct Preference {
    /// A named preset that replaces auto-detection as the base dialect.
    pub preset: Option<String>,
    /// Sniff the source for a dialect when no `preset` is set.
    pub auto: bool,
    /// Project-local rules, applied ahead of the base dialect's own.
    pub custom_rules: Vec<Rule>,
    /// Project-local prelude, composed with the base dialect's prelude.
    pub custom_prelude: Option<String>,
}

pub struct PreferenceModel {
    pub preset: Option<Seq<char>>,
    pub auto: bool,
    pub custom_rules: Seq<RuleModel>,
    pub custom_prelude: Option<Seq<char>>,
}

impl View for Preference {
    type V = PreferenceModel;

    open spec fn view(&self) -> PreferenceModel {
        PreferenceModel {
            preset: ov(self.preset),
            auto: self.auto,
            custom_rules: rules_view(self.custom_rules@),
            custom_prelude: ov(self.custom_prelude),
        }
    }
}

impl Default for Preference {
    /// No preset, auto-detection on, no project rules or prelude.
    fn default() -> (r: Preference)
        ensures
            r@.preset is None,
            r@.auto,
            r@.custom_rules.len() == 0,
            r@.custom_prelude is None,
    {
        Preference { preset: None, auto: true, custom_rules: Vec::new(), custom_prelude: None }
    }
}

impl Preference {
    pub fn copy(&self) -> (r: Preference)
        ensures
            r@ == self@,
    {
        Preference {
            preset: clone_opt(&self.preset),
            auto: self.auto,
            custom_rules: copy_rules(&self.custom_rules),
            custom_prelude: clone_opt(&self.custom_prelude),
        }
    }
}

/// The base dialect is the named preset, else (with `auto`) the detected one;
/// project rules go in front of the base's rules, and the project prelude becomes
/// `prelude_extra`. No dialect at all when there is neither a base nor anything
/// project-local; a project-local addition without a base yields a non-deck
/// dialect named `custom`.
pub open spec fn resolve_spec(
    pref: PreferenceModel,
    source: Seq<char>,
    dir: Seq<char>,
    ws: WorkspaceModel,
) -> Option<DialectModel> {
    let base = match pref.preset {
        Some(name) => preset::by_name_spec(name, ws.project_presets),
        None => if pref.auto {
            preset::detect_spec(source, dir, ws.files, ws.project_presets)
        } else {
            None
        },
    };
    let has_custom = pref.custom_rules.len() > 0 || pref.custom_prelude is Some;
    if base is None && !has_custom {
        None
    } else {
        let d0 = match base {
            Some(d) => d,
            None => empty_model("custom"@, false),
        };
        let d1 = if pref.custom_rules.len() > 0 {
            DialectModel { rules: pref.custom_rules + d0.rules, ..d0 }
        } else {
            d0
        };
        let d2 = if pref.custom_prelude is Some {
            DialectModel { prelude_extra: pref.custom_prelude, ..d1 }
        } else {
            d1
        };
        Some(d2)
    }
}

/// Resolve a concrete [`Dialect`] for `source` (a shader in directory `dir`).
/// Returns `None` when nothing applies, so `assemble` does no dialect work.
pub fn resolve(pref: &Preference, source: &str, dir: &str, ws: &Workspace) -> (r: Option<Dialect>)
    ensures
        match r {
            Some(d) => resolve_spec(pref@, source@, dir@, ws@) == Some(d@),
            None => resolve_spec(pref@, source@, dir@, ws@) is None,
        },
{
    let base = match &pref.preset {
        Some(name) => preset::by_name(name.as_str(), ws),
        None => if pref.auto {
            preset::detect(source, dir, ws)
        } else {
            None
        },
    };
    let has_custom = pref.custom_rules.len() > 0 || pref.custom_prelude.is_some();
    if base.is_none() && !has_custom {
        return None;
    }
    let mut d = match base {
        Some(d) => d,
        None => Dialect::empty("custom", false),
    };
    if pref.custom_rules.len() > 0 {
        let mut rules = copy_rules(&pref.custom_rules);
        let ghost before = rules@;
        let mut i: usize = 0;
        while i < d.rules.len()
            invariant
                0 <= i <= d.rules.len(),
                rules_view(rules@) == rules_view(before) + rules_view(d.rules@).take(i as int),
            decreases d.rules.len() - i,
        {
            let ghost b = rules@;
            let c = d.rules[i].copy();
            rules.push(c);
            proof {
                lemma_rules_view_push(b, c);
                assert(rules_view(d.rules@).take(i + 1) =~= rules_view(d.rules@).take(i as int).push(d.rules@[i as int]@));
                assert(rules_view(rules@) =~= rules_view(before) + rules_view(d.rules@).take(i + 1));
            }
            i = i + 1;
        }
        proof {
            assert(rules_view(d.rules@).take(d.rules@.len() as int) =~= rules_view(d.rules@));
        }
        d.rules = rules;
    }
    if pref.custom_prelude.is_some() {
        d.prelude_extra = clone_opt(&pref.custom_prelude);
    }
    Some(d)
}

// ---------------------------------------------------------------------------
// Laws
// ---------------------------------------------------------------------------

/// Some rule of `rules` is for namespace `ns` and takes exactly the arguments `rest` gives.
pub open spec fn handles(rules: Seq<RuleModel>, ns: Seq<char>, rest: Seq<char>) -> bool {
    exists|i: int| 0 <= i < rules.len() && (#[trigger] rules[i]).ns == ns && rule_values(rules[i], rest) is Some
        && rule_values(rules[i], rest).unwrap().len() == rules[i].args.len()
}

proof fn lemma_rules_ahead_win(a: Seq<RuleModel>, b: Seq<RuleModel>, ns: Seq<char>, rest: Seq<char>, stage: Stage)
    requires
        handles(a, ns, rest),
    ensures
        expand_rules(a + b, ns, rest, stage) == expand_rules(a, ns, rest, stage),
    decreases a.len(),
{
    let r = a[0];
    assert((a + b)[0] == r);
    let vals = rule_values(r, rest);
    if !(r.ns == ns && vals is Some && vals.unwrap().len() == r.args.len()) {
        let t = a.drop_first();
        assert((a + b).drop_first() =~= t + b);
        let i = choose|i: int| 0 <= i < a.len() && (#[trigger] a[i]).ns == ns && rule_values(a[i], rest) is Some
            && rule_values(a[i], rest).unwrap().len() == a[i].args.len();
        assert(i > 0);
        assert(t[i - 1] == a[i]);
        lemma_rules_ahead_win(t, b, ns, rest, stage);
    }
}

/// A project's own directive rules come ahead of the base dialect's: a
/// directive a project rule handles is expanded by the project's rules, so a
/// project can override a preset rule.
pub proof fn lemma_project_rules_override_the_dialect(
    pref: PreferenceModel,
    source: Seq<char>,
    dir: Seq<char>,
    ws: WorkspaceModel,
    line: Seq<char>,
    stage: Stage,
)
    requires
        parse_pragma_spec(line) is Some,
        handles(pref.custom_rules, parse_pragma_spec(line).unwrap().0, parse_pragma_spec(line).unwrap().1),
    ensures
        resolve_spec(pref, source, dir, ws) is Some,
        expand_spec(resolve_spec(pref, source, dir, ws).unwrap(), line, stage) == expand_rules(
            pref.custom_rules,
            parse_pragma_spec(line).unwrap().0,
            parse_pragma_spec(line).unwrap().1,
            stage,
        ),
{
    let (ns, rest) = parse_pragma_spec(line).unwrap();
    let d = resolve_spec(pref, source, dir, ws).unwrap();
    assert(d.rules == pref.custom_rules + match (match pref.preset {
        Some(name) => preset::by_name_spec(name, ws.project_presets),
        None => if pref.auto {
            preset::detect_spec(source, dir, ws.files, ws.project_presets)
        } else {
            None
        },
    }) {
        Some(b) => b.rules,
        None => empty_model("custom"@, false).rules,
    });
    lemma_rules_ahead_win(pref.custom_rules, d.rules.skip(pref.custom_rules.len() as int), ns, rest, stage);
    assert(pref.custom_rules + d.rules.skip(pref.custom_rules.len() as int) =~= d.rules);
}

/// Rule `r` is for namespace `ns` and takes exactly the arguments `rest` gives
/// (its verb, when it has one, being the first token).
pub open spec fn rule_matches(r: RuleModel, ns: Seq<char>, rest: Seq<char>) -> bool {
    r.ns == ns && rule_values(r, rest) is Some && rule_values(r, rest).unwrap().len() == r.args.len()
}

/// What the rule that decides produces: its stage template rendered with the
/// bound values, or nothing when it has no template for the stage.
pub open spec fn rule_output(r: RuleModel, rest: Seq<char>, stage: Stage) -> Option<Seq<Seq<char>>> {
    match template_for(r, stage) {
        None => None,
        Some(t) => Some(render_spec(t, r.args, rule_values(r, rest).unwrap())),
    }
}

proof fn lemma_expand_rules_first(rules: Seq<RuleModel>, ns: Seq<char>, rest: Seq<char>, stage: Stage)
    ensures
        (forall|k: int| 0 <= k < rules.len() ==> !rule_matches(#[trigger] rules[k], ns, rest)) ==> expand_rules(
            rules,
            ns,
            rest,
            stage,
        ) is None,
        forall|k: int|
            0 <= k < rules.len() && rule_matches(#[trigger] rules[k], ns, rest) && (forall|j: int|
                0 <= j < k ==> !rule_matches(#[trigger] rules[j], ns, rest)) ==> expand_rules(rules, ns, rest, stage)
                == rule_output(rules[k], rest, stage),
    decreases rules.len(),
{
    if rules.len() > 0 {
        let t = rules.drop_first();
        lemma_expand_rules_first(t, ns, rest, stage);
        if (forall|k: int| 0 <= k < rules.len() ==> !rule_matches(#[trigger] rules[k], ns, rest)) {
            assert(!rule_matches(rules[0], ns, rest));
            assert forall|k: int| 0 <= k < t.len() implies !rule_matches(#[trigger] t[k], ns, rest) by {
                assert(t[k] == rules[k + 1]);
            }
        }
        assert forall|k: int|
            0 <= k < rules.len() && rule_matches(#[trigger] rules[k], ns, rest) && (forall|j: int|
                0 <= j < k ==> !rule_matches(#[trigger] rules[j], ns, rest)) implies expand_rules(rules, ns, rest, stage)
            == rule_output(rules[k], rest, stage) by {
            if k > 0 {
                assert(!rule_matches(rules[0], ns, rest));
                assert(t[k - 1] == rules[k]);
                assert forall|j: int| 0 <= j < k - 1 implies !rule_matches(#[trigger] t[j], ns, rest) by {
                    assert(t[j] == rules[j + 1]);
                }
            }
        }
    }
}

/// A directive line is expanded by the first rule (in order) whose namespace,
/// verb and arity match it: into that rule's stage template (else its `any`
/// one) rendered with the directive's tokens, or into nothing when the rule has
/// no template for the stage. A line that is not a `#pragma <ns>: …` directive,
/// or that no rule matches, is not expanded.
pub proof fn lemma_first_matching_rule_expands(d: DialectModel, line: Seq<char>, stage: Stage)
    ensures
        parse_pragma_spec(line) is None ==> expand_spec(d, line, stage) is None,
        parse_pragma_spec(line) matches Some((ns, rest)) ==> {
            &&& (forall|k: int| 0 <= k < d.rules.len() ==> !rule_matches(#[trigger] d.rules[k], ns, rest))
                ==> expand_spec(d, line, stage) is None
            &&& forall|k: int|
                0 <= k < d.rules.len() && rule_matches(#[trigger] d.rules[k], ns, rest) && (forall|j: int|
                    0 <= j < k ==> !rule_matches(#[trigger] d.rules[j], ns, rest)) ==> expand_spec(d, line, stage)
                    == rule_output(d.rules[k], rest, stage)
        },
{
    if let Some((ns, rest)) = parse_pragma_spec(line) {
        lemma_expand_rules_first(d.rules, ns, rest, stage);
    }
}

/// The base dialect a preference names: the named preset, else (with `auto`)
/// the one detected for `source`.
pub open spec fn base_dialect(pref: PreferenceModel, source: Seq<char>, dir: Seq<char>, ws: WorkspaceModel) -> Option<
    DialectModel,
> {
    match pref.preset {
        Some(name) => preset::by_name_spec(name, ws.project_presets),
        None => if pref.auto {
            preset::detect_spec(source, dir, ws.files, ws.project_presets)
        } else {
            None
        },
    }
}

/// Resolution layers a project's own additions over the base dialect: the
/// project's rules come first, ahead of the base's; a project prelude becomes
/// the extra prelude; everything else is the base's. Without a base, the
/// dialect is the non-deck `custom` one with no preludes, library or epilogue.
/// There is a dialect exactly when there is a base or a project addition.
pub proof fn lemma_resolve_layers_project_over_base(
    pref: PreferenceModel,
    source: Seq<char>,
    dir: Seq<char>,
    ws: WorkspaceModel,
)
    ensures
        ({
            let base = base_dialect(pref, source, dir, ws);
            let r = resolve_spec(pref, source, dir, ws);
            &&& (r is Some <==> (base is Some || pref.custom_rules.len() > 0 || pref.custom_prelude is Some))
            &&& r matches Some(d) ==> {
                let b = match base {
                    Some(b) => b,
                    None => empty_model("custom"@, false),
                };
                &&& d.rules == pref.custom_rules + b.rules
                &&& d.prelude_extra == (if pref.custom_prelude is Some {
                    pref.custom_prelude
                } else {
                    b.prelude_extra
                })
                &&& d.name == b.name
                &&& d.deck == b.deck
                &&& d.prelude_vertex == b.prelude_vertex
                &&& d.prelude_fragment == b.prelude_fragment
                &&& d.prelude_any == b.prelude_any
                &&& d.epilogue == b.epilogue
                &&& d.prelude_files_vertex == b.prelude_files_vertex
                &&& d.prelude_files_fragment == b.prelude_files_fragment
                &&& d.define_names == b.define_names
                &&& d.discover_defines == b.discover_defines
                &&& base is None ==> d.name == "custom"@ && !d.deck && d.prelude_vertex is None
                    && d.prelude_fragment is None && d.prelude_any is None && d.epilogue is None
            }
        }),
{
    let base = base_dialect(pref, source, dir, ws);
    if let Some(d) = resolve_spec(pref, source, dir, ws) {
        let b = match base {
            Some(b) => b,
            None => empty_model("custom"@, false),
        };
        if pref.custom_rules.len() == 0 {
            assert(pref.custom_rules + b.rules =~= b.rules);
        }
    }
}

/// The built-in names: `mapbox` is another name for `maplibre`, `raw` another
/// for `none` (an empty, non-deck dialect), and `shadertoy` names its own.
pub proof fn lemma_dialect_names()
    ensures
        by_name_spec("maplibre"@) == Some(maplibre_model()),
        by_name_spec("mapbox"@) == by_name_spec("maplibre"@),
        by_name_spec("shadertoy"@) == Some(shadertoy_model()),
        by_name_spec("none"@) == Some(empty_model("none"@, false)),
        by_name_spec("raw"@) == by_name_spec("none"@),
{
    reveal_strlit("maplibre");
    reveal_strlit("mapbox");
    reveal_strlit("shadertoy");
    reveal_strlit("none");
    reveal_strlit("raw");
    assert("shadertoy"@.len() != "maplibre"@.len());
    assert("shadertoy"@.len() != "mapbox"@.len());
    assert("none"@.len() != "maplibre"@.len() && "none"@.len() != "mapbox"@.len() && "none"@.len() != "shadertoy"@.len());
    assert("raw"@.len() != "maplibre"@.len() && "raw"@.len() != "mapbox"@.len() && "raw"@.len() != "shadertoy"@.len());
}

} // verus!
