//! Per-file configuration: which preludes and luma/deck module fragments to
//! splice in before validating. Resolved from a `glslint.toml` (or the legacy
//! `glsl-lsp.toml`) found by walking up from the target file, from the project's
//! `new Model({ modules })` calls, or from sensible zero-config defaults.
//!
//! The richest form mirrors luma's own model: name the modules once, then bind
//! each shader to the modules it actually uses. Each shader then gets exactly its
//! modules, not every sibling. Without `[[shader]]` bindings a legacy global
//! `modules` list applies to every shader.

use vstd::prelude::*;
use vstd::utf8::encode_utf8;
use crate::derive::{Derived, DerivedModel};
use crate::dialect::{Preference, PreferenceModel, Rule, RuleModel, rules_view, lemma_rules_view_push};
use crate::path::{file_name, file_name_exec, join, join_exec, strip_prefix, strip_prefix_exec};
use crate::text::{
    clone_opt, clone_strs, from_chars, lemma_sv_push, ov, replace_all, replace_all_vec, string_eq, strings_eq,
    sv, to_chars,
};

verus! {

/// The modules and preludes one shader is assembled with.
#[derive(Debug)]
pub struct Config {
    /// Extra GLSL files prepended verbatim (after `#version`, before modules).
    pub preludes: Vec<String>,
    /// Module fragments spliced in ahead of the shader.
    pub modules: Vec<String>,
    /// Whether the deck.gl builtin prelude applies.
    pub use_builtin_prelude: bool,
    /// Which shader dialect and custom directive rules apply. Resolved to a
    /// concrete dialect at assembly time, once the source is known.
    pub dialect: Preference,
}

pub struct ConfigModel {
    pub preludes: Seq<Seq<char>>,
    pub modules: Seq<Seq<char>>,
    pub use_builtin_prelude: bool,
    pub dialect: PreferenceModel,
}

impl View for Config {
    type V = ConfigModel;

    open spec fn view(&self) -> ConfigModel {
        ConfigModel {
            preludes: sv(self.preludes@),
            modules: sv(self.modules@),
            use_builtin_prelude: self.use_builtin_prelude,
            dialect: self.dialect@,
        }
    }
}

impl Config {
    pub fn copy(&self) -> (r: Config)
        ensures
            r@ == self@,
    {
        Config {
            preludes: clone_strs(&self.preludes),
            modules: clone_strs(&self.modules),
            use_builtin_prelude: self.use_builtin_prelude,
            dialect: self.dialect.copy(),
        }
    }
}


// ---------------------------------------------------------------------------
// The config file, as parsed
// ---------------------------------------------------------------------------

/// One `[[dialect.expand]]` rule.
#[derive(Debug)]
pub struct ExpandRuleFile {
    /// Pragma namespace: matches `#pragma <pragma>: …`.
    pub pragma: String,
    /// First token after the namespace to match, or `None` to match any.
    pub verb: Option<String>,
    /// Names bound, in order, to the remaining whitespace tokens.
    pub args: Vec<String>,
    /// Expansion template for every stage without its own override.
    pub emit: Option<String>,
    pub vertex: Option<String>,
    pub fragment: Option<String>,
    pub compute: Option<String>,
}

pub struct ExpandRuleFileModel {
    pub pragma: Seq<char>,
    pub verb: Option<Seq<char>>,
    pub args: Seq<Seq<char>>,
    pub emit: Option<Seq<char>>,
    pub vertex: Option<Seq<char>>,
    pub fragment: Option<Seq<char>>,
    pub compute: Option<Seq<char>>,
}

impl View for ExpandRuleFile {
    type V = ExpandRuleFileModel;

    open spec fn view(&self) -> ExpandRuleFileModel {
        ExpandRuleFileModel {
            pragma: self.pragma@,
            verb: ov(self.verb),
            args: sv(self.args@),
            emit: ov(self.emit),
            vertex: ov(self.vertex),
            fragment: ov(self.fragment),
            compute: ov(self.compute),
        }
    }
}

pub open spec fn expands_view(v: Seq<ExpandRuleFile>) -> Seq<ExpandRuleFileModel> {
    v.map_values(|e: ExpandRuleFile| e@)
}

/// The `[dialect]` table: a built-in preset, the auto-detection toggle, and
/// project-local rules and prelude.
#[derive(Debug)]
pub struct DialectFile {
    pub preset: Option<String>,
    pub auto: Option<bool>,
    pub prelude: Option<String>,
    pub expand: Vec<ExpandRuleFile>,
}

pub struct DialectFileModel {
    pub preset: Option<Seq<char>>,
    pub auto: Option<bool>,
    pub prelude: Option<Seq<char>>,
    pub expand: Seq<ExpandRuleFileModel>,
}

impl View for DialectFile {
    type V = DialectFileModel;

    open spec fn view(&self) -> DialectFileModel {
        DialectFileModel {
            preset: ov(self.preset),
            auto: self.auto,
            prelude: ov(self.prelude),
            expand: expands_view(self.expand@),
        }
    }
}

impl Default for DialectFile {
    /// An absent `[dialect]` table.
    fn default() -> (r: DialectFile)
        ensures
            r@.preset is None,
            r@.auto is None,
            r@.prelude is None,
            r@.expand.len() == 0,
    {
        DialectFile { preset: None, auto: None, prelude: None, expand: Vec::new() }
    }
}

/// A named module (`[[module]]`).
#[derive(Debug)]
pub struct ModuleDef {
    pub name: String,
    /// A `.glsl` file providing the module's declarations.
    pub source: Option<String>,
    /// The baked-in deck project32 prelude stub.
    pub builtin: bool,
    /// A JS/TS file whose `uniformTypes` mirrors this module's UBO block.
    pub types: Option<String>,
}

pub struct ModuleDefModel {
    pub name: Seq<char>,
    pub source: Option<Seq<char>>,
    pub builtin: bool,
    pub types: Option<Seq<char>>,
}

impl View for ModuleDef {
    type V = ModuleDefModel;

    open spec fn view(&self) -> ModuleDefModel {
        ModuleDefModel { name: self.name@, source: ov(self.source), builtin: self.builtin, types: ov(self.types) }
    }
}

pub open spec fn defs_view(v: Seq<ModuleDef>) -> Seq<ModuleDefModel> {
    v.map_values(|m: ModuleDef| m@)
}

/// A per-shader binding (`[[shader]]`).
#[derive(Debug)]
pub struct ShaderBinding {
    /// Glob matched against the shader's file name, or its path relative to the
    /// config file.
    pub pattern: String,
    /// Module names (from `[[module]]`) this shader uses.
    pub modules: Vec<String>,
    /// Override the deck prelude for this binding (else inferred from a bound
    /// `builtin` module).
    pub builtin_prelude: Option<bool>,
}

pub struct ShaderBindingModel {
    pub pattern: Seq<char>,
    pub modules: Seq<Seq<char>>,
    pub builtin_prelude: Option<bool>,
}

impl View for ShaderBinding {
    type V = ShaderBindingModel;

    open spec fn view(&self) -> ShaderBindingModel {
        ShaderBindingModel { pattern: self.pattern@, modules: sv(self.modules@), builtin_prelude: self.builtin_prelude }
    }
}

pub open spec fn bindings_view(v: Seq<ShaderBinding>) -> Seq<ShaderBindingModel> {
    v.map_values(|b: ShaderBinding| b@)
}

/// A parsed `glslint.toml` / `glsl-lsp.toml`.
#[derive(Debug)]
pub struct ConfigFile {
    /// Extra GLSL files prepended verbatim.
    pub preludes: Vec<String>,
    /// Legacy global module list (applied to every shader).
    pub modules: Vec<String>,
    /// Legacy global toggle for the baked-in deck prelude.
    pub builtin_prelude: Option<bool>,
    /// Named module definitions (`[[module]]`).
    pub module_defs: Vec<ModuleDef>,
    /// Per-shader module bindings (`[[shader]]`).
    pub shaders: Vec<ShaderBinding>,
    /// The `[dialect]` table.
    pub dialect: DialectFile,
}

pub struct ConfigFileModel {
    pub preludes: Seq<Seq<char>>,
    pub modules: Seq<Seq<char>>,
    pub builtin_prelude: Option<bool>,
    pub module_defs: Seq<ModuleDefModel>,
    pub shaders: Seq<ShaderBindingModel>,
    pub dialect: DialectFileModel,
}

impl View for ConfigFile {
    type V = ConfigFileModel;

    open spec fn view(&self) -> ConfigFileModel {
        ConfigFileModel {
            preludes: sv(self.preludes@),
            modules: sv(self.modules@),
            builtin_prelude: self.builtin_prelude,
            module_defs: defs_view(self.module_defs@),
            shaders: bindings_view(self.shaders@),
            dialect: self.dialect@,
        }
    }
}

impl Default for ConfigFile {
    /// An empty config file.
    fn default() -> (r: ConfigFile)
        ensures
            r@.preludes.len() == 0,
            r@.modules.len() == 0,
            r@.builtin_prelude is None,
            r@.module_defs.len() == 0,
            r@.shaders.len() == 0,
            r@.dialect.preset is None,
            r@.dialect.auto is None,
            r@.dialect.prelude is None,
            r@.dialect.expand.len() == 0,
    {
        ConfigFile {
            preludes: Vec::new(),
            modules: Vec::new(),
            builtin_prelude: None,
            module_defs: Vec::new(),
            shaders: Vec::new(),
            dialect: DialectFile::default(),
        }
    }
}

// ---------------------------------------------------------------------------
// The dialect preference
// ---------------------------------------------------------------------------

/// The rule an `[[dialect.expand]]` entry stands for.
pub open spec fn expand_rule(e: ExpandRuleFileModel) -> RuleModel {
    RuleModel {
        ns: e.pragma,
        verb: e.verb,
        args: e.args,
        vertex: e.vertex,
        fragment: e.fragment,
        compute: e.compute,
        any: e.emit,
    }
}

/// The `[dialect]` table as a preference: auto-detection defaults to on.
pub open spec fn dialect_pref_spec(df: DialectFileModel) -> PreferenceModel {
    PreferenceModel {
        preset: df.preset,
        auto: match df.auto {
            Some(b) => b,
            None => true,
        },
        custom_rules: df.expand.map_values(|e: ExpandRuleFileModel| expand_rule(e)),
        custom_prelude: df.prelude,
    }
}

/// No preset, auto-detection on, no project rules or prelude.
pub open spec fn default_pref() -> PreferenceModel {
    PreferenceModel { preset: None, auto: true, custom_rules: seq![], custom_prelude: None }
}

/// Build a dialect preference from the `[dialect]` table, translating each
/// `[[dialect.expand]]` entry into a rule.
pub fn dialect_pref(df: &DialectFile) -> (r: Preference)
    ensures
        r@ == dialect_pref_spec(df@),
{
    let mut rules: Vec<Rule> = Vec::new();
    let mut i: usize = 0;
    let ghost ev = expands_view(df.expand@);
    while i < df.expand.len()
        invariant
            0 <= i <= df.expand.len(),
            ev == expands_view(df.expand@),
            rules_view(rules@) == ev.take(i as int).map_values(|e: ExpandRuleFileModel| expand_rule(e)),
        decreases df.expand.len() - i,
    {
        let e = &df.expand[i];
        let r = Rule {
            ns: e.pragma.clone(),
            verb: clone_opt(&e.verb),
            args: clone_strs(&e.args),
            vertex: clone_opt(&e.vertex),
            fragment: clone_opt(&e.fragment),
            compute: clone_opt(&e.compute),
            any: clone_opt(&e.emit),
        };
        proof {
            assert(ev[i as int] == e@);
            assert(r@ == expand_rule(e@));
            lemma_rules_view_push(rules@, r);
        }
        rules.push(r);
        proof {
            assert(ev.take(i + 1) =~= ev.take(i as int).push(ev[i as int]));
            assert(rules_view(rules@) =~= ev.take(i + 1).map_values(|e: ExpandRuleFileModel| expand_rule(e)));
        }
        i = i + 1;
    }
    proof {
        assert(ev.take(df.expand@.len() as int) =~= ev);
    }
    Preference {
        preset: clone_opt(&df.preset),
        auto: match df.auto {
            Some(b) => b,
            None => true,
        },
        custom_rules: rules,
        custom_prelude: clone_opt(&df.prelude),
    }
}

// ---------------------------------------------------------------------------
// Globs
// ---------------------------------------------------------------------------

/// `text` matches the glob `pattern` (both as UTF-8 bytes): `*` (byte 42) is
/// any run of bytes (including `/`), `?` (byte 63) is any single byte, every
/// other byte stands for itself. No character classes.
pub open spec fn glob(p: Seq<u8>, t: Seq<u8>) -> bool
    decreases p.len() + t.len(),
{
    if p.len() == 0 {
        t.len() == 0
    } else if p[0] == 42u8 {
        glob(p.drop_first(), t) || (t.len() > 0 && glob(p, t.drop_first()))
    } else {
        t.len() > 0 && (p[0] == 63u8 || p[0] == t[0]) && glob(p.drop_first(), t.drop_first())
    }
}

/// Match `text` against a simple glob: `*` is any run (including `/`), `?` is
/// any single byte.
pub fn glob_match(pattern: &str, text: &str) -> (r: bool)
    ensures
        r == glob(encode_utf8(pattern@), encode_utf8(text@)),
{
    let p = pattern.as_bytes();
    let t = text.as_bytes();
    let n = t.len();
    // `row[j]` is whether the pattern suffix from `i` matches the text suffix
    // from `j`; start with the empty pattern suffix.
    let mut row: Vec<bool> = Vec::new();
    let mut j: usize = 0;
    while j < n
        invariant
            0 <= j <= n,
            n == t@.len(),
            row@.len() == j,
            forall|k: int| 0 <= k < j ==> !row@[k],
        decreases n - j,
    {
        row.push(false);
        j = j + 1;
    }
    row.push(true);
    proof {
        assert forall|k: int| 0 <= k <= n implies row@[k] == glob(p@.skip(p@.len() as int), t@.skip(k)) by {
            assert(p@.skip(p@.len() as int).len() == 0);
        }
    }
    let mut i: usize = p.len();
    while i > 0
        invariant
            0 <= i <= p@.len(),
            n == t@.len(),
            row@.len() == n + 1,
            forall|k: int| 0 <= k <= n ==> row@[k] == glob(p@.skip(i as int), t@.skip(k)),
        decreases i,
    {
        let c = p[i - 1];
        let mut next: Vec<bool> = Vec::new();
        let mut k: usize = 0;
        while k < n
            invariant
                0 <= k <= n,
                next@.len() == k,
            decreases n - k,
        {
            next.push(false);
            k = k + 1;
        }
        next.push(false);
        let ghost ps = p@.skip(i - 1);
        proof {
            assert(ps.len() > 0);
            assert(ps[0] == c);
            assert(ps.drop_first() =~= p@.skip(i as int));
        }
        // The empty text suffix: only a `*` can match it, by matching nothing.
        let last = c == 42u8 && row[n];
        proof {
            assert(t@.skip(n as int).len() == 0);
            assert(last == glob(ps, t@.skip(n as int)));
        }
        next.set(n, last);
        let mut j: usize = n;
        while j > 0
            invariant
                0 <= j <= n,
                n == t@.len(),
                row@.len() == n + 1,
                next@.len() == n + 1,
                ps.len() > 0,
                ps[0] == c,
                ps.drop_first() == p@.skip(i as int),
                forall|k: int| 0 <= k <= n ==> row@[k] == glob(p@.skip(i as int), t@.skip(k)),
                forall|k: int| j <= k <= n ==> next@[k] == glob(ps, t@.skip(k)),
            decreases j,
        {
            let jj = j - 1;
            let ghost ts = t@.skip(jj as int);
            proof {
                assert(ts[0] == t@[jj as int]);
                assert(ts.drop_first() =~= t@.skip(jj + 1));
            }
            let v = if c == 42u8 {
                row[jj] || next[jj + 1]
            } else {
                (c == 63u8 || c == t[jj]) && row[jj + 1]
            };
            proof {
                assert(v == glob(ps, ts));
            }
            next.set(jj, v);
            j = jj;
        }
        row = next;
        i = i - 1;
    }
    proof {
        assert(p@.skip(0) =~= p@);
        assert(t@.skip(0) =~= t@);
    }
    row[0]
}

// ---------------------------------------------------------------------------
// Resolution
// ---------------------------------------------------------------------------

/// Each of `rels` joined onto `base`.
pub open spec fn join_all(base: Seq<char>, rels: Seq<Seq<char>>) -> Seq<Seq<char>> {
    rels.map_values(|r: Seq<char>| join(base, r))
}

pub fn join_all_exec(base: &str, rels: &Vec<String>) -> (r: Vec<String>)
    ensures
        sv(r@) == join_all(base@, sv(rels@)),
{
    let mut out: Vec<String> = Vec::new();
    let mut i: usize = 0;
    while i < rels.len()
        invariant
            0 <= i <= rels.len(),
            sv(out@) == join_all(base@, sv(rels@).take(i as int)),
        decreases rels.len() - i,
    {
        let j = join_exec(base, rels[i].as_str());
        proof {
            lemma_sv_push(out@, j);
            assert(sv(rels@)[i as int] == rels@[i as int]@);
            assert(sv(rels@).take(i + 1) =~= sv(rels@).take(i as int).push(rels@[i as int]@));
        }
        out.push(j);
        proof {
            assert(sv(out@) =~= join_all(base@, sv(rels@).take(i + 1)));
        }
        i = i + 1;
    }
    proof {
        assert(sv(rels@).take(rels@.len() as int) =~= sv(rels@));
    }
    out
}

/// The first `[[module]]` named `name`.
pub open spec fn find_def(defs: Seq<ModuleDefModel>, name: Seq<char>) -> Option<ModuleDefModel>
    decreases defs.len(),
{
    if defs.len() == 0 {
        None
    } else if defs[0].name == name {
        Some(defs[0])
    } else {
        find_def(defs.drop_first(), name)
    }
}

fn find_def_exec(defs: &Vec<ModuleDef>, name: &String) -> (r: Option<usize>)
    ensures
        match r {
            Some(i) => i < defs@.len() && find_def(defs_view(defs@), name@) == Some(defs@[i as int]@),
            None => find_def(defs_view(defs@), name@) is None,
        },
{
    let ghost dv = defs_view(defs@);
    let mut i: usize = 0;
    proof {
        assert(dv.skip(0) =~= dv);
    }
    while i < defs.len()
        invariant
            0 <= i <= defs.len(),
            dv == defs_view(defs@),
            find_def(dv, name@) == find_def(dv.skip(i as int), name@),
        decreases defs.len() - i,
    {
        proof {
            assert(dv.skip(i as int)[0] == defs@[i as int]@);
            assert(dv.skip(i as int).drop_first() =~= dv.skip(i + 1));
        }
        if strings_eq(&defs[i].name, name) {
            return Some(i);
        }
        i = i + 1;
    }
    None
}

/// The GLSL files of the named modules, joined onto `base`; an unknown name, or
/// a module without a `source`, adds nothing.
pub open spec fn bound_sources(defs: Seq<ModuleDefModel>, names: Seq<Seq<char>>, base: Seq<char>) -> Seq<Seq<char>>
    decreases names.len(),
{
    if names.len() == 0 {
        seq![]
    } else {
        let prev = bound_sources(defs, names.drop_last(), base);
        match find_def(defs, names.last()) {
            Some(d) => match d.source {
                Some(src) => prev.push(join(base, src)),
                None => prev,
            },
            None => prev,
        }
    }
}

/// Whether any of the named modules is the builtin deck one.
pub open spec fn wants_builtin(defs: Seq<ModuleDefModel>, names: Seq<Seq<char>>) -> bool
    decreases names.len(),
{
    if names.len() == 0 {
        false
    } else {
        wants_builtin(defs, names.drop_last()) || match find_def(defs, names.last()) {
            Some(d) => d.builtin,
            None => false,
        }
    }
}

/// The text a binding's glob is matched against: the file name...
pub open spec fn shader_name(file: Seq<char>) -> Seq<char> {
    match file_name(file) {
        Some(n) => n,
        None => seq![],
    }
}

/// ...or the path relative to the config file's directory, with `/` separators.
pub open spec fn shader_rel(file: Seq<char>, base: Seq<char>) -> Option<Seq<char>> {
    match strip_prefix(file, base) {
        Some(r) => Some(replace_all(r, seq!['\\'], seq!['/'])),
        None => None,
    }
}

pub open spec fn binding_matches(pattern: Seq<char>, name: Seq<char>, rel: Option<Seq<char>>) -> bool {
    glob(encode_utf8(pattern), encode_utf8(name)) || match rel {
        Some(r) => glob(encode_utf8(pattern), encode_utf8(r)),
        None => false,
    }
}

/// The first binding whose glob matches.
pub open spec fn first_binding(
    shaders: Seq<ShaderBindingModel>,
    name: Seq<char>,
    rel: Option<Seq<char>>,
) -> Option<ShaderBindingModel>
    decreases shaders.len(),
{
    if shaders.len() == 0 {
        None
    } else if binding_matches(shaders[0].pattern, name, rel) {
        Some(shaders[0])
    } else {
        first_binding(shaders.drop_first(), name, rel)
    }
}

/// The config of `file` from the first `[[shader]]` binding whose glob matches
/// it: exactly its bound modules' sources, and the deck prelude when the binding
/// says so or, failing that, when a bound module is the builtin one. An unmatched
/// shader gets no modules (it's likely a module fragment, or not yet bound).
pub open spec fn resolve_bindings_spec(file: Seq<char>, cf: ConfigFileModel, base: Seq<char>) -> ConfigModel {
    match first_binding(cf.shaders, shader_name(file), shader_rel(file, base)) {
        None => ConfigModel {
            preludes: join_all(base, cf.preludes),
            modules: seq![],
            use_builtin_prelude: match cf.builtin_prelude {
                Some(b) => b,
                None => true,
            },
            dialect: dialect_pref_spec(cf.dialect),
        },
        Some(b) => ConfigModel {
            preludes: join_all(base, cf.preludes),
            modules: bound_sources(cf.module_defs, b.modules, base),
            use_builtin_prelude: match b.builtin_prelude {
                Some(x) => x,
                None => wants_builtin(cf.module_defs, b.modules),
            },
            dialect: dialect_pref_spec(cf.dialect),
        },
    }
}

fn first_binding_exec(shaders: &Vec<ShaderBinding>, name: &str, rel: &Option<String>) -> (r: Option<usize>)
    ensures
        match r {
            Some(i) => i < shaders@.len() && first_binding(bindings_view(shaders@), name@, ov(*rel)) == Some(
                shaders@[i as int]@,
            ),
            None => first_binding(bindings_view(shaders@), name@, ov(*rel)) is None,
        },
{
    let ghost bv = bindings_view(shaders@);
    let mut i: usize = 0;
    proof {
        assert(bv.skip(0) =~= bv);
    }
    while i < shaders.len()
        invariant
            0 <= i <= shaders.len(),
            bv == bindings_view(shaders@),
            first_binding(bv, name@, ov(*rel)) == first_binding(bv.skip(i as int), name@, ov(*rel)),
        decreases shaders.len() - i,
    {
        proof {
            assert(bv.skip(i as int)[0] == shaders@[i as int]@);
            assert(bv.skip(i as int).drop_first() =~= bv.skip(i + 1));
        }
        let pat = shaders[i].pattern.as_str();
        let hit = glob_match(pat, name) || match rel {
            Some(r) => glob_match(pat, r.as_str()),
            None => false,
        };
        if hit {
            return Some(i);
        }
        i = i + 1;
    }
    None
}

/// Resolve the modules for `file` from the first `[[shader]]` binding whose glob
/// matches it. An unmatched shader gets only the builtin prelude.
pub fn resolve_bindings(file: &str, cf: &ConfigFile, base: &str) -> (r: Config)
    ensures
        r@ == resolve_bindings_spec(file@, cf@, base@),
{
    let fc = to_chars(file);
    let name = match file_name_exec(fc.as_slice()) {
        Some(n) => from_chars(n.as_slice()),
        None => String::new(),
    };
    let bc = to_chars(base);
    let rel = match strip_prefix_exec(fc.as_slice(), bc.as_slice()) {
        Some(r) => {
            let bs = vec!['\\'];
            let fs = vec!['/'];
            proof {
                assert(bs@ =~= seq!['\\']);
                assert(fs@ =~= seq!['/']);
            }
            let x = replace_all_vec(r.as_slice(), bs.as_slice(), fs.as_slice());
            Some(from_chars(x.as_slice()))
        },
        None => None,
    };
    proof {
        assert(name@ == shader_name(file@));
        assert(ov(rel) == shader_rel(file@, base@));
    }
    let preludes = join_all_exec(base, &cf.preludes);
    let dialect = dialect_pref(&cf.dialect);
    match first_binding_exec(&cf.shaders, name.as_str(), &rel) {
        None => {
            let modules: Vec<String> = Vec::new();
            proof {
                assert(sv(modules@) =~= Seq::<Seq<char>>::empty());
            }
            Config {
                preludes,
                modules,
                use_builtin_prelude: match cf.builtin_prelude {
                    Some(b) => b,
                    None => true,
                },
                dialect,
            }
        },
        Some(bi) => {
            let binding = &cf.shaders[bi];
            let ghost dv = defs_view(cf.module_defs@);
            let ghost names = sv(binding.modules@);
            let mut modules: Vec<String> = Vec::new();
            let mut wants = false;
            let mut k: usize = 0;
            while k < binding.modules.len()
                invariant
                    0 <= k <= binding.modules.len(),
                    dv == defs_view(cf.module_defs@),
                    names == sv(binding.modules@),
                    sv(modules@) == bound_sources(dv, names.take(k as int), base@),
                    wants == wants_builtin(dv, names.take(k as int)),
                decreases binding.modules.len() - k,
            {
                let ghost t = names.take(k + 1);
                proof {
                    assert(t.drop_last() =~= names.take(k as int));
                    assert(t.last() == binding.modules@[k as int]@);
                }
                match find_def_exec(&cf.module_defs, &binding.modules[k]) {
                    Some(di) => {
                        let def = &cf.module_defs[di];
                        proof {
                            assert(dv[di as int] == def@);
                        }
                        match &def.source {
                            Some(src) => {
                                let j = join_exec(base, src.as_str());
                                proof {
                                    lemma_sv_push(modules@, j);
                                }
                                modules.push(j);
                            },
                            None => {},
                        }
                        wants = wants || def.builtin;
                    },
                    None => {},
                }
                k = k + 1;
            }
            proof {
                assert(names.take(binding.modules@.len() as int) =~= names);
            }
            Config {
                preludes,
                modules,
                use_builtin_prelude: match binding.builtin_prelude {
                    Some(x) => x,
                    None => wants,
                },
                dialect,
            }
        },
    }
}

/// The config a file resolves to, given the project config file found for it
/// (parsed, with the directory it lies in) and the bindings derived from the
/// project's JS/TS: per-shader bindings take precedence; then explicit module
/// wiring or an explicit deck toggle; then derived bindings; then zero-config
/// (the builtin prelude, no explicit modules). The dialect preference comes from
/// the file's `[dialect]` table (or the default) on every path.
pub open spec fn resolve_for_spec(
    file: Seq<char>,
    found: Option<(ConfigFileModel, Seq<char>)>,
    derived: Option<DerivedModel>,
) -> ConfigModel {
    let dialect = match found {
        Some((cf, _)) => dialect_pref_spec(cf.dialect),
        None => default_pref(),
    };
    let fallback = match derived {
        Some(d) => ConfigModel {
            preludes: seq![],
            modules: d.modules,
            use_builtin_prelude: d.use_builtin_prelude,
            dialect,
        },
        None => ConfigModel { preludes: seq![], modules: seq![], use_builtin_prelude: true, dialect },
    };
    match found {
        Some((cf, base)) => if cf.shaders.len() > 0 {
            resolve_bindings_spec(file, cf, base)
        } else if cf.modules.len() > 0 || cf.preludes.len() > 0 || cf.builtin_prelude is Some {
            ConfigModel {
                preludes: join_all(base, cf.preludes),
                modules: join_all(base, cf.modules),
                use_builtin_prelude: match cf.builtin_prelude {
                    Some(b) => b,
                    None => true,
                },
                dialect,
            }
        } else {
            fallback
        },
        None => fallback,
    }
}

pub open spec fn found_view(found: Option<(ConfigFile, String)>) -> Option<(ConfigFileModel, Seq<char>)> {
    match found {
        Some((cf, base)) => Some((cf@, base@)),
        None => None,
    }
}

pub open spec fn derived_view(d: Option<Derived>) -> Option<DerivedModel> {
    match d {
        Some(x) => Some(x@),
        None => None,
    }
}

impl Config {
    /// Resolve config for `file` from the project config file found for it (when
    /// one was found and parsed: its contents and its directory) and the bindings
    /// derived from the project's `new Model(...)` calls. Infallible: a missing or
    /// unparsable file is `None` and degrades to the zero-config default.
    pub fn resolve_for(file: &str, found: &Option<(ConfigFile, String)>, derived: &Option<Derived>) -> (r: Config)
        ensures
            r@ == resolve_for_spec(file@, found_view(*found), derived_view(*derived)),
    {
        let dialect = match found {
            Some((cf, _)) => dialect_pref(&cf.dialect),
            None => Preference::default(),
        };
        proof {
            if found.is_none() {
                assert(dialect@.custom_rules =~= default_pref().custom_rules);
            }
            assert(dialect@ == match found_view(*found) {
                Some((cf, _)) => dialect_pref_spec(cf.dialect),
                None => default_pref(),
            });
        }
        if let Some((cf, base)) = found {
            if cf.shaders.len() > 0 {
                return resolve_bindings(file, cf, base.as_str());
            }
            if cf.modules.len() > 0 || cf.preludes.len() > 0 || cf.builtin_prelude.is_some() {
                return Config {
                    preludes: join_all_exec(base.as_str(), &cf.preludes),
                    modules: join_all_exec(base.as_str(), &cf.modules),
                    use_builtin_prelude: match cf.builtin_prelude {
                        Some(b) => b,
                        None => true,
                    },
                    dialect,
                };
            }
        }
        let preludes: Vec<String> = Vec::new();
        proof {
            assert(sv(preludes@) =~= Seq::<Seq<char>>::empty());
        }
        match derived {
            Some(d) => Config {
                preludes,
                modules: clone_strs(&d.modules),
                use_builtin_prelude: d.use_builtin_prelude,
                dialect,
            },
            None => {
                let modules: Vec<String> = Vec::new();
                proof {
                    assert(sv(modules@) =~= Seq::<Seq<char>>::empty());
                }
                Config { preludes, modules, use_builtin_prelude: true, dialect }
            },
        }
    }
}

/// The drift-check target of `file`: the first `[[module]]` whose `source`
/// (joined onto `base`) is `file` and that declares a `types` JS file, as the
/// module's name and the resolved types path.
pub open spec fn drift_for_defs(defs: Seq<ModuleDefModel>, file: Seq<char>, base: Seq<char>) -> Option<
    (Seq<char>, Seq<char>),
>
    decreases defs.len(),
{
    if defs.len() == 0 {
        None
    } else {
        let m = defs[0];
        if m.source is Some && m.types is Some && crate::path::same_file(join(base, m.source.unwrap()), file) {
            Some((m.name, join(base, m.types.unwrap())))
        } else {
            drift_for_defs(defs.drop_first(), file, base)
        }
    }
}

/// If `file` is a module's GLSL `source` and that module declares a `types` JS
/// file, the module's name and the resolved types path, for the drift check.
pub fn drift_for(file: &str, cf: &ConfigFile, base: &str) -> (r: Option<(String, String)>)
    ensures
        match r {
            Some((n, t)) => drift_for_defs(cf@.module_defs, file@, base@) == Some((n@, t@)),
            None => drift_for_defs(cf@.module_defs, file@, base@) is None,
        },
{
    let ghost dv = cf@.module_defs;
    let fc = to_chars(file);
    let mut i: usize = 0;
    proof {
        assert(dv.skip(0) =~= dv);
    }
    while i < cf.module_defs.len()
        invariant
            0 <= i <= cf.module_defs.len(),
            dv == defs_view(cf.module_defs@),
            fc@ == file@,
            drift_for_defs(dv, file@, base@) == drift_for_defs(dv.skip(i as int), file@, base@),
        decreases cf.module_defs.len() - i,
    {
        let m = &cf.module_defs[i];
        proof {
            assert(dv.skip(i as int)[0] == m@);
            assert(dv.skip(i as int).drop_first() =~= dv.skip(i + 1));
        }
        if let (Some(src), Some(types)) = (&m.source, &m.types) {
            let joined = join_exec(base, src.as_str());
            if crate::path::same_file_exec(to_chars(joined.as_str()).as_slice(), fc.as_slice()) {
                return Some((m.name.clone(), join_exec(base, types.as_str())));
            }
        }
        i = i + 1;
    }
    None
}

// ---------------------------------------------------------------------------
// Laws
// ---------------------------------------------------------------------------

proof fn lemma_first_binding_is_first_match(shaders: Seq<ShaderBindingModel>, name: Seq<char>, rel: Option<Seq<char>>, i: int)
    requires
        0 <= i < shaders.len(),
        binding_matches(shaders[i].pattern, name, rel),
        forall|k: int| 0 <= k < i ==> !binding_matches(#[trigger] shaders[k].pattern, name, rel),
    ensures
        first_binding(shaders, name, rel) == Some(shaders[i]),
    decreases i,
{
    if i > 0 {
        let t = shaders.drop_first();
        assert forall|k: int| 0 <= k < i - 1 implies !binding_matches(#[trigger] t[k].pattern, name, rel) by {
            assert(t[k] == shaders[k + 1]);
        }
        assert(!binding_matches(shaders[0].pattern, name, rel));
        lemma_first_binding_is_first_match(t, name, rel, i - 1);
    }
}

proof fn lemma_no_binding_matches(shaders: Seq<ShaderBindingModel>, name: Seq<char>, rel: Option<Seq<char>>)
    requires
        forall|k: int| 0 <= k < shaders.len() ==> !binding_matches(#[trigger] shaders[k].pattern, name, rel),
    ensures
        first_binding(shaders, name, rel) is None,
    decreases shaders.len(),
{
    if shaders.len() > 0 {
        let t = shaders.drop_first();
        assert forall|k: int| 0 <= k < t.len() implies !binding_matches(#[trigger] t[k].pattern, name, rel) by {
            assert(t[k] == shaders[k + 1]);
        }
        assert(!binding_matches(shaders[0].pattern, name, rel));
        lemma_no_binding_matches(t, name, rel);
    }
}

/// The first `[[shader]]` binding whose glob matches a shader (by file name, or
/// by path relative to the config) decides its modules and the deck prelude; a
/// shader no binding matches gets no modules.
pub proof fn lemma_first_matching_binding_wins(file: Seq<char>, cf: ConfigFileModel, base: Seq<char>, i: int)
    requires
        0 <= i <= cf.shaders.len(),
        i < cf.shaders.len() ==> binding_matches(cf.shaders[i].pattern, shader_name(file), shader_rel(file, base)),
        forall|k: int| 0 <= k < i ==> !binding_matches(#[trigger] cf.shaders[k].pattern, shader_name(file), shader_rel(file, base)),
    ensures
        i < cf.shaders.len() ==> resolve_bindings_spec(file, cf, base).modules == bound_sources(cf.module_defs, cf.shaders[i].modules, base)
            && resolve_bindings_spec(file, cf, base).use_builtin_prelude == match cf.shaders[i].builtin_prelude {
                Some(x) => x,
                None => wants_builtin(cf.module_defs, cf.shaders[i].modules),
            },
        i == cf.shaders.len() ==> resolve_bindings_spec(file, cf, base).modules.len() == 0,
{
    if i < cf.shaders.len() {
        lemma_first_binding_is_first_match(cf.shaders, shader_name(file), shader_rel(file, base), i);
    } else {
        lemma_no_binding_matches(cf.shaders, shader_name(file), shader_rel(file, base));
    }
}

/// A shader no `[[shader]]` binding matches (by file name or by path relative
/// to the config) gets no modules, and the deck builtin prelude unless the
/// file turns it off: `use_builtin_prelude` is false exactly when the file says
/// `builtin_prelude = false`, and true when the file leaves it unset.
pub proof fn lemma_unmatched_shader_keeps_the_builtin_prelude(file: Seq<char>, cf: ConfigFileModel, base: Seq<char>)
    requires
        forall|k: int| 0 <= k < cf.shaders.len() ==> !binding_matches(
            #[trigger] cf.shaders[k].pattern,
            shader_name(file),
            shader_rel(file, base),
        ),
    ensures
        resolve_bindings_spec(file, cf, base).modules.len() == 0,
        resolve_bindings_spec(file, cf, base).use_builtin_prelude <==> cf.builtin_prelude != Some(false),
        cf.builtin_prelude is None ==> resolve_bindings_spec(file, cf, base).use_builtin_prelude,
{
    lemma_no_binding_matches(cf.shaders, shader_name(file), shader_rel(file, base));
}

/// The deck builtin prelude is on unless a config turns it off: an unmatched
/// shader of a config with `[[shader]]` bindings, and every shader of a config
/// with only the legacy global lists, get it exactly when the file does not
/// say `builtin_prelude = false`; with no config and nothing derived, every
/// shader gets it, and no modules.
pub proof fn lemma_builtin_prelude_is_on_unless_turned_off(
    file: Seq<char>,
    found: Option<(ConfigFileModel, Seq<char>)>,
    derived: Option<DerivedModel>,
)
    ensures
        found matches Some((cf, base)) ==> (cf.shaders.len() > 0 && (forall|k: int|
            0 <= k < cf.shaders.len() ==> !binding_matches(
                #[trigger] cf.shaders[k].pattern,
                shader_name(file),
                shader_rel(file, base),
            ))) ==> (resolve_for_spec(file, found, derived).use_builtin_prelude <==> cf.builtin_prelude != Some(
            false,
        )) && resolve_for_spec(file, found, derived).modules.len() == 0,
        found matches Some((cf, base)) ==> (cf.shaders.len() == 0 && (cf.modules.len() > 0 || cf.preludes.len() > 0
            || cf.builtin_prelude is Some)) ==> (resolve_for_spec(file, found, derived).use_builtin_prelude
            <==> cf.builtin_prelude != Some(false)),
        found is None && derived is None ==> resolve_for_spec(file, found, derived).use_builtin_prelude
            && resolve_for_spec(file, found, derived).modules.len() == 0,
{
    if let Some((cf, base)) = found {
        if cf.shaders.len() > 0 && (forall|k: int|
            0 <= k < cf.shaders.len() ==> !binding_matches(
                #[trigger] cf.shaders[k].pattern,
                shader_name(file),
                shader_rel(file, base),
            )) {
            lemma_unmatched_shader_keeps_the_builtin_prelude(file, cf, base);
        }
    }
}

/// The GLSL file of the module named `name`, joined onto `base`.
pub open spec fn module_file(defs: Seq<ModuleDefModel>, name: Seq<char>, base: Seq<char>) -> Option<Seq<char>> {
    match find_def(defs, name) {
        Some(d) => match d.source {
            Some(src) => Some(join(base, src)),
            None => None,
        },
        None => None,
    }
}

/// A bound shader gets exactly its modules: every module file it is given is
/// the `source` of a module it names, and every module it names that has a
/// `source` is given.
pub proof fn lemma_bound_sources_are_exactly_the_named_modules(defs: Seq<ModuleDefModel>, names: Seq<Seq<char>>, base: Seq<char>)
    ensures
        forall|k: int| 0 <= k < bound_sources(defs, names, base).len() ==> exists|j: int| 0 <= j < names.len()
            && #[trigger] module_file(defs, names[j], base) == Some(#[trigger] bound_sources(defs, names, base)[k]),
        forall|j: int| 0 <= j < names.len() ==> (#[trigger] module_file(defs, names[j], base) matches Some(f)
            ==> bound_sources(defs, names, base).contains(f)),
    decreases names.len(),
{
    if names.len() > 0 {
        let t = names.drop_last();
        lemma_bound_sources_are_exactly_the_named_modules(defs, t, base);
        let prev = bound_sources(defs, t, base);
        let r = bound_sources(defs, names, base);
        let last = names.last();
        assert forall|k: int| 0 <= k < r.len() implies exists|j: int| 0 <= j < names.len()
            && #[trigger] module_file(defs, names[j], base) == Some(#[trigger] r[k]) by {
            if k < prev.len() {
                assert(r[k] == prev[k]);
                let j = choose|j: int| 0 <= j < t.len() && #[trigger] module_file(defs, t[j], base) == Some(#[trigger] prev[k]);
                assert(names[j] == t[j]);
            } else {
                assert(names[names.len() - 1] == last);
                assert(module_file(defs, names[names.len() - 1], base) == Some(r[k]));
            }
        }
        assert forall|j: int| 0 <= j < names.len() implies (#[trigger] module_file(defs, names[j], base) matches Some(f)
            ==> r.contains(f)) by {
            if j < t.len() {
                assert(names[j] == t[j]);
                if let Some(f) = module_file(defs, t[j], base) {
                    let m = choose|m: int| 0 <= m < prev.len() && prev[m] == f;
                    assert(r[m] == prev[m]);
                }
            } else {
                if let Some(f) = module_file(defs, last, base) {
                    assert(r[r.len() - 1] == f);
                }
            }
        }
    }
}

/// A glob matches its own text (`*` matches itself as a run, `?` itself as a
/// byte, any other byte itself).
pub proof fn lemma_glob_matches_itself(p: Seq<u8>)
    ensures
        glob(p, p),
    decreases p.len(),
{
    if p.len() > 0 {
        lemma_glob_matches_itself(p.drop_first());
        if p[0] == 42u8 {
            // `*` first matches nothing, then the rest matches itself...
            assert(glob(p.drop_first(), p.drop_first()));
            // ...so `*q` matches `q`, and then `*q` matches `*q` by letting `*`
            // consume its own byte.
            assert(glob(p, p.drop_first()));
        }
    }
}

/// The glob `*` matches every text.
pub proof fn lemma_star_matches_everything(t: Seq<u8>)
    ensures
        glob(seq![42u8], t),
    decreases t.len(),
{
    let p = seq![42u8];
    assert(p.drop_first() =~= Seq::<u8>::empty());
    assert(p[0] == 42u8);
    if t.len() > 0 {
        lemma_star_matches_everything(t.drop_first());
        assert(glob(p, t.drop_first()));
    } else {
        assert(glob(p.drop_first(), t));
    }
}

} // verus!
