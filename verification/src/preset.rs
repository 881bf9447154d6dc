//! Presets: shader-ecosystem knowledge as *data*, not code.
//!
//! The linter core is ecosystem-agnostic. A preset is the optional fast/precise
//! layer on top: it declares how to recognize an ecosystem, the `#pragma`
//! transform the core can't infer, and the exact shared-library files and
//! injected macros. A bundled preset and a project's own `glslint.toml` share one
//! schema ([`PresetFile`]); [`build`] turns either into a runtime [`Preset`].

use vstd::prelude::*;
use crate::dialect::{Dialect, DialectModel, Rule, RuleModel, empty_model, rules_view, lemma_rules_view_push};
use crate::path::{join, join_exec};
use crate::text::{clone_opt, clone_strs, contains, contains_exec, ov, string_eq, sv, to_chars, lemma_sv_push};
use crate::workspace::{Workspace, lookup};

verus! {

// ---------------------------------------------------------------------------
// Detection
// ---------------------------------------------------------------------------

/// When a preset applies to a shader.
#[derive(Debug)]
pub struct Detect {
    /// Any of these as a substring of the shader source activates the preset.
    pub source_contains: Vec<String>,
    /// Any of these filenames existing next to the shader activates the preset
    /// (so pragma-free shaders in a known project are still recognized).
    pub sibling_files: Vec<String>,
}

pub struct DetectModel {
    pub source_contains: Seq<Seq<char>>,
    pub sibling_files: Seq<Seq<char>>,
}

impl View for Detect {
    type V = DetectModel;

    open spec fn view(&self) -> DetectModel {
        DetectModel { source_contains: sv(self.source_contains@), sibling_files: sv(self.sibling_files@) }
    }
}

/// Some marker occurs in the source, or some sibling file exists in `dir`.
pub open spec fn detect_matches(
    d: DetectModel,
    source: Seq<char>,
    dir: Seq<char>,
    files: Seq<(Seq<char>, Seq<char>)>,
) -> bool {
    ||| exists|i: int| 0 <= i < d.source_contains.len() && contains(source, #[trigger] d.source_contains[i])
    ||| exists|i: int| 0 <= i < d.sibling_files.len() && lookup(files, join(dir, #[trigger] d.sibling_files[i])) is Some
}

impl Detect {
    pub fn copy(&self) -> (r: Detect)
        ensures
            r@ == self@,
    {
        Detect { source_contains: clone_strs(&self.source_contains), sibling_files: clone_strs(&self.sibling_files) }
    }

    /// Whether this preset applies to `source` in directory `dir`.
    pub fn matches(&self, source: &[char], dir: &str, ws: &Workspace) -> (r: bool)
        ensures
            r == detect_matches(self@, source@, dir@, ws@.files),
    {
        let mut i: usize = 0;
        while i < self.source_contains.len()
            invariant
                0 <= i <= self.source_contains.len(),
                forall|j: int| 0 <= j < i ==> !contains(source@, #[trigger] self@.source_contains[j]),
            decreases self.source_contains.len() - i,
        {
            let m = to_chars(self.source_contains[i].as_str());
            if contains_exec(source, m.as_slice()) {
                assert(self@.source_contains[i as int] == m@);
                return true;
            }
            i = i + 1;
        }
        let mut k: usize = 0;
        while k < self.sibling_files.len()
            invariant
                0 <= k <= self.sibling_files.len(),
                forall|j: int| 0 <= j < self.source_contains@.len() ==> !contains(source@, #[trigger] self@.source_contains[j]),
                forall|j: int| 0 <= j < k ==> !(lookup(ws@.files, join(dir@, #[trigger] self@.sibling_files[j])) is Some),
            decreases self.sibling_files.len() - k,
        {
            let p = join_exec(dir, self.sibling_files[k].as_str());
            let pc = to_chars(p.as_str());
            if ws.has_file(pc.as_slice()) {
                assert(self@.sibling_files[k as int] == self.sibling_files@[k as int]@);
                return true;
            }
            k = k + 1;
        }
        false
    }
}

// ---------------------------------------------------------------------------
// Presets and their on-disk schema
// ---------------------------------------------------------------------------

/// A parsed preset: how to recognize the ecosystem, plus the [`Dialect`] to apply.
#[derive(Debug)]
pub struct Preset {
    pub detect: Detect,
    pub dialect: Dialect,
}

pub struct PresetModel {
    pub detect: DetectModel,
    pub dialect: DialectModel,
}

impl View for Preset {
    type V = PresetModel;

    open spec fn view(&self) -> PresetModel {
        PresetModel { detect: self.detect@, dialect: self.dialect@ }
    }
}

pub open spec fn presets_view(v: Seq<Preset>) -> Seq<PresetModel> {
    v.map_values(|p: Preset| p@)
}

/// A field that accepts either a single string or a list of them.
#[derive(Debug)]
pub enum OneOrMany {
    One(String),
    Many(Vec<String>),
}

pub open spec fn one_or_many_view(o: OneOrMany) -> Seq<Seq<char>> {
    match o {
        OneOrMany::One(s) => seq![s@],
        OneOrMany::Many(v) => sv(v@),
    }
}

impl OneOrMany {
    /// The strings, in order.
    pub fn into_vec(self) -> (r: Vec<String>)
        ensures
            sv(r@) == one_or_many_view(self),
    {
        match self {
            OneOrMany::One(s) => {
                let mut v: Vec<String> = Vec::new();
                v.push(s);
                assert(sv(v@) =~= seq![s@]);
                v
            },
            OneOrMany::Many(v) => v,
        }
    }
}

/// Shared-library files the build concatenates ahead of every shader.
#[derive(Debug)]
pub struct LibrarySpec {
    pub vertex: Vec<String>,
    pub fragment: Vec<String>,
}

/// One `[[expand]]` rule as written in a preset file.
#[derive(Debug)]
pub struct ExpandRuleFile {
    /// Pragma namespace(s): one string or a list.
    pub pragma: OneOrMany,
    pub verb: Option<String>,
    pub args: Vec<String>,
    /// Any-stage template; stage fields override it.
    pub emit: Option<String>,
    pub vertex: Option<String>,
    pub fragment: Option<String>,
    pub compute: Option<String>,
}

pub struct ExpandModel {
    pub pragma: Seq<Seq<char>>,
    pub verb: Option<Seq<char>>,
    pub args: Seq<Seq<char>>,
    pub emit: Option<Seq<char>>,
    pub vertex: Option<Seq<char>>,
    pub fragment: Option<Seq<char>>,
    pub compute: Option<Seq<char>>,
}

impl View for ExpandRuleFile {
    type V = ExpandModel;

    open spec fn view(&self) -> ExpandModel {
        ExpandModel {
            pragma: one_or_many_view(self.pragma),
            verb: ov(self.verb),
            args: sv(self.args@),
            emit: ov(self.emit),
            vertex: ov(self.vertex),
            fragment: ov(self.fragment),
            compute: ov(self.compute),
        }
    }
}

/// One preset (bundled, or a project's `glslint.toml`) as written.
#[derive(Debug)]
pub struct PresetFile {
    pub name: String,
    pub detect: Detect,
    /// Shared-library files the build concatenates ahead of every shader.
    pub library: LibrarySpec,
    /// Names of macros the project injects from JS at build time.
    pub defines: Vec<String>,
    /// Opt in to discovering injected `#define NAME ${…}` macros.
    pub discover_defines: bool,
    /// Static preludes (implicit globals).
    pub prelude: Option<String>,
    pub prelude_vertex: Option<String>,
    pub prelude_fragment: Option<String>,
    /// A wrapper `main` appended when the source has none.
    pub epilogue: Option<String>,
    /// Whether the deck.gl builtin prelude still applies.
    pub deck: bool,
    /// Directive-expansion rules (the `#pragma` DSL).
    pub expand: Vec<ExpandRuleFile>,
}

pub struct PresetFileModel {
    pub name: Seq<char>,
    pub detect: DetectModel,
    pub library_vertex: Seq<Seq<char>>,
    pub library_fragment: Seq<Seq<char>>,
    pub defines: Seq<Seq<char>>,
    pub discover_defines: bool,
    pub prelude: Option<Seq<char>>,
    pub prelude_vertex: Option<Seq<char>>,
    pub prelude_fragment: Option<Seq<char>>,
    pub epilogue: Option<Seq<char>>,
    pub deck: bool,
    pub expand: Seq<ExpandModel>,
}

impl View for PresetFile {
    type V = PresetFileModel;

    open spec fn view(&self) -> PresetFileModel {
        PresetFileModel {
            name: self.name@,
            detect: self.detect@,
            library_vertex: sv(self.library.vertex@),
            library_fragment: sv(self.library.fragment@),
            defines: sv(self.defines@),
            discover_defines: self.discover_defines,
            prelude: ov(self.prelude),
            prelude_vertex: ov(self.prelude_vertex),
            prelude_fragment: ov(self.prelude_fragment),
            epilogue: ov(self.epilogue),
            deck: self.deck,
            expand: self.expand@.map_values(|e: ExpandRuleFile| e@),
        }
    }
}

/// The rule an `[[expand]]` entry yields for one namespace.
pub open spec fn rule_of(e: ExpandModel, ns: Seq<char>) -> RuleModel {
    RuleModel {
        ns,
        verb: e.verb,
        args: e.args,
        vertex: e.vertex,
        fragment: e.fragment,
        compute: e.compute,
        any: e.emit,
    }
}

/// One rule per namespace of the entry, in order.
pub open spec fn rules_of_entry(e: ExpandModel) -> Seq<RuleModel> {
    e.pragma.map_values(|ns: Seq<char>| rule_of(e, ns))
}

/// The rules of all entries, entry by entry.
pub open spec fn rules_of(entries: Seq<ExpandModel>) -> Seq<RuleModel>
    decreases entries.len(),
{
    if entries.len() == 0 {
        seq![]
    } else {
        rules_of(entries.drop_last()) + rules_of_entry(entries.last())
    }
}

/// The runtime preset a preset file describes: its detection rules, and a dialect
/// with its name, preludes, epilogue, library, defines, deck flag and one rule per
/// `[[expand]]` namespace.
pub open spec fn build_spec(pf: PresetFileModel) -> PresetModel {
    PresetModel {
        detect: pf.detect,
        dialect: DialectModel {
            name: pf.name,
            prelude_vertex: pf.prelude_vertex,
            prelude_fragment: pf.prelude_fragment,
            prelude_any: pf.prelude,
            prelude_extra: None,
            epilogue: pf.epilogue,
            prelude_files_vertex: pf.library_vertex,
            prelude_files_fragment: pf.library_fragment,
            define_names: pf.defines,
            discover_defines: pf.discover_defines,
            rules: rules_of(pf.expand),
            deck: pf.deck,
        },
    }
}

/// Turn a preset file into a runtime [`Preset`].
pub fn build(pf: PresetFile) -> (r: Preset)
    ensures
        r@ == build_spec(pf@),
{
    let ghost pfv = pf@;
    let ghost entries = pfv.expand;
    let mut rules: Vec<Rule> = Vec::new();
    let mut i: usize = 0;
    assert(rules_view(rules@) =~= rules_of(entries.take(0)));
    while i < pf.expand.len()
        invariant
            0 <= i <= pf.expand.len(),
            entries == pf.expand@.map_values(|e: ExpandRuleFile| e@),
            rules_view(rules@) == rules_of(entries.take(i as int)),
        decreases pf.expand.len() - i,
    {
        let e = &pf.expand[i];
        let nss: Vec<String> = match &e.pragma {
            OneOrMany::One(s) => {
                let mut v: Vec<String> = Vec::new();
                v.push(s.clone());
                assert(sv(v@) =~= seq![s@]);
                v
            },
            OneOrMany::Many(v) => clone_strs(v),
        };
        let ghost base = rules_view(rules@);
        let mut k: usize = 0;
        assert(base + rules_of_entry(e@).take(0) =~= base);
        while k < nss.len()
            invariant
                0 <= k <= nss.len(),
                sv(nss@) == e@.pragma,
                rules_view(rules@) == base + rules_of_entry(e@).take(k as int),
            decreases nss.len() - k,
        {
            let ghost before = rules@;
            let r = Rule {
                ns: nss[k].clone(),
                verb: clone_opt(&e.verb),
                args: clone_strs(&e.args),
                vertex: clone_opt(&e.vertex),
                fragment: clone_opt(&e.fragment),
                compute: clone_opt(&e.compute),
                any: clone_opt(&e.emit),
            };
            rules.push(r);
            proof {
                lemma_rules_view_push(before, r);
                assert(r@ == rule_of(e@, sv(nss@)[k as int]));
                assert(rules_of_entry(e@).take(k + 1) =~= rules_of_entry(e@).take(k as int).push(r@));
                assert(rules_view(rules@) =~= base + rules_of_entry(e@).take(k + 1));
            }
            k = k + 1;
        }
        proof {
            assert(rules_of_entry(e@).take(nss@.len() as int) =~= rules_of_entry(e@));
            assert(entries.take(i + 1).drop_last() =~= entries.take(i as int));
            assert(entries.take(i + 1).last() == e@);
        }
        i = i + 1;
    }
    proof {
        assert(entries.take(pf.expand@.len() as int) =~= entries);
    }
    let dialect = Dialect {
        name: pf.name,
        prelude_vertex: pf.prelude_vertex,
        prelude_fragment: pf.prelude_fragment,
        prelude_any: pf.prelude,
        prelude_extra: None,
        epilogue: pf.epilogue,
        prelude_files_vertex: pf.library.vertex,
        prelude_files_fragment: pf.library.fragment,
        define_names: pf.defines,
        discover_defines: pf.discover_defines,
        rules,
        deck: pf.deck,
    };
    Preset { detect: pf.detect, dialect }
}

// ---------------------------------------------------------------------------
// The bundled presets
// ---------------------------------------------------------------------------

fn owned(a: &str) -> (r: String)
    ensures
        r@ == a@,
{
    a.to_owned()
}

fn strs1(a: &str) -> (r: Vec<String>)
    ensures
        sv(r@) == seq![a@],
{
    let mut v: Vec<String> = Vec::new();
    v.push(owned(a));
    assert(sv(v@) =~= seq![a@]);
    v
}

fn strs2(a: &str, b: &str) -> (r: Vec<String>)
    ensures
        sv(r@) == seq![a@, b@],
{
    let mut v: Vec<String> = Vec::new();
    v.push(owned(a));
    v.push(owned(b));
    assert(sv(v@) =~= seq![a@, b@]);
    v
}

fn strs3(a: &str, b: &str, c: &str) -> (r: Vec<String>)
    ensures
        sv(r@) == seq![a@, b@, c@],
{
    let mut v: Vec<String> = Vec::new();
    v.push(owned(a));
    v.push(owned(b));
    v.push(owned(c));
    assert(sv(v@) =~= seq![a@, b@, c@]);
    v
}

fn no_strs() -> (r: Vec<String>)
    ensures
        sv(r@) == Seq::<Seq<char>>::empty(),
{
    let v: Vec<String> = Vec::new();
    assert(sv(v@) =~= Seq::<Seq<char>>::empty());
    v
}

pub open spec fn maplibre_expand(verb: Seq<char>, vertex: Seq<char>, fragment: Seq<char>) -> ExpandModel {
    ExpandModel {
        pragma: seq!["maplibre"@, "mapbox"@],
        verb: Some(verb),
        args: crate::dialect::pragma_args(),
        emit: None,
        vertex: Some(vertex),
        fragment: Some(fragment),
        compute: None,
    }
}

/// maplibre-gl-js: recognized by its pragma namespaces or its `_prelude` library
/// next to the shader; splices the prelude and mercator projection library,
/// defaults `NUM_ILLUMINATION_SOURCES`, and expands `define`/`initialize`.
pub open spec fn maplibre_file_model() -> PresetFileModel {
    PresetFileModel {
        name: "maplibre"@,
        detect: DetectModel {
            source_contains: seq!["#pragma maplibre:"@, "#pragma mapbox:"@],
            sibling_files: seq!["_prelude.vertex.glsl"@, "_prelude.fragment.glsl"@],
        },
        library_vertex: seq!["_prelude.vertex.glsl"@, "_projection_mercator.vertex.glsl"@],
        library_fragment: seq!["_prelude.fragment.glsl"@],
        defines: seq!["NUM_ILLUMINATION_SOURCES"@],
        discover_defines: false,
        prelude: None,
        prelude_vertex: None,
        prelude_fragment: None,
        epilogue: None,
        deck: false,
        expand: seq![
            maplibre_expand("define"@, crate::dialect::MAPLIBRE_DEFINE_VERTEX@, crate::dialect::MAPLIBRE_DEFINE_FRAGMENT@),
            maplibre_expand("initialize"@, crate::dialect::MAPLIBRE_INIT_VERTEX@, crate::dialect::MAPLIBRE_INIT_FRAGMENT@),
        ],
    }
}

/// ShaderToy: recognized by `mainImage(`; the implicit uniforms as a fragment
/// prelude and a `main` epilogue.
pub open spec fn shadertoy_file_model() -> PresetFileModel {
    PresetFileModel {
        name: "shadertoy"@,
        detect: DetectModel { source_contains: seq!["mainImage("@], sibling_files: seq![] },
        library_vertex: seq![],
        library_fragment: seq![],
        defines: seq![],
        discover_defines: false,
        prelude: None,
        prelude_vertex: None,
        prelude_fragment: Some(crate::dialect::SHADERTOY_PRELUDE@),
        epilogue: Some(crate::dialect::SHADERTOY_EPILOGUE@),
        deck: false,
        expand: seq![],
    }
}

/// deck.gl: recognized by a call to one of its `project*` builtins; keeps the deck
/// builtin path on, with the baked-in stub as its prelude.
pub open spec fn deck_file_model() -> PresetFileModel {
    PresetFileModel {
        name: "deck"@,
        detect: DetectModel {
            source_contains: seq![
                "project_position_to_clipspace"@,
                "project_common_position_to_clipspace"@,
                "project_pixel_size_to_clipspace"@,
            ],
            sibling_files: seq![],
        },
        library_vertex: seq![],
        library_fragment: seq![],
        defines: seq![],
        discover_defines: false,
        prelude: Some(crate::assemble::BUILTIN_PRELUDE@),
        prelude_vertex: None,
        prelude_fragment: None,
        epilogue: None,
        deck: true,
        expand: seq![],
    }
}

fn maplibre_expand_exec(verb: &str, vertex: &str, fragment: &str) -> (r: ExpandRuleFile)
    ensures
        r@ == maplibre_expand(verb@, vertex@, fragment@),
{
    let args = strs3("prec", "type", "name");
    ExpandRuleFile {
        pragma: OneOrMany::Many(strs2("maplibre", "mapbox")),
        verb: Some(owned(verb)),
        args,
        emit: None,
        vertex: Some(owned(vertex)),
        fragment: Some(owned(fragment)),
        compute: None,
    }
}

fn maplibre_file() -> (r: PresetFile)
    ensures
        r@ == maplibre_file_model(),
{
    let mut expand: Vec<ExpandRuleFile> = Vec::new();
    expand.push(maplibre_expand_exec(
        "define",
        crate::dialect::MAPLIBRE_DEFINE_VERTEX,
        crate::dialect::MAPLIBRE_DEFINE_FRAGMENT,
    ));
    expand.push(maplibre_expand_exec(
        "initialize",
        crate::dialect::MAPLIBRE_INIT_VERTEX,
        crate::dialect::MAPLIBRE_INIT_FRAGMENT,
    ));
    let r = PresetFile {
        name: owned("maplibre"),
        detect: Detect {
            source_contains: strs2("#pragma maplibre:", "#pragma mapbox:"),
            sibling_files: strs2("_prelude.vertex.glsl", "_prelude.fragment.glsl"),
        },
        library: LibrarySpec {
            vertex: strs2("_prelude.vertex.glsl", "_projection_mercator.vertex.glsl"),
            fragment: strs1("_prelude.fragment.glsl"),
        },
        defines: strs1("NUM_ILLUMINATION_SOURCES"),
        discover_defines: false,
        prelude: None,
        prelude_vertex: None,
        prelude_fragment: None,
        epilogue: None,
        deck: false,
        expand,
    };
    assert(r@.expand =~= maplibre_file_model().expand);
    r
}

fn shadertoy_file() -> (r: PresetFile)
    ensures
        r@ == shadertoy_file_model(),
{
    let expand: Vec<ExpandRuleFile> = Vec::new();
    let r = PresetFile {
        name: owned("shadertoy"),
        detect: Detect { source_contains: strs1("mainImage("), sibling_files: no_strs() },
        library: LibrarySpec { vertex: no_strs(), fragment: no_strs() },
        defines: no_strs(),
        discover_defines: false,
        prelude: None,
        prelude_vertex: None,
        prelude_fragment: Some(owned(crate::dialect::SHADERTOY_PRELUDE)),
        epilogue: Some(owned(crate::dialect::SHADERTOY_EPILOGUE)),
        deck: false,
        expand,
    };
    assert(r@.expand =~= Seq::<ExpandModel>::empty());
    r
}

fn deck_file() -> (r: PresetFile)
    ensures
        r@ == deck_file_model(),
{
    let expand: Vec<ExpandRuleFile> = Vec::new();
    let r = PresetFile {
        name: owned("deck"),
        detect: Detect {
            source_contains: strs3(
                "project_position_to_clipspace",
                "project_common_position_to_clipspace",
                "project_pixel_size_to_clipspace",
            ),
            sibling_files: no_strs(),
        },
        library: LibrarySpec { vertex: no_strs(), fragment: no_strs() },
        defines: no_strs(),
        discover_defines: false,
        prelude: Some(owned(crate::assemble::BUILTIN_PRELUDE)),
        prelude_vertex: None,
        prelude_fragment: None,
        epilogue: None,
        deck: true,
        expand,
    };
    assert(r@.expand =~= Seq::<ExpandModel>::empty());
    r
}

/// The bundled presets, in detection order: maplibre, shadertoy, deck.
pub open spec fn bundled_model() -> Seq<PresetModel> {
    seq![build_spec(maplibre_file_model()), build_spec(shadertoy_file_model()), build_spec(deck_file_model())]
}

/// The presets compiled into the library.
pub fn bundled() -> (r: Vec<Preset>)
    ensures
        presets_view(r@) == bundled_model(),
{
    let mut v: Vec<Preset> = Vec::new();
    v.push(build(maplibre_file()));
    v.push(build(shadertoy_file()));
    v.push(build(deck_file()));
    assert(presets_view(v@) =~= bundled_model());
    v
}

/// The `deck` preset's fallback stub prelude — deck's `project*` builtins as
/// type-correct stubs, used when the real signatures can't be resolved from
/// node_modules.
pub fn deck_prelude() -> (r: String)
    ensures
        r@ == crate::assemble::BUILTIN_PRELUDE@,
        Some(r@) == bundled_model()[2].dialect.prelude_any,
{
    owned(crate::assemble::BUILTIN_PRELUDE)
}

/// The dialect of the first preset named `name`.
pub open spec fn find_named(ps: Seq<PresetModel>, name: Seq<char>) -> Option<DialectModel>
    decreases ps.len(),
{
    if ps.len() == 0 {
        None
    } else if ps[0].dialect.name == name {
        Some(ps[0].dialect)
    } else {
        find_named(ps.drop_first(), name)
    }
}

/// The dialect of the first preset whose detection matches.
pub open spec fn find_matching(
    ps: Seq<PresetModel>,
    source: Seq<char>,
    dir: Seq<char>,
    files: Seq<(Seq<char>, Seq<char>)>,
) -> Option<DialectModel>
    decreases ps.len(),
{
    if ps.len() == 0 {
        None
    } else if detect_matches(ps[0].detect, source, dir, files) {
        Some(ps[0].dialect)
    } else {
        find_matching(ps.drop_first(), source, dir, files)
    }
}

/// `none`/`raw` give an empty non-deck dialect; otherwise the project's preset of
/// that name, else the bundled one.
pub open spec fn by_name_spec(name: Seq<char>, projects: Seq<PresetModel>) -> Option<DialectModel> {
    if name == "none"@ || name == "raw"@ {
        Some(empty_model("none"@, false))
    } else if find_named(projects, name) is Some {
        find_named(projects, name)
    } else {
        find_named(bundled_model(), name)
    }
}

/// The project's first matching preset, else the first matching bundled one.
pub open spec fn detect_spec(
    source: Seq<char>,
    dir: Seq<char>,
    files: Seq<(Seq<char>, Seq<char>)>,
    projects: Seq<PresetModel>,
) -> Option<DialectModel> {
    if find_matching(projects, source, dir, files) is Some {
        find_matching(projects, source, dir, files)
    } else {
        find_matching(bundled_model(), source, dir, files)
    }
}

fn find_named_exec(ps: &Vec<Preset>, name: &[char]) -> (r: Option<Dialect>)
    ensures
        match r {
            Some(d) => find_named(presets_view(ps@), name@) == Some(d@),
            None => find_named(presets_view(ps@), name@) is None,
        },
{
    let ghost pv = presets_view(ps@);
    let mut i: usize = 0;
    assert(pv.skip(0) == pv);
    while i < ps.len()
        invariant
            0 <= i <= ps.len(),
            pv == presets_view(ps@),
            find_named(pv, name@) == find_named(pv.skip(i as int), name@),
        decreases ps.len() - i,
    {
        proof {
            assert(pv.skip(i as int)[0] == ps@[i as int]@);
            assert(pv.skip(i as int).drop_first() == pv.skip(i + 1));
        }
        if string_eq(&ps[i].dialect.name, name) {
            return Some(ps[i].dialect.copy());
        }
        i = i + 1;
    }
    None
}

fn find_matching_exec(ps: &Vec<Preset>, source: &[char], dir: &str, ws: &Workspace) -> (r: Option<Dialect>)
    ensures
        match r {
            Some(d) => find_matching(presets_view(ps@), source@, dir@, ws@.files) == Some(d@),
            None => find_matching(presets_view(ps@), source@, dir@, ws@.files) is None,
        },
{
    let ghost pv = presets_view(ps@);
    let mut i: usize = 0;
    assert(pv.skip(0) == pv);
    while i < ps.len()
        invariant
            0 <= i <= ps.len(),
            pv == presets_view(ps@),
            find_matching(pv, source@, dir@, ws@.files) == find_matching(pv.skip(i as int), source@, dir@, ws@.files),
        decreases ps.len() - i,
    {
        proof {
            assert(pv.skip(i as int)[0] == ps@[i as int]@);
            assert(pv.skip(i as int).drop_first() == pv.skip(i + 1));
        }
        if ps[i].detect.matches(source, dir, ws) {
            return Some(ps[i].dialect.copy());
        }
        i = i + 1;
    }
    None
}

/// Resolve a preset's dialect by explicit `name` (project presets shadow bundled).
pub fn by_name(name: &str, ws: &Workspace) -> (r: Option<Dialect>)
    ensures
        match r {
            Some(d) => by_name_spec(name@, ws@.project_presets) == Some(d@),
            None => by_name_spec(name@, ws@.project_presets) is None,
        },
{
    let n = to_chars(name);
    if string_eq(&owned("none"), n.as_slice()) || string_eq(&owned("raw"), n.as_slice()) {
        return Some(Dialect::empty("none", false));
    }
    match find_named_exec(&ws.project_presets, n.as_slice()) {
        Some(d) => Some(d),
        None => {
            let b = bundled();
            find_named_exec(&b, n.as_slice())
        },
    }
}

/// Detect the dialect for a shader from `source` and its directory. Project
/// presets are tried before bundled ones, so a project can override a shipped
/// preset; the first match wins.
pub fn detect(source: &str, dir: &str, ws: &Workspace) -> (r: Option<Dialect>)
    ensures
        match r {
            Some(d) => detect_spec(source@, dir@, ws@.files, ws@.project_presets) == Some(d@),
            None => detect_spec(source@, dir@, ws@.files, ws@.project_presets) is None,
        },
{
    let s = to_chars(source);
    match find_matching_exec(&ws.project_presets, s.as_slice(), dir, ws) {
        Some(d) => Some(d),
        None => {
            let b = bundled();
            find_matching_exec(&b, s.as_slice(), dir, ws)
        },
    }
}

// ---------------------------------------------------------------------------
// Laws
// ---------------------------------------------------------------------------

proof fn lemma_find_named_first(ps: Seq<PresetModel>, name: Seq<char>, i: int)
    requires
        0 <= i < ps.len(),
        ps[i].dialect.name == name,
        forall|k: int| 0 <= k < i ==> (#[trigger] ps[k]).dialect.name != name,
    ensures
        find_named(ps, name) == Some(ps[i].dialect),
    decreases i,
{
    if i > 0 {
        let t = ps.drop_first();
        assert forall|k: int| 0 <= k < i - 1 implies (#[trigger] t[k]).dialect.name != name by {
            assert(t[k] == ps[k + 1]);
        }
        assert(ps[0].dialect.name != name);
        lemma_find_named_first(t, name, i - 1);
    }
}

proof fn lemma_find_matching_first(
    ps: Seq<PresetModel>,
    source: Seq<char>,
    dir: Seq<char>,
    files: Seq<(Seq<char>, Seq<char>)>,
    i: int,
)
    requires
        0 <= i < ps.len(),
        detect_matches(ps[i].detect, source, dir, files),
        forall|k: int| 0 <= k < i ==> !detect_matches((#[trigger] ps[k]).detect, source, dir, files),
    ensures
        find_matching(ps, source, dir, files) == Some(ps[i].dialect),
    decreases i,
{
    if i > 0 {
        let t = ps.drop_first();
        assert forall|k: int| 0 <= k < i - 1 implies !detect_matches((#[trigger] t[k]).detect, source, dir, files) by {
            assert(t[k] == ps[k + 1]);
        }
        assert(!detect_matches(ps[0].detect, source, dir, files));
        lemma_find_matching_first(t, source, dir, files, i - 1);
    }
}

/// A project's own presets shadow the bundled ones and the first one wins: by
/// name (other than `none`/`raw`), the first project preset of that name is
/// taken; by detection, the first project preset that recognizes the shader.
pub proof fn lemma_project_presets_shadow_bundled(
    name: Seq<char>,
    source: Seq<char>,
    dir: Seq<char>,
    files: Seq<(Seq<char>, Seq<char>)>,
    projects: Seq<PresetModel>,
    i: int,
)
    requires
        0 <= i < projects.len(),
    ensures
        (projects[i].dialect.name == name && name != "none"@ && name != "raw"@ && forall|k: int| 0 <= k < i ==> (#[trigger] projects[k]).dialect.name != name)
            ==> by_name_spec(name, projects) == Some(projects[i].dialect),
        (detect_matches(projects[i].detect, source, dir, files) && forall|k: int| 0 <= k < i ==> !detect_matches((#[trigger] projects[k]).detect, source, dir, files))
            ==> detect_spec(source, dir, files, projects) == Some(projects[i].dialect),
{
    if projects[i].dialect.name == name && forall|k: int| 0 <= k < i ==> (#[trigger] projects[k]).dialect.name != name {
        lemma_find_named_first(projects, name, i);
    }
    if detect_matches(projects[i].detect, source, dir, files) && forall|k: int| 0 <= k < i ==> !detect_matches((#[trigger] projects[k]).detect, source, dir, files) {
        lemma_find_matching_first(projects, source, dir, files, i);
    }
}

} // verus!
