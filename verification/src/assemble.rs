//! The core trick: luma.gl/deck.gl shaders aren't standalone translation units.
//! They reference UBO instances (`wind.*`, `blit.*`) declared in separate module
//! fragments and deck builtins (`project_position_to_clipspace`) injected at link
//! time. This module splices those in to form a complete `#version 300 es` unit a
//! validator will accept, while recording a per-line map back to the originals so
//! diagnostics land where the author can act on them.

use vstd::prelude::*;
use crate::config::{Config, ConfigModel};
use crate::deck::{stubs, stubs_spec};
use crate::dialect::{
    Dialect, DialectModel, expand_spec, has_main_chars, has_main_spec, prelude_files_for, prelude_for,
    resolve, resolve_spec,
};
use crate::path::{file_name, file_name_exec, join, join_exec, parent_or_dot, parent_or_dot_exec, same_file, same_file_exec};
use crate::text::{
    contains, contains_exec, ends_with, ends_with_exec, lemma_lines_no_newline, lemma_lines_terminated,
    lines, lower_seq, lower_vec, no_newline, split_lines, starts_with, starts_with_exec, string_eq,
    strip_cr, sv, terminated, lemma_terminated_push, to_chars, trim_start, trim_start_vec, vviews,
    from_chars, extend_chars, lemma_lines_pair, lemma_lines_single,
};
use crate::workspace::{Workspace, WorkspaceModel, lemma_lookup_is_a_file, line_counts_fit, lookup};

verus! {

/// Shader stage, inferred from the filename. Maps to glslangValidator's `-S` arg.
#[derive(Debug, Clone, Copy, PartialEq, Eq, Structural)]
pub enum Stage {
    Vertex,
    Fragment,
    Compute,
}

impl Stage {
    /// The `-S <stage>` argument glslangValidator expects.
    pub fn glslang_stage(self) -> (r: &'static str)
        ensures
            r@ == (match self {
                Stage::Vertex => "vert"@,
                Stage::Fragment => "frag"@,
                Stage::Compute => "comp"@,
            }),
    {
        match self {
            Stage::Vertex => "vert",
            Stage::Fragment => "frag",
            Stage::Compute => "comp",
        }
    }
}

/// Where an assembled line came from. `line` is 1-based into `path`.
#[derive(Debug)]
pub struct Loc {
    pub path: String,
    pub line: u32,
}

/// The content of a [`Loc`].
pub struct LocModel {
    pub path: Seq<char>,
    pub line: u32,
}

impl View for Loc {
    type V = LocModel;

    open spec fn view(&self) -> LocModel {
        LocModel { path: self.path@, line: self.line }
    }
}

impl Loc {
    pub fn copy(&self) -> (r: Loc)
        ensures
            r@ == self@,
    {
        Loc { path: self.path.clone(), line: self.line }
    }
}

/// 1-based line number for a 0-based index, saturating at `u32::MAX`.
pub open spec fn line_no_spec(i: int) -> u32 {
    if i + 1 >= u32::MAX {
        u32::MAX
    } else {
        (i + 1) as u32
    }
}

/// 1-based line number for a 0-based index. Saturating, so a pathological
/// (>4-billion-line) file can't wrap a line number into a wrong-but-plausible one.
pub fn line_no(i: usize) -> (r: u32)
    ensures
        r == line_no_spec(i as int),
{
    if i >= 0xFFFF_FFFEusize {
        u32::MAX
    } else {
        (i + 1) as u32
    }
}

/// deck.gl `project32` stubs. Bodies are trivial — only the signatures matter
/// for type/semantic checking of the consumer shader.
pub const BUILTIN_PRELUDE: &'static str = "// glslint built-in prelude: deck.gl project32\nvec4 project_position_to_clipspace(vec3 position, vec3 position64Low, vec3 offset) {\n  return vec4(position + position64Low + offset, 1.0);\n}\nvec2 project_pixel_size_to_clipspace(vec2 pixels) { return pixels; }\nvec3 project_position(vec3 position) { return position; }\nvec4 project_common_position_to_clipspace(vec4 position) { return position; }\n";

/// Used when the target has no `#version` of its own. WebGL2/luma shaders are
/// GLSL ES 3.00.
pub const DEFAULT_VERSION: &'static str = "#version 300 es";

/// Injected right after the (hoisted) `#version`, before any prelude. GLSL ES
/// fragment shaders have no default `float` precision, and the deck prelude stubs
/// reference `float`/`vec*` ahead of the target's own `precision` statement.
pub const DEFAULT_PRECISION: &'static str = "precision highp float;\nprecision highp int;";

/// The synthetic entry point a module fragment is wrapped with.
pub const WRAP_MAIN: &'static str = "void main() {}";

/// The note on a wrapped module fragment.
pub const FRAGMENT_NOTE: &'static str = "module fragment (syntax-only)";

pub open spec fn oloc(o: Option<Loc>) -> Option<LocModel> {
    match o {
        Some(l) => Some(l@),
        None => None,
    }
}

/// A shader translation unit assembled from the target and everything it needs.
pub struct Assembled {
    pub source: String,
    pub stage: Stage,
    /// One entry per assembled line: assembled line `i+1` -> `map[i]`. `None` for
    /// synthetic/injected-prelude lines we own (errors there are dropped).
    pub map: Vec<Option<Loc>>,
    pub target: String,
    /// Set when the file was wrapped because it's a module fragment, not a stage.
    pub note: Option<String>,
}

pub struct AssembledModel {
    pub source: Seq<char>,
    pub stage: Stage,
    pub map: Seq<Option<LocModel>>,
    pub target: Seq<char>,
    pub note: Option<Seq<char>>,
}

impl View for Assembled {
    type V = AssembledModel;

    open spec fn view(&self) -> AssembledModel {
        AssembledModel {
            source: self.source@,
            stage: self.stage,
            map: self.map@.map_values(|o: Option<Loc>| oloc(o)),
            target: self.target@,
            note: crate::text::ov(self.note),
        }
    }
}

/// One assembled line and where it came from.
pub struct Row {
    pub text: Seq<char>,
    pub loc: Option<LocModel>,
}

/// Lines we synthesized: they map nowhere.
pub open spec fn synth_rows(content: Seq<char>) -> Seq<Row> {
    lines(content).map_values(|l: Seq<char>| Row { text: l, loc: None })
}

/// The lines of `content`, each mapped to its own 1-based line of `path`.
pub open spec fn block_rows(content: Seq<char>, path: Seq<char>) -> Seq<Row> {
    lines(content).map(|i: int, l: Seq<char>| Row { text: l, loc: Some(LocModel { path, line: line_no_spec(i) }) })
}

/// The files of `paths` that are readable (and, when `exclude` is given, do not
/// name the same file as it), each spliced as a block mapped to itself.
pub open spec fn file_rows(paths: Seq<Seq<char>>, exclude: Option<Seq<char>>, files: Seq<(Seq<char>, Seq<char>)>) -> Seq<Row>
    decreases paths.len(),
{
    if paths.len() == 0 {
        seq![]
    } else {
        let p = paths.last();
        let rest = file_rows(paths.drop_last(), exclude, files);
        if exclude matches Some(e) && same_file(e, p) {
            rest
        } else {
            match lookup(files, p) {
                Some(c) => rest + block_rows(c, p),
                None => rest,
            }
        }
    }
}

/// The index of the first line whose trimmed start is `#version`.
pub open spec fn version_index(ls: Seq<Seq<char>>) -> Option<int>
    decreases ls.len(),
{
    if ls.len() == 0 {
        None
    } else {
        match version_index(ls.drop_last()) {
            Some(i) => Some(i),
            None => if starts_with(trim_start(ls.last()), "#version"@) {
                Some(ls.len() - 1)
            } else {
                None
            },
        }
    }
}

/// The rows line `i` of the body contributes: nothing for the hoisted `#version`,
/// the dialect's expansion of a directive (every line mapped to the directive),
/// or the line itself.
pub open spec fn line_rows(
    ls: Seq<Seq<char>>,
    i: int,
    vidx: Option<int>,
    target: Seq<char>,
    dialect: Option<DialectModel>,
    stage: Stage,
) -> Seq<Row> {
    let loc = Some(LocModel { path: target, line: line_no_spec(i) });
    if vidx == Some(i) {
        seq![]
    } else {
        match dialect {
            Some(d) => match expand_spec(d, ls[i], stage) {
                Some(es) => es.map_values(|e: Seq<char>| Row { text: e, loc }),
                None => seq![Row { text: ls[i], loc }],
            },
            None => seq![Row { text: ls[i], loc }],
        }
    }
}

/// The rows of the first `k` body lines.
pub open spec fn body_rows(
    ls: Seq<Seq<char>>,
    k: int,
    vidx: Option<int>,
    target: Seq<char>,
    dialect: Option<DialectModel>,
    stage: Stage,
) -> Seq<Row>
    decreases k,
{
    if k <= 0 {
        seq![]
    } else {
        body_rows(ls, k - 1, vidx, target, dialect, stage) + line_rows(ls, k - 1, vidx, target, dialect, stage)
    }
}

/// The `#version` line hoisted to the top and mapped home, or the default one.
pub open spec fn version_rows(ls: Seq<Seq<char>>, target: Seq<char>) -> Seq<Row> {
    match version_index(ls) {
        Some(i) => seq![Row { text: ls[i], loc: Some(LocModel { path: target, line: line_no_spec(i) }) }],
        None => synth_rows(DEFAULT_VERSION@),
    }
}

/// A dialect's stage prelude and the project prelude. A deck dialect's prelude
/// is its stub fallback: when the deck builtins are wanted (`builtin`), the deck
/// path emits the stubs instead, so the functions are not defined twice.
pub open spec fn dialect_prelude_rows(dialect: Option<DialectModel>, stage: Stage, builtin: bool) -> Seq<Row> {
    match dialect {
        None => seq![],
        Some(d) => {
            let a = match prelude_for(d, stage) {
                Some(p) => if d.deck && builtin {
                    seq![]
                } else {
                    synth_rows(p)
                },
                None => seq![],
            };
            let b = match d.prelude_extra {
                Some(p) => synth_rows(p),
                None => seq![],
            };
            a + b
        },
    }
}

/// The dialect's shared library: each listed file next to the shader, except
/// the shader itself, spliced when readable.
pub open spec fn library_rows(
    dialect: Option<DialectModel>,
    stage: Stage,
    dir: Seq<char>,
    target: Seq<char>,
    files: Seq<(Seq<char>, Seq<char>)>,
) -> Seq<Row> {
    match dialect {
        None => seq![],
        Some(d) => file_rows(
            prelude_files_for(d, stage).map_values(|n: Seq<char>| join(dir, n)),
            Some(target),
            files,
        ),
    }
}

/// deck's builtins — the resolved `project*` stubs, else the baked-in stub —
/// when the config wants them and no non-deck dialect took over.
pub open spec fn deck_rows(cfg: ConfigModel, dialect: Option<DialectModel>, ws: WorkspaceModel) -> Seq<Row> {
    let applies = match dialect {
        None => true,
        Some(d) => d.deck,
    };
    if cfg.use_builtin_prelude && applies {
        if ws.deck_fns.len() == 0 {
            synth_rows(BUILTIN_PRELUDE@)
        } else {
            synth_rows(stubs_spec(ws.deck_fns))
        }
    } else {
        seq![]
    }
}

/// A dialect epilogue, only when the source has no `main` of its own.
pub open spec fn epilogue_rows(dialect: Option<DialectModel>, source: Seq<char>) -> Seq<Row> {
    match dialect {
        Some(d) => match d.epilogue {
            Some(ep) => if !has_main_spec(source) {
                synth_rows(ep)
            } else {
                seq![]
            },
            None => seq![],
        },
        None => seq![],
    }
}

/// Everything a stage shader is assembled from, in order: the hoisted `#version`,
/// default precision, the dialect's preludes, its shared library, deck's
/// builtins, configured preludes, configured modules (minus the target), the
/// body (minus the `#version`, directives expanded) and the epilogue.
pub open spec fn stage_rows(target: Seq<char>, source: Seq<char>, cfg: ConfigModel, ws: WorkspaceModel, stage: Stage) -> Seq<Row> {
    let ls = lines(source);
    let dir = parent_or_dot(target);
    let dialect = resolve_spec(cfg.dialect, source, dir, ws);
    version_rows(ls, target)
        + synth_rows(DEFAULT_PRECISION@)
        + dialect_prelude_rows(dialect, stage, cfg.use_builtin_prelude)
        + library_rows(dialect, stage, dir, target, ws.files)
        + deck_rows(cfg, dialect, ws)
        + file_rows(cfg.preludes, None, ws.files)
        + file_rows(cfg.modules, Some(target), ws.files)
        + body_rows(ls, ls.len() as int, version_index(ls), target, dialect, stage)
        + epilogue_rows(dialect, source)
}

/// A module fragment wrapped in a minimal shell: default version and precision,
/// the fragment mapped to itself, and an empty `main`.
pub open spec fn wrap_rows(target: Seq<char>, source: Seq<char>) -> Seq<Row> {
    synth_rows(DEFAULT_VERSION@) + synth_rows(DEFAULT_PRECISION@) + block_rows(source, target) + synth_rows(WRAP_MAIN@)
}

pub open spec fn row_texts(rows: Seq<Row>) -> Seq<Seq<char>> {
    rows.map_values(|r: Row| r.text)
}

pub open spec fn row_locs(rows: Seq<Row>) -> Seq<Option<LocModel>> {
    rows.map_values(|r: Row| r.loc)
}

/// `lines.join("\n") + "\n"`.
pub open spec fn joined(texts: Seq<Seq<char>>) -> Seq<char> {
    if texts.len() == 0 {
        seq!['\n']
    } else {
        terminated(texts)
    }
}

/// The unit built from `rows`.
pub open spec fn assembled_from(rows: Seq<Row>, stage: Stage, target: Seq<char>, note: Option<Seq<char>>) -> AssembledModel {
    AssembledModel { source: joined(row_texts(rows)), stage, map: row_locs(rows), target, note }
}

struct Builder {
    lines: Vec<Vec<char>>,
    map: Vec<Option<Loc>>,
    /// `lines` joined, each followed by `\n`.
    text: Vec<char>,
}

impl Builder {
    spec fn rows(&self) -> Seq<Row> {
        Seq::new(self.lines@.len(), |i: int| Row { text: self.lines@[i]@, loc: oloc(self.map@[i]) })
    }

    spec fn wf(&self) -> bool {
        &&& self.lines@.len() == self.map@.len()
        &&& forall|i: int| 0 <= i < self.lines@.len() ==> no_newline(#[trigger] self.lines@[i]@)
        &&& self.text@ == terminated(vviews(self.lines@))
    }

    fn new() -> (b: Builder)
        ensures
            b.wf(),
            b.rows() == Seq::<Row>::empty(),
    {
        let b = Builder { lines: Vec::new(), map: Vec::new(), text: Vec::new() };
        assert(vviews(b.lines@) =~= Seq::<Seq<char>>::empty());
        assert(b.rows() =~= Seq::<Row>::empty());
        b
    }

    fn push(&mut self, line: Vec<char>, loc: Option<Loc>)
        requires
            old(self).wf(),
            no_newline(line@),
        ensures
            final(self).wf(),
            final(self).rows() == old(self).rows().push(Row { text: line@, loc: oloc(loc) }),
    {
        let ghost old_lines = self.lines@;
        let ghost lv = line@;
        let ghost ol = oloc(loc);
        extend_chars(&mut self.text, line.as_slice());
        self.text.push('\n');
        self.lines.push(line);
        self.map.push(loc);
        proof {
            assert(vviews(self.lines@) =~= vviews(old_lines).push(lv));
            lemma_terminated_push(vviews(old_lines), lv);
            assert(self.text@ =~= terminated(vviews(self.lines@)));
            assert(self.rows() =~= old(self).rows().push(Row { text: lv, loc: ol }));
        }
    }

    /// Append a block from `path`, mapping each line back to it.
    fn push_block(&mut self, content: &[char], path: &str)
        requires
            old(self).wf(),
        ensures
            final(self).wf(),
            final(self).rows() == old(self).rows() + block_rows(content@, path@),
    {
        let ls = split_lines(content);
        proof {
            lemma_lines_no_newline(content@);
        }
        let ghost start = self.rows();
        let ghost br = block_rows(content@, path@);
        let mut i: usize = 0;
        while i < ls.len()
            invariant
                0 <= i <= ls.len(),
                self.wf(),
                vviews(ls@) == lines(content@),
                br == block_rows(content@, path@),
                forall|a: int, t: int| 0 <= a < lines(content@).len() && 0 <= t < lines(content@)[a].len() ==> #[trigger] lines(content@)[a][t] != '\n',
                self.rows() == start + br.take(i as int),
            decreases ls.len() - i,
        {
            let line = crate::text::slice_vec(ls[i].as_slice(), 0, ls[i].len());
            proof {
                assert(ls@[i as int]@.subrange(0, ls@[i as int]@.len() as int) == ls@[i as int]@);
                assert(lines(content@)[i as int] == ls@[i as int]@);
                assert forall|t: int| 0 <= t < line@.len() implies #[trigger] line@[t] != '\n' by {
                    assert(lines(content@)[i as int][t] != '\n');
                }
            }
            let loc = Loc { path: path.to_owned(), line: line_no(i) };
            self.push(line, Some(loc));
            proof {
                assert(br.take(i + 1) =~= br.take(i as int).push(br[i as int]));
                assert(self.rows() =~= start + br.take(i + 1));
            }
            i = i + 1;
        }
        assert(br.take(ls@.len() as int) =~= br);
    }

    /// Append lines we synthesized; errors here map nowhere.
    fn push_synthetic(&mut self, content: &[char])
        requires
            old(self).wf(),
        ensures
            final(self).wf(),
            final(self).rows() == old(self).rows() + synth_rows(content@),
    {
        let ls = split_lines(content);
        proof {
            lemma_lines_no_newline(content@);
        }
        let ghost start = self.rows();
        let ghost sr = synth_rows(content@);
        let mut i: usize = 0;
        while i < ls.len()
            invariant
                0 <= i <= ls.len(),
                self.wf(),
                vviews(ls@) == lines(content@),
                sr == synth_rows(content@),
                forall|a: int, t: int| 0 <= a < lines(content@).len() && 0 <= t < lines(content@)[a].len() ==> #[trigger] lines(content@)[a][t] != '\n',
                self.rows() == start + sr.take(i as int),
            decreases ls.len() - i,
        {
            let line = crate::text::slice_vec(ls[i].as_slice(), 0, ls[i].len());
            proof {
                assert(ls@[i as int]@.subrange(0, ls@[i as int]@.len() as int) == ls@[i as int]@);
                assert(lines(content@)[i as int] == ls@[i as int]@);
                assert forall|t: int| 0 <= t < line@.len() implies #[trigger] line@[t] != '\n' by {
                    assert(lines(content@)[i as int][t] != '\n');
                }
            }
            self.push(line, None);
            proof {
                assert(sr.take(i + 1) =~= sr.take(i as int).push(sr[i as int]));
                assert(self.rows() =~= start + sr.take(i + 1));
            }
            i = i + 1;
        }
        assert(sr.take(ls@.len() as int) =~= sr);
    }

    fn push_synthetic_str(&mut self, content: &str)
        requires
            old(self).wf(),
        ensures
            final(self).wf(),
            final(self).rows() == old(self).rows() + synth_rows(content@),
    {
        let c = to_chars(content);
        self.push_synthetic(c.as_slice());
    }

    fn finish(self, stage: Stage, target: &str, note: Option<String>) -> (r: Assembled)
        requires
            self.wf(),
        ensures
            r@ == assembled_from(self.rows(), stage, target@, crate::text::ov(note)),
            lines(r@.source).len() == r@.map.len() || self.rows().len() == 0,
    {
        let ghost rows = self.rows();
        let mut text = self.text;
        if self.lines.len() == 0 {
            text.push('\n');
        }
        proof {
            assert(row_texts(rows) =~= vviews(self.lines@));
            assert(row_locs(rows) =~= self.map@.map_values(|o: Option<Loc>| oloc(o)));
            if self.lines@.len() == 0 {
                assert(text@ =~= seq!['\n']);
            } else {
                assert forall|i: int| 0 <= i < vviews(self.lines@).len() implies no_newline(#[trigger] vviews(self.lines@)[i]) by {
                    assert(vviews(self.lines@)[i] == self.lines@[i]@);
                }
                lemma_lines_terminated(vviews(self.lines@));
            }
        }
        Assembled { source: from_chars(text.as_slice()), stage, map: self.map, target: target.to_owned(), note }
    }
}

/// The stage named by a lowercased file name.
pub open spec fn stage_of_name(n: Seq<char>) -> Option<Stage> {
    if contains(n, ".vert."@) || contains(n, ".vertex."@) || ends_with(n, ".vert"@) || ends_with(n, ".vertex"@)
        || ends_with(n, ".vs"@) {
        Some(Stage::Vertex)
    } else if contains(n, ".frag."@) || contains(n, ".fragment."@) || ends_with(n, ".frag"@) || ends_with(
        n,
        ".fragment"@,
    ) || ends_with(n, ".fs"@) {
        Some(Stage::Fragment)
    } else if contains(n, ".comp."@) || contains(n, ".compute."@) || ends_with(n, ".comp"@) || ends_with(
        n,
        ".compute"@,
    ) {
        Some(Stage::Compute)
    } else {
        None
    }
}

/// The stage the (case-insensitive) file name of `path` names.
pub open spec fn detect_stage_spec(path: Seq<char>) -> Option<Stage> {
    match file_name(path) {
        None => None,
        Some(n) => stage_of_name(lower_seq(n)),
    }
}

fn has(n: &[char], s: &str) -> (r: bool)
    ensures
        r == contains(n@, s@),
{
    let c = to_chars(s);
    contains_exec(n, c.as_slice())
}

fn ends(n: &[char], s: &str) -> (r: bool)
    ensures
        r == ends_with(n@, s@),
{
    let c = to_chars(s);
    ends_with_exec(n, c.as_slice())
}

/// Infer the shader stage from the filename. `None` => not a stage shader (a
/// module fragment like `windUniforms.glsl`), which we wrap for syntax-checking.
pub fn detect_stage(path: &str) -> (r: Option<Stage>)
    ensures
        r == detect_stage_spec(path@),
{
    let p = to_chars(path);
    let name = match file_name_exec(p.as_slice()) {
        Some(n) => n,
        None => return None,
    };
    let n = lower_vec(name.as_slice());
    let n = n.as_slice();
    if has(n, ".vert.") || has(n, ".vertex.") || ends(n, ".vert") || ends(n, ".vertex") || ends(n, ".vs") {
        Some(Stage::Vertex)
    } else if has(n, ".frag.") || has(n, ".fragment.") || ends(n, ".frag") || ends(n, ".fragment") || ends(n, ".fs") {
        Some(Stage::Fragment)
    } else if has(n, ".comp.") || has(n, ".compute.") || ends(n, ".comp") || ends(n, ".compute") {
        Some(Stage::Compute)
    } else {
        None
    }
}

pub proof fn lemma_version_step(ls: Seq<Seq<char>>, k: int)
    requires
        0 <= k < ls.len(),
    ensures
        version_index(ls.take(k + 1)) == match version_index(ls.take(k)) {
            Some(i) => Some(i),
            None => if starts_with(trim_start(ls[k]), "#version"@) {
                Some(k)
            } else {
                None
            },
        },
{
    assert(ls.take(k + 1).drop_last() =~= ls.take(k));
}

pub proof fn lemma_version_prefix(ls: Seq<Seq<char>>, k: int, i: int)
    requires
        0 <= k <= ls.len(),
        version_index(ls.take(k)) == Some(i),
    ensures
        version_index(ls) == Some(i),
    decreases ls.len() - k,
{
    if k == ls.len() {
        assert(ls.take(k) =~= ls);
    } else {
        lemma_version_step(ls, k);
        lemma_version_prefix(ls, k + 1, i);
    }
}

pub proof fn lemma_version_bounds(ls: Seq<Seq<char>>)
    ensures
        version_index(ls) matches Some(i) ==> 0 <= i < ls.len(),
    decreases ls.len(),
{
    if ls.len() > 0 {
        lemma_version_bounds(ls.drop_last());
    }
}

fn version_index_exec(ls: &Vec<Vec<char>>) -> (r: Option<usize>)
    ensures
        match r {
            Some(i) => version_index(vviews(ls@)) == Some(i as int) && i < ls.len(),
            None => version_index(vviews(ls@)) is None,
        },
{
    let ghost lv = vviews(ls@);
    let kw = to_chars("#version");
    let mut i: usize = 0;
    assert(lv.take(0) =~= Seq::<Seq<char>>::empty());
    while i < ls.len()
        invariant
            0 <= i <= ls.len(),
            lv == vviews(ls@),
            kw@ == "#version"@,
            version_index(lv.take(i as int)) is None,
        decreases ls.len() - i,
    {
        let t = trim_start_vec(ls[i].as_slice());
        proof {
            lemma_version_step(lv, i as int);
            assert(lv[i as int] == ls@[i as int]@);
        }
        if starts_with_exec(t.as_slice(), kw.as_slice()) {
            proof {
                lemma_version_prefix(lv, i + 1, i as int);
            }
            return Some(i);
        }
        i = i + 1;
    }
    assert(lv.take(ls.len() as int) =~= lv);
    None
}

/// Every line a dialect expansion produces is newline-free.
pub proof fn lemma_expand_no_newline(
    rules: Seq<crate::dialect::RuleModel>,
    ns: Seq<char>,
    rest: Seq<char>,
    stage: Stage,
    es: Seq<Seq<char>>,
)
    requires
        crate::dialect::expand_rules(rules, ns, rest, stage) == Some(es),
    ensures
        forall|j: int| 0 <= j < es.len() ==> no_newline(#[trigger] es[j]),
    decreases rules.len(),
{
    let r = rules[0];
    let vals = crate::dialect::rule_values(r, rest);
    if r.ns == ns && vals is Some && vals.unwrap().len() == r.args.len() {
        let t = crate::dialect::template_for(r, stage).unwrap();
        let x = crate::dialect::subst(t, r.args, vals.unwrap(), crate::dialect::desc_order(crate::dialect::arg_lens(r.args), r.args.len()));
        assert(es == lines(x));
        lemma_lines_no_newline(x);
        assert forall|j: int| 0 <= j < es.len() implies no_newline(#[trigger] es[j]) by {
            assert forall|t: int| 0 <= t < es[j].len() implies #[trigger] es[j][t] != '\n' by {
                assert(lines(x)[j][t] != '\n');
            }
        }
    } else {
        lemma_expand_no_newline(rules.drop_first(), ns, rest, stage, es);
    }
}

/// Splice the readable files of `paths` (skipping `exclude`), each mapped to itself.
fn push_files(b: &mut Builder, paths: &Vec<String>, exclude: Option<&str>, ws: &Workspace)
    requires
        old(b).wf(),
    ensures
        final(b).wf(),
        final(b).rows() == old(b).rows() + file_rows(
            sv(paths@),
            match exclude {
                Some(e) => Some(e@),
                None => None,
            },
            ws@.files,
        ),
{
    let ghost ex = match exclude {
        Some(e) => Some(e@),
        None => None,
    };
    let ghost pv = sv(paths@);
    let ghost start = b.rows();
    let mut i: usize = 0;
    assert(pv.take(0) =~= Seq::<Seq<char>>::empty());
    assert(start + file_rows(pv.take(0), ex, ws@.files) =~= start);
    while i < paths.len()
        invariant
            0 <= i <= paths.len(),
            b.wf(),
            pv == sv(paths@),
            ex == match exclude {
                Some(e) => Some(e@),
                None => None,
            },
            b.rows() == start + file_rows(pv.take(i as int), ex, ws@.files),
        decreases paths.len() - i,
    {
        let p = &paths[i];
        proof {
            assert(pv.take(i + 1).drop_last() =~= pv.take(i as int));
            assert(pv.take(i + 1).last() == p@);
        }
        let pc = to_chars(p.as_str());
        let excluded = match exclude {
            Some(e) => {
                let ec = to_chars(e);
                same_file_exec(ec.as_slice(), pc.as_slice())
            },
            None => false,
        };
        let ghost before = b.rows();
        if !excluded {
            match ws.read(pc.as_slice()) {
                Some(c) => {
                    let cc = to_chars(c.as_str());
                    b.push_block(cc.as_slice(), p.as_str());
                    proof {
                        assert(b.rows() =~= start + file_rows(pv.take(i + 1), ex, ws@.files));
                    }
                },
                None => {},
            }
        }
        i = i + 1;
    }
    assert(pv.take(paths@.len() as int) =~= pv);
}

fn join_all_dir(dir: &str, names: &Vec<String>) -> (r: Vec<String>)
    ensures
        sv(r@) == sv(names@).map_values(|n: Seq<char>| join(dir@, n)),
{
    let mut out: Vec<String> = Vec::new();
    let mut i: usize = 0;
    while i < names.len()
        invariant
            0 <= i <= names.len(),
            sv(out@) == sv(names@).map_values(|n: Seq<char>| join(dir@, n)).take(i as int),
        decreases names.len() - i,
    {
        let ghost before = out@;
        let j = join_exec(dir, names[i].as_str());
        out.push(j);
        proof {
            crate::text::lemma_sv_push(before, j);
            assert(sv(names@).map_values(|n: Seq<char>| join(dir@, n)).take(i + 1) =~= sv(names@).map_values(|n: Seq<char>| join(dir@, n)).take(i as int).push(j@));
        }
        i = i + 1;
    }
    assert(sv(names@).map_values(|n: Seq<char>| join(dir@, n)).take(names@.len() as int) =~= sv(names@).map_values(|n: Seq<char>| join(dir@, n)));
    out
}

fn assemble_stage(target: &str, source: &str, config: &Config, stage: Stage, ws: &Workspace) -> (r: Assembled)
    ensures
        r@ == assembled_from(stage_rows(target@, source@, config@, ws@, stage), stage, target@, None),
        lines(r@.source).len() == r@.map.len(),
{
    let mut b = Builder::new();
    let src = to_chars(source);
    let ls = split_lines(src.as_slice());
    let ghost lv = vviews(ls@);
    proof {
        lemma_lines_no_newline(source@);
    }
    let dir = parent_or_dot_exec(target);
    let dialect = resolve(&config.dialect, source, dir.as_str(), ws);
    let ghost dm = match &dialect {
        Some(d) => Some(d@),
        None => None,
    };

    // The `#version`, hoisted and mapped home, or the default.
    let vidx = version_index_exec(&ls);
    match vidx {
        Some(i) => {
            let line = crate::text::slice_vec(ls[i].as_slice(), 0, ls[i].len());
            proof {
                assert(ls@[i as int]@.subrange(0, ls@[i as int]@.len() as int) == ls@[i as int]@);
                assert(lv[i as int] == line@);
                assert forall|t: int| 0 <= t < line@.len() implies #[trigger] line@[t] != '\n' by {
                    assert(lines(source@)[i as int][t] != '\n');
                }
            }
            b.push(line, Some(Loc { path: target.to_owned(), line: line_no(i) }));
            proof {
                assert(b.rows() =~= version_rows(lv, target@));
            }
        },
        None => {
            b.push_synthetic_str(DEFAULT_VERSION);
            proof {
                assert(b.rows() =~= version_rows(lv, target@));
            }
        },
    }
    let ghost r1 = version_rows(lv, target@);
    b.push_synthetic_str(DEFAULT_PRECISION);
    let ghost r2 = r1 + synth_rows(DEFAULT_PRECISION@);

    // The dialect's prelude(s).
    let ghost before3 = b.rows();
    match &dialect {
        Some(d) => {
            match d.prelude(stage) {
                Some(p) => {
                    if !(d.deck && config.use_builtin_prelude) {
                        b.push_synthetic_str(p.as_str());
                    }
                },
                None => {},
            }
            let ghost mid = b.rows();
            match &d.prelude_extra {
                Some(p) => b.push_synthetic_str(p.as_str()),
                None => {},
            }
            proof {
                assert(b.rows() =~= before3 + dialect_prelude_rows(dm, stage, config@.use_builtin_prelude));
            }
        },
        None => {
            proof {
                assert(b.rows() =~= before3 + dialect_prelude_rows(dm, stage, config@.use_builtin_prelude));
            }
        },
    }
    let ghost r3 = r2 + dialect_prelude_rows(dm, stage, config@.use_builtin_prelude);

    // The dialect's shared library.
    match &dialect {
        Some(d) => {
            let names = d.prelude_files(stage);
            let paths = join_all_dir(dir.as_str(), &names);
            push_files(&mut b, &paths, Some(target), ws);
        },
        None => {
            proof {
                assert(b.rows() =~= r3 + library_rows(dm, stage, dir@, target@, ws@.files));
            }
        },
    }
    let ghost r4 = r3 + library_rows(dm, stage, dir@, target@, ws@.files);
    assert(b.rows() == r4);

    // deck's builtins.
    let applies = match &dialect {
        None => true,
        Some(d) => d.deck,
    };
    if config.use_builtin_prelude && applies {
        if ws.deck_fns.len() == 0 {
            b.push_synthetic_str(BUILTIN_PRELUDE);
        } else {
            let st = stubs(ws.deck_fns.as_slice());
            b.push_synthetic_str(st.as_str());
        }
    }
    let ghost r5 = r4 + deck_rows(config@, dm, ws@);
    assert(b.rows() =~= r5);

    // Configured preludes and modules.
    push_files(&mut b, &config.preludes, None, ws);
    let ghost r6 = r5 + file_rows(config@.preludes, None, ws@.files);
    push_files(&mut b, &config.modules, Some(target), ws);
    let ghost r7 = r6 + file_rows(config@.modules, Some(target@), ws@.files);
    assert(b.rows() == r7);

    // The body, every line except the hoisted `#version`.
    let ghost vi = match vidx {
        Some(i) => Some(i as int),
        None => None,
    };
    let mut i: usize = 0;
    assert(r7 + body_rows(lv, 0, vi, target@, dm, stage) =~= r7);
    while i < ls.len()
        invariant
            0 <= i <= ls.len(),
            b.wf(),
            lv == vviews(ls@),
            lv == lines(source@),
            vi == version_index(lv),
            vi == match vidx {
                Some(k) => Some(k as int),
                None => None,
            },
            dm == match &dialect {
                Some(d) => Some(d@),
                None => None,
            },
            forall|a: int, t: int| 0 <= a < lines(source@).len() && 0 <= t < lines(source@)[a].len() ==> #[trigger] lines(source@)[a][t] != '\n',
            b.rows() == r7 + body_rows(lv, i as int, vi, target@, dm, stage),
        decreases ls.len() - i,
    {
        let ghost before = b.rows();
        let skip = match vidx {
            Some(k) => k == i,
            None => false,
        };
        if !skip {
            let line_chars = ls[i].as_slice();
            proof {
                assert(lv[i as int] == line_chars@);
            }
            let expanded = match &dialect {
                Some(d) => d.expand_chars(line_chars, stage),
                None => None,
            };
            match expanded {
                Some(es) => {
                    let ghost ev = sv(es@);
                    proof {
                        let d = dm.unwrap();
                        assert(expand_spec(d, line_chars@, stage) == Some(ev));
                        match crate::dialect::parse_pragma_spec(line_chars@) {
                            Some((ns, rest)) => {
                                assert(crate::dialect::expand_rules(d.rules, ns, rest, stage) == Some(ev));
                                lemma_expand_no_newline(d.rules, ns, rest, stage, ev);
                                assert(forall|j: int| 0 <= j < ev.len() ==> no_newline(#[trigger] ev[j]));
                            },
                            None => {},
                        }
                    }
                    let mut k: usize = 0;
                    let ghost rows_here = ev.map_values(|e: Seq<char>| Row { text: e, loc: Some(LocModel { path: target@, line: line_no_spec(i as int) }) });
                    while k < es.len()
                        invariant
                            0 <= k <= es.len(),
                            b.wf(),
                            ev == sv(es@),
                            forall|j: int| 0 <= j < ev.len() ==> no_newline(#[trigger] ev[j]),
                            rows_here == ev.map_values(|e: Seq<char>| Row { text: e, loc: Some(LocModel { path: target@, line: line_no_spec(i as int) }) }),
                            b.rows() == before + rows_here.take(k as int),
                        decreases es.len() - k,
                    {
                        let e = to_chars(es[k].as_str());
                        proof {
                            assert(ev[k as int] == e@);
                        }
                        b.push(e, Some(Loc { path: target.to_owned(), line: line_no(i) }));
                        proof {
                            assert(rows_here.take(k + 1) =~= rows_here.take(k as int).push(rows_here[k as int]));
                            assert(b.rows() =~= before + rows_here.take(k + 1));
                        }
                        k = k + 1;
                    }
                    proof {
                        assert(rows_here.take(es@.len() as int) =~= rows_here);
                        assert(line_rows(lv, i as int, vi, target@, dm, stage) == rows_here);
                    }
                },
                None => {
                    let line = crate::text::slice_vec(line_chars, 0, line_chars.len());
                    proof {
                        assert(line_chars@.subrange(0, line_chars@.len() as int) == line_chars@);
                        assert forall|t: int| 0 <= t < line@.len() implies #[trigger] line@[t] != '\n' by {
                            assert(lines(source@)[i as int][t] != '\n');
                        }
                    }
                    b.push(line, Some(Loc { path: target.to_owned(), line: line_no(i) }));
                    proof {
                        assert(line_rows(lv, i as int, vi, target@, dm, stage) =~= seq![Row { text: lv[i as int], loc: Some(LocModel { path: target@, line: line_no_spec(i as int) }) }]);
                    }
                },
            }
        } else {
            proof {
                assert(line_rows(lv, i as int, vi, target@, dm, stage) =~= Seq::<Row>::empty());
            }
        }
        proof {
            assert(b.rows() =~= r7 + body_rows(lv, i + 1, vi, target@, dm, stage));
        }
        i = i + 1;
    }
    let ghost r8 = r7 + body_rows(lv, lv.len() as int, vi, target@, dm, stage);

    // The epilogue, when the source has no `main`.
    match &dialect {
        Some(d) => match &d.epilogue {
            Some(ep) => {
                if !has_main_chars(src.as_slice()) {
                    b.push_synthetic_str(ep.as_str());
                }
            },
            None => {},
        },
        None => {},
    }
    let ghost r9 = r8 + epilogue_rows(dm, source@);
    assert(b.rows() =~= r9);
    assert(r9 == stage_rows(target@, source@, config@, ws@, stage));
    proof {
        if version_index(lv) is None {
            reveal_strlit("#version 300 es");
            assert(DEFAULT_VERSION@.len() > 0);
            assert(lines(DEFAULT_VERSION@).len() > 0);
        }
        assert(r1.len() > 0);
        assert(b.rows().len() > 0);
    }
    b.finish(stage, target, None)
}

/// Wrap a fragment (no `main` of its own) in a minimal shell under `stage`, so its
/// declarations get a syntax/type pass.
fn wrap_as(target: &str, source: &str, stage: Stage) -> (r: Assembled)
    ensures
        r@ == assembled_from(wrap_rows(target@, source@), stage, target@, Some(FRAGMENT_NOTE@)),
        lines(r@.source).len() == r@.map.len(),
{
    let mut b = Builder::new();
    b.push_synthetic_str(DEFAULT_VERSION);
    b.push_synthetic_str(DEFAULT_PRECISION);
    let src = to_chars(source);
    b.push_block(src.as_slice(), target);
    b.push_synthetic_str(WRAP_MAIN);
    proof {
        reveal_strlit("void main() {}");
        let m = WRAP_MAIN@;
        assert(m.len() > 0);
        assert(lines(m).len() > 0);
        assert(synth_rows(m).len() > 0);
    }
    b.finish(stage, target, Some(FRAGMENT_NOTE.to_owned()))
}

/// A module fragment (a bare UBO block, no stage / no `main`) wrapped in a
/// minimal fragment shell so its declarations still get a real syntax/type pass.
fn wrap_fragment(target: &str, source: &str) -> (r: Assembled)
    ensures
        r@ == assembled_from(wrap_rows(target@, source@), Stage::Fragment, target@, Some(FRAGMENT_NOTE@)),
        lines(r@.source).len() == r@.map.len(),
{
    wrap_as(target, source, Stage::Fragment)
}

/// A stage shader (named `*.vert.*`, `*.frag.*`, …) is assembled from its
/// dialect, deck builtins, preludes and modules; anything else is a module
/// fragment, wrapped as a fragment shader for a syntax-only pass.
pub open spec fn assemble_spec(target: Seq<char>, source: Seq<char>, cfg: ConfigModel, ws: WorkspaceModel) -> AssembledModel {
    match detect_stage_spec(target) {
        Some(stage) => assembled_from(stage_rows(target, source, cfg, ws, stage), stage, target, None),
        None => assembled_from(wrap_rows(target, source), Stage::Fragment, target, Some(FRAGMENT_NOTE@)),
    }
}

/// Assemble `source` (the contents of `target`) into a complete translation unit
/// with its line map.
pub fn assemble(target: &str, source: &str, config: &Config, ws: &Workspace) -> (r: Assembled)
    ensures
        r@ == assemble_spec(target@, source@, config@, ws@),
        lines(r@.source).len() == r@.map.len(),
{
    match detect_stage(target) {
        Some(stage) => assemble_stage(target, source, config, stage, ws),
        None => wrap_fragment(target, source),
    }
}

/// A template with its own `main` is a full stage shader; without, it is a chunk
/// wrapped in a synthetic `main` — either way under the given stage.
pub open spec fn assemble_embedded_spec(
    target: Seq<char>,
    source: Seq<char>,
    cfg: ConfigModel,
    stage: Stage,
    has_entry: bool,
    ws: WorkspaceModel,
) -> AssembledModel {
    if has_entry {
        assembled_from(stage_rows(target, source, cfg, ws, stage), stage, target, None)
    } else {
        assembled_from(wrap_rows(target, source), stage, target, Some(FRAGMENT_NOTE@))
    }
}

/// Assemble a shader lifted from a JS/TS tagged template. The stage can't come
/// from the filename here (the host is a `.ts`/`.js` file), so it's passed in.
/// `has_entry` is whether the template has its own `main`. `target` is the host
/// file, so every mapped line points there.
pub fn assemble_embedded(
    target: &str,
    source: &str,
    config: &Config,
    stage: Stage,
    has_entry: bool,
    ws: &Workspace,
) -> (r: Assembled)
    ensures
        r@ == assemble_embedded_spec(target@, source@, config@, stage, has_entry, ws@),
        lines(r@.source).len() == r@.map.len(),
{
    if has_entry {
        assemble_stage(target, source, config, stage, ws)
    } else {
        wrap_as(target, source, stage)
    }
}

// ---------------------------------------------------------------------------
// Laws
// ---------------------------------------------------------------------------

/// `text` is what line `l` holds: a line of the target's own `source` — copied
/// verbatim, or, when that line is a dialect directive, a line of its
/// expansion — or a line of the readable workspace file at `l.path`.
pub open spec fn faithful_line(
    text: Seq<char>,
    l: LocModel,
    target: Seq<char>,
    source: Seq<char>,
    files: Seq<(Seq<char>, Seq<char>)>,
) -> bool {
    1 <= l.line && ({
        ||| l.path == target && l.line <= lines(source).len() && (text == strip_cr(lines(source)[l.line - 1])
            || crate::dialect::parse_pragma_spec(lines(source)[l.line - 1]) is Some)
        ||| match lookup(files, l.path) {
            Some(c) => l.line <= lines(c).len() && text == strip_cr(lines(c)[l.line - 1]),
            None => false,
        }
    })
}

pub open spec fn row_ok(r: Row, target: Seq<char>, source: Seq<char>, files: Seq<(Seq<char>, Seq<char>)>) -> bool {
    &&& no_newline(r.text)
    &&& match r.loc {
        None => true,
        Some(l) => faithful_line(strip_cr(r.text), l, target, source, files),
    }
}

pub open spec fn rows_ok(rows: Seq<Row>, target: Seq<char>, source: Seq<char>, files: Seq<(Seq<char>, Seq<char>)>) -> bool {
    forall|k: int| 0 <= k < rows.len() ==> row_ok(#[trigger] rows[k], target, source, files)
}

proof fn lemma_rows_ok_concat(a: Seq<Row>, b: Seq<Row>, target: Seq<char>, source: Seq<char>, files: Seq<(Seq<char>, Seq<char>)>)
    requires
        rows_ok(a, target, source, files),
        rows_ok(b, target, source, files),
    ensures
        rows_ok(a + b, target, source, files),
{
    assert forall|k: int| 0 <= k < (a + b).len() implies row_ok(#[trigger] (a + b)[k], target, source, files) by {
        if k < a.len() {
            assert((a + b)[k] == a[k]);
        } else {
            assert((a + b)[k] == b[k - a.len()]);
        }
    }
}

proof fn lemma_synth_ok(content: Seq<char>, target: Seq<char>, source: Seq<char>, files: Seq<(Seq<char>, Seq<char>)>)
    ensures
        rows_ok(synth_rows(content), target, source, files),
{
    lemma_lines_no_newline(content);
    assert forall|k: int| 0 <= k < synth_rows(content).len() implies row_ok(#[trigger] synth_rows(content)[k], target, source, files) by {
        let t = lines(content)[k];
        assert(synth_rows(content)[k].text == t);
        assert forall|i: int| 0 <= i < t.len() implies #[trigger] t[i] != '\n' by {
            assert(lines(content)[k][i] != '\n');
        }
    }
}

proof fn lemma_block_ok(content: Seq<char>, path: Seq<char>, target: Seq<char>, source: Seq<char>, files: Seq<(Seq<char>, Seq<char>)>)
    requires
        lines(content).len() < u32::MAX,
        path == target && content == source || lookup(files, path) == Some(content),
    ensures
        rows_ok(block_rows(content, path), target, source, files),
{
    lemma_lines_no_newline(content);
    let rows = block_rows(content, path);
    assert forall|k: int| 0 <= k < rows.len() implies row_ok(#[trigger] rows[k], target, source, files) by {
        let t = lines(content)[k];
        assert(rows[k].text == t);
        assert(rows[k].loc == Some(LocModel { path, line: line_no_spec(k) }));
        assert(line_no_spec(k) == k + 1);
        assert forall|i: int| 0 <= i < t.len() implies #[trigger] t[i] != '\n' by {
            assert(lines(content)[k][i] != '\n');
        }
    }
}

proof fn lemma_file_rows_ok(
    paths: Seq<Seq<char>>,
    exclude: Option<Seq<char>>,
    target: Seq<char>,
    source: Seq<char>,
    files: Seq<(Seq<char>, Seq<char>)>,
)
    requires
        line_counts_fit(files),
    ensures
        rows_ok(file_rows(paths, exclude, files), target, source, files),
    decreases paths.len(),
{
    if paths.len() > 0 {
        let p = paths.last();
        lemma_file_rows_ok(paths.drop_last(), exclude, target, source, files);
        if !(exclude matches Some(e) && same_file(e, p)) {
            lemma_lookup_is_a_file(files, p);
            if let Some(c) = lookup(files, p) {
                let j = choose|j: int| 0 <= j < files.len() && (#[trigger] files[j]).1 == c;
                lemma_block_ok(c, p, target, source, files);
                lemma_rows_ok_concat(file_rows(paths.drop_last(), exclude, files), block_rows(c, p), target, source, files);
            }
        }
    }
}

proof fn lemma_body_rows_ok(
    source: Seq<char>,
    k: int,
    vidx: Option<int>,
    target: Seq<char>,
    dialect: Option<DialectModel>,
    stage: Stage,
    files: Seq<(Seq<char>, Seq<char>)>,
)
    requires
        0 <= k <= lines(source).len(),
        lines(source).len() < u32::MAX,
    ensures
        rows_ok(body_rows(lines(source), k, vidx, target, dialect, stage), target, source, files),
    decreases k,
{
    if k > 0 {
        let ls = lines(source);
        let i = k - 1;
        lemma_body_rows_ok(source, k - 1, vidx, target, dialect, stage, files);
        lemma_lines_no_newline(source);
        let rows = line_rows(ls, i, vidx, target, dialect, stage);
        let loc = Some(LocModel { path: target, line: line_no_spec(i) });
        assert(line_no_spec(i) == i + 1);
        assert(no_newline(ls[i])) by {
            assert forall|t: int| 0 <= t < ls[i].len() implies #[trigger] ls[i][t] != '\n' by {
                assert(lines(source)[i][t] != '\n');
            }
        }
        assert forall|m: int| 0 <= m < rows.len() implies row_ok(#[trigger] rows[m], target, source, files) by {
            if vidx != Some(i) {
                match dialect {
                    Some(d) => match expand_spec(d, ls[i], stage) {
                        Some(es) => {
                            let (ns, rest) = crate::dialect::parse_pragma_spec(ls[i]).unwrap();
                            lemma_expand_no_newline(d.rules, ns, rest, stage, es);
                            assert(rows[m] == Row { text: es[m], loc });
                            assert(no_newline(es[m]));
                        },
                        None => {
                            assert(rows[m] == Row { text: ls[i], loc });
                        },
                    },
                    None => {
                        assert(rows[m] == Row { text: ls[i], loc });
                    },
                }
            }
        }
        lemma_rows_ok_concat(body_rows(ls, k - 1, vidx, target, dialect, stage), rows, target, source, files);
    }
}

proof fn lemma_stage_rows_ok(target: Seq<char>, source: Seq<char>, cfg: ConfigModel, ws: WorkspaceModel, stage: Stage)
    requires
        lines(source).len() < u32::MAX,
        line_counts_fit(ws.files),
    ensures
        rows_ok(stage_rows(target, source, cfg, ws, stage), target, source, ws.files),
{
    let ls = lines(source);
    let dir = parent_or_dot(target);
    let dialect = resolve_spec(cfg.dialect, source, dir, ws);
    let f = ws.files;
    // The hoisted `#version`.
    let v = version_rows(ls, target);
    lemma_version_bounds(ls);
    lemma_synth_ok(DEFAULT_VERSION@, target, source, f);
    lemma_lines_no_newline(source);
    if let Some(i) = version_index(ls) {
        assert(line_no_spec(i) == i + 1);
        assert(no_newline(ls[i])) by {
            assert forall|t: int| 0 <= t < ls[i].len() implies #[trigger] ls[i][t] != '\n' by {
                assert(lines(source)[i][t] != '\n');
            }
        }
        assert(row_ok(v[0], target, source, f));
    }
    assert(rows_ok(v, target, source, f));
    // Synthesized preludes and stubs.
    lemma_synth_ok(DEFAULT_PRECISION@, target, source, f);
    let dp = dialect_prelude_rows(dialect, stage, cfg.use_builtin_prelude);
    if let Some(d) = dialect {
        if let Some(p) = prelude_for(d, stage) {
            lemma_synth_ok(p, target, source, f);
        }
        if let Some(p) = d.prelude_extra {
            lemma_synth_ok(p, target, source, f);
        }
        let a = match prelude_for(d, stage) {
            Some(p) => if d.deck && cfg.use_builtin_prelude {
                seq![]
            } else {
                synth_rows(p)
            },
            None => seq![],
        };
        let b = match d.prelude_extra {
            Some(p) => synth_rows(p),
            None => seq![],
        };
        lemma_rows_ok_concat(a, b, target, source, f);
        if let Some(ep) = d.epilogue {
            lemma_synth_ok(ep, target, source, f);
        }
    }
    assert(rows_ok(dp, target, source, f));
    let lib = library_rows(dialect, stage, dir, target, f);
    if let Some(d) = dialect {
        lemma_file_rows_ok(prelude_files_for(d, stage).map_values(|n: Seq<char>| join(dir, n)), Some(target), target, source, f);
    }
    assert(rows_ok(lib, target, source, f));
    lemma_synth_ok(BUILTIN_PRELUDE@, target, source, f);
    lemma_synth_ok(stubs_spec(ws.deck_fns), target, source, f);
    let dk = deck_rows(cfg, dialect, ws);
    assert(rows_ok(dk, target, source, f));
    lemma_file_rows_ok(cfg.preludes, None, target, source, f);
    lemma_file_rows_ok(cfg.modules, Some(target), target, source, f);
    let body = body_rows(ls, ls.len() as int, version_index(ls), target, dialect, stage);
    lemma_body_rows_ok(source, ls.len() as int, version_index(ls), target, dialect, stage, f);
    let ep = epilogue_rows(dialect, source);
    assert(rows_ok(ep, target, source, f));
    let pre = synth_rows(DEFAULT_PRECISION@);
    let pl = file_rows(cfg.preludes, None, f);
    let md = file_rows(cfg.modules, Some(target), f);
    lemma_rows_ok_concat(v, pre, target, source, f);
    lemma_rows_ok_concat(v + pre, dp, target, source, f);
    lemma_rows_ok_concat(v + pre + dp, lib, target, source, f);
    lemma_rows_ok_concat(v + pre + dp + lib, dk, target, source, f);
    lemma_rows_ok_concat(v + pre + dp + lib + dk, pl, target, source, f);
    lemma_rows_ok_concat(v + pre + dp + lib + dk + pl, md, target, source, f);
    lemma_rows_ok_concat(v + pre + dp + lib + dk + pl + md, body, target, source, f);
    lemma_rows_ok_concat(v + pre + dp + lib + dk + pl + md + body, ep, target, source, f);
}

proof fn lemma_unit_lines(rows: Seq<Row>, target: Seq<char>, source: Seq<char>, files: Seq<(Seq<char>, Seq<char>)>, stage: Stage, note: Option<Seq<char>>)
    requires
        rows_ok(rows, target, source, files),
    ensures
        ({
            let a = assembled_from(rows, stage, target, note);
            forall|k: int| 0 <= k < a.map.len() ==> (#[trigger] a.map[k] matches Some(l) ==> faithful_line(
                lines(a.source)[k],
                l,
                target,
                source,
                files,
            ))
        }),
{
    let a = assembled_from(rows, stage, target, note);
    let texts = row_texts(rows);
    if rows.len() > 0 {
        assert forall|i: int| 0 <= i < texts.len() implies no_newline(#[trigger] texts[i]) by {
            assert(row_ok(rows[i], target, source, files));
        }
        lemma_lines_terminated(texts);
        assert forall|k: int| 0 <= k < a.map.len() implies (#[trigger] a.map[k] matches Some(l) ==> faithful_line(
            lines(a.source)[k],
            l,
            target,
            source,
            files,
        )) by {
            assert(row_ok(rows[k], target, source, files));
            assert(a.map[k] == rows[k].loc);
            assert(lines(a.source)[k] == strip_cr(rows[k].text));
        }
    }
}

/// Every mapped line of an assembled unit holds what its map entry names: the
/// line of the shader or workspace file it points at, copied verbatim (a
/// trailing carriage return aside), or one line of the expansion of the
/// dialect directive written there. So a token found on an assembled line is
/// found at the same place in the original.
pub proof fn lemma_assembled_lines_come_from_their_sources(
    target: Seq<char>,
    source: Seq<char>,
    cfg: ConfigModel,
    ws: WorkspaceModel,
)
    requires
        lines(source).len() < u32::MAX,
        line_counts_fit(ws.files),
    ensures
        ({
            let a = assemble_spec(target, source, cfg, ws);
            forall|k: int| 0 <= k < a.map.len() ==> (#[trigger] a.map[k] matches Some(l) ==> faithful_line(
                lines(a.source)[k],
                l,
                target,
                source,
                ws.files,
            ))
        }),
{
    match detect_stage_spec(target) {
        Some(stage) => {
            lemma_stage_rows_ok(target, source, cfg, ws, stage);
            lemma_unit_lines(stage_rows(target, source, cfg, ws, stage), target, source, ws.files, stage, None);
        },
        None => {
            let f = ws.files;
            lemma_synth_ok(DEFAULT_VERSION@, target, source, f);
            lemma_synth_ok(DEFAULT_PRECISION@, target, source, f);
            lemma_synth_ok(WRAP_MAIN@, target, source, f);
            lemma_block_ok(source, target, target, source, f);
            let a = synth_rows(DEFAULT_VERSION@);
            let b = synth_rows(DEFAULT_PRECISION@);
            let c = block_rows(source, target);
            let d = synth_rows(WRAP_MAIN@);
            lemma_rows_ok_concat(a, b, target, source, f);
            lemma_rows_ok_concat(a + b, c, target, source, f);
            lemma_rows_ok_concat(a + b + c, d, target, source, f);
            lemma_unit_lines(wrap_rows(target, source), target, source, f, Stage::Fragment, Some(FRAGMENT_NOTE@));
        },
    }
}

/// The first line whose trimmed start is `#version` is where [`version_index`]
/// points, and no line is one when it points nowhere.
pub proof fn lemma_version_first(ls: Seq<Seq<char>>)
    ensures
        match version_index(ls) {
            Some(i) => {
                &&& 0 <= i < ls.len()
                &&& starts_with(trim_start(ls[i]), "#version"@)
                &&& forall|j: int| 0 <= j < i ==> !starts_with(trim_start(#[trigger] ls[j]), "#version"@)
            },
            None => forall|j: int| 0 <= j < ls.len() ==> !starts_with(trim_start(#[trigger] ls[j]), "#version"@),
        },
    decreases ls.len(),
{
    if ls.len() > 0 {
        let t = ls.drop_last();
        lemma_version_first(t);
        match version_index(t) {
            Some(i) => {
                assert forall|j: int| 0 <= j < i implies !starts_with(trim_start(#[trigger] ls[j]), "#version"@) by {
                    assert(ls[j] == t[j]);
                }
                assert(ls[i] == t[i]);
            },
            None => {
                assert forall|j: int| 0 <= j < ls.len() - 1 implies !starts_with(trim_start(#[trigger] ls[j]), "#version"@) by {
                    assert(ls[j] == t[j]);
                }
            },
        }
    }
}

/// The lines of a unit are its rows' texts (a trailing carriage return aside),
/// each mapped as its row says.
proof fn lemma_unit_rows(rows: Seq<Row>, stage: Stage, target: Seq<char>, note: Option<Seq<char>>)
    requires
        forall|k: int| 0 <= k < rows.len() ==> no_newline(#[trigger] rows[k].text),
        rows.len() > 0,
    ensures
        ({
            let a = assembled_from(rows, stage, target, note);
            &&& lines(a.source).len() == rows.len()
            &&& a.map.len() == rows.len()
            &&& forall|k: int| 0 <= k < rows.len() ==> #[trigger] lines(a.source)[k] == strip_cr(rows[k].text)
                && a.map[k] == rows[k].loc
        }),
{
    let texts = row_texts(rows);
    assert forall|i: int| 0 <= i < texts.len() implies no_newline(#[trigger] texts[i]) by {
        assert(texts[i] == rows[i].text);
    }
    lemma_lines_terminated(texts);
}

/// The default version line and the two default precision lines, as lines.
proof fn lemma_default_lines()
    ensures
        synth_rows(DEFAULT_VERSION@) == seq![Row { text: "#version 300 es"@, loc: None }],
        synth_rows(DEFAULT_PRECISION@) == seq![
            Row { text: "precision highp float;"@, loc: None },
            Row { text: "precision highp int;"@, loc: None },
        ],
        no_newline("#version 300 es"@),
        no_newline("precision highp float;"@),
        no_newline("precision highp int;"@),
{
    reveal_strlit("#version 300 es");
    reveal_strlit("precision highp float;\nprecision highp int;");
    reveal_strlit("precision highp float;");
    reveal_strlit("precision highp int;");
    let v = "#version 300 es"@;
    assert forall|t: int| 0 <= t < v.len() implies #[trigger] v[t] != '\n' by {}
    lemma_lines_single(v);
    assert(synth_rows(DEFAULT_VERSION@) =~= seq![Row { text: v, loc: None }]);
    let a = "precision highp float;"@;
    let b = "precision highp int;"@;
    assert forall|t: int| 0 <= t < a.len() implies #[trigger] a[t] != '\n' by {}
    assert forall|t: int| 0 <= t < b.len() implies #[trigger] b[t] != '\n' by {}
    assert(DEFAULT_PRECISION@ =~= a + seq!['\n'] + b);
    lemma_lines_pair(a, b);
    assert(synth_rows(DEFAULT_PRECISION@) =~= seq![Row { text: a, loc: None }, Row { text: b, loc: None }]);
}

/// A stage shader's unit opens with its own `#version` line — the first line
/// whose trimmed start is `#version`, mapped home — or with `#version 300 es`,
/// mapped nowhere; the two default precision lines follow, mapped nowhere.
pub proof fn lemma_version_and_precision_lead(target: Seq<char>, source: Seq<char>, cfg: ConfigModel, ws: WorkspaceModel)
    requires
        detect_stage_spec(target) is Some,
        lines(source).len() < u32::MAX,
        line_counts_fit(ws.files),
    ensures
        ({
            let a = assemble_spec(target, source, cfg, ws);
            let ls = lines(source);
            &&& a.stage == detect_stage_spec(target).unwrap()
            &&& lines(a.source).len() == a.map.len()
            &&& a.map.len() >= 3
            &&& match version_index(ls) {
                Some(i) => {
                    &&& 0 <= i < ls.len()
                    &&& starts_with(trim_start(ls[i]), "#version"@)
                    &&& forall|j: int| 0 <= j < i ==> !starts_with(trim_start(#[trigger] ls[j]), "#version"@)
                    &&& lines(a.source)[0] == strip_cr(ls[i])
                    &&& a.map[0] == Some(LocModel { path: target, line: line_no_spec(i) })
                },
                None => {
                    &&& forall|j: int| 0 <= j < ls.len() ==> !starts_with(trim_start(#[trigger] ls[j]), "#version"@)
                    &&& lines(a.source)[0] == "#version 300 es"@
                    &&& a.map[0] is None
                },
            }
            &&& lines(a.source)[1] == "precision highp float;"@
            &&& a.map[1] is None
            &&& lines(a.source)[2] == "precision highp int;"@
            &&& a.map[2] is None
        }),
{
    let stage = detect_stage_spec(target).unwrap();
    let ls = lines(source);
    let rows = stage_rows(target, source, cfg, ws, stage);
    lemma_stage_rows_ok(target, source, cfg, ws, stage);
    lemma_default_lines();
    lemma_version_first(ls);
    let head = version_rows(ls, target) + synth_rows(DEFAULT_PRECISION@);
    assert(head.len() == 3);
    assert(rows.len() >= 3);
    assert forall|k: int| 0 <= k < 3 implies rows[k] == #[trigger] head[k] by {}
    assert forall|k: int| 0 <= k < rows.len() implies no_newline(#[trigger] rows[k].text) by {
        assert(row_ok(rows[k], target, source, ws.files));
    }
    lemma_unit_rows(rows, stage, target, None);
    let a = assemble_spec(target, source, cfg, ws);
    assert(lines(a.source)[0] == strip_cr(rows[0].text));
    assert(lines(a.source)[1] == strip_cr(rows[1].text));
    assert(lines(a.source)[2] == strip_cr(rows[2].text));
    reveal_strlit("#version 300 es");
    reveal_strlit("precision highp float;");
    reveal_strlit("precision highp int;");
}

/// A line of the target's own source, mapped to itself.
pub open spec fn author_row(ls: Seq<Seq<char>>, target: Seq<char>, i: int) -> Row {
    Row { text: ls[i], loc: Some(LocModel { path: target, line: line_no_spec(i) }) }
}

/// The target's own lines in the order an assembly emits them: the `#version`
/// line first (when there is one), then every other line in order, each once
/// and mapped to its own 1-based line.
pub open spec fn author_rows(ls: Seq<Seq<char>>, target: Seq<char>) -> Seq<Row> {
    let all = Seq::new(ls.len(), |i: int| author_row(ls, target, i));
    match version_index(ls) {
        Some(v) => seq![all[v]] + all.remove(v),
        None => all,
    }
}

/// The row is mapped to a line of `target`.
pub open spec fn maps_to(target: Seq<char>) -> spec_fn(Row) -> bool {
    |r: Row| r.loc matches Some(l) && l.path == target
}

proof fn lemma_filter_all(s: Seq<Row>, p: spec_fn(Row) -> bool)
    requires
        forall|k: int| 0 <= k < s.len() ==> p(#[trigger] s[k]),
    ensures
        s.filter(p) == s,
    decreases s.len(),
{
    reveal(Seq::filter);
    if s.len() > 0 {
        lemma_filter_all(s.drop_last(), p);
        assert(p(s[s.len() - 1]));
        assert(s.drop_last().push(s.last()) =~= s);
    }
}

proof fn lemma_filter_none(s: Seq<Row>, p: spec_fn(Row) -> bool)
    requires
        forall|k: int| 0 <= k < s.len() ==> !p(#[trigger] s[k]),
    ensures
        s.filter(p) == Seq::<Row>::empty(),
    decreases s.len(),
{
    reveal(Seq::filter);
    if s.len() > 0 {
        lemma_filter_none(s.drop_last(), p);
        assert(!p(s[s.len() - 1]));
    }
}

proof fn lemma_file_rows_paths(paths: Seq<Seq<char>>, exclude: Option<Seq<char>>, files: Seq<(Seq<char>, Seq<char>)>)
    ensures
        forall|k: int| 0 <= k < file_rows(paths, exclude, files).len() ==> {
            let r = #[trigger] file_rows(paths, exclude, files)[k];
            r.loc matches Some(l) && paths.contains(l.path) && (exclude matches Some(e) ==> !same_file(e, l.path))
        },
    decreases paths.len(),
{
    if paths.len() > 0 {
        let p = paths.last();
        let t = paths.drop_last();
        lemma_file_rows_paths(t, exclude, files);
        let rest = file_rows(t, exclude, files);
        let r = file_rows(paths, exclude, files);
        assert forall|k: int| 0 <= k < r.len() implies {
            let x = #[trigger] r[k];
            x.loc matches Some(l) && paths.contains(l.path) && (exclude matches Some(e) ==> !same_file(e, l.path))
        } by {
            if k < rest.len() {
                let l = rest[k].loc.unwrap();
                let j = choose|j: int| 0 <= j < t.len() && t[j] == l.path;
                assert(paths[j] == t[j]);
                if !(exclude matches Some(e) && same_file(e, p)) && lookup(files, p) is Some {
                    assert(r[k] == rest[k]);
                }
            } else {
                assert(paths[paths.len() - 1] == p);
            }
        }
    }
}

/// The body rows of a shader when no dialect applies: its lines, each mapped
/// to itself, but the `#version` one.
proof fn lemma_plain_body(ls: Seq<Seq<char>>, k: int, v: Option<int>, target: Seq<char>, stage: Stage)
    requires
        0 <= k <= ls.len(),
    ensures
        body_rows(ls, k, v, target, None, stage) == (match v {
            Some(i) => if 0 <= i < k {
                Seq::new(k as nat, |j: int| author_row(ls, target, j)).remove(i)
            } else {
                Seq::new(k as nat, |j: int| author_row(ls, target, j))
            },
            None => Seq::new(k as nat, |j: int| author_row(ls, target, j)),
        }),
    decreases k,
{
    if k > 0 {
        lemma_plain_body(ls, k - 1, v, target, stage);
        let prev = Seq::new((k - 1) as nat, |j: int| author_row(ls, target, j));
        let all = Seq::new(k as nat, |j: int| author_row(ls, target, j));
        assert(all =~= prev.push(author_row(ls, target, k - 1)));
        match v {
            Some(i) => {
                if i == k - 1 {
                    assert(all.remove(i) =~= prev);
                } else if 0 <= i < k - 1 {
                    assert(all.remove(i) =~= prev.remove(i).push(author_row(ls, target, k - 1)));
                }
            },
            None => {},
        }
    }
}

/// When no dialect applies and no configured prelude is the shader itself, the
/// lines an assembly maps to the shader are exactly its own lines: the
/// `#version` line first, then every other line in order, each once, verbatim
/// and at its own line number.
pub proof fn lemma_author_lines_once_in_order(target: Seq<char>, source: Seq<char>, cfg: ConfigModel, ws: WorkspaceModel, stage: Stage)
    requires
        resolve_spec(cfg.dialect, source, parent_or_dot(target), ws) is None,
        !cfg.preludes.contains(target),
    ensures
        stage_rows(target, source, cfg, ws, stage).filter(maps_to(target)) == author_rows(lines(source), target),
{
    broadcast use Seq::filter_distributes_over_add;

    let ls = lines(source);
    let dir = parent_or_dot(target);
    let p = maps_to(target);
    let vr = version_rows(ls, target);
    let pr = synth_rows(DEFAULT_PRECISION@);
    let kr = deck_rows(cfg, None, ws);
    let f1 = file_rows(cfg.preludes, None, ws.files);
    let f2 = file_rows(cfg.modules, Some(target), ws.files);
    let vidx = version_index(ls);
    let br = body_rows(ls, ls.len() as int, vidx, target, None, stage);
    let all = Seq::new(ls.len(), |i: int| author_row(ls, target, i));
    lemma_version_first(ls);
    lemma_default_lines();
    assert(dialect_prelude_rows(None, stage, cfg.use_builtin_prelude) =~= Seq::<Row>::empty());
    assert(library_rows(None, stage, dir, target, ws.files) =~= Seq::<Row>::empty());
    assert(epilogue_rows(None, source) =~= Seq::<Row>::empty());
    let rows = stage_rows(target, source, cfg, ws, stage);
    assert(rows =~= vr + pr + Seq::<Row>::empty() + Seq::<Row>::empty() + kr + f1 + f2 + br + Seq::<Row>::empty());
    lemma_filter_none(pr, p);
    lemma_filter_none(Seq::<Row>::empty(), p);
    assert forall|k: int| 0 <= k < kr.len() implies !p(#[trigger] kr[k]) by {}
    lemma_filter_none(kr, p);
    lemma_file_rows_paths(cfg.preludes, None, ws.files);
    assert forall|k: int| 0 <= k < f1.len() implies !p(#[trigger] f1[k]) by {
        let l = f1[k].loc.unwrap();
        if l.path == target {
            assert(cfg.preludes.contains(target));
        }
    }
    lemma_filter_none(f1, p);
    lemma_file_rows_paths(cfg.modules, Some(target), ws.files);
    assert forall|k: int| 0 <= k < f2.len() implies !p(#[trigger] f2[k]) by {
        let l = f2[k].loc.unwrap();
        assert(same_file(target, target));
    }
    lemma_filter_none(f2, p);
    lemma_plain_body(ls, ls.len() as int, vidx, target, stage);
    assert(Seq::new(ls.len() as nat, |j: int| author_row(ls, target, j)) =~= all);
    assert forall|k: int| 0 <= k < br.len() implies p(#[trigger] br[k]) by {
        match vidx {
            Some(i) => {
                if k < i {
                    assert(br[k] == all[k]);
                } else {
                    assert(br[k] == all[k + 1]);
                }
            },
            None => {
                assert(br[k] == all[k]);
            },
        }
    }
    lemma_filter_all(br, p);
    match vidx {
        Some(i) => {
            assert(vr =~= seq![all[i]]);
            lemma_filter_all(vr, p);
        },
        None => {
            assert forall|k: int| 0 <= k < vr.len() implies !p(#[trigger] vr[k]) by {}
            lemma_filter_none(vr, p);
        },
    }
    assert(rows.filter(p) =~= author_rows(ls, target));
}

/// A template without its own `main` is wrapped whole: `#version 300 es` and
/// the two default precision lines, then each of its lines (each followed by a
/// newline), then an empty `main`; the wrapper's lines map nowhere and each of
/// the template's lines maps to its own 1-based line of the host file. The unit
/// carries a note and the stage it was given.
pub proof fn lemma_wrapped_template_shape(
    target: Seq<char>,
    source: Seq<char>,
    cfg: ConfigModel,
    stage: Stage,
    ws: WorkspaceModel,
)
    requires
        lines(source).len() < u32::MAX,
    ensures
        ({
            let a = assemble_embedded_spec(target, source, cfg, stage, false, ws);
            let ls = lines(source);
            &&& a.stage == stage
            &&& a.target == target
            &&& a.note is Some
            &&& a.source == terminated(
                seq!["#version 300 es"@, "precision highp float;"@, "precision highp int;"@] + ls + seq![
                    "void main() {}"@,
                ],
            )
            &&& a.map == seq![None, None, None] + Seq::new(
                ls.len(),
                |i: int| Some(LocModel { path: target, line: (i + 1) as u32 }),
            ) + seq![None]
        }),
{
    let ls = lines(source);
    lemma_default_lines();
    reveal_strlit("void main() {}");
    let m = "void main() {}"@;
    assert forall|t: int| 0 <= t < m.len() implies #[trigger] m[t] != '\n' by {}
    lemma_lines_single(m);
    assert(synth_rows(WRAP_MAIN@) =~= seq![Row { text: m, loc: None }]);
    let rows = wrap_rows(target, source);
    let b = block_rows(source, target);
    assert(row_texts(rows) =~= seq!["#version 300 es"@, "precision highp float;"@, "precision highp int;"@] + ls
        + seq![m]);
    assert forall|i: int| 0 <= i < ls.len() implies line_no_spec(i) == (i + 1) as u32 by {}
    assert(row_locs(rows) =~= seq![None, None, None] + Seq::new(
        ls.len(),
        |i: int| Some(LocModel { path: target, line: (i + 1) as u32 }),
    ) + seq![None]);
}

proof fn lemma_common_suffix(n: Seq<char>, a: Seq<char>, b: Seq<char>)
    requires
        ends_with(n, a),
        ends_with(n, b),
        a.len() >= 2,
        b.len() >= 2,
    ensures
        a[a.len() - 1] == b[b.len() - 1],
        a[a.len() - 2] == b[b.len() - 2],
{
    assert(n.subrange(n.len() - a.len(), n.len() as int)[a.len() - 1] == n[n.len() - 1]);
    assert(n.subrange(n.len() - b.len(), n.len() as int)[b.len() - 1] == n[n.len() - 1]);
    assert(n.subrange(n.len() - a.len(), n.len() as int)[a.len() - 2] == n[n.len() - 2]);
    assert(n.subrange(n.len() - b.len(), n.len() as int)[b.len() - 2] == n[n.len() - 2]);
}

/// The name ends with one of the vertex suffixes.
pub open spec fn vertex_suffixed(n: Seq<char>) -> bool {
    ends_with(n, ".vert"@) || ends_with(n, ".vertex"@) || ends_with(n, ".vs"@)
}

/// The name ends with one of the fragment suffixes.
pub open spec fn fragment_suffixed(n: Seq<char>) -> bool {
    ends_with(n, ".frag"@) || ends_with(n, ".fragment"@) || ends_with(n, ".fs"@)
}

/// The name ends with one of the compute suffixes.
pub open spec fn compute_suffixed(n: Seq<char>) -> bool {
    ends_with(n, ".comp"@) || ends_with(n, ".compute"@)
}

proof fn lemma_suffixes_exclusive(n: Seq<char>)
    ensures
        fragment_suffixed(n) ==> !vertex_suffixed(n),
        compute_suffixed(n) ==> !vertex_suffixed(n) && !fragment_suffixed(n),
{
    reveal_strlit(".vert");
    reveal_strlit(".vertex");
    reveal_strlit(".vs");
    reveal_strlit(".frag");
    reveal_strlit(".fragment");
    reveal_strlit(".fs");
    reveal_strlit(".comp");
    reveal_strlit(".compute");
    let xs = seq![".frag"@, ".fragment"@, ".fs"@, ".comp"@, ".compute"@];
    let ys = seq![".vert"@, ".vertex"@, ".vs"@, ".frag"@, ".fragment"@, ".fs"@];
    assert forall|i: int, j: int|
        0 <= i < 5 && 0 <= j < 6 && !(i < 3 && j >= 3) && ends_with(n, #[trigger] xs[i]) && ends_with(n, #[trigger] ys[j])
        implies false by {
        let a = xs[i];
        let b = ys[j];
        lemma_common_suffix(n, a, b);
    }
    assert(xs[0] == ".frag"@ && xs[1] == ".fragment"@ && xs[2] == ".fs"@ && xs[3] == ".comp"@ && xs[4] == ".compute"@);
    assert(ys[0] == ".vert"@ && ys[1] == ".vertex"@ && ys[2] == ".vs"@ && ys[3] == ".frag"@ && ys[4] == ".fragment"@
        && ys[5] == ".fs"@);
}

/// Every spelling of a stage in a (case-insensitive) file name is detected as
/// that stage: `.vert.`/`.vertex.` inside the name or `.vert`/`.vertex`/`.vs`
/// at its end name the vertex stage; `.frag.`/`.fragment.` inside or
/// `.frag`/`.fragment`/`.fs` at the end name the fragment stage, and
/// `.comp.`/`.compute.` inside or `.comp`/`.compute` at the end the compute
/// stage — each unless the name also carries an earlier stage's spelling
/// (vertex, then fragment, then compute).
pub proof fn lemma_stage_spellings_are_detected(p: Seq<char>)
    ensures
        file_name(p) matches Some(name) ==> {
            let n = lower_seq(name);
            let vert_inside = contains(n, ".vert."@) || contains(n, ".vertex."@);
            let frag_inside = contains(n, ".frag."@) || contains(n, ".fragment."@);
            let comp_inside = contains(n, ".comp."@) || contains(n, ".compute."@);
            &&& (vert_inside || vertex_suffixed(n)) ==> detect_stage_spec(p) == Some(Stage::Vertex)
            &&& (frag_inside || fragment_suffixed(n)) && !vert_inside && !vertex_suffixed(n) ==> detect_stage_spec(p)
                == Some(Stage::Fragment)
            &&& fragment_suffixed(n) && !vert_inside ==> detect_stage_spec(p) == Some(Stage::Fragment)
            &&& (comp_inside || compute_suffixed(n)) && !vert_inside && !frag_inside && !vertex_suffixed(n)
                && !fragment_suffixed(n) ==> detect_stage_spec(p) == Some(Stage::Compute)
            &&& compute_suffixed(n) && !vert_inside && !frag_inside ==> detect_stage_spec(p) == Some(Stage::Compute)
            &&& !vert_inside && !frag_inside && !comp_inside && !vertex_suffixed(n) && !fragment_suffixed(n)
                && !compute_suffixed(n) ==> detect_stage_spec(p) is None
        },
{
    if let Some(name) = file_name(p) {
        lemma_suffixes_exclusive(lower_seq(name));
    }
}

} // verus!
