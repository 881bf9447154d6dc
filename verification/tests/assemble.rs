use glslint::assemble::{assemble, assemble_embedded, detect_stage, Loc, Stage};
use glslint::config::Config;
use glslint::dialect::Preference;
use glslint::workspace::Workspace;

fn no_config() -> Config {
    Config { preludes: vec![], modules: vec![], use_builtin_prelude: false, dialect: Preference::default() }
}

#[test]
fn detect_stage_reads_the_filename() {
    assert_eq!(detect_stage("draw.vert.glsl"), Some(Stage::Vertex));
    assert_eq!(detect_stage("draw.frag.glsl"), Some(Stage::Fragment));
    assert_eq!(detect_stage("sim.comp.glsl"), Some(Stage::Compute));
    // The spelled-out convention (maplibre-gl-js and friends).
    assert_eq!(detect_stage("line.vertex.glsl"), Some(Stage::Vertex));
    assert_eq!(detect_stage("line.fragment.glsl"), Some(Stage::Fragment));
    // A bare module fragment is not a stage shader.
    assert_eq!(detect_stage("windUniforms.glsl"), None);
}

#[test]
fn spelled_out_vertex_stage_is_not_wrapped_as_fragment() {
    let src = "#version 300 es\nlayout(location = 0) in ivec2 a_pos_normal;\nvoid main() { gl_Position = vec4(vec2(a_pos_normal >> 1), 0.0, 1.0); }\n";
    let a = assemble("line.vertex.glsl", src, &no_config(), &Workspace::empty());
    assert_eq!(a.stage, Stage::Vertex);
}

#[test]
fn line_map_has_exactly_one_entry_per_assembled_line() {
    let src = "#version 300 es\nprecision highp float;\nout vec4 c;\nvoid main(){ c = vec4(1.0); }\n";
    let a = assemble("draw.frag.glsl", src, &no_config(), &Workspace::empty());
    assert_eq!(a.source.lines().count(), a.map.len());
}

#[test]
fn version_is_hoisted_and_mapped_to_its_original_line() {
    let src = "#version 300 es\nout vec4 c;\nvoid main(){ c = vec4(1.0); }\n";
    let a = assemble("draw.frag.glsl", src, &no_config(), &Workspace::empty());
    assert!(a.source.starts_with("#version 300 es"));
    assert_eq!(a.map[0].as_ref().unwrap().line, 1);
}

#[test]
fn default_precision_is_injected() {
    let src = "#version 300 es\nout vec4 c;\nvoid main(){}\n";
    let a = assemble("draw.frag.glsl", src, &no_config(), &Workspace::empty());
    assert!(a.source.contains("precision highp float;"));
}

#[test]
fn maplibre_pragma_is_expanded_and_stays_one_to_one_mapped() {
    let src = "#pragma maplibre: define lowp float opacity\n\
               void main() {\n\
               #pragma maplibre: initialize lowp float opacity\n\
               gl_Position = vec4(opacity);\n\
               }\n";
    let a = assemble("line.vertex.glsl", src, &no_config(), &Workspace::empty());
    assert_eq!(a.stage, Stage::Vertex);
    assert_eq!(a.source.lines().count(), a.map.len());
    assert!(a.source.contains("in lowp float a_opacity;"));
    assert!(a.source.contains("out lowp float opacity;"));
    assert!(!a.source.contains("#pragma maplibre"));
    let idx = a.source.lines().position(|l| l.contains("out lowp float opacity;")).unwrap();
    assert_eq!(a.map[idx].as_ref().unwrap().line, 1);
}

#[test]
fn no_dialect_leaves_a_plain_shader_untouched() {
    let src = "out vec4 c;\nvoid main(){ c = vec4(1.0); }\n";
    let a = assemble("draw.frag.glsl", src, &no_config(), &Workspace::empty());
    assert!(a.source.contains("out vec4 c;"));
    assert_eq!(a.source.lines().count(), a.map.len());
}

#[test]
fn bare_module_fragment_is_wrapped_for_syntax_checking() {
    let src = "layout(std140) uniform U { float a; } u;\n";
    let a = assemble("windUniforms.glsl", src, &no_config(), &Workspace::empty());
    assert_eq!(a.stage, Stage::Fragment);
    assert!(a.source.contains("void main()"));
    assert_eq!(a.source.lines().count(), a.map.len());
}

#[test]
fn maplibre_injects_its_sibling_shared_library_mapped_to_its_own_file() {
    // The directory holds `_prelude.vertex.glsl`; a pragma-free shader beside it
    // is recognized as maplibre and gets the library spliced in.
    let lib = "vec4 projectTile(vec2 p) { return vec4(p, 0.0, 1.0); }\n";
    let ws = Workspace {
        files: vec![("/d/_prelude.vertex.glsl".to_string(), lib.to_string())],
        deck_fns: vec![],
        project_presets: vec![],
    };
    let src = "void main() { gl_Position = projectTile(vec2(0.0)); }\n";
    let a = assemble("/d/background.vertex.glsl", src, &no_config(), &ws);
    assert!(a.source.contains("vec4 projectTile(vec2 p)"), "shared library was injected: {}", a.source);
    assert_eq!(a.source.lines().count(), a.map.len());
    let idx = a.source.lines().position(|l| l.contains("projectTile(vec2 p)")).unwrap();
    assert!(a.map[idx].as_ref().unwrap().path.ends_with("_prelude.vertex.glsl"));
}

#[test]
fn glslang_stage_names_the_validator_argument() {
    assert_eq!(Stage::Vertex.glslang_stage(), "vert");
    assert_eq!(Stage::Fragment.glslang_stage(), "frag");
    assert_eq!(Stage::Compute.glslang_stage(), "comp");
}

#[test]
fn builtin_prelude_lines_map_nowhere() {
    let config = Config { preludes: vec![], modules: vec![], use_builtin_prelude: true, dialect: Preference::default() };
    let src = "#version 300 es\nvoid main() { gl_Position = project_position_to_clipspace(a, b, c); }\n";
    let a = assemble("draw.vert.glsl", src, &config, &Workspace::empty());
    assert_eq!(a.source.lines().count(), a.map.len());
    let idx = a.source.lines().position(|l| l.contains("vec4 project_position_to_clipspace(")).unwrap();
    assert!(a.map[idx].is_none());
    let body = a.source.lines().position(|l| l.contains("void main()")).unwrap();
    assert_eq!(a.map[body].as_ref().unwrap().line, 2);
}

#[test]
fn a_module_file_is_spliced_and_mapped_to_its_lines() {
    let ws = Workspace {
        files: vec![("/p/windUniforms.glsl".to_string(), "uniform float uMin;\nuniform float uMax;\n".to_string())],
        deck_fns: vec![],
        project_presets: vec![],
    };
    let config = Config {
        preludes: vec![],
        modules: vec!["/p/windUniforms.glsl".to_string()],
        use_builtin_prelude: false,
        dialect: Preference::default(),
    };
    let a = assemble("/p/draw.frag.glsl", "#version 300 es\nvoid main() {}\n", &config, &ws);
    assert_eq!(a.source.lines().count(), a.map.len());
    let idx = a.source.lines().position(|l| l == "uniform float uMax;").unwrap();
    let loc = a.map[idx].as_ref().unwrap();
    assert_eq!(loc.path, "/p/windUniforms.glsl");
    assert_eq!(loc.line, 2);
}

fn locs(a: &glslint::assemble::Assembled) -> Vec<Option<(String, u32)>> {
    a.map.iter().map(|l| l.as_ref().map(|l: &Loc| (l.path.clone(), l.line))).collect()
}

#[test]
fn version_then_precision_lead_the_unit() {
    let src = "// header
  #version 300 es
void main() {}
";
    let a = assemble("/p/a.frag.glsl", src, &no_config(), &Workspace::empty());
    let ls: Vec<&str> = a.source.lines().collect();
    assert_eq!(&ls[0..3], &["  #version 300 es", "precision highp float;", "precision highp int;"]);
    let m = locs(&a);
    assert_eq!(m[0], Some(("/p/a.frag.glsl".to_string(), 2)));
    assert_eq!((m[1].clone(), m[2].clone()), (None, None));
    let b = assemble("/p/b.frag.glsl", "void main() {}
", &no_config(), &Workspace::empty());
    assert_eq!(b.source.lines().next(), Some("#version 300 es"));
    assert_eq!(b.map[0].is_none(), true);
}

#[test]
fn author_lines_appear_once_in_order_at_their_own_numbers() {
    let src = "out vec4 c;
#version 300 es
void main() {
  c = vec4(1.0);
}
";
    let a = assemble("/p/a.frag.glsl", src, &no_config(), &Workspace::empty());
    let own: Vec<(&str, u32)> = a
        .source
        .lines()
        .zip(a.map.iter())
        .filter_map(|(l, m)| m.as_ref().filter(|m| m.path == "/p/a.frag.glsl").map(|m| (l, m.line)))
        .collect();
    assert_eq!(own, vec![("#version 300 es", 2), ("out vec4 c;", 1), ("void main() {", 3), ("  c = vec4(1.0);", 4), ("}", 5)]);
}

#[test]
fn a_template_without_main_is_wrapped_whole() {
    let a = assemble_embedded("/p/x.ts", "float f() { return 1.0; }
float g;", &no_config(), Stage::Vertex, false, &Workspace::empty());
    assert_eq!(
        a.source,
        "#version 300 es\nprecision highp float;\nprecision highp int;\nfloat f() { return 1.0; }\nfloat g;\nvoid main() {}\n"
    );
    assert_eq!(
        locs(&a),
        vec![None, None, None, Some(("/p/x.ts".to_string(), 1)), Some(("/p/x.ts".to_string(), 2)), None]
    );
    assert_eq!(a.stage, Stage::Vertex);
    assert!(a.note.is_some());
}

#[test]
fn the_deck_dialect_prelude_is_the_stub_fallback() {
    let src = "#version 300 es\nvoid main() { gl_Position = project_position_to_clipspace(vec3(0.0), vec3(0.0), vec3(0.0)); }\n";
    let mut cfg = no_config();
    cfg.dialect = Preference { preset: Some("deck".to_string()), auto: false, custom_rules: vec![], custom_prelude: None };
    let off = assemble("/p/a.vert.glsl", src, &cfg, &Workspace::empty());
    assert_eq!(off.source.matches("vec4 project_position_to_clipspace(").count(), 1);
    cfg.use_builtin_prelude = true;
    let on = assemble("/p/a.vert.glsl", src, &cfg, &Workspace::empty());
    assert_eq!(on.source.matches("vec4 project_position_to_clipspace(").count(), 1);
}
