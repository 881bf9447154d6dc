use glslint::assemble::Stage;
use glslint::discover::{collect_define_names, injected_defines, shared_libraries, top_level_fn_names};
use glslint::workspace::Workspace;

#[test]
fn top_level_fn_names_finds_definitions_not_calls() {
    let src = "\
uniform mat4 u_m;
vec4 projectTile(vec2 p) {
    vec4 r = u_m * vec4(p, 0.0, 1.0);
    if (p.x > 0.0) { r.z = 1.0; }
    return r;
}
float projectLineThickness(float y) { return 1.0; }
";
    let fns = top_level_fn_names(src);
    assert!(fns.contains(&"projectTile".to_string()));
    assert!(fns.contains(&"projectLineThickness".to_string()));
    assert!(!fns.iter().any(|f| f == "if" || f == "u_m" || f == "vec4"));
}

#[test]
fn collect_define_names_skips_templated_macros() {
    let mut out = Vec::new();
    collect_define_names(
        "const d = [`#define NUM_ILLUMINATION_SOURCES ${x.length}`, `#define HAS_UNIFORM_${name}`];",
        &mut out,
    );
    assert!(out.contains(&"NUM_ILLUMINATION_SOURCES".to_string()));
    assert!(!out.iter().any(|n| n.starts_with("HAS_UNIFORM")));
}

#[test]
fn injected_defines_are_deduplicated_and_sorted() {
    let texts = vec![
        "`#define ZED ${a}` `#define ALPHA ${b}`".to_string(),
        "`#define ZED ${c}` `#define GAUSS 0.3989` `#define MID\t${d}`".to_string(),
    ];
    assert_eq!(injected_defines(&texts), vec!["ALPHA".to_string(), "MID".to_string(), "ZED".to_string()]);
}

#[test]
fn shared_libraries_pick_stage_libraries_and_dedupe_variants() {
    let ws = Workspace {
        files: vec![
            ("/d/_prelude.vertex.glsl".to_string(), "vec4 projectTile(vec2 p) { return vec4(p, 0.0, 1.0); }\n".to_string()),
            ("/d/_projection_globe.vertex.glsl".to_string(), "vec4 projectTile(vec2 p) { return vec4(1.0); }\n".to_string()),
            ("/d/_prelude.fragment.glsl".to_string(), "float lum(vec3 c) { return c.x; }\n".to_string()),
            ("/d/background.vertex.glsl".to_string(), "void main() {}\n".to_string()),
            ("/d/other.vertex.glsl".to_string(), "void main() { gl_Position = vec4(0.0); }\n".to_string()),
        ],
        deck_fns: vec![],
        project_presets: vec![],
    };
    let entries = vec![
        "/d/background.vertex.glsl".to_string(),
        "/d/_projection_globe.vertex.glsl".to_string(),
        "/d/other.vertex.glsl".to_string(),
        "/d/_prelude.fragment.glsl".to_string(),
        "/d/_prelude.vertex.glsl".to_string(),
        "/d/readme.md".to_string(),
    ];
    let libs = shared_libraries(&entries, Stage::Vertex, "/d/background.vertex.glsl", &ws);
    // Sorted: `_prelude.vertex` before `_projection_globe.vertex`; the globe
    // variant redefines `projectTile` and is dropped; fragment libraries and
    // shaders with a `main` are not libraries of a vertex shader.
    assert_eq!(libs, vec!["/d/_prelude.vertex.glsl".to_string()]);
}

#[test]
fn discover_has_main_ignores_whitespace() {
    assert!(glslint::discover::has_main("void\tmain (void) {}\n"));
    assert!(!glslint::discover::has_main("void mainImage(out vec4 c) {}\n"));
}

#[test]
fn discover_has_main_ignores_comments() {
    assert!(!glslint::discover::has_main("// void main() {}\nfloat f() { return 1.0; }\n"));
}

#[test]
fn injected_define_names_have_a_macro_shape() {
    let names = glslint::discover::injected_defines(&vec![
        "const s = `#define MAX_LINES ${n}\n#define HAS_UNIFORM_${name} 1\n#define x ${y}\n#define A ${z}`;".to_string(),
    ]);
    assert_eq!(names, vec!["MAX_LINES".to_string()]);
}
