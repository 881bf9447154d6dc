use glslint::diagnostics::Severity;
use glslint::drift::{check, check_against, luma_to_glsl};

const GLSL: &str = "layout(std140) uniform windUniforms {\n  float uMin;\n  float uMax;\n  vec2 viewOffset;\n} wind;\n";
const JS: &str = "export const windUniforms = {\n  name: 'wind',\n  uniformTypes: {\n    uMin: 'f32',\n    uMax: 'f32',\n    viewOffset: 'vec2<f32>',\n  },\n};\n";

fn run(glsl: &str, js: &str) -> Vec<String> {
    check_against("/p/windUniforms.glsl", glsl, "windUniforms", js, "modules.ts").into_iter().map(|d| d.message).collect()
}

#[test]
fn in_sync_is_silent() {
    assert!(run(GLSL, JS).is_empty());
}

#[test]
fn flags_member_only_in_glsl() {
    let glsl = GLSL.replace("} wind;", "  float maxSpeed;\n} wind;");
    let msgs = run(&glsl, JS);
    assert!(msgs.iter().any(|m| m.contains("maxSpeed") && m.contains("not in")));
}

#[test]
fn flags_member_only_in_js() {
    let js = JS.replace("uMax: 'f32',", "uMax: 'f32',\n    randSeed: 'f32',");
    let msgs = run(GLSL, &js);
    assert!(msgs.iter().any(|m| m.contains("randSeed") && m.contains("no such member")));
}

#[test]
fn flags_type_mismatch() {
    let js = JS.replace("viewOffset: 'vec2<f32>'", "viewOffset: 'f32'");
    let msgs = run(GLSL, &js);
    assert!(msgs.iter().any(|m| m.contains("type drift") && m.contains("viewOffset") && m.contains("expected `float`")));
}

#[test]
fn unreadable_js_is_silent() {
    assert!(run(GLSL, "export const windUniforms = { name: 'wind' };").is_empty());
    assert!(check_against("/p/x.glsl", GLSL, "other", JS, "modules.ts").is_empty());
}

#[test]
fn maps_luma_types() {
    assert_eq!(luma_to_glsl("f32"), Some("float"));
    assert_eq!(luma_to_glsl("vec3<f32>"), Some("vec3"));
    assert_eq!(luma_to_glsl("mat4x4<f32>"), Some("mat4"));
    assert_eq!(luma_to_glsl("weird"), None);
}

#[test]
fn drift_warnings_point_at_the_member() {
    let glsl = GLSL.replace("} wind;", "  float maxSpeed;\n} wind;");
    let d = check_against("/p/windUniforms.glsl", &glsl, "windUniforms", JS, "modules.ts");
    assert_eq!(d.len(), 1);
    assert_eq!(d[0].line, 5);
    assert_eq!(d[0].col, 9);
    assert_eq!(d[0].len, 8);
    assert_eq!(d[0].source, "drift");
    assert_eq!(d[0].message, "`maxSpeed` is in the GLSL block but not in `modules.ts` uniformTypes");
}

#[test]
fn check_labels_by_file_name_and_is_silent_without_js() {
    let js = JS.replace("uMax: 'f32',", "uMax: 'f32',\n    randSeed: 'f32',");
    let d = check("/p/windUniforms.glsl", GLSL, "windUniforms", &Some(js), "/p/src/modules.ts");
    assert_eq!(d.len(), 1);
    assert_eq!(d[0].message, "`modules.ts` declares `randSeed`, but the GLSL block has no such member");
    assert_eq!((d[0].line, d[0].col, d[0].len), (1, 1, 1));
    assert!(check("/p/windUniforms.glsl", GLSL, "windUniforms", &None, "/p/src/modules.ts").is_empty());
}

#[test]
fn drift_only_ever_warns() {
    let glsl = GLSL.replace("} wind;", "  float maxSpeed;\n} wind;");
    let js = JS.replace("viewOffset: 'vec2<f32>'", "viewOffset: 'f32'").replace("uMax: 'f32',", "uMax: 'f32',\n    randSeed: 'f32',");
    let d = check_against("/p/windUniforms.glsl", &glsl, "windUniforms", &js, "modules.ts");
    assert_eq!(d.len(), 3);
    assert!(d.iter().all(|x| x.severity == Severity::Warning && x.path == "/p/windUniforms.glsl"));
}

#[test]
fn columns_count_bytes() {
    let glsl = "uniform windUniforms {\n  vec2\u{fc} uX;\n};\n";
    let js = "export const windUniforms = {\n  uniformTypes: {\n    uY: 'f32',\n  },\n};\n";
    let d = check_against("/p/w.glsl", glsl, "windUniforms", js, "modules.ts");
    let w = d.iter().find(|d| d.message.contains("uX")).unwrap();
    assert_eq!((w.line, w.col), (2, 10));
}
