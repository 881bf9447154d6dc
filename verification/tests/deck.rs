use glslint::assemble::Loc;
use glslint::deck::{extract_fns, stubs, ProjectFn};

#[test]
fn extracts_single_and_multiline_signatures() {
    let src = "export const x = `\n\
               vec4 project_common_position_to_clipspace(vec4 position) {\n\
                 return vec4(0.0);\n\
               }\n\
               vec4 project_position_to_clipspace(\n\
                 vec3 position, vec3 position64Low, vec3 offset\n\
               ) {\n\
                 return vec4(0.0);\n\
               }\n\
               fn project_wgsl_thing() -> f32 {}\n`;";
    let mut out = Vec::new();
    extract_fns(src, "/p/project.glsl.ts", &mut out);
    let names: Vec<_> = out.iter().map(|f| f.name.as_str()).collect();
    assert!(names.contains(&"project_common_position_to_clipspace"));
    let multi = out.iter().find(|f| f.name == "project_position_to_clipspace").unwrap();
    assert_eq!(multi.signature, "vec4 project_position_to_clipspace(vec3 position, vec3 position64Low, vec3 offset)");
    assert!(!names.contains(&"project_wgsl_thing"));
}

#[test]
fn generates_typed_stub_bodies() {
    let f = |ret: &str| ProjectFn {
        name: "f".into(),
        signature: format!("{ret} f()"),
        ret: ret.into(),
        loc: Loc { path: String::new(), line: 1 },
    };
    assert!(stubs(&[f("void")]).contains("void f() {}"));
    assert!(stubs(&[f("float")]).contains("float f() { return 0.0; }"));
    assert!(stubs(&[f("vec4")]).contains("vec4 f() { return vec4(0.0); }"));
    assert!(stubs(&[f("mat3")]).contains("mat3 f() { return mat3(0.0); }"));
    assert!(stubs(&[f("bool")]).contains("bool f() { return false; }"));
}

#[test]
fn extracted_functions_record_their_definition_line() {
    let src = "a\nvec2 project_pixel_size_to_clipspace(vec2 pixels) {\n}\n";
    let mut out = Vec::new();
    extract_fns(src, "/p/project.glsl.ts", &mut out);
    assert_eq!(out.len(), 1);
    assert_eq!(out[0].loc.line, 2);
    assert_eq!(out[0].loc.path, "/p/project.glsl.ts");
    assert_eq!(out[0].ret, "vec2");
}
