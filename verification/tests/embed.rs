use glslint::assemble::Stage;
use glslint::embed::{extract, is_js_ts, HostPos};

#[test]
fn extracts_a_tagged_template_and_its_binding() {
    let src = "const fs = glsl`#version 300 es\nvoid main() {}\n`;\n";
    let e = extract(src);
    assert_eq!(e.len(), 1);
    assert_eq!(e[0].name.as_deref(), Some("fs"));
    assert_eq!(e[0].stage, Stage::Fragment);
    assert!(e[0].has_entry);
    assert!(!e[0].has_interp);
    assert!(e[0].source.starts_with("#version 300 es"));
}

#[test]
fn maps_first_line_column_past_the_backtick() {
    let src = "const fs = glsl`#version 300 es\nout vec4 c;\nvoid main(){ c = nope; }`;\n";
    let e = &extract(src)[0];
    assert_eq!(e.map(1, 1), HostPos { line: 1, col: 17 });
    assert_eq!(e.map(3, 14), HostPos { line: 3, col: 14 });
}

#[test]
fn recognizes_the_block_comment_marker_form() {
    let src = "export const src =\n  /* glsl */ `#version 300 es\nvoid main() {}\n`;\n";
    let e = extract(src);
    assert_eq!(e.len(), 1);
    assert_eq!(e[0].name.as_deref(), Some("src"));
    assert_eq!(e[0].line_map[0].line, 2);
}

#[test]
fn infers_vertex_from_gl_position() {
    let src = "const s = glsl`#version 300 es\nvoid main() { gl_Position = vec4(0.0); }`;\n";
    let e = &extract(src)[0];
    assert_eq!(e.stage, Stage::Vertex);
    assert!(e.has_entry);
}

#[test]
fn infers_vertex_from_a_vertex_only_builtin_without_gl_position() {
    let src = "const update = glsl`#version 300 es\nin float a;\nout float b;\n\
               void main() { b = a * float(gl_VertexID); }`;\n";
    let e = &extract(src)[0];
    assert_eq!(e.stage, Stage::Vertex);
    assert!(e.has_entry);
}

#[test]
fn content_stage_beats_a_misleading_binding_name() {
    let src = "const vs = glsl`#version 300 es\nout vec4 c;\n\
               void main() { c = gl_FragCoord; }`;\n";
    assert_eq!(extract(src)[0].stage, Stage::Fragment);
}

#[test]
fn a_chunk_without_main_is_wrapped_under_its_builtin_stage() {
    let plain = "const chunk = glsl`float rand(vec2 p) { return 0.0; }`;\n";
    let e = &extract(plain)[0];
    assert!(!e.has_entry);
    assert_eq!(e.stage, Stage::Fragment);

    let vtx = "const vid = glsl`float vid() { return float(gl_VertexID); }`;\n";
    let e = &extract(vtx)[0];
    assert!(!e.has_entry);
    assert_eq!(e.stage, Stage::Vertex);
}

#[test]
fn main_in_a_comment_is_not_an_entry_point() {
    let src = "const chunk = glsl`// main helpers below\nfloat rand() { return 0.0; }`;\n";
    assert!(!extract(src)[0].has_entry);
}

#[test]
fn interpolation_is_flagged_and_blanked_preserving_lines() {
    let src = "const fs = glsl`#version 300 es\n${chunk}\nvoid main() {}\n`;\n";
    let e = &extract(src)[0];
    assert!(e.has_interp);
    let lines: Vec<&str> = e.source.lines().collect();
    assert_eq!(lines[0], "#version 300 es");
    assert!(lines[1].trim().is_empty());
    assert_eq!(lines[2], "void main() {}");
    assert_eq!(e.map(3, 1), HostPos { line: 3, col: 1 });
}

#[test]
fn leading_line_continuation_drops_the_first_newline() {
    let src = "const fs = glsl`\\\n#version 300 es\nvoid main() {}`;\n";
    let e = &extract(src)[0];
    assert!(e.source.starts_with("#version 300 es"));
    assert_eq!(e.map(1, 1).line, 2);
}

#[test]
fn ignores_glsl_as_a_substring_or_member() {
    let src = "const a = glslify`x`;\nconst b = x.glsl`y`;\nconst myglsl = 1;\n";
    assert!(extract(src).is_empty());
}

#[test]
fn skips_backticks_inside_ordinary_strings() {
    let src = "const s = \"a `glsl` b\";\nconst t = 'more `glsl`';\n";
    assert!(extract(src).is_empty());
}

#[test]
fn finds_multiple_templates_in_one_file() {
    let src = "const vs = glsl`#version 300 es\nvoid main(){ gl_Position = vec4(0.0); }`;\n\
               const fs = glsl`#version 300 es\nout vec4 c;\nvoid main(){ c = vec4(1.0); }`;\n";
    let e = extract(src);
    assert_eq!(e.len(), 2);
    assert_eq!(e[0].stage, Stage::Vertex);
    assert_eq!(e[1].stage, Stage::Fragment);
}

/// A TypeScript module with two tagged shaders, the first starting on line 4.
const TAGGED_TS: &str = "// Two shaders written inline as tagged templates.\n\
import { glsl } from './glsl';\n\
\n\
export const fs = glsl`#version 300 es\n\
precision highp float;\n\
out vec4 color;\n\
void main() { color = vec4(1.0); }\n\
`;\n\
\n\
export const vs = glsl`#version 300 es\n\
in vec2 pos;\n\
void main() { gl_Position = vec4(pos, 0.0, 1.0); }\n\
`;\n";

#[test]
fn fixture_tagged_ts_extracts_two_shaders() {
    let e = extract(TAGGED_TS);
    assert_eq!(e.len(), 2);
    assert_eq!(e[0].name.as_deref(), Some("fs"));
    assert_eq!(e[0].stage, Stage::Fragment);
    assert_eq!(e[1].name.as_deref(), Some("vs"));
    assert_eq!(e[1].stage, Stage::Vertex);
    assert_eq!(e[0].line_map[0].line, 4);
}

#[test]
fn line_map_has_an_entry_per_source_line() {
    let src = "const fs = glsl`a\nb\nc`;\n";
    let e = &extract(src)[0];
    assert_eq!(e.line_map.len(), e.source.matches('\n').count() + 1);
    assert_eq!(e.line_map[2], HostPos { line: 3, col: 1 });
}

#[test]
fn map_clamps_past_the_last_line() {
    let src = "const fs = glsl`a\nb`;\n";
    let e = &extract(src)[0];
    assert_eq!(e.map(99, 2), HostPos { line: 2, col: 2 });
    assert_eq!(e.map(0, 0), e.map(1, 1));
}

#[test]
fn escapes_are_unescaped_and_kept() {
    let src = "const fs = glsl`a\\`b\\$c\\\\d\\ne`;\n";
    let e = &extract(src)[0];
    assert_eq!(e.source, "a`b$c\\d\\ne");
}

#[test]
fn recognizes_script_extensions() {
    assert!(is_js_ts("/p/a.ts"));
    assert!(is_js_ts("x.mjs"));
    assert!(is_js_ts("x.cts"));
    assert!(!is_js_ts("x.glsl"));
    assert!(!is_js_ts(".ts"));
    assert!(!is_js_ts("ts"));
}

#[test]
fn a_comment_between_void_and_main_still_declares_an_entry() {
    let src = "const fs = glsl`void/**/main() {}\n`;\n";
    let e = extract(src);
    assert_eq!(e.len(), 1);
    assert!(e[0].has_entry);
    let src2 = "const fs = glsl`// void main() {}\nfloat f() { return 1.0; }\n`;\n";
    assert!(!extract(src2)[0].has_entry);
}

#[test]
fn binding_names_are_identifiers() {
    let e = extract("const $fs_1 = glsl`void main() {}`;\nfoo(x == glsl`void main() {}`);\n");
    assert_eq!(e.len(), 2);
    assert_eq!(e[0].name.as_deref(), Some("$fs_1"));
    assert_eq!(e[1].name, None);
}
