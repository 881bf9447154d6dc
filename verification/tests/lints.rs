use glslint::diagnostics::Severity;
use glslint::lints::{es3_legacy, run_lints};

#[test]
fn nothing_fires_outside_es3() {
    assert!(run_lints("/p/a.frag.glsl", "varying vec2 v;\nvoid main(){ gl_FragColor = vec4(1.0); }\n").is_empty());
}

#[test]
fn legacy_qualifiers_fire_at_line_start() {
    let d = run_lints("/p/a.vert.glsl", "#version 300 es\nvarying vec2 v;\n  attribute vec3 a;\nfloat varying_x;\n");
    assert_eq!(d.len(), 2);
    assert_eq!((d[0].line, d[0].col, d[0].len), (2, 1, 7));
    assert_eq!(d[0].message, "`varying` is GLSL ES 1.00 — use `in`/`out` in ES 3.00");
    assert_eq!((d[1].line, d[1].col, d[1].len), (3, 3, 9));
    assert_eq!(d[1].message, "`attribute` is GLSL ES 1.00 — use `in` in ES 3.00");
    assert_eq!(d[1].path, "/p/a.vert.glsl");
    assert_eq!(d[1].severity, Severity::Warning);
    assert_eq!(d[1].source, "lint");
}

#[test]
fn removed_builtins_fire_outside_comments() {
    let src = "#version 300 es\n  gl_FragColor = texture2D(t, uv); // textureCube(x)\n";
    let d = run_lints("/p/a.frag.glsl", src);
    assert_eq!(d.len(), 2);
    assert_eq!((d[0].line, d[0].col, d[0].len), (2, 3, 12));
    assert_eq!(
        d[0].message,
        "`gl_FragColor` was removed in GLSL ES 3.00 — declare `out vec4` and write to it"
    );
    assert_eq!((d[1].line, d[1].col, d[1].len), (2, 18, 9));
    assert_eq!(d[1].message, "`texture2D()` was removed in GLSL ES 3.00 — use `texture()`");
}

#[test]
fn only_the_first_occurrence_per_line_is_flagged() {
    let d = run_lints("/p/a.frag.glsl", "#version 300 es\nx = texture2DLod(a) + texture2DLod(b);\n");
    assert_eq!(d.len(), 1);
    assert_eq!((d[0].col, d[0].len), (5, 12));
    assert_eq!(d[0].message, "`texture2DLod()` was removed in GLSL ES 3.00 — use `textureLod()`");
}

#[test]
fn es3_legacy_appends_after_what_is_there() {
    let mut out = run_lints("/p/a.frag.glsl", "#version 300 es\nvarying vec2 v;\n");
    assert_eq!(out.len(), 1);
    es3_legacy("/p/b.frag.glsl", "#version 300 es\nattribute vec2 p;\n", &mut out);
    assert_eq!(out.len(), 2);
    assert_eq!(out[0].path, "/p/a.frag.glsl");
    assert_eq!((out[1].path.as_str(), out[1].line), ("/p/b.frag.glsl", 2));
}
