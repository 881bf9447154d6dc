use glslint::assemble::{Assembled, Loc, Stage};
use glslint::diagnostics::{Diag, Severity};
use glslint::editor::{
    complete_at, definition_target, document_diagnostics, hit_at, hover_markdown, line_width, utf16_range,
    Generations,
};
use glslint::symbols::{index, Hit};

fn diag(path: &str, line: u32, col: u32, len: u32) -> Diag {
    Diag {
        path: path.to_string(),
        line,
        col,
        len,
        severity: Severity::Error,
        message: "boom".to_string(),
        source: "glslang".to_string(),
    }
}

#[test]
fn ascii_ranges_are_char_ranges() {
    assert_eq!(utf16_range(Some("  float x = nope;"), 13, 4), (12, 16));
    assert_eq!(utf16_range(Some("abc"), 1, 0), (0, 1));
}

#[test]
fn ranges_count_utf16_units_and_clamp_to_the_line() {
    // "😀" takes two UTF-16 units: the token after it shifts right by one.
    assert_eq!(utf16_range(Some("😀 x"), 3, 1), (3, 4));
    // A span running past the end stops at the line's end.
    assert_eq!(utf16_range(Some("ab"), 2, 10), (1, 2));
    // A start past the end collapses onto the end.
    assert_eq!(utf16_range(Some("ab"), 9, 1), (2, 2));
    // Without the line's text, the char offsets themselves.
    assert_eq!(utf16_range(None, 5, 3), (4, 7));
}

#[test]
fn only_the_documents_own_diagnostics_are_shown() {
    let ds = vec![
        diag("/p/draw.vert.glsl", 2, 3, 4),
        diag("/p/windUniforms.glsl", 1, 1, 1),
        diag("/p/./draw.vert.glsl", 1, 1, 1),
    ];
    let shown = document_diagnostics(&ds, "/p/draw.vert.glsl", "void main() {\n  x = nope;\n}\n");
    assert_eq!(shown.len(), 2);
    assert_eq!((shown[0].line, shown[0].start, shown[0].end), (1, 2, 6));
    assert_eq!(shown[0].source, "glslint/glslang");
    assert_eq!(shown[0].message, "boom");
    assert_eq!(shown[0].severity, Severity::Error);
    assert_eq!((shown[1].line, shown[1].start, shown[1].end), (0, 0, 1));
}

#[test]
fn hover_shows_the_declaration_and_its_note() {
    let hit = Hit { detail: "float maxSpeed".to_string(), note: Some("member of `windUniforms`".to_string()), loc: None };
    assert_eq!(hover_markdown(&hit), "```glsl\nfloat maxSpeed\n```\n\nmember of `windUniforms`");
    let bare = Hit { detail: "vec2 f()".to_string(), note: None, loc: None };
    assert_eq!(hover_markdown(&bare), "```glsl\nvec2 f()\n```");
}

#[test]
fn definition_goes_to_the_declaring_line() {
    let hit = Hit {
        detail: "float maxSpeed".to_string(),
        note: None,
        loc: Some(Loc { path: "/p/windUniforms.glsl".to_string(), line: 3 }),
    };
    assert_eq!(definition_target(&hit), Some(("/p/windUniforms.glsl".to_string(), 2)));
    let builtin = Hit { detail: "clamp(...)".to_string(), note: None, loc: None };
    assert_eq!(definition_target(&builtin), None);
}

fn unit() -> Assembled {
    Assembled {
        source: "uniform sampler2D u_wind;\nvoid main() {\n  x = u_wind;\n}\n".to_string(),
        stage: Stage::Fragment,
        map: vec![
            Some(Loc { path: "/p/a.frag.glsl".to_string(), line: 1 }),
            Some(Loc { path: "/p/a.frag.glsl".to_string(), line: 2 }),
            Some(Loc { path: "/p/a.frag.glsl".to_string(), line: 3 }),
            Some(Loc { path: "/p/a.frag.glsl".to_string(), line: 4 }),
        ],
        target: "/p/a.frag.glsl".to_string(),
        note: None,
    }
}

#[test]
fn positions_resolve_against_the_documents_lines() {
    let idx = index(&unit());
    let text = "uniform sampler2D u_wind;\nvoid main() {\n  x = u_wind;\n}\n";
    let hit = hit_at(&idx, text, 2, 7).unwrap();
    assert_eq!(hit.loc.unwrap().line, 1);
    assert!(hit_at(&idx, text, 9, 0).is_none());
    let items = complete_at(&idx, text, 2, 2).unwrap();
    assert!(items.iter().any(|c| c.label == "u_wind"));
    assert!(complete_at(&idx, text, 9, 0).is_none());
    assert_eq!(line_width(text, 2), 13);
    assert_eq!(line_width(text, 9), 0);
}

#[test]
fn a_newer_edit_supersedes_an_older_check() {
    let mut g = Generations::new();
    let first = g.begin("file:///a.glsl");
    assert_eq!(first, 1);
    assert!(g.is_current("file:///a.glsl", first));
    let other = g.begin("file:///b.glsl");
    assert_eq!(other, 1);
    assert!(g.is_current("file:///a.glsl", first));
    let second = g.begin("file:///a.glsl");
    assert_eq!(second, 2);
    assert!(!g.is_current("file:///a.glsl", first));
    assert!(g.is_current("file:///a.glsl", second));
    g.close("file:///a.glsl");
    assert!(!g.is_current("file:///a.glsl", second));
    assert_eq!(g.current("file:///a.glsl"), None);
    assert_eq!(g.current("file:///b.glsl"), Some(1));
}
