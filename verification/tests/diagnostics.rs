use glslint::diagnostics::{render_diag, tally, Diag, Severity};

fn diag(severity: Severity) -> Diag {
    Diag {
        path: "src/draw.vert.glsl".to_string(),
        line: 12,
        col: 7,
        len: 3,
        severity,
        message: "'wind' : undeclared identifier".to_string(),
        source: "glslang".to_string(),
    }
}

#[test]
fn a_diagnostic_prints_as_path_line_col_severity_message_source() {
    assert_eq!(
        render_diag(&diag(Severity::Error), false),
        "src/draw.vert.glsl:12:7: error: 'wind' : undeclared identifier [glslint/glslang]"
    );
    assert_eq!(
        render_diag(&diag(Severity::Warning), true),
        "src/draw.vert.glsl:12:7: \x1b[33mwarning\x1b[0m: 'wind' : undeclared identifier \x1b[2m[glslint/glslang]\x1b[0m"
    );
}

#[test]
fn severities_have_labels_and_colors() {
    assert_eq!(Severity::Error.label(), "error");
    assert_eq!(Severity::Warning.label(), "warning");
    assert_eq!(Severity::Error.color(), "\x1b[31m");
    assert_eq!(Severity::Warning.color(), "\x1b[33m");
}

#[test]
fn tally_counts_errors_and_warnings() {
    let ds = vec![diag(Severity::Error), diag(Severity::Warning), diag(Severity::Error)];
    assert_eq!(tally(&ds), (2, 1));
    assert_eq!(tally(&vec![]), (0, 0));
}

#[test]
fn line_numbers_print_in_decimal() {
    let mut d = diag(Severity::Error);
    d.line = 4294967295;
    d.col = 10;
    assert!(render_diag(&d, false).starts_with("src/draw.vert.glsl:4294967295:10: "));
}
