use glslint::assemble::{assemble, Assembled, Loc, Stage};
use glslint::check::{check_assembled, check_source, collapse_per_line, parse_output, sort_diags, truncate_message, RunOutcome};
use glslint::config::Config;
use glslint::diagnostics::{Diag, Severity};
use glslint::dialect::Preference;
use glslint::workspace::Workspace;

fn no_config() -> Config {
    Config { preludes: vec![], modules: vec![], use_builtin_prelude: false, dialect: Preference::default() }
}

fn unit() -> Assembled {
    Assembled {
        source: "#version 300 es\nprecision highp float;\nout vec4 c;\nvoid main(){ c = nope; }\n".to_string(),
        stage: Stage::Fragment,
        map: vec![
            Some(Loc { path: "/p/a.frag.glsl".to_string(), line: 1 }),
            None,
            Some(Loc { path: "/p/a.frag.glsl".to_string(), line: 2 }),
            Some(Loc { path: "/p/a.frag.glsl".to_string(), line: 3 }),
        ],
        target: "/p/a.frag.glsl".to_string(),
        note: None,
    }
}

fn ran(output: &str, success: bool) -> RunOutcome {
    RunOutcome::Ran { output: output.to_string(), success }
}

fn diag(path: &str, line: u32, col: u32, message: &str) -> Diag {
    Diag {
        path: path.to_string(),
        line,
        col,
        len: 1,
        severity: Severity::Error,
        message: message.to_string(),
        source: "glslang".to_string(),
    }
}

#[test]
fn a_missing_validator_is_reported_on_the_first_line() {
    let d = check_assembled(&unit(), &RunOutcome::NotFound);
    assert_eq!(d.len(), 1);
    assert_eq!(d[0].path, "/p/a.frag.glsl");
    assert_eq!((d[0].line, d[0].col, d[0].len), (1, 1, 1));
    assert_eq!(d[0].severity, Severity::Error);
    assert_eq!(d[0].source, "glslint");
    assert_eq!(
        d[0].message,
        "glslangValidator not found on PATH — install with `brew install glslang`, or set GLSLINT_GLSLANG to its path"
    );
}

#[test]
fn a_validator_that_cannot_run_names_the_reason() {
    let d = check_assembled(&unit(), &RunOutcome::Failed("permission denied".to_string()));
    assert_eq!(d.len(), 1);
    assert_eq!(d[0].message, "failed to run glslangValidator: permission denied");
}

#[test]
fn a_located_error_maps_home_with_its_token_column() {
    let out = "ERROR: 0:4: 'nope' : undeclared identifier\nERROR: 0:4: '=' : cannot convert from 'float' to 'vec4'\nERROR: 2 compilation errors.  No code generated.\n";
    let d = check_assembled(&unit(), &ran(out, false));
    assert_eq!(d.len(), 1);
    assert_eq!(d[0].path, "/p/a.frag.glsl");
    assert_eq!((d[0].line, d[0].col, d[0].len), (3, 18, 4));
    assert_eq!(d[0].message, "'nope' : undeclared identifier");
    assert_eq!(d[0].severity, Severity::Error);
    assert_eq!(d[0].source, "glslang");
}

#[test]
fn a_punctuation_token_keeps_column_one() {
    let d = parse_output(&unit(), "WARNING: 0:3: '=' : odd\n");
    assert_eq!(d.len(), 1);
    assert_eq!((d[0].line, d[0].col, d[0].len), (2, 1, 1));
    assert_eq!(d[0].severity, Severity::Warning);
}

#[test]
fn errors_on_synthetic_lines_are_dropped_and_the_failure_is_still_reported() {
    let out = "ERROR: 0:2: 'float' : precision problem\nERROR: 1 compilation errors.  No code generated.\n";
    let d = check_assembled(&unit(), &ran(out, false));
    assert_eq!(d.len(), 1);
    assert_eq!(d[0].source, "glslint");
    assert_eq!(d[0].message, "glslangValidator failed: ERROR: 0:2: 'float' : precision problem");
}

#[test]
fn a_failed_run_with_no_output_says_unknown_error() {
    let d = check_assembled(&unit(), &ran("", false));
    assert_eq!(d.len(), 1);
    assert_eq!(d[0].message, "glslangValidator failed: unknown error");
    assert!(check_assembled(&unit(), &ran("", true)).is_empty());
}

#[test]
fn file_level_messages_surface_on_line_one_when_nothing_maps() {
    let out = "ERROR: #version: versions above 320 are not supported\nERROR: 1 compilation errors.  No code generated.\n";
    let d = parse_output(&unit(), out);
    assert_eq!(d.len(), 1);
    assert_eq!(d[0].path, "/p/a.frag.glsl");
    assert_eq!((d[0].line, d[0].col), (1, 1));
    assert_eq!(d[0].message, "#version: versions above 320 are not supported");
    assert_eq!(d[0].source, "glslang");
}

#[test]
fn the_compilation_terminated_cascade_is_dropped() {
    let out = "ERROR: 0:4: 'nope' : undeclared identifier\nERROR: 0:5: '' : compilation terminated\n";
    let d = parse_output(&unit(), out);
    assert_eq!(d.len(), 1);
    assert_eq!(d[0].line, 3);
}

#[test]
fn long_messages_are_cut_at_two_hundred_chars() {
    let long: Vec<char> = "x".repeat(250).chars().collect();
    let cut: String = truncate_message(&long).into_iter().collect();
    assert_eq!(cut.chars().count(), 201);
    assert!(cut.ends_with('…'));
    let short: Vec<char> = "x".repeat(200).chars().collect();
    assert_eq!(truncate_message(&short), short);
}

#[test]
fn collapse_keeps_the_first_diagnostic_per_line() {
    let ds = vec![
        diag("/p/a.glsl", 3, 1, "root"),
        diag("/p/a.glsl", 3, 5, "cascade"),
        diag("/p/b.glsl", 3, 1, "other file"),
        diag("/p/a.glsl", 4, 1, "next line"),
    ];
    let kept: Vec<String> = collapse_per_line(&ds).into_iter().map(|d| d.message).collect();
    assert_eq!(kept, vec!["root", "other file", "next line"]);
}

#[test]
fn check_source_merges_lints_and_orders_by_position() {
    let src = "#version 300 es\nvoid main(){ gl_FragColor = vec4(1.0); }\n";
    let a = assemble("/p/a.frag.glsl", src, &no_config(), &Workspace::empty());
    let body = a.source.lines().position(|l| l.starts_with("void main")).unwrap() + 1;
    let out = format!(
        "ERROR: 0:{body}: 'gl_FragColor' : undeclared identifier\nERROR: 0:1: 'es' : odd profile\n"
    );
    let d = check_source("/p/a.frag.glsl", src, &no_config(), &Workspace::empty(), &ran(&out, false));
    let got: Vec<(u32, u32, u32, &str)> =
        d.iter().map(|d| (d.line, d.col, d.len, d.source.as_str())).collect();
    assert_eq!(got, vec![(1, 14, 2, "glslang"), (2, 14, 12, "glslang"), (2, 14, 12, "lint")]);
}

#[test]
fn diagnostics_sort_by_path_components() {
    let v = vec![diag("a//c", 1, 1, "x"), diag("a/b", 2, 1, "y"), diag("a/./b", 1, 1, "z")];
    let got: Vec<(String, u32)> = sort_diags(&v).into_iter().map(|d| (d.path, d.line)).collect();
    assert_eq!(got, vec![("a/./b".to_string(), 1), ("a/b".to_string(), 2), ("a//c".to_string(), 1)]);
}

#[test]
fn collapse_treats_spellings_of_one_path_as_one_file() {
    let ds = vec![diag("a/b", 3, 1, "root"), diag("a//b", 3, 5, "noise"), diag("a/./b", 3, 7, "more"), diag("a/c", 3, 1, "other")];
    let kept: Vec<String> = collapse_per_line(&ds).into_iter().map(|d| d.message).collect();
    assert_eq!(kept, vec!["root".to_string(), "other".to_string()]);
}
