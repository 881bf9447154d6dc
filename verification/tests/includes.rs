use glslint::includes::{expand, parse};
use glslint::workspace::Workspace;

#[test]
fn parse_extracts_quoted_and_angled_paths() {
    assert_eq!(parse("#include \"common.glsl\""), Some("common.glsl".to_string()));
    assert_eq!(parse("  #include <lib/util.glsl>"), Some("lib/util.glsl".to_string()));
    assert_eq!(parse("#include\t\"a.glsl\""), Some("a.glsl".to_string()));
    assert_eq!(parse("#version 300 es"), None);
    assert_eq!(parse("#includexyz \"a\""), None);
    assert_eq!(parse("// #include \"a.glsl\"".trim_start()), None);
}

#[test]
fn expand_splices_recursively_and_breaks_cycles() {
    // a.glsl includes b.glsl; b.glsl includes a.glsl (a cycle).
    let ws = Workspace {
        files: vec![
            ("/inc/a.glsl".to_string(), "float a() { return 1.0; }\n#include \"b.glsl\"\n".to_string()),
            ("/inc/b.glsl".to_string(), "float b() { return 2.0; }\n#include \"a.glsl\"\n".to_string()),
        ],
        deck_fns: vec![],
        project_presets: vec![],
    };
    let mut seen = Vec::new();
    let out = expand("#include \"a.glsl\"", "/inc", &mut seen, &ws).unwrap();
    let text: Vec<&str> = out.iter().map(|(l, _)| l.as_str()).collect();
    assert!(text.iter().any(|l| l.contains("float a()")));
    assert!(text.iter().any(|l| l.contains("float b()")));
    assert_eq!(text.iter().filter(|l| l.contains("float a()")).count(), 1);
    let b_line = out.iter().find(|(l, _)| l.contains("float b()")).unwrap();
    assert!(b_line.1.path.ends_with("b.glsl"));
    assert!(seen.is_empty());
}

#[test]
fn unresolvable_include_is_left_for_the_caller() {
    let mut seen = Vec::new();
    assert!(expand("#include \"nope-does-not-exist.glsl\"", "/tmp", &mut seen, &Workspace::empty()).is_none());
}

#[test]
fn spliced_lines_keep_their_own_line_numbers() {
    let ws = Workspace {
        files: vec![("/inc/x.glsl".to_string(), "one\ntwo\n".to_string())],
        deck_fns: vec![],
        project_presets: vec![],
    };
    let mut seen = Vec::new();
    let out = expand("#include <x.glsl>", "/inc", &mut seen, &ws).unwrap();
    assert_eq!(out.len(), 2);
    assert_eq!(out[1].0, "two");
    assert_eq!(out[1].1.line, 2);
    assert_eq!(out[1].1.path, "/inc/x.glsl");
    assert!(expand("plain line", "/inc", &mut seen, &ws).is_none());
}

#[test]
fn a_self_include_spelled_differently_is_still_a_cycle() {
    let ws = Workspace {
        files: vec![("/inc/a.glsl".to_string(), "float a() { return 1.0; }\n#include \"./a.glsl\"\n".to_string())],
        deck_fns: vec![],
        project_presets: vec![],
    };
    let mut seen = Vec::new();
    let out = expand("#include \"a.glsl\"", "/inc", &mut seen, &ws).unwrap();
    assert_eq!(out.len(), 1);
    assert_eq!(out[0].0, "float a() { return 1.0; }");
    assert_eq!(out[0].1.line, 1);
    // Reached through another spelling, the file is still read.
    let again = expand("#include \"../inc/./a.glsl\"", "/inc", &mut seen, &ws).unwrap();
    assert_eq!(again.len(), 1);
}

#[test]
fn spliced_lines_are_reported_under_the_plain_path() {
    let ws = Workspace {
        files: vec![("/inc/a.glsl".to_string(), "float a() { return 1.0; }\n".to_string())],
        deck_fns: vec![],
        project_presets: vec![],
    };
    let mut seen = Vec::new();
    let out = expand("#include \"a.glsl\"", "/inc/sub/..", &mut seen, &ws).unwrap();
    assert_eq!(out.len(), 1);
    assert_eq!(out[0].1.path, "/inc/a.glsl");
    assert_eq!(out[0].1.line, 1);
}
