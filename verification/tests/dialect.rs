use glslint::assemble::Stage;
use glslint::dialect::{autodetect, by_name, has_main, maplibre, parse_pragma, render, resolve, Dialect, Preference, Rule};
use glslint::workspace::Workspace;

fn chars(s: &str) -> Vec<char> {
    s.chars().collect()
}

fn string(v: &[char]) -> String {
    v.iter().collect()
}

fn pragma(line: &str) -> Option<(String, String)> {
    parse_pragma(&chars(line)).map(|(n, r)| (string(&n), string(&r)))
}

#[test]
fn parse_pragma_splits_namespace_and_body() {
    assert_eq!(
        pragma("#pragma maplibre: define lowp float opacity"),
        Some(("maplibre".to_string(), " define lowp float opacity".to_string()))
    );
    assert_eq!(pragma("    #pragma glslify : foo").map(|(n, _)| n), Some("glslify".to_string()));
    assert_eq!(pragma("#version 300 es"), None);
    assert_eq!(pragma("#pragma optimize(on)"), None);
    assert_eq!(pragma("#pragmatic: x"), None);
}

#[test]
fn maplibre_define_expands_per_stage() {
    let d = maplibre();
    let v = d.expand_line("#pragma maplibre: define lowp float opacity", Stage::Vertex).unwrap();
    assert!(v.iter().any(|l| l.contains("in lowp float a_opacity;")));
    assert!(v.iter().any(|l| l.contains("out lowp float opacity;")));

    let f = d.expand_line("#pragma maplibre: define lowp float opacity", Stage::Fragment).unwrap();
    assert!(f.iter().any(|l| l.contains("in lowp float opacity;")));
    assert!(!f.iter().any(|l| l.contains("a_opacity")));
}

#[test]
fn maplibre_initialize_binds_the_name() {
    let d = maplibre();
    let v = d.expand_line("    #pragma maplibre: initialize lowp float opacity", Stage::Vertex).unwrap();
    assert!(v.iter().any(|l| l.contains("opacity = a_opacity;")));
}

#[test]
fn mapbox_namespace_uses_the_same_rules() {
    let v = maplibre().expand_line("#pragma mapbox: define highp vec4 color", Stage::Vertex).unwrap();
    assert!(v.iter().any(|l| l.contains("out highp vec4 color;")));
}

#[test]
fn non_matching_lines_are_left_verbatim() {
    let d = maplibre();
    assert!(d.expand_line("uniform vec2 u_translation;", Stage::Vertex).is_none());
    assert!(d.expand_line("#pragma maplibre: whoknows x", Stage::Vertex).is_none());
    assert!(d.expand_line("#pragma maplibre: define float x", Stage::Vertex).is_none());
}

#[test]
fn render_substitutes_all_occurrences() {
    let out = render(
        &chars("uniform lowp float u_{name}_t;\nin {prec} {type} a_{name};"),
        &vec![chars("prec"), chars("type"), chars("name")],
        &vec![chars("lowp"), chars("float"), chars("opacity")],
    );
    assert_eq!(out[0], "uniform lowp float u_opacity_t;");
    assert_eq!(out[1], "in lowp float a_opacity;");
}

#[test]
fn autodetect_recognizes_maplibre_and_shadertoy() {
    assert_eq!(
        autodetect("#pragma maplibre: define lowp float opacity\n").map(|d| d.name),
        Some("maplibre".to_string())
    );
    assert_eq!(autodetect("void mainImage( out vec4 c, in vec2 p ) {}\n").map(|d| d.name), Some("shadertoy".to_string()));
    assert_eq!(autodetect("out vec4 c;\nvoid main(){}\n").map(|d| d.name), None);
}

#[test]
fn has_main_detects_the_entry_point() {
    assert!(has_main("void main() { }"));
    assert!(has_main("void  main(){}"));
    assert!(!has_main("void mainImage(out vec4 c, in vec2 p){}"));
}

#[test]
fn shadertoy_prelude_is_fragment_only_and_wraps_main_image() {
    let d = glslint::dialect::shadertoy();
    assert!(d.prelude(Stage::Fragment).is_some());
    assert!(d.epilogue.as_deref().unwrap_or("").contains("mainImage"));
    assert!(!d.deck);
}

#[test]
fn project_rules_override_the_preset_rules() {
    let custom = Rule {
        ns: "maplibre".to_string(),
        verb: Some("define".to_string()),
        args: vec!["prec".to_string(), "type".to_string(), "name".to_string()],
        vertex: None,
        fragment: None,
        compute: None,
        any: Some("uniform {prec} {type} {name};".to_string()),
    };
    let pref = Preference { preset: Some("maplibre".to_string()), auto: true, custom_rules: vec![custom], custom_prelude: None };
    let d = resolve(&pref, "", "/p", &Workspace::empty()).unwrap();
    assert_eq!(d.name, "maplibre");
    let v = d.expand_line("#pragma maplibre: define lowp float opacity", Stage::Vertex).unwrap();
    assert_eq!(v, vec!["uniform lowp float opacity;".to_string()]);
    // A directive the project rules don't handle still gets the preset's rule.
    let i = d.expand_line("#pragma maplibre: initialize lowp float opacity", Stage::Vertex).unwrap();
    assert!(i.iter().any(|l| l == "opacity = a_opacity;"));
}

#[test]
fn has_main_ignores_commented_out_entry_points() {
    assert!(!has_main("// void main() {}\nvoid mainImage(out vec4 c, in vec2 p) {}\n"));
    assert!(!has_main("/* void main() {} */\nvoid mainImage(out vec4 c, in vec2 p) {}\n"));
    assert!(has_main("/* entry */ void main() {}\n"));
    assert!(has_main("void /* x */ main() {}\n"));
}

fn rule(ns: &str, verb: Option<&str>, args: &[&str], any: Option<&str>) -> Rule {
    Rule {
        ns: ns.to_string(),
        verb: verb.map(|v| v.to_string()),
        args: args.iter().map(|a| a.to_string()).collect(),
        vertex: None,
        fragment: None,
        compute: None,
        any: any.map(|t| t.to_string()),
    }
}

#[test]
fn the_first_rule_whose_shape_matches_decides() {
    let mut d = Dialect::empty("t", false);
    d.rules = vec![
        rule("x", Some("def"), &["a", "b"], Some("two {a} {b}")),
        rule("x", Some("def"), &["a"], Some("one {a}")),
        rule("x", None, &["v", "a"], Some("any {v} {a}")),
    ];
    assert_eq!(d.expand_line("#pragma x: def p", Stage::Vertex), Some(vec!["one p".to_string()]));
    assert_eq!(d.expand_line("#pragma x: def p q", Stage::Vertex), Some(vec!["two p q".to_string()]));
    assert_eq!(d.expand_line("#pragma x: use p", Stage::Vertex), Some(vec!["any use p".to_string()]));
    assert_eq!(d.expand_line("#pragma y: def p", Stage::Vertex), None);
    d.rules = vec![rule("x", None, &["a"], None), rule("x", None, &["a"], Some("late {a}"))];
    assert_eq!(d.expand_line("#pragma x: p", Stage::Vertex), None);
}

#[test]
fn resolution_layers_project_additions_over_the_base() {
    let pref = Preference {
        preset: None,
        auto: false,
        custom_rules: vec![rule("x", None, &["a"], Some("{a}"))],
        custom_prelude: Some("float extra;".to_string()),
    };
    let d = resolve(&pref, "", "/p", &Workspace::empty()).unwrap();
    assert_eq!(d.name, "custom");
    assert!(!d.deck);
    assert_eq!(d.rules.len(), 1);
    assert_eq!(d.prelude_extra, Some("float extra;".to_string()));
    assert!(d.prelude_vertex.is_none() && d.prelude_fragment.is_none() && d.prelude_any.is_none() && d.epilogue.is_none());
    let base = Preference { preset: Some("maplibre".to_string()), auto: false, custom_rules: vec![rule("x", None, &["a"], Some("{a}"))], custom_prelude: None };
    let m = resolve(&base, "", "/p", &Workspace::empty()).unwrap();
    assert_eq!(m.rules.len(), maplibre().rules.len() + 1);
    assert_eq!(m.rules[0].ns, "x");
    let none = Preference { preset: None, auto: false, custom_rules: vec![], custom_prelude: None };
    assert!(resolve(&none, "", "/p", &Workspace::empty()).is_none());
}

#[test]
fn built_in_dialect_names_and_aliases() {
    assert_eq!(by_name("mapbox").map(|d| d.name), by_name("maplibre").map(|d| d.name));
    assert_eq!(by_name("maplibre").map(|d| d.name), Some("maplibre".to_string()));
    assert_eq!(by_name("raw").map(|d| (d.name, d.deck)), Some(("none".to_string(), false)));
    assert_eq!(by_name("shadertoy").map(|d| d.name), Some("shadertoy".to_string()));
    assert!(by_name("unknown").is_none());
}
