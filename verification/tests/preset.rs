use glslint::assemble::Stage;
use glslint::preset::{
    build, bundled, by_name, deck_prelude, detect, Detect, ExpandRuleFile, LibrarySpec, OneOrMany,
    PresetFile,
};
use glslint::workspace::Workspace;

fn file(name: &str, pragma: OneOrMany) -> PresetFile {
    PresetFile {
        name: name.to_string(),
        detect: Detect { source_contains: vec![], sibling_files: vec![] },
        library: LibrarySpec { vertex: vec![], fragment: vec![] },
        defines: vec![],
        discover_defines: false,
        prelude: None,
        prelude_vertex: None,
        prelude_fragment: None,
        epilogue: None,
        deck: false,
        expand: vec![ExpandRuleFile {
            pragma,
            verb: None,
            args: vec![],
            emit: Some("y".to_string()),
            vertex: None,
            fragment: None,
            compute: None,
        }],
    }
}

#[test]
fn bundled_presets_parse() {
    let presets = bundled();
    let names: Vec<&str> = presets.iter().map(|p| p.dialect.name.as_str()).collect();
    assert!(names.contains(&"maplibre"), "got {names:?}");
    assert!(names.contains(&"shadertoy"), "got {names:?}");
    assert!(names.contains(&"deck"), "got {names:?}");
}

#[test]
fn deck_preset_provides_stub_prelude_and_detection() {
    let ws = Workspace::empty();
    let bare = "/nonexistent-glslint";
    let d = by_name("deck", &ws).unwrap();
    assert!(d.deck);
    assert!(deck_prelude().contains("project_position_to_clipspace"));
    assert_eq!(
        detect("void main() { gl_Position = project_position_to_clipspace(a, b, c); }", bare, &ws)
            .map(|d| d.name),
        Some("deck".to_string())
    );
}

#[test]
fn maplibre_preset_carries_its_knowledge() {
    let ws = Workspace::empty();
    let d = by_name("maplibre", &ws).unwrap();
    assert!(d.rules.iter().any(|r| r.ns == "maplibre" && r.verb.as_deref() == Some("define")));
    assert!(d.rules.iter().any(|r| r.ns == "mapbox"));
    assert!(d.prelude_files_vertex.iter().any(|f| f.contains("_projection_mercator")));
    assert!(d.define_names.iter().any(|n| n == "NUM_ILLUMINATION_SOURCES"));
    let v = d.expand_line("#pragma maplibre: define lowp float opacity", Stage::Vertex).unwrap();
    assert!(v.iter().any(|l| l == "out lowp float opacity;"));
}

#[test]
fn detect_uses_source_and_sibling_signals() {
    let ws = Workspace::empty();
    let bare = "/nonexistent-glslint";
    assert_eq!(
        detect("#pragma maplibre: define lowp float x", bare, &ws).map(|d| d.name),
        Some("maplibre".to_string())
    );
    assert_eq!(
        detect("void mainImage(out vec4 c, in vec2 p) {}", bare, &ws).map(|d| d.name),
        Some("shadertoy".to_string())
    );
    assert_eq!(detect("void main(){}", bare, &ws).map(|d| d.name), None);
}

#[test]
fn one_or_many_accepts_both_forms() {
    let one = build(file("a", OneOrMany::One("x".to_string())));
    let many = build(file("b", OneOrMany::Many(vec!["x".to_string(), "z".to_string()])));
    assert_eq!(one.dialect.rules.len(), 1);
    assert_eq!(many.dialect.rules.len(), 2);
}

#[test]
fn a_sibling_file_activates_a_preset() {
    let ws = Workspace {
        files: vec![("/p/shaders/_prelude.vertex.glsl".to_string(), String::new())],
        deck_fns: vec![],
        project_presets: vec![],
    };
    assert_eq!(detect("void main(){}", "/p/shaders", &ws).map(|d| d.name), Some("maplibre".to_string()));
}

#[test]
fn project_presets_come_before_the_bundled_ones() {
    let mut pf = file("maplibre", OneOrMany::One("mine".to_string()));
    pf.detect.source_contains = vec!["#pragma maplibre".to_string()];
    let ws = Workspace { files: vec![], deck_fns: vec![], project_presets: vec![build(pf)] };
    let d = detect("#pragma maplibre: define lowp float x", "/p", &ws).unwrap();
    assert_eq!(d.rules.len(), 1);
    assert_eq!(d.rules[0].ns, "mine");
    let named = by_name("maplibre", &ws).unwrap();
    assert_eq!(named.rules[0].ns, "mine");
    assert!(by_name("nope", &ws).is_none());
}
