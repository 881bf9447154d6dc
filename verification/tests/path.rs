use glslint::assemble::assemble;
use glslint::config::Config;
use glslint::dialect::Preference;
use glslint::assemble::{detect_stage, Stage};
use glslint::check::{path_equal, path_less};
use glslint::embed::is_js_ts;
use glslint::path::{file_name_exec, normalize_exec, parent_exec, same_file_str};
use glslint::workspace::Workspace;

#[test]
fn dot_and_dotdot_components_resolve_lexically() {
    assert!(same_file_str("/p/src/./shaders/a.glsl", "/p/src/shaders/a.glsl"));
    assert!(same_file_str("/p/src/x/../shaders//a.glsl", "/p/src/shaders/a.glsl"));
    assert!(same_file_str("/../p/a.glsl", "/p/a.glsl"));
    assert!(!same_file_str("../p/a.glsl", "p/a.glsl"));
    assert!(!same_file_str("/p/a.glsl", "p/a.glsl"));
    assert!(!same_file_str("/p/a.glsl", "/p/b.glsl"));
}

#[test]
fn a_module_path_with_dot_components_is_read_and_not_spliced_into_itself() {
    let ws = Workspace {
        files: vec![
            ("/p/windUniforms.glsl".to_string(), "uniform float uMin;\n".to_string()),
            ("/p/draw.frag.glsl".to_string(), "void main() {}\n".to_string()),
        ],
        deck_fns: vec![],
        project_presets: vec![],
    };
    let config = Config {
        preludes: vec![],
        modules: vec!["/p/src/../windUniforms.glsl".to_string(), "/p/./draw.frag.glsl".to_string()],
        use_builtin_prelude: false,
        dialect: Preference::default(),
    };
    let a = assemble("/p/draw.frag.glsl", "void main() {}\n", &config, &ws);
    assert!(a.source.contains("uniform float uMin;"));
    assert_eq!(a.source.matches("void main() {}").count(), 1);
}

fn chars(s: &str) -> Vec<char> {
    s.chars().collect()
}

fn name_of(p: &str) -> Option<String> {
    file_name_exec(&chars(p)).map(|n| n.into_iter().collect())
}

#[test]
fn file_name_skips_trailing_slashes_and_dot_components() {
    assert_eq!(name_of("draw.vert.glsl/"), Some("draw.vert.glsl".to_string()));
    assert_eq!(name_of("/p/a.glsl/."), Some("a.glsl".to_string()));
    assert_eq!(name_of("/p/a.glsl//./"), Some("a.glsl".to_string()));
    assert_eq!(name_of("./a.glsl"), Some("a.glsl".to_string()));
    assert_eq!(name_of("/p/.."), None);
    assert_eq!(name_of("."), None);
    assert_eq!(name_of("/"), None);
    assert_eq!(name_of(""), None);
    assert_eq!(detect_stage("draw.vert.glsl/"), Some(Stage::Vertex));
    assert!(is_js_ts("a.ts/"));
    assert!(is_js_ts("a.d.ts"));
    assert!(!is_js_ts("a.TS"));
    assert!(!is_js_ts("a.glsl"));
}

#[test]
fn parent_reads_components_like_path() {
    assert_eq!(parent_exec("a/b/"), Some("a".to_string()));
    assert_eq!(parent_exec("a//b"), Some("a".to_string()));
    assert_eq!(parent_exec("a/./b"), Some("a".to_string()));
    assert_eq!(parent_exec("/a"), Some("/".to_string()));
    assert_eq!(parent_exec("a"), Some("".to_string()));
    assert_eq!(parent_exec("/"), None);
    assert_eq!(parent_exec(""), None);
}

#[test]
fn normalize_spells_a_path_plainly() {
    assert_eq!(normalize_exec("/inc/sub/../a.glsl"), "/inc/a.glsl");
    assert_eq!(normalize_exec("/inc//./a.glsl"), "/inc/a.glsl");
    assert_eq!(normalize_exec("a/.."), ".");
    assert_eq!(normalize_exec("../x/./y"), "../x/y");
}

#[test]
fn paths_order_component_by_component() {
    assert!(path_less(&chars("a/b"), &chars("a//c")));
    assert!(!path_less(&chars("a//c"), &chars("a/b")));
    assert!(path_equal(&chars("a/./b"), &chars("a/b")));
    assert!(!path_less(&chars("a/./b"), &chars("a/b")));
    assert!(path_less(&chars("a/b"), &chars("a/b/c")));
    assert!(path_less(&chars("a/b"), &chars("a-b")));
    assert!(path_less(&chars("/z"), &chars("a")));
    assert!(!path_equal(&chars("a/b"), &chars("a/c")));
}

#[test]
fn a_normalized_path_names_the_same_file() {
    for p in ["/inc/sub/../a.glsl", "a/./b//c", "../x/../y", "/..", "a/..", "./"] {
        assert!(same_file_str(&normalize_exec(p), p), "{p}");
    }
}

#[test]
fn position_limits_are_per_line() {
    assert!(glslint::text::lines_fit_exec("a\nb\n"));
    assert!(glslint::embed::positions_fit_exec("a\nb\n"));
    assert!(glslint::text::lines_fit_exec(""));
}
