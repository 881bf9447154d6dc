use glslint::config::{glob_match, resolve_bindings, Config, ConfigFile, DialectFile, ModuleDef, ShaderBinding};
use glslint::derive::Derived;

#[test]
fn glob_matches_filename_patterns() {
    assert!(glob_match("draw.*.glsl", "draw.vert.glsl"));
    assert!(glob_match("draw.*.glsl", "draw.frag.glsl"));
    assert!(glob_match("*.frag.glsl", "blit.frag.glsl"));
    assert!(glob_match("blit.vert.glsl", "blit.vert.glsl"));
    assert!(!glob_match("draw.*.glsl", "blit.vert.glsl"));
    assert!(!glob_match("draw.*.glsl", "draw.vert.glsl.bak"));
    assert!(glob_match("src/shaders/draw.*", "src/shaders/draw.vert.glsl"));
}

fn cf() -> ConfigFile {
    ConfigFile {
        module_defs: vec![
            ModuleDef {
                name: "windUniforms".into(),
                source: Some("src/shaders/windUniforms.glsl".into()),
                builtin: false,
                types: None,
            },
            ModuleDef {
                name: "blitUniforms".into(),
                source: Some("src/shaders/blitUniforms.glsl".into()),
                builtin: false,
                types: None,
            },
            ModuleDef { name: "project32".into(), source: None, builtin: true, types: None },
        ],
        shaders: vec![
            ShaderBinding {
                pattern: "draw.*.glsl".into(),
                modules: vec!["project32".into(), "windUniforms".into()],
                builtin_prelude: None,
            },
            ShaderBinding { pattern: "blit.*.glsl".into(), modules: vec!["blitUniforms".into()], builtin_prelude: None },
        ],
        ..Default::default()
    }
}

#[test]
fn binding_resolves_each_shader_to_its_own_modules() {
    let base = "/proj";
    let draw = resolve_bindings("/proj/src/shaders/draw.vert.glsl", &cf(), base);
    assert!(draw.use_builtin_prelude);
    assert_eq!(draw.modules, vec!["/proj/src/shaders/windUniforms.glsl".to_string()]);

    let blit = resolve_bindings("/proj/src/shaders/blit.frag.glsl", &cf(), base);
    assert!(!blit.use_builtin_prelude);
    assert_eq!(blit.modules, vec!["/proj/src/shaders/blitUniforms.glsl".to_string()]);
}

#[test]
fn unmatched_shader_gets_only_the_prelude() {
    let cfg = resolve_bindings("/proj/src/shaders/windUniforms.glsl", &cf(), "/proj");
    assert!(cfg.modules.is_empty());
}

#[test]
fn glob_edge_cases() {
    assert!(glob_match("*", ""));
    assert!(glob_match("*", "anything/at/all"));
    assert!(glob_match("?", "a"));
    assert!(!glob_match("?", ""));
    assert!(!glob_match("?", "ab"));
    assert!(glob_match("a*b*c", "axxbyyc"));
    assert!(!glob_match("a*b*c", "axxbyy"));
    assert!(glob_match("", ""));
    assert!(!glob_match("", "a"));
}

#[test]
fn bindings_match_the_path_relative_to_the_config() {
    let mut c = cf();
    c.shaders = vec![ShaderBinding {
        pattern: "src/shaders/draw.*".into(),
        modules: vec!["windUniforms".into()],
        builtin_prelude: Some(true),
    }];
    let cfg = resolve_bindings("/proj/src/shaders/draw.vert.glsl", &c, "/proj");
    assert_eq!(cfg.modules, vec!["/proj/src/shaders/windUniforms.glsl".to_string()]);
    assert!(cfg.use_builtin_prelude);
}

#[test]
fn resolve_for_prefers_bindings_then_wiring_then_derived() {
    // Bindings win.
    let found = Some((cf(), "/proj".to_string()));
    let c = Config::resolve_for("/proj/src/shaders/blit.frag.glsl", &found, &None);
    assert_eq!(c.modules, vec!["/proj/src/shaders/blitUniforms.glsl".to_string()]);
    // Legacy wiring: the global list joined onto the config's directory.
    let legacy = ConfigFile { modules: vec!["m.glsl".into()], builtin_prelude: Some(false), ..Default::default() };
    let c = Config::resolve_for("/proj/x.frag.glsl", &Some((legacy, "/proj".to_string())), &None);
    assert_eq!(c.modules, vec!["/proj/m.glsl".to_string()]);
    assert!(!c.use_builtin_prelude);
    // A file with nothing but a dialect falls through to the derived bindings.
    let only_dialect = ConfigFile {
        dialect: DialectFile { preset: Some("maplibre".into()), auto: Some(false), prelude: None, expand: vec![] },
        ..Default::default()
    };
    let derived = Some(Derived { modules: vec!["/proj/w.glsl".into()], use_builtin_prelude: false });
    let c = Config::resolve_for("/proj/x.frag.glsl", &Some((only_dialect, "/proj".to_string())), &derived);
    assert_eq!(c.modules, vec!["/proj/w.glsl".to_string()]);
    assert_eq!(c.dialect.preset.as_deref(), Some("maplibre"));
    assert!(!c.dialect.auto);
    // Nothing at all: zero-config.
    let c = Config::resolve_for("/proj/x.frag.glsl", &None, &None);
    assert!(c.modules.is_empty() && c.preludes.is_empty() && c.use_builtin_prelude);
    assert!(c.dialect.auto);
}

#[test]
fn drift_for_finds_the_module_with_types() {
    let c = ConfigFile {
        module_defs: vec![ModuleDef {
            name: "windUniforms".into(),
            source: Some("src/windUniforms.glsl".into()),
            builtin: false,
            types: Some("src/modules.ts".into()),
        }],
        ..Default::default()
    };
    assert_eq!(
        glslint::config::drift_for("/proj/src/windUniforms.glsl", &c, "/proj"),
        Some(("windUniforms".to_string(), "/proj/src/modules.ts".to_string()))
    );
    assert_eq!(glslint::config::drift_for("/proj/src/other.glsl", &c, "/proj"), None);
}

#[test]
fn a_glob_matches_itself_and_star_matches_anything() {
    for p in ["draw.*.glsl", "a?b", "**", "src/x.glsl", ""] {
        assert!(glob_match(p, p), "{p}");
    }
    for t in ["", "a", "src/shaders/draw.vert.glsl", "*?"] {
        assert!(glob_match("*", t), "{t}");
    }
    assert!(glob_match("a?c", "abc"));
    assert!(!glob_match("a?c", "ac"));
}
