use glslint::derive::{contains_ident, es_imports, model_modules_for, module_glsl_var};
use glslint::workspace::Workspace;

const WINDLAYER: &str = "import {\n  CompositeLayer,\n  project32,\n} from '@deck.gl/core';\n\
    import { blitUniforms, windUniforms } from './modules';\n\
    import DRAW_VS from './shaders/draw.vert.glsl?raw';\n\
    import DRAW_FS from './shaders/draw.frag.glsl?raw';\n\
    import BLIT_VS from './shaders/blit.vert.glsl?raw';\n\
    const model = new Model(device, {\n\
      vs: DRAW_VS,\n\
      fs: DRAW_FS,\n\
      modules: [project32, windUniforms],\n\
    });\n\
    new Model(device, { vs: BLIT_VS, modules: [blitUniforms] });\n";

fn get<'a>(m: &'a [(String, String)], k: &str) -> &'a str {
    m.iter().find(|(n, _)| n == k).map(|(_, v)| v.as_str()).unwrap()
}

fn chars(s: &str) -> Vec<char> {
    s.chars().collect()
}

#[test]
fn parses_imports_default_and_named() {
    let m = es_imports(WINDLAYER);
    assert_eq!(get(&m, "DRAW_VS"), "./shaders/draw.vert.glsl?raw");
    assert_eq!(get(&m, "windUniforms"), "./modules");
    assert_eq!(get(&m, "project32"), "@deck.gl/core");
}

#[test]
fn finds_modules_for_a_shader_binding() {
    assert_eq!(model_modules_for(WINDLAYER, "DRAW_VS").unwrap(), vec!["project32", "windUniforms"]);
    assert_eq!(model_modules_for(WINDLAYER, "DRAW_FS").unwrap(), vec!["project32", "windUniforms"]);
    assert_eq!(model_modules_for(WINDLAYER, "BLIT_VS").unwrap(), vec!["blitUniforms"]);
}

#[test]
fn extracts_a_modules_vs_glsl_var() {
    let modules = "import WIND from './shaders/windUniforms.glsl?raw';\n\
        export const windUniforms: any = { name: 'wind', vs: WIND, fs: WIND, uniformTypes: { a: 'f32' } };\n";
    assert_eq!(module_glsl_var(modules, "windUniforms").unwrap(), "WIND");
    assert_eq!(get(&es_imports(modules), "WIND"), "./shaders/windUniforms.glsl?raw");
}

#[test]
fn contains_ident_is_whole_word() {
    assert!(contains_ident(&chars("vs: DRAW_VS,"), &chars("DRAW_VS")));
    assert!(!contains_ident(&chars("vs: DRAW_VS_EXTRA,"), &chars("DRAW_VS")));
}

#[test]
fn derives_modules_through_a_local_module_file() {
    let modules = "import WIND from './shaders/windUniforms.glsl?raw';\n\
        export const windUniforms = { vs: WIND };\n";
    let ws = Workspace {
        files: vec![
            ("/p/src/WindLayer.ts".to_string(), WINDLAYER.to_string()),
            ("/p/src/./modules.ts".to_string(), modules.to_string()),
        ],
        deck_fns: vec![],
        project_presets: vec![],
    };
    let d = glslint::derive::derive("/p/src/shaders/draw.vert.glsl", &vec!["/p/src/WindLayer.ts".to_string()], &ws).unwrap();
    assert!(d.use_builtin_prelude);
    // The module file's parent drops its trailing `.` component, as `Path::parent`
    // does; the specifier's own `./` is joined as text.
    assert_eq!(d.modules, vec!["/p/src/./shaders/windUniforms.glsl".to_string()]);
    // No script mentions the shader: nothing derived.
    assert!(glslint::derive::derive("/p/src/shaders/other.vert.glsl", &vec!["/p/src/WindLayer.ts".to_string()], &ws).is_none());
}

#[test]
fn later_import_of_a_name_replaces_the_earlier() {
    let m = es_imports("import A from './x';\nimport A from './y';\n");
    assert_eq!(m.len(), 1);
    assert_eq!(get(&m, "A"), "./y");
}
