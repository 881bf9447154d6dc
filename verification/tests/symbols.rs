use glslint::assemble::{Assembled, Loc, Stage};
use glslint::symbols::{complete, document_symbols, index, resolve, SymKind, Symbol, SymbolIndex, Ubo};

fn loc(file: &str, line: u32) -> Loc {
    Loc { path: file.to_string(), line }
}

// windUniforms.glsl injected into draw.vert.glsl.
fn fixture() -> Assembled {
    let rows: Vec<(&str, &str, u32)> = vec![
        ("layout(std140) uniform windUniforms {", "/p/windUniforms.glsl", 1),
        ("  float uMin;", "/p/windUniforms.glsl", 2),
        ("  float maxSpeed;", "/p/windUniforms.glsl", 3),
        ("} wind;", "/p/windUniforms.glsl", 4),
        ("uniform sampler2D u_wind;", "/p/draw.vert.glsl", 5),
        ("vec2 windAt(sampler2D windTex, vec2 pos) {", "/p/draw.vert.glsl", 9),
        ("  return vec2(0.0);", "/p/draw.vert.glsl", 10),
        ("}", "/p/draw.vert.glsl", 11),
    ];
    let source = rows.iter().map(|(l, _, _)| *l).collect::<Vec<_>>().join("\n") + "\n";
    let map = rows.iter().map(|(_, f, n)| Some(loc(f, *n))).collect();
    Assembled { source, stage: Stage::Vertex, map, target: "/p/draw.vert.glsl".to_string(), note: None }
}

fn get<'a, T>(table: &'a [(String, T)], key: &str) -> Option<&'a T> {
    table.iter().find(|(k, _)| k == key).map(|(_, v)| v)
}

fn global<'a>(idx: &'a SymbolIndex, key: &str) -> Option<&'a Symbol> {
    get(&idx.globals, key)
}

fn ubo<'a>(idx: &'a SymbolIndex, key: &str) -> Option<&'a Ubo> {
    get(&idx.ubos, key)
}

#[test]
fn indexes_ubo_block_with_members() {
    let idx = index(&fixture());
    let ubo = ubo(&idx, "wind").expect("wind UBO");
    assert_eq!(ubo.block_name, "windUniforms");
    assert_eq!(ubo.loc.line, 1);
    let m = get(&ubo.members, "maxSpeed").expect("maxSpeed member");
    assert_eq!(m.detail, "float maxSpeed");
    assert_eq!(m.loc.path, "/p/windUniforms.glsl");
    assert_eq!(m.loc.line, 3);
}

#[test]
fn indexes_globals_and_functions() {
    let idx = index(&fixture());
    assert_eq!(global(&idx, "u_wind").unwrap().detail, "uniform sampler2D u_wind");
    assert_eq!(global(&idx, "u_wind").unwrap().loc.line, 5);
    let f = get(&idx.functions, "windAt").expect("windAt fn");
    assert_eq!(f.loc.line, 9);
    assert!(f.detail.starts_with("vec2 windAt("));
    assert!(global(&idx, "uMin").is_none());
}

#[test]
fn resolves_member_access_across_files() {
    let idx = index(&fixture());
    let line = "  v = clamp(x, wind.maxSpeed, 1.0);";
    let col = line.find("maxSpeed").unwrap() + 3;
    let hit = resolve(&idx, line, col).expect("resolves wind.maxSpeed");
    assert_eq!(hit.detail, "float maxSpeed");
    let loc = hit.loc.as_ref().unwrap();
    assert_eq!(loc.path, "/p/windUniforms.glsl");
    assert_eq!(loc.line, 3);
    assert_eq!(hit.note.as_deref(), Some("member of `windUniforms`"));
}

#[test]
fn resolves_function_and_global_and_misses_gracefully() {
    let idx = index(&fixture());
    assert_eq!(resolve(&idx, "y = windAt(u_wind, p);", 4).unwrap().loc.unwrap().line, 9);
    let g = resolve(&idx, "z = texture(u_wind, p);", "z = texture(".len() + 1).unwrap();
    assert_eq!(g.loc.unwrap().line, 5);
    assert!(resolve(&idx, "  a + b", 3).is_none());
    assert!(resolve(&idx, "wind.nope", 6).is_none());
}

#[test]
fn deck_builtin_is_hover_only() {
    let idx = index(&fixture());
    let line = "  vec4 c = project_position_to_clipspace(a, b, d);";
    let col = line.find("project_position_to_clipspace").unwrap() + 5;
    let hit = resolve(&idx, line, col).expect("builtin resolves");
    assert!(hit.detail.starts_with("vec4 project_position_to_clipspace("));
    assert!(hit.loc.is_none());
    assert!(hit.note.as_deref().unwrap().contains("deck.gl"));
}

#[test]
fn core_glsl_builtin_is_hover_only() {
    let idx = index(&fixture());
    let line = "  x = clamp(a, b, c);";
    let hit = resolve(&idx, line, line.find("clamp").unwrap() + 2).expect("clamp resolves");
    assert!(hit.detail.contains("clamp("));
    assert!(hit.loc.is_none());
    assert_eq!(hit.note.as_deref(), Some("GLSL ES built-in"));
    assert!(complete(&idx, "  ", 2).iter().any(|c| c.label == "clamp"));
}

#[test]
fn completes_members_after_dot() {
    let idx = index(&fixture());
    let labels: Vec<_> =
        complete(&idx, "  x = wind.", "  x = wind.".len()).into_iter().map(|c| c.label).collect();
    assert!(labels.contains(&"uMin".to_string()));
    assert!(labels.contains(&"maxSpeed".to_string()));
    assert!(!labels.contains(&"windAt".to_string()));
    assert!(complete(&idx, "x = wind.max", "x = wind.max".len()).iter().any(|c| c.label == "maxSpeed"));
    assert!(complete(&idx, "foo.", "foo.".len()).is_empty());
}

#[test]
fn general_completion_lists_visible_symbols() {
    let idx = index(&fixture());
    let labels: Vec<_> = complete(&idx, "  ", 2).into_iter().map(|c| c.label).collect();
    for want in ["windAt", "u_wind", "wind", "project_position"] {
        assert!(labels.contains(&want.to_string()), "missing {want}");
    }
}

#[test]
fn document_symbols_are_scoped_to_the_file() {
    let idx = index(&fixture());
    let draw = document_symbols(&idx, "/p/draw.vert.glsl");
    let names: Vec<_> = draw.iter().map(|d| d.name.as_str()).collect();
    assert!(names.contains(&"windAt") && names.contains(&"u_wind"));
    assert!(!names.contains(&"wind"));
    assert!(draw.windows(2).all(|w| w[0].line <= w[1].line));

    let module = document_symbols(&idx, "/p/windUniforms.glsl");
    let wind = module.iter().find(|d| d.name == "wind").expect("wind block");
    assert!(wind.children.iter().any(|c| c.name == "maxSpeed"));
}

#[test]
fn member_completion_carries_the_member_detail_and_kind() {
    let idx = index(&fixture());
    let items = complete(&idx, "wind.", 5);
    let m = items.iter().find(|c| c.label == "maxSpeed").unwrap();
    assert_eq!(m.detail, "float maxSpeed");
    assert!(m.kind == SymKind::Field);
    assert_eq!(items.len(), 2);
}

#[test]
fn an_unmapped_line_is_not_indexed() {
    let a = Assembled {
        source: "uniform float u_a;\nuniform float u_b;\n".to_string(),
        stage: Stage::Fragment,
        map: vec![None, Some(loc("/p/a.frag.glsl", 2))],
        target: "/p/a.frag.glsl".to_string(),
        note: None,
    };
    let idx = index(&a);
    assert!(global(&idx, "u_a").is_none());
    assert_eq!(global(&idx, "u_b").unwrap().loc.line, 2);
}

#[test]
fn document_symbols_are_ordered_by_line_with_block_children() {
    let idx = index(&fixture());
    let module = document_symbols(&idx, "/p/windUniforms.glsl");
    assert_eq!(module.len(), 1);
    assert_eq!(module[0].line, 1);
    let kids: Vec<_> = module[0].children.iter().map(|c| (c.name.as_str(), c.line)).collect();
    assert_eq!(kids, vec![("uMin", 2), ("maxSpeed", 3)]);
}

#[test]
fn every_completion_resolves_and_every_definition_is_on_the_map() {
    let a = fixture();
    let idx = index(&a);
    for c in complete(&idx, "  ", 2) {
        let hit = resolve(&idx, &c.label, 0);
        assert!(hit.is_some(), "{}", c.label);
        if let Some(l) = hit.unwrap().loc {
            assert!(a.map.iter().any(|m| m.as_ref().map(|m| (m.path.as_str(), m.line)) == Some((l.path.as_str(), l.line))));
        }
    }
    for c in complete(&idx, "wind.", 5) {
        let line = format!("wind.{}", c.label);
        assert!(resolve(&idx, &line, 5).is_some(), "{}", c.label);
    }
}

#[test]
fn builtins_are_complete_whatever_is_indexed() {
    let a = index(&fixture());
    let empty = Assembled { source: String::new(), stage: Stage::Fragment, map: vec![], target: "/p/x.glsl".to_string(), note: None };
    let b = index(&empty);
    let names = |i: &SymbolIndex| i.builtins.iter().map(|(n, _)| n.clone()).collect::<Vec<_>>();
    assert_eq!(names(&a), names(&b));
    for want in ["clamp", "texture", "project_position_to_clipspace"] {
        assert!(names(&a).contains(&want.to_string()), "missing {want}");
    }
    assert_eq!(get(&a.builtins, "clamp").unwrap().origin, "GLSL ES built-in");
}

#[test]
fn after_a_dot_only_members_resolve() {
    let idx = index(&fixture());
    assert!(resolve(&idx, "wind.windAt", 6).is_none());
    assert!(resolve(&idx, "windAt", 6).is_some());
    assert!(resolve(&idx, "x = 1;", 3).is_none());
}

#[test]
fn completion_outside_a_member_offers_every_table() {
    let idx = index(&fixture());
    let items = complete(&idx, "  ", 2);
    assert_eq!(items.len(), idx.functions.len() + idx.globals.len() + idx.ubos.len() + idx.builtins.len());
    assert!(items.iter().any(|c| c.label == "windAt" && c.kind == SymKind::Function));
    assert!(items.iter().any(|c| c.label == "u_wind" && c.kind == SymKind::Variable));
    assert!(items.iter().any(|c| c.label == "wind" && c.kind == SymKind::Block));
    assert!(items.iter().any(|c| c.label == "clamp" && c.kind == SymKind::Builtin));
}
