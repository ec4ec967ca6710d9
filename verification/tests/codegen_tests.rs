//! The JavaScript parser/generator and the plugin's manifest rendering and
//! asset-processing pass.

use bundler_core::chunk_graph::{Chunk, ChunkKind};
use bundler_core::codegen::{JavaScriptParserAndGenerator, SourceType};
use bundler_core::diagnostics::Diagnostic;
use bundler_core::module_graph::{DepKind, Mod, ModuleType, SourceState};
use bundler_core::render::{JsPlugin, TargetPlatform};
use bundler_core::scanner::{Program, RawRef};

fn program(refs: Vec<RawRef>, errors: Vec<Diagnostic>) -> Program {
    Program { refs, usage_spans: Vec::new(), errors, warnings: Vec::new() }
}

#[test]
fn parser_accepts_js_like_types_only() {
    let pg = JavaScriptParserAndGenerator::new();
    let clean = program(
        vec![RawRef {
            kind: DepKind::Esm,
            request: "./x.js".to_string(),
            span_start: 0,
            span_end: 0,
        }],
        Vec::new(),
    );
    let parsed = pg.parse(ModuleType::Ts, &clean, 0).unwrap();
    assert_eq!(parsed.dependencies.len(), 1);
    assert_eq!(parsed.diagnostics.len(), 0);
    assert!(pg.parse(ModuleType::Css, &clean, 0).is_err());
}

/// A parse failure degrades to an empty program carrying the errors, with
/// no dependencies scanned.
#[test]
fn parse_failure_degrades_to_empty_program() {
    let pg = JavaScriptParserAndGenerator::new();
    let broken = program(
        vec![RawRef {
            kind: DepKind::Esm,
            request: "./x.js".to_string(),
            span_start: 0,
            span_end: 0,
        }],
        vec![Diagnostic::build_failed(0, "unexpected token".to_string())],
    );
    let parsed = pg.parse(ModuleType::Js, &broken, 0).unwrap();
    assert_eq!(parsed.dependencies.len(), 0);
    assert_eq!(parsed.blocks.len(), 0);
    assert_eq!(parsed.diagnostics.len(), 1);
    assert_eq!(parsed.diagnostics[0].message, "unexpected token");
}

#[test]
fn generator_serves_javascript_only() {
    let pg = JavaScriptParserAndGenerator::new();
    assert_eq!(pg.source_types(), vec![SourceType::JavaScript]);
    let out = pg.generate(SourceType::JavaScript, &"code".to_string()).unwrap();
    assert_eq!(out, "code");
    assert!(pg.generate(SourceType::Css, &"code".to_string()).is_err());
}

#[test]
fn size_is_the_source_length() {
    let pg = JavaScriptParserAndGenerator::new();
    let m = Mod {
        id: 0,
        module_type: ModuleType::Js,
        state: SourceState::BuiltSucceed,
        original_source: Some("12345".to_string()),
        dependencies: Vec::new(),
        file_dependencies: Vec::new(),
        context_dependencies: Vec::new(),
        missing_dependencies: Vec::new(),
        build_dependencies: Vec::new(),
    };
    assert_eq!(pg.size(&m), 5);
}

#[test]
fn js_plugin_registers_all_js_types() {
    let plugin = JsPlugin::new();
    let regs = plugin.apply();
    let types: Vec<ModuleType> = regs.iter().map(|r| r.module_type).collect();
    assert_eq!(
        types,
        vec![ModuleType::Js, ModuleType::Ts, ModuleType::Tsx, ModuleType::Jsx],
    );
    for r in &regs {
        assert_eq!(r.builder_name, "JavaScriptParserAndGenerator");
    }
}

fn chunk(kind: ChunkKind, has_runtime: bool) -> Chunk {
    Chunk {
        ukey: 0,
        id: "main".to_string(),
        name: Some("main".to_string()),
        kind,
        is_initial: true,
        has_runtime,
        root: 0,
        modules: vec![0],
    }
}

#[test]
fn render_manifest_renders_main_and_names_the_asset() {
    let plugin = JsPlugin::new();
    let pairs = vec![("./a.js".to_string(), "a code".to_string())];
    let entry = plugin
        .render_manifest(
            &chunk(ChunkKind::Entry, true),
            &pairs,
            &"RT __INSTALLED_MODULES__".to_string(),
            TargetPlatform::Browser,
            &vec!["./a.js".to_string()],
            &"[name].[contenthash][ext]".to_string(),
            &"beef".to_string(),
        )
        .unwrap();
    assert_eq!(entry.output_path, "main.beef.js");
    assert!(entry.source.starts_with("(function() {\nRT {\n"));
    assert!(entry.source.ends_with("__webpack_require__(\"./a.js\");\n})();\n"));
}

#[test]
fn render_manifest_renders_hot_update() {
    let plugin = JsPlugin::new();
    let pairs = vec![("./a.js".to_string(), "a code".to_string())];
    let entry = plugin
        .render_manifest(
            &chunk(ChunkKind::HotUpdate, false),
            &pairs,
            &String::new(),
            TargetPlatform::Browser,
            &Vec::new(),
            &"[id].js".to_string(),
            &String::new(),
        )
        .unwrap();
    assert!(entry.source.starts_with("self['hotUpdate']('main', {\n"));
    assert_eq!(entry.output_path, "main.js");
}

#[test]
fn render_manifest_fails_without_the_placeholder() {
    let plugin = JsPlugin::new();
    let r = plugin.render_manifest(
        &chunk(ChunkKind::Entry, true),
        &Vec::new(),
        &"no placeholder".to_string(),
        TargetPlatform::Browser,
        &Vec::new(),
        &"[id].js".to_string(),
        &String::new(),
    );
    match r {
        Err(err) => assert_eq!(
            err.kind,
            bundler_core::diagnostics::DiagnosticKind::InvariantViolation,
        ),
        Ok(_) => panic!("rendering without the placeholder must fail"),
    }
}

#[test]
fn process_assets_picks_fresh_js_assets() {
    let plugin = JsPlugin::new();
    let assets = vec![
        ("main.js".to_string(), false),
        ("style.css".to_string(), false),
        ("already.js".to_string(), true),
        ("worker.mjs".to_string(), false),
    ];
    assert_eq!(plugin.process_assets(&assets, true), vec![0, 3]);
    assert_eq!(plugin.process_assets(&assets, false), Vec::<usize>::new());
}
