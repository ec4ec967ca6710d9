//! The identifier interner, the path sets, the derived-source cache, string
//! scanning, rendering shapes and output naming.

use bundler_core::ids::Interner;
use bundler_core::options::{parse_chunk_type, ChunkType};
use bundler_core::path_set::PathSet;
use bundler_core::render::{render_filename, should_minify, JsPlugin, TargetPlatform};
use bundler_core::scanner::{scan_dependencies, Program, RawRef};
use bundler_core::module_graph::{DepKind, ModuleType};
use bundler_core::strutil::{chars_to_string, find_sub, replace_first, to_chars};
use bundler_core::chunk_graph::{Chunk, ChunkKind};
use bundler_core::wasm::AsyncWasmPlugin;
use bundler_core::module_graph::{Mod, ModuleGraph, SourceState};
use bundler_core::partial::{commit_partial, ModuleGraphPartial};

#[test]
fn interner_reuses_handles() {
    let mut names = Interner::new();
    let a = names.intern("./a.js".to_string());
    let b = names.intern("./b.js".to_string());
    let a2 = names.intern("./a.js".to_string());
    assert_eq!(a, a2);
    assert_ne!(a, b);
    assert_eq!(names.resolve(a), "./a.js");
    assert_eq!(names.resolve(b), "./b.js");
    assert_eq!(names.len(), 2);
    assert_eq!(names.lookup(&"./b.js".to_string()), Some(b));
    assert_eq!(names.lookup(&"./c.js".to_string()), None);
}

/// The insertion-ordered path set: a duplicate changes nothing, a new
/// element is appended; order is the insertion order.
#[test]
fn path_set_keeps_insertion_order() {
    let mut s = PathSet::new();
    assert_eq!(s.len(), 0);
    assert!(s.add(7));
    assert!(s.add(3));
    assert!(!s.add(7));
    assert_eq!(s.len(), 2);
    assert_eq!(s.get(0), 7);
    assert_eq!(s.get(1), 3);
    assert!(s.contains(3));
    assert!(!s.contains(4));
    s.add_all(&vec![3, 9]);
    assert_eq!(s.len(), 3);
    assert_eq!(s.get(2), 9);
}

/// The derived-source cache: a miss computes and stores the eval wrapping,
/// a hit returns the stored text unchanged.
#[test]
fn eval_wrap_caches_by_source_identity() {
    let mut plugin = JsPlugin::new();
    let id = "./x.js".to_string();
    let wrapped = plugin.wrap_eval_source_map(11, &"var x = 1;".to_string(), &id);
    assert_eq!(wrapped, "eval(\"var x = 1;\\n//# sourceURL=webpack-internal:///./x.js\");");
    // a hit ignores the new source text and returns the cached text
    let hit = plugin.wrap_eval_source_map(11, &"something else".to_string(), &id);
    assert_eq!(hit, wrapped);
    let other = plugin.wrap_eval_source_map(12, &"var y = 2;".to_string(), &id);
    assert_eq!(other, "eval(\"var y = 2;\\n//# sourceURL=webpack-internal:///./x.js\");");
}

/// The module-table pair selection: the chunk's generated JavaScript
/// modules in stable order; under the eval devtool each source carries the
/// eval + sourceURL wrapping.
#[test]
fn chunk_module_pairs_select_generated_modules() {
    let mut names = Interner::new();
    let a = names.intern("./a.js".to_string());
    let b = names.intern("./b.js".to_string());
    let c = names.intern("./c.js".to_string());
    let chunk = Chunk {
        ukey: 0,
        id: "main".to_string(),
        name: None,
        kind: ChunkKind::Entry,
        is_initial: true,
        has_runtime: true,
        root: a,
        modules: vec![a, b, c],
    };
    let gen = vec![Some("a code".to_string()), None, Some("c code".to_string())];
    let mut plugin = JsPlugin::new();
    let pairs = plugin.render_chunk_module_pairs(&names, &chunk, &gen, false);
    assert_eq!(pairs.len(), 2);
    assert_eq!(pairs[0], ("./a.js".to_string(), "a code".to_string()));
    assert_eq!(pairs[1], ("./c.js".to_string(), "c code".to_string()));
    let eval_pairs = plugin.render_chunk_module_pairs(&names, &chunk, &gen, true);
    assert_eq!(
        eval_pairs[0].1,
        "eval(\"a code\\n//# sourceURL=webpack-internal:///./a.js\");",
    );
}

#[test]
fn find_sub_finds_the_first_occurrence() {
    let hay = to_chars("abcabc");
    assert_eq!(find_sub(&hay, &to_chars("bc")), Some(1));
    assert_eq!(find_sub(&hay, &to_chars("zz")), None);
    assert_eq!(find_sub(&hay, &to_chars("")), Some(0));
    let replaced = replace_first(&hay, &to_chars("bc"), &to_chars("XY"));
    assert_eq!(chars_to_string(&replaced), "aXYabc");
    let unchanged = replace_first(&hay, &to_chars("zz"), &to_chars("XY"));
    assert_eq!(chars_to_string(&unchanged), "abcabc");
}

#[test]
fn filename_template_substitutes_keys() {
    let path = render_filename(
        &"[name].[contenthash][ext]".to_string(),
        &"main".to_string(),
        ".js",
        &"0".to_string(),
        &"abc123".to_string(),
    );
    assert_eq!(path, "main.abc123.js");
    let by_id = render_filename(
        &"[id].js".to_string(),
        &String::new(),
        "",
        &"vendors".to_string(),
        &String::new(),
    );
    assert_eq!(by_id, "vendors.js");
}

#[test]
fn chunk_type_parsing_is_exact() {
    assert_eq!(parse_chunk_type(&"initial".to_string()), Some(ChunkType::Initial));
    assert_eq!(parse_chunk_type(&"async".to_string()), Some(ChunkType::Async));
    assert_eq!(parse_chunk_type(&"all".to_string()), Some(ChunkType::All));
    assert_eq!(parse_chunk_type(&"everything".to_string()), None);
}

#[test]
fn minify_selection_takes_only_fresh_js_assets() {
    assert!(should_minify(&"main.js".to_string(), false, true));
    assert!(should_minify(&"main.cjs".to_string(), false, true));
    assert!(should_minify(&"main.mjs".to_string(), false, true));
    assert!(!should_minify(&"style.css".to_string(), false, true));
    assert!(!should_minify(&"main.js".to_string(), true, true));
    assert!(!should_minify(&"main.js".to_string(), false, false));
}

/// Scanning classifies synchronous requests as dependencies and dynamic
/// imports as async blocks, and fails with the parse errors when there are
/// any.
#[test]
fn scan_classifies_references() {
    let program = Program {
        refs: vec![
            RawRef { kind: DepKind::Esm, request: "./x.js".to_string(), span_start: 0, span_end: 5 },
            RawRef { kind: DepKind::DynImport, request: "./y.js".to_string(), span_start: 6, span_end: 12 },
            RawRef { kind: DepKind::Cjs, request: "./z.js".to_string(), span_start: 13, span_end: 20 },
        ],
        usage_spans: Vec::new(),
        errors: Vec::new(),
        warnings: Vec::new(),
    };
    let r = scan_dependencies(&program, ModuleType::Js, 5).unwrap();
    assert_eq!(r.dependencies.len(), 2);
    assert_eq!(r.dependencies[0].request, "./x.js");
    assert_eq!(r.dependencies[1].request, "./z.js");
    assert_eq!(r.dependencies[0].parent, Some(5));
    assert_eq!(r.blocks.len(), 1);
    assert_eq!(r.blocks[0].request, "./y.js");
    assert_eq!(r.blocks[0].kind, DepKind::DynImport);
}

/// The three child-chunk shapes have their exact documented text.
#[test]
fn render_shapes_are_exact() {
    let plugin = JsPlugin::new();
    let modules_code = plugin.render_chunk_modules(&vec![(
        "./m.js".to_string(),
        "m code".to_string(),
    )]);
    let web = plugin.render_chunk(
        TargetPlatform::Browser,
        &"child".to_string(),
        &modules_code,
        None,
    );
    let web_text = chars_to_string(&web);
    assert!(web_text.starts_with(
        "(self['webpackChunkwebpack'] = self['webpackChunkwebpack'] || []).push([[\"child\"], {\n",
    ));
    assert!(web_text.ends_with("]);"));
    let node = plugin.render_chunk(
        TargetPlatform::Node,
        &"child".to_string(),
        &modules_code,
        None,
    );
    let node_text = chars_to_string(&node);
    assert!(node_text.starts_with("exports.ids = [\"child\"];\nexports.modules = {\n"));
    assert!(node_text.ends_with(";"));
    let hot = plugin.render_hot_update(&"0".to_string(), &modules_code);
    let hot_text = chars_to_string(&hot);
    assert!(hot_text.starts_with("self['hotUpdate']('0', {\n"));
    assert!(hot_text.ends_with(");"));
    // a main render without the placeholder is an invariant violation
    let err = plugin
        .render_main(&"no placeholder here".to_string(), &modules_code, None)
        .unwrap_err();
    assert_eq!(
        err.kind,
        bundler_core::diagnostics::DiagnosticKind::InvariantViolation,
    );
}

/// The wasm plugin renders one entry per wasm module, named by the filename
/// its generator recorded.
#[test]
fn wasm_render_manifest() {
    let mut plugin = AsyncWasmPlugin::new();
    plugin.module_id_to_filename_without_ext.put(1, "pkg/lib.wasm".to_string());
    let chunk = Chunk {
        ukey: 0,
        id: "main".to_string(),
        name: None,
        kind: ChunkKind::Entry,
        is_initial: true,
        has_runtime: true,
        root: 0,
        modules: vec![0, 1],
    };
    let types = vec![ModuleType::Js, ModuleType::WasmAsync];
    let gen = vec![None, Some("wasm bytes".to_string())];
    let entries = plugin.render_manifest(&chunk, &types, &gen);
    assert_eq!(entries.len(), 1);
    assert_eq!(entries[0].source, "wasm bytes");
    assert_eq!(entries[0].output_path, "pkg/lib.wasm");
    assert_eq!(entries[0].chunk_ukey, 0);
}

/// The partial overlay: reads check the overlay before the base; commit
/// merges the writes; the last write to a slot wins.
#[test]
fn partial_overlay_commit() {
    fn bare(id: usize, src: &str) -> Mod {
        Mod {
            id,
            module_type: ModuleType::Js,
            state: SourceState::BuiltSucceed,
            original_source: Some(src.to_string()),
            dependencies: Vec::new(),
            file_dependencies: Vec::new(),
            context_dependencies: Vec::new(),
            missing_dependencies: Vec::new(),
            build_dependencies: Vec::new(),
        }
    }
    let mut g = ModuleGraph::new();
    g.insert_module(bare(0, "base zero"));
    let mut p = ModuleGraphPartial::new();
    p.write(0, Some(bare(0, "overridden zero")));
    p.write(1, Some(bare(1, "fresh one")));
    p.write(0, Some(bare(0, "overridden zero again")));
    // the read resolves through the topmost write
    let seen = p.lookup(&g.modules, 0).unwrap();
    assert_eq!(seen.original_source.as_deref(), Some("overridden zero again"));
    let fresh = p.lookup(&g.modules, 1).unwrap();
    assert_eq!(fresh.original_source.as_deref(), Some("fresh one"));
    assert!(p.lookup(&g.modules, 9).is_none());
    commit_partial(p, &mut g);
    assert_eq!(
        g.module_by_identifier(0).unwrap().original_source.as_deref(),
        Some("overridden zero again"),
    );
    assert_eq!(
        g.module_by_identifier(1).unwrap().original_source.as_deref(),
        Some("fresh one"),
    );
    // a removal write takes the module out
    let mut p2 = ModuleGraphPartial::new();
    p2.write(1, None);
    commit_partial(p2, &mut g);
    assert!(g.module_by_identifier(1).is_none());
}
