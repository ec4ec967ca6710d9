//! Chunking and rendering scenarios: the single-entry bundle and the async
//! split.

use bundler_core::chunk_graph::{build_chunk_graph, ChunkKind};
use bundler_core::ids::Interner;
use bundler_core::make::{make, CodeCache, MakeArtifact, World, WorldModule};
use bundler_core::module_graph::{DepKind, ModuleType};
use bundler_core::render::{render_filename, JsPlugin};
use bundler_core::scanner::{Program, RawRef};
use bundler_core::strutil::chars_to_string;

fn world_module(source: &str, refs: Vec<RawRef>) -> WorldModule {
    WorldModule {
        module_type: ModuleType::Js,
        source: source.to_string(),
        program: Program { refs, usage_spans: Vec::new(), errors: Vec::new(), warnings: Vec::new() },
        file_paths: Vec::new(),
        context_paths: Vec::new(),
        missing_paths: Vec::new(),
        build_paths: Vec::new(),
    }
}

fn raw_ref(kind: DepKind, request: &str) -> RawRef {
    RawRef { kind, request: request.to_string(), span_start: 0, span_end: 0 }
}

/// Single-entry bundle: `./a.js` imports `./b.js`; one chunk holds both,
/// and the rendered output begins with the runtime prelude and ends with the
/// entry bootstrap.
#[test]
fn single_entry_bundle() {
    let mut names = Interner::new();
    let a = names.intern("./a.js".to_string());
    let b = names.intern("./b.js".to_string());
    let world = World {
        resolutions: vec![("./a.js".to_string(), a), ("./b.js".to_string(), b)],
        modules: vec![
            Some(world_module("import './b.js';", vec![raw_ref(DepKind::Esm, "./b.js")])),
            Some(world_module("export default 1;", Vec::new())),
        ],
    };
    let entries = vec!["./a.js".to_string()];
    let mut cache = CodeCache::new();
    let art = make(&entries, &world, MakeArtifact::new(), &Vec::new(), &mut cache);
    let cgr = build_chunk_graph(&art.graph, &art.entry_module_identifiers, &names);
    assert_eq!(cgr.chunks.len(), 1);
    let chunk = &cgr.chunks[0];
    assert_eq!(chunk.modules, vec![a, b]);
    assert!(chunk.is_initial);
    assert!(chunk.has_runtime);
    assert_eq!(chunk.kind, ChunkKind::Entry);
    assert_eq!(chunk.id, "./a.js");

    // render: runtime prelude + module table + entry bootstrap, in an IIFE
    let plugin = JsPlugin::new();
    let pairs = vec![
        ("./a.js".to_string(), "a code".to_string()),
        ("./b.js".to_string(), "b code".to_string()),
    ];
    let modules_code = plugin.render_chunk_modules(&pairs);
    let entry_code = plugin.generate_chunk_entry_code(&vec!["./a.js".to_string()]);
    let runtime = "PRELUDE\n__INSTALLED_MODULES__\n".to_string();
    let out = plugin
        .render_main(&runtime, &modules_code, Some(&entry_code))
        .expect("the runtime template carries the placeholder");
    let text = chars_to_string(&out);
    assert!(text.starts_with("(function() {\nPRELUDE\n{\n"));
    assert!(text.ends_with("__webpack_require__(\"./a.js\");\n})();\n"));
    assert!(text.contains("\"./b.js\": function(module, exports, __webpack_require__) {\nb code\n},\n"));
}

/// Async split: `./m.js` contains a dynamic import of `./n.js`. Two chunks
/// result; the parent holds `m`, the async child holds `n`, with a
/// chunk-group edge from parent to child, and the child's filename comes
/// from the template with `[id]` substituted.
#[test]
fn async_split() {
    let mut names = Interner::new();
    let m = names.intern("./m.js".to_string());
    let n = names.intern("./n.js".to_string());
    let world = World {
        resolutions: vec![("./m.js".to_string(), m), ("./n.js".to_string(), n)],
        modules: vec![
            Some(world_module("import('./n.js');", vec![raw_ref(
                DepKind::DynImport,
                "./n.js",
            )])),
            Some(world_module("export const x = 2;", Vec::new())),
        ],
    };
    let entries = vec!["./m.js".to_string()];
    let mut cache = CodeCache::new();
    let art = make(&entries, &world, MakeArtifact::new(), &Vec::new(), &mut cache);
    let cgr = build_chunk_graph(&art.graph, &art.entry_module_identifiers, &names);
    assert_eq!(cgr.chunks.len(), 2);
    let parent = &cgr.chunks[0];
    let child = &cgr.chunks[1];
    assert_eq!(parent.modules, vec![m]);
    assert!(parent.is_initial);
    assert_eq!(child.modules, vec![n]);
    assert!(!child.is_initial);
    assert_eq!(child.kind, ChunkKind::Normal);
    // chunk-group edge parent -> child
    assert_eq!(cgr.groups[0].children, vec![1]);
    assert_eq!(cgr.groups[1].parents, vec![0]);
    // child filename from the template with [id] substituted
    let path = render_filename(
        &"[id].js".to_string(),
        &String::new(),
        "",
        &child.id,
        &String::new(),
    );
    assert_eq!(path, "./n.js.js");
}

/// A dedicated entry per configured entry point, in order.
#[test]
fn one_initial_chunk_per_entry() {
    let mut names = Interner::new();
    let a = names.intern("./a.js".to_string());
    let b = names.intern("./b.js".to_string());
    let world = World {
        resolutions: vec![("./a.js".to_string(), a), ("./b.js".to_string(), b)],
        modules: vec![
            Some(world_module("a", Vec::new())),
            Some(world_module("b", Vec::new())),
        ],
    };
    let entries = vec!["./a.js".to_string(), "./b.js".to_string()];
    let mut cache = CodeCache::new();
    let art = make(&entries, &world, MakeArtifact::new(), &Vec::new(), &mut cache);
    assert_eq!(art.entry_module_identifiers, vec![a, b]);
    let cgr = build_chunk_graph(&art.graph, &art.entry_module_identifiers, &names);
    assert_eq!(cgr.chunks.len(), 2);
    assert_eq!(cgr.chunks[0].root, a);
    assert_eq!(cgr.chunks[1].root, b);
    assert!(cgr.chunks[0].is_initial && cgr.chunks[1].is_initial);
}

/// The synchronous closure pulls shared modules into every chunk whose
/// entry reaches them.
#[test]
fn shared_module_lands_in_both_chunks() {
    let mut names = Interner::new();
    let a = names.intern("./a.js".to_string());
    let b = names.intern("./b.js".to_string());
    let shared = names.intern("./shared.js".to_string());
    let world = World {
        resolutions: vec![
            ("./a.js".to_string(), a),
            ("./b.js".to_string(), b),
            ("./shared.js".to_string(), shared),
        ],
        modules: vec![
            Some(world_module("import './shared.js';", vec![raw_ref(DepKind::Esm, "./shared.js")])),
            Some(world_module("import './shared.js';", vec![raw_ref(DepKind::Esm, "./shared.js")])),
            Some(world_module("shared", Vec::new())),
        ],
    };
    let entries = vec!["./a.js".to_string(), "./b.js".to_string()];
    let mut cache = CodeCache::new();
    let art = make(&entries, &world, MakeArtifact::new(), &Vec::new(), &mut cache);
    let cgr = build_chunk_graph(&art.graph, &art.entry_module_identifiers, &names);
    assert_eq!(cgr.chunks[0].modules, vec![a, shared]);
    assert_eq!(cgr.chunks[1].modules, vec![b, shared]);
}
