//! End-to-end make-cycle behavior: building the module graph from entries,
//! resolution failures, incremental rebuilds and the build cache.

use bundler_core::diagnostics::DiagnosticKind;
use bundler_core::ids::Interner;
use bundler_core::make::{
    build_task, make, BuildOutcome, CodeCache, MakeArtifact, World, WorldModule,
};
use bundler_core::module_graph::{DepKind, DepResolution, ModuleType, SourceState};
use bundler_core::scanner::{Program, RawRef};

fn raw_ref(kind: DepKind, request: &str) -> RawRef {
    RawRef { kind, request: request.to_string(), span_start: 0, span_end: 0 }
}

fn world_module(module_type: ModuleType, source: &str, refs: Vec<RawRef>) -> WorldModule {
    WorldModule {
        module_type,
        source: source.to_string(),
        program: Program { refs, usage_spans: Vec::new(), errors: Vec::new(), warnings: Vec::new() },
        file_paths: Vec::new(),
        context_paths: Vec::new(),
        missing_paths: Vec::new(),
        build_paths: Vec::new(),
    }
}

/// Entry `./a.js` imports `./b.js`; both build and the graph is closed.
fn two_module_world() -> (World, Interner) {
    let mut names = Interner::new();
    let a = names.intern("./a.js".to_string());
    let b = names.intern("./b.js".to_string());
    assert_eq!(a, 0);
    assert_eq!(b, 1);
    let world = World {
        resolutions: vec![("./a.js".to_string(), a), ("./b.js".to_string(), b)],
        modules: vec![
            Some(world_module(ModuleType::Js, "import './b.js';", vec![raw_ref(
                DepKind::Esm,
                "./b.js",
            )])),
            Some(world_module(ModuleType::Js, "export default 1;", Vec::new())),
        ],
    };
    (world, names)
}

#[test]
fn make_builds_the_graph_closure() {
    let (world, _names) = two_module_world();
    let entries = vec!["./a.js".to_string()];
    let mut cache = CodeCache::new();
    let a = make(&entries, &world, MakeArtifact::new(), &Vec::new(), &mut cache);
    assert!(a.graph.module_by_identifier(0).is_some());
    assert!(a.graph.module_by_identifier(1).is_some());
    assert_eq!(a.entry_module_identifiers, vec![0]);
    assert_eq!(a.make_failed_dependencies.len(), 0);
    assert_eq!(a.make_failed_module.len(), 0);
    assert_eq!(a.diagnostics.len(), 0);
    assert!(a.has_module_graph_change);
    // every dependency of every resident module resolves to a resident module
    let m0 = a.graph.module_by_identifier(0).unwrap().clone();
    assert_eq!(m0.dependencies.len(), 1);
    match a.graph.resolution_of(m0.dependencies[0]) {
        DepResolution::Resolved(t) => assert_eq!(t, 1),
        other => panic!("entry import should resolve, got {:?}", other),
    }
    assert!(matches!(m0.state, SourceState::BuiltSucceed));
    assert_eq!(m0.original_source.as_deref(), Some("import './b.js';"));
}

/// Re-invoking make with the prior artifact and zero changes returns the
/// artifact unchanged and reports no module-graph change.
#[test]
fn make_is_idempotent_without_changes() {
    let (world, _names) = two_module_world();
    let entries = vec!["./a.js".to_string()];
    let mut cache = CodeCache::new();
    let first = make(&entries, &world, MakeArtifact::new(), &Vec::new(), &mut cache);
    let modules_before = first.graph.modules.len();
    let deps_before = first.graph.deps.len();
    let second = make(&entries, &world, first, &Vec::new(), &mut cache);
    assert!(!second.has_module_graph_change);
    assert_eq!(second.graph.modules.len(), modules_before);
    assert_eq!(second.graph.deps.len(), deps_before);
    assert_eq!(second.make_failed_dependencies.len(), 0);
    assert_eq!(second.make_failed_module.len(), 0);
    assert_eq!(second.diagnostics.len(), 0);
    assert_eq!(second.entry_module_identifiers, vec![0]);
}

/// A changed module is revoked and rebuilt; the rest of the graph survives.
#[test]
fn make_rebuilds_changed_modules() {
    let (mut world, _names) = two_module_world();
    let entries = vec!["./a.js".to_string()];
    let mut cache = CodeCache::new();
    let first = make(&entries, &world, MakeArtifact::new(), &Vec::new(), &mut cache);
    // the file behind ./b.js changed
    world.modules[1] = Some(world_module(ModuleType::Js, "export default 2;", Vec::new()));
    let mut cache2 = CodeCache::new();
    let second = make(&entries, &world, first, &vec![1], &mut cache2);
    assert!(second.has_module_graph_change);
    let m1 = second.graph.module_by_identifier(1).unwrap();
    assert_eq!(m1.original_source.as_deref(), Some("export default 2;"));
}

/// Resolution failure: the dependency is recorded with a diagnostic pointing
/// at the import location, and the build continues.
#[test]
fn resolution_failure_is_recorded() {
    let mut names = Interner::new();
    let a = names.intern("./a.js".to_string());
    let world = World {
        resolutions: vec![("./a.js".to_string(), a)],
        modules: vec![Some(world_module(
            ModuleType::Js,
            "import './missing';",
            vec![RawRef {
                kind: DepKind::Esm,
                request: "./missing".to_string(),
                span_start: 7,
                span_end: 18,
            }],
        ))],
    };
    let entries = vec!["./a.js".to_string()];
    let mut cache = CodeCache::new();
    let art = make(&entries, &world, MakeArtifact::new(), &Vec::new(), &mut cache);
    assert_eq!(art.make_failed_dependencies.len(), 1);
    let (failed_dep, parent) = art.make_failed_dependencies[0];
    assert_eq!(parent, Some(0));
    assert!(matches!(art.graph.resolution_of(failed_dep), DepResolution::Failed));
    assert_eq!(art.diagnostics.len(), 1);
    assert_eq!(art.diagnostics[0].kind, DiagnosticKind::ResolutionFailed);
    assert_eq!(art.diagnostics[0].span_start, 7);
    assert_eq!(art.diagnostics[0].message, "failed to resolve ./missing");
    // the entry module itself is resident and built
    assert!(art.graph.module_by_identifier(0).is_some());
}

/// A build failure (parse errors) marks the module failed and keeps its
/// diagnostics; dependencies of that module are not scanned.
#[test]
fn build_failure_marks_the_module() {
    let mut names = Interner::new();
    let a = names.intern("./a.js".to_string());
    let b = names.intern("./broken.js".to_string());
    let mut broken = world_module(ModuleType::Js, "syntax error", Vec::new());
    broken.program.errors.push(bundler_core::diagnostics::Diagnostic::build_failed(
        b,
        "unexpected token".to_string(),
    ));
    let world = World {
        resolutions: vec![
            ("./a.js".to_string(), a),
            ("./broken.js".to_string(), b),
        ],
        modules: vec![
            Some(world_module(ModuleType::Js, "import './broken.js';", vec![raw_ref(
                DepKind::Esm,
                "./broken.js",
            )])),
            Some(broken),
        ],
    };
    let entries = vec!["./a.js".to_string()];
    let mut cache = CodeCache::new();
    let art = make(&entries, &world, MakeArtifact::new(), &Vec::new(), &mut cache);
    assert_eq!(art.make_failed_module, vec![b]);
    let mb = art.graph.module_by_identifier(b).unwrap();
    assert!(matches!(mb.state, SourceState::BuiltFailed));
    assert_eq!(mb.dependencies.len(), 0);
    assert_eq!(art.diagnostics.len(), 1);
    assert_eq!(art.diagnostics[0].message, "unexpected token");
}

/// Cache correctness: a build answered from the cache yields the same
/// source and dependencies as a cold build, and counts as a hit.
#[test]
fn cache_hit_equals_cold_build() {
    let (world, _names) = two_module_world();
    let mut cache = CodeCache::new();
    let cold = build_task(&world, 0, &mut cache);
    assert_eq!(cache.hits, 0);
    let hit = build_task(&world, 0, &mut cache);
    assert_eq!(cache.hits, 1);
    match (cold, hit) {
        (
            BuildOutcome::Succeed { source: s1, dependencies: d1, blocks: b1, .. },
            BuildOutcome::Succeed { source: s2, dependencies: d2, blocks: b2, .. },
        ) => {
            assert_eq!(s1, s2);
            assert_eq!(d1.len(), d2.len());
            for (x, y) in d1.iter().zip(d2.iter()) {
                assert_eq!(x.request, y.request);
                assert_eq!(x.kind, y.kind);
                assert_eq!(x.parent, y.parent);
            }
            assert_eq!(b1.len(), b2.len());
        }
        _ => panic!("both builds should succeed"),
    }
}

/// An unreadable resource fails the build with the documented diagnostic.
#[test]
fn unreadable_resource_fails_the_build() {
    let world = World { resolutions: vec![("./a.js".to_string(), 0)], modules: vec![None] };
    let mut cache = CodeCache::new();
    match build_task(&world, 0, &mut cache) {
        BuildOutcome::Failed { diagnostics } => {
            assert_eq!(diagnostics.len(), 1);
            assert_eq!(diagnostics[0].kind, DiagnosticKind::BuildFailed);
            assert_eq!(diagnostics[0].message, "module resource cannot be read");
        }
        _ => panic!("build of an unreadable resource must fail"),
    }
}
