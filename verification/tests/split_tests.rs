//! Split-chunks scenarios: the vendor rule, priority dominance, limit
//! safety and run-to-run determinism.

use bundler_core::chunk_graph::build_chunk_graph;
use bundler_core::ids::Interner;
use bundler_core::make::{make, CodeCache, MakeArtifact, World, WorldModule};
use bundler_core::module_graph::{DepKind, ModuleType};
use bundler_core::options::{CacheGroupOptions, ChunkType, RawCacheGroupOptions, SplitChunksOptions};
use bundler_core::scanner::{Program, RawRef};
use bundler_core::split_chunks::{split_chunks, split_chunks_checked};

fn world_module(source: &str, refs: Vec<RawRef>) -> WorldModule {
    WorldModule {
        module_type: ModuleType::Js,
        source: source.to_string(),
        program: Program { refs, usage_spans: Vec::new(), errors: Vec::new(), warnings: Vec::new() },
        file_paths: Vec::new(),
        context_paths: Vec::new(),
        missing_paths: Vec::new(),
        build_paths: Vec::new(),
    }
}

fn raw_ref(kind: DepKind, request: &str) -> RawRef {
    RawRef { kind, request: request.to_string(), span_start: 0, span_end: 0 }
}

fn group(
    name: Option<&str>,
    priority: Option<i32>,
    test: Option<&str>,
    chunks: Option<ChunkType>,
    min_chunks: Option<u32>,
) -> CacheGroupOptions {
    CacheGroupOptions {
        name: name.map(|s| s.to_string()),
        priority,
        reuse_existing_chunk: None,
        test: test.map(|s| s.to_string()),
        chunks,
        min_chunks,
    }
}

fn default_options() -> SplitChunksOptions {
    SplitChunksOptions {
        cache_groups: Vec::new(),
        chunks: None,
        max_async_requests: None,
        max_initial_requests: None,
        min_chunks: None,
        min_size: None,
        enforce_size_threshold: None,
        min_remaining_size: None,
    }
}

/// Entries `a` and `b` both import lodash from node_modules; the vendor
/// cache group pulls lodash into a third chunk and out of `a` and `b`.
fn vendor_world() -> (World, Interner) {
    let mut names = Interner::new();
    let a = names.intern("./a.js".to_string());
    let b = names.intern("./b.js".to_string());
    let lodash = names.intern("node_modules/lodash/index.js".to_string());
    let world = World {
        resolutions: vec![
            ("./a.js".to_string(), a),
            ("./b.js".to_string(), b),
            ("lodash".to_string(), lodash),
        ],
        modules: vec![
            Some(world_module("import 'lodash';", vec![raw_ref(DepKind::Esm, "lodash")])),
            Some(world_module("import 'lodash';", vec![raw_ref(DepKind::Esm, "lodash")])),
            Some(world_module("lodash source body", Vec::new())),
        ],
    };
    (world, names)
}

#[test]
fn vendor_rule_extracts_lodash() {
    let (world, names) = vendor_world();
    let entries = vec!["./a.js".to_string(), "./b.js".to_string()];
    let mut cache = CodeCache::new();
    let art = make(&entries, &world, MakeArtifact::new(), &Vec::new(), &mut cache);
    let cgr = build_chunk_graph(&art.graph, &art.entry_module_identifiers, &names);
    assert_eq!(cgr.chunks.len(), 2);
    let mut o = default_options();
    o.cache_groups.push((
        "vendors".to_string(),
        group(Some("vendors"), Some(-10), Some("node_modules"), Some(ChunkType::All), Some(1)),
    ));
    let mut warnings = Vec::new();
    let out = split_chunks(cgr, &art.graph, &o, &names, &mut warnings);
    assert_eq!(out.chunks.len(), 3);
    let vendors = &out.chunks[2];
    assert_eq!(vendors.id, "vendors");
    assert_eq!(vendors.modules, vec![2]);
    assert!(!vendors.is_initial);
    // lodash removed from a's and b's chunks
    assert_eq!(out.chunks[0].modules, vec![0]);
    assert_eq!(out.chunks[1].modules, vec![1]);
    // the new group loads from both original chunks
    assert_eq!(out.groups[2].parents, vec![0, 1]);
}

/// Priority dominance: when two cache groups claim the same module, the one
/// with the strictly higher priority keeps it.
#[test]
fn priority_dominance() {
    let (world, names) = vendor_world();
    let entries = vec!["./a.js".to_string(), "./b.js".to_string()];
    let mut cache = CodeCache::new();
    let art = make(&entries, &world, MakeArtifact::new(), &Vec::new(), &mut cache);
    let cgr = build_chunk_graph(&art.graph, &art.entry_module_identifiers, &names);
    let mut o = default_options();
    o.cache_groups.push((
        "low".to_string(),
        group(Some("low"), Some(-10), Some("node_modules"), Some(ChunkType::All), Some(1)),
    ));
    o.cache_groups.push((
        "high".to_string(),
        group(Some("high"), Some(10), Some("node_modules"), Some(ChunkType::All), Some(1)),
    ));
    let mut warnings = Vec::new();
    let out = split_chunks(cgr, &art.graph, &o, &names, &mut warnings);
    // both groups form a split, but lodash stays only with the high group
    assert_eq!(out.chunks.len(), 4);
    let low = out.chunks.iter().find(|c| c.id == "low").unwrap();
    let high = out.chunks.iter().find(|c| c.id == "high").unwrap();
    assert_eq!(high.modules, vec![2]);
    assert_eq!(low.modules.len(), 0);
    // lodash left the entry chunks
    assert_eq!(out.chunks[0].modules, vec![0]);
    assert_eq!(out.chunks[1].modules, vec![1]);
}

/// Limit safety: with `maxInitialRequests` = 1, an initial parent can take
/// no split at all, so the vendor split is dropped for it.
#[test]
fn initial_request_limit_drops_splits() {
    let (world, names) = vendor_world();
    let entries = vec!["./a.js".to_string(), "./b.js".to_string()];
    let mut cache = CodeCache::new();
    let art = make(&entries, &world, MakeArtifact::new(), &Vec::new(), &mut cache);
    let cgr = build_chunk_graph(&art.graph, &art.entry_module_identifiers, &names);
    let mut o = default_options();
    o.max_initial_requests = Some(1);
    o.cache_groups.push((
        "vendors".to_string(),
        group(Some("vendors"), Some(-10), Some("node_modules"), Some(ChunkType::All), Some(1)),
    ));
    let mut warnings = Vec::new();
    let out = split_chunks(cgr, &art.graph, &o, &names, &mut warnings);
    // no surviving split loads from an initial parent
    for g in out.groups.iter().skip(2) {
        assert!(g.parents.is_empty());
    }
    // lodash stays in the entry chunks
    assert_eq!(out.chunks[0].modules, vec![0, 2]);
    assert_eq!(out.chunks[1].modules, vec![1, 2]);
}

/// With `maxInitialRequests` = 2 the single vendor split fits the cap.
#[test]
fn initial_request_limit_allows_one_split() {
    let (world, names) = vendor_world();
    let entries = vec!["./a.js".to_string(), "./b.js".to_string()];
    let mut cache = CodeCache::new();
    let art = make(&entries, &world, MakeArtifact::new(), &Vec::new(), &mut cache);
    let cgr = build_chunk_graph(&art.graph, &art.entry_module_identifiers, &names);
    let mut o = default_options();
    o.max_initial_requests = Some(2);
    o.cache_groups.push((
        "vendors".to_string(),
        group(Some("vendors"), Some(-10), Some("node_modules"), Some(ChunkType::All), Some(1)),
    ));
    let mut warnings = Vec::new();
    let out = split_chunks(cgr, &art.graph, &o, &names, &mut warnings);
    assert_eq!(out.chunks.len(), 3);
    assert_eq!(out.chunks[2].modules, vec![2]);
    assert_eq!(out.groups[2].parents, vec![0, 1]);
}

/// Determinism: for a fixed module graph and options, two runs of the
/// engine produce identical output.
#[test]
fn split_is_deterministic() {
    let (world, names) = vendor_world();
    let entries = vec!["./a.js".to_string(), "./b.js".to_string()];
    let mut cache = CodeCache::new();
    let art = make(&entries, &world, MakeArtifact::new(), &Vec::new(), &mut cache);
    let mut o = default_options();
    o.cache_groups.push((
        "vendors".to_string(),
        group(Some("vendors"), Some(-10), Some("node_modules"), Some(ChunkType::All), Some(1)),
    ));
    let cgr1 = build_chunk_graph(&art.graph, &art.entry_module_identifiers, &names);
    let cgr2 = build_chunk_graph(&art.graph, &art.entry_module_identifiers, &names);
    let mut w1 = Vec::new();
    let mut w2 = Vec::new();
    let out1 = split_chunks(cgr1, &art.graph, &o, &names, &mut w1);
    let out2 = split_chunks(cgr2, &art.graph, &o, &names, &mut w2);
    assert_eq!(out1.chunks.len(), out2.chunks.len());
    for (c1, c2) in out1.chunks.iter().zip(out2.chunks.iter()) {
        assert_eq!(c1.id, c2.id);
        assert_eq!(c1.modules, c2.modules);
        assert_eq!(c1.is_initial, c2.is_initial);
    }
    for (g1, g2) in out1.groups.iter().zip(out2.groups.iter()) {
        assert_eq!(g1.parents, g2.parents);
        assert_eq!(g1.children, g2.children);
    }
}

/// A feasibility threshold drops a split whose total size is too small,
/// unless the enforce threshold overrides it.
#[test]
fn min_size_filters_small_splits() {
    let (world, names) = vendor_world();
    let entries = vec!["./a.js".to_string(), "./b.js".to_string()];
    let mut cache = CodeCache::new();
    let art = make(&entries, &world, MakeArtifact::new(), &Vec::new(), &mut cache);
    let mut o = default_options();
    o.min_size = Some(1_000_000);
    o.cache_groups.push((
        "vendors".to_string(),
        group(Some("vendors"), Some(-10), Some("node_modules"), Some(ChunkType::All), Some(1)),
    ));
    let cgr = build_chunk_graph(&art.graph, &art.entry_module_identifiers, &names);
    let mut warnings = Vec::new();
    let out = split_chunks(cgr, &art.graph, &o, &names, &mut warnings);
    assert_eq!(out.chunks.len(), 2);

    let mut o2 = default_options();
    o2.min_size = Some(1_000_000);
    o2.enforce_size_threshold = Some(1);
    o2.cache_groups.push((
        "vendors".to_string(),
        group(Some("vendors"), Some(-10), Some("node_modules"), Some(ChunkType::All), Some(1)),
    ));
    let cgr2 = build_chunk_graph(&art.graph, &art.entry_module_identifiers, &names);
    let mut warnings2 = Vec::new();
    let out2 = split_chunks(cgr2, &art.graph, &o2, &names, &mut warnings2);
    assert_eq!(out2.chunks.len(), 3);
}

/// The raw cache-group options resolve field for field, with the chunk
/// selector parsed.
#[test]
fn raw_cache_group_options_resolve() {
    let raw = RawCacheGroupOptions {
        priority: Some(-10),
        reuse_existing_chunk: Some(false),
        test: Some("node_modules".to_string()),
        chunks: Some("all".to_string()),
        min_chunks: Some(1),
        name: Some("vendors".to_string()),
    };
    let cg = raw.to_compiler_option();
    assert_eq!(cg.priority, Some(-10));
    assert_eq!(cg.reuse_existing_chunk, Some(false));
    assert_eq!(cg.test.as_deref(), Some("node_modules"));
    assert_eq!(cg.chunks, Some(ChunkType::All));
    assert_eq!(cg.min_chunks, Some(1));
    assert_eq!(cg.name.as_deref(), Some("vendors"));
}

/// An impossible cap of zero initial requests degrades: every split that
/// would load from an initial parent is dropped and the build proceeds.
#[test]
fn zero_request_cap_degrades() {
    let (world, names) = vendor_world();
    let entries = vec!["./a.js".to_string(), "./b.js".to_string()];
    let mut cache = CodeCache::new();
    let art = make(&entries, &world, MakeArtifact::new(), &Vec::new(), &mut cache);
    let cgr = build_chunk_graph(&art.graph, &art.entry_module_identifiers, &names);
    let mut o = default_options();
    o.max_initial_requests = Some(0);
    o.cache_groups.push((
        "vendors".to_string(),
        group(Some("vendors"), Some(-10), Some("node_modules"), Some(ChunkType::All), Some(1)),
    ));
    let mut warnings = Vec::new();
    let out = split_chunks(cgr, &art.graph, &o, &names, &mut warnings);
    for g in out.groups.iter().skip(2) {
        assert!(g.parents.is_empty());
    }
    assert_eq!(out.chunks[0].modules, vec![0, 2]);
    assert_eq!(out.chunks[1].modules, vec![1, 2]);
}

/// With equal priorities, the larger claim (more modules) wins the module.
#[test]
fn tie_break_prefers_larger_claim() {
    let mut names = Interner::new();
    let a = names.intern("./a.js".to_string());
    let v1 = names.intern("node_modules/one.js".to_string());
    let v2 = names.intern("node_modules/two.js".to_string());
    let world = World {
        resolutions: vec![
            ("./a.js".to_string(), a),
            ("one".to_string(), v1),
            ("two".to_string(), v2),
        ],
        modules: vec![
            Some(world_module(
                "import 'one';\nimport 'two';",
                vec![raw_ref(DepKind::Esm, "one"), raw_ref(DepKind::Esm, "two")],
            )),
            Some(world_module("one body", Vec::new())),
            Some(world_module("two body", Vec::new())),
        ],
    };
    let entries = vec!["./a.js".to_string()];
    let mut cache = CodeCache::new();
    let art = make(&entries, &world, MakeArtifact::new(), &Vec::new(), &mut cache);
    let cgr = build_chunk_graph(&art.graph, &art.entry_module_identifiers, &names);
    let mut o = default_options();
    // "wide" claims both vendor modules, "narrow" only one; equal priority
    o.cache_groups.push((
        "narrow".to_string(),
        group(Some("narrow"), Some(0), Some("one.js"), Some(ChunkType::All), Some(1)),
    ));
    o.cache_groups.push((
        "wide".to_string(),
        group(Some("wide"), Some(0), Some("node_modules"), Some(ChunkType::All), Some(1)),
    ));
    let mut warnings = Vec::new();
    let out = split_chunks(cgr, &art.graph, &o, &names, &mut warnings);
    let wide = out.chunks.iter().find(|c| c.id == "wide").unwrap();
    let narrow = out.chunks.iter().find(|c| c.id == "narrow").unwrap();
    assert_eq!(wide.modules, vec![v1, v2]);
    assert_eq!(narrow.modules.len(), 0);
}


/// The cache-group test is a regex: a pattern with metacharacters matches
/// per regex semantics, not as a literal substring.
#[test]
fn cache_group_test_is_a_regex() {
    let mut names = Interner::new();
    let a = names.intern("./a.js".to_string());
    let abc = names.intern("abc".to_string());
    let world = World {
        resolutions: vec![
            ("./a.js".to_string(), a),
            ("abc".to_string(), abc),
        ],
        modules: vec![
            Some(world_module("import 'abc';", vec![raw_ref(DepKind::Esm, "abc")])),
            Some(world_module("abc body", Vec::new())),
        ],
    };
    let entries = vec!["./a.js".to_string()];
    let mut cache = CodeCache::new();
    let art = make(&entries, &world, MakeArtifact::new(), &Vec::new(), &mut cache);
    let cgr = build_chunk_graph(&art.graph, &art.entry_module_identifiers, &names);
    let mut o = default_options();
    // the regex source a.c matches the name "abc"; a literal test would not
    o.cache_groups.push((
        "dotted".to_string(),
        group(Some("dotted"), Some(0), Some("a.c"), Some(ChunkType::All), Some(1)),
    ));
    let mut warnings = Vec::new();
    let out = split_chunks(cgr, &art.graph, &o, &names, &mut warnings);
    assert_eq!(out.chunks.len(), 2);
    let dotted = out.chunks.iter().find(|c| c.id == "dotted").unwrap();
    assert_eq!(dotted.modules, vec![abc]);
    // and an anchored regex that does not match the name claims nothing
    let art2 = make(&entries, &world, MakeArtifact::new(), &Vec::new(), &mut cache);
    let cgr2 = build_chunk_graph(&art2.graph, &art2.entry_module_identifiers, &names);
    let mut o2 = default_options();
    o2.cache_groups.push((
        "anchored".to_string(),
        group(Some("anchored"), Some(0), Some("^xyz$"), Some(ChunkType::All), Some(1)),
    ));
    let mut warnings2 = Vec::new();
    let out2 = split_chunks(cgr2, &art2.graph, &o2, &names, &mut warnings2);
    assert_eq!(out2.chunks.len(), 1);
}

/// An invalid regex source in a cache-group test is a configuration error
/// the checked entry reports.
#[test]
fn invalid_test_pattern_is_rejected() {
    let (world, names) = vendor_world();
    let entries = vec!["./a.js".to_string(), "./b.js".to_string()];
    let mut cache = CodeCache::new();
    let art = make(&entries, &world, MakeArtifact::new(), &Vec::new(), &mut cache);
    let cgr = build_chunk_graph(&art.graph, &art.entry_module_identifiers, &names);
    let mut o = default_options();
    o.cache_groups.push((
        "broken".to_string(),
        group(Some("broken"), Some(0), Some("foo(bar"), Some(ChunkType::All), Some(1)),
    ));
    let mut warnings = Vec::new();
    match split_chunks_checked(cgr, &art.graph, &o, &names, &mut warnings) {
        Err(d) => assert_eq!(
            d.kind,
            bundler_core::diagnostics::DiagnosticKind::InvariantViolation,
        ),
        Ok(_) => panic!("an invalid regex source must be rejected"),
    }
}

/// Dropping a split to satisfy a request cap emits an over-constraint
/// warning; a run without drops emits none.
#[test]
fn over_constraint_emits_a_warning() {
    let (world, names) = vendor_world();
    let entries = vec!["./a.js".to_string(), "./b.js".to_string()];
    let mut cache = CodeCache::new();
    let art = make(&entries, &world, MakeArtifact::new(), &Vec::new(), &mut cache);
    let cgr = build_chunk_graph(&art.graph, &art.entry_module_identifiers, &names);
    let mut o = default_options();
    o.max_initial_requests = Some(1);
    o.cache_groups.push((
        "vendors".to_string(),
        group(Some("vendors"), Some(-10), Some("node_modules"), Some(ChunkType::All), Some(1)),
    ));
    let mut warnings = Vec::new();
    let _out = split_chunks(cgr, &art.graph, &o, &names, &mut warnings);
    assert!(!warnings.is_empty());
    assert_eq!(
        warnings[0].kind,
        bundler_core::diagnostics::DiagnosticKind::SplitChunksOverConstraint,
    );
    assert_eq!(warnings[0].severity, bundler_core::diagnostics::Severity::Warning);

    let art2 = make(&entries, &world, MakeArtifact::new(), &Vec::new(), &mut cache);
    let cgr2 = build_chunk_graph(&art2.graph, &art2.entry_module_identifiers, &names);
    let mut o2 = default_options();
    o2.cache_groups.push((
        "vendors".to_string(),
        group(Some("vendors"), Some(-10), Some("node_modules"), Some(ChunkType::All), Some(1)),
    ));
    let mut warnings2 = Vec::new();
    let _out2 = split_chunks(cgr2, &art2.graph, &o2, &names, &mut warnings2);
    assert!(warnings2.is_empty());
}
