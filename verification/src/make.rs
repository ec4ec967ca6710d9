//! The make pipeline: a cooperative task loop that factorizes dependencies,
//! builds modules, scans their dependencies and recursively enqueues what it
//! discovers, until the module graph is closed.
//!
//! The collaborators the pipeline consults — the resolver and the frontend —
//! are passed in as one immutable [`World`] snapshot: a resolution table and,
//! per module, the source and the frontend's scan of it. Everything the loop
//! decides from those answers is verified here.

use vstd::prelude::*;
use crate::diagnostics::Diagnostic;
use crate::ids::Id;
use crate::module_graph::{
    Dep, DepId, DepKind, DepResolution, Mod, ModuleGraph, ModuleId, ModuleType, SourceState,
};
use crate::path_set::PathSet;
use crate::scanner::{
    lemma_scan_lengths, scan_dependencies, spec_async_deps, spec_sync_deps, Program,
};

verus! {

/// What the resolver and the frontend answer for one module: its type, its
/// source text, the frontend's scan of that source, and the path handles the
/// build touched.
pub struct WorldModule {
    pub module_type: ModuleType,
    pub source: String,
    pub program: Program,
    pub file_paths: Vec<Id>,
    pub context_paths: Vec<Id>,
    pub missing_paths: Vec<Id>,
    pub build_paths: Vec<Id>,
}

/// An immutable snapshot of the collaborators' answers for one make cycle:
/// the resolver's table from request strings to module identifiers, and the
/// readable modules.
pub struct World {
    /// Resolution rules; the first pair whose request matches wins. A request
    /// with no rule fails to resolve.
    pub resolutions: Vec<(String, ModuleId)>,
    /// Modules by identifier; `None` means the resource cannot be read.
    pub modules: Vec<Option<WorldModule>>,
}

/// What `rules` resolve `req` to: the first matching rule's target.
pub open spec fn spec_resolve(rules: Seq<(String, ModuleId)>, req: Seq<char>) -> Option<ModuleId>
    decreases rules.len(),
{
    if rules.len() == 0 {
        None
    } else if rules[0].0@ == req {
        Some(rules[0].1)
    } else {
        spec_resolve(rules.drop_first(), req)
    }
}

impl World {
    pub open spec fn has_module(&self, m: int) -> bool {
        0 <= m < self.modules@.len() && self.modules@[m] is Some
    }

    pub open spec fn module_of(&self, m: int) -> WorldModule {
        self.modules@[m]->Some_0
    }

    /// Whether building module `m` succeeds: the resource is readable and
    /// its parse raised no errors.
    pub open spec fn build_succeeds(&self, m: int) -> bool {
        self.has_module(m) && self.module_of(m).program.errors@.len() == 0
    }
}

/// A prefix of the rules without a match does not change the resolution.
proof fn lemma_resolve_skip(rules: Seq<(String, ModuleId)>, req: Seq<char>, i: int)
    requires
        0 <= i <= rules.len(),
        forall|j: int| 0 <= j < i ==> (#[trigger] rules[j]).0@ != req,
    ensures
        spec_resolve(rules, req) == spec_resolve(rules.skip(i), req),
    decreases i,
{
    if i > 0 {
        lemma_resolve_skip(rules, req, i - 1);
        let s = rules.skip(i - 1);
        assert(s[0] == rules[i - 1]);
        assert(s.drop_first() =~= rules.skip(i));
    } else {
        assert(rules.skip(0) =~= rules);
    }
}

/// Ask the resolver for the module a request resolves to.
pub fn resolve_request(world: &World, req: &String) -> (r: Option<ModuleId>)
    ensures
        r == spec_resolve(world.resolutions@, req@),
{
    let n = world.resolutions.len();
    let mut i: usize = 0;
    while i < n
        invariant
            n == world.resolutions@.len(),
            i <= n,
            forall|j: int| 0 <= j < i ==> (#[trigger] world.resolutions@[j]).0@ != req@,
        decreases n - i,
    {
        if world.resolutions[i].0 == *req {
            proof {
                lemma_resolve_skip(world.resolutions@, req@, i as int);
                assert(world.resolutions@.skip(i as int)[0] == world.resolutions@[i as int]);
            }
            return Some(world.resolutions[i].1);
        }
        i = i + 1;
    }
    proof {
        lemma_resolve_skip(world.resolutions@, req@, n as int);
        assert(world.resolutions@.skip(n as int) =~= Seq::<(String, ModuleId)>::empty());
    }
    None
}

/// What one build task produced for a module.
pub enum BuildOutcome {
    /// The resource could not be read, or its parse raised errors.
    Failed { diagnostics: Vec<Diagnostic> },
    /// The build succeeded: source, scanned dependencies and blocks, touched
    /// paths and the module type the frontend assigned.
    Succeed {
        source: String,
        dependencies: Vec<Dep>,
        blocks: Vec<Dep>,
        file_paths: Vec<Id>,
        context_paths: Vec<Id>,
        missing_paths: Vec<Id>,
        build_paths: Vec<Id>,
        module_type: ModuleType,
    },
}

/// Whether `o` is exactly what building module `m` against `w` yields: a
/// cold build and a cache hit both satisfy this, which pins their sources,
/// dependencies and diagnostics to the same values.
pub open spec fn outcome_matches(w: World, m: ModuleId, o: BuildOutcome) -> bool {
    if w.build_succeeds(m as int) {
        o matches BuildOutcome::Succeed {
            source, dependencies, blocks, file_paths, context_paths, missing_paths, build_paths,
            module_type,
        } && {
            let wm = w.module_of(m as int);
            &&& source@ == wm.source@
            &&& dependencies@ == spec_sync_deps(wm.program.refs@, m)
            &&& blocks@ == spec_async_deps(wm.program.refs@, m)
            &&& file_paths@ == wm.file_paths@
            &&& context_paths@ == wm.context_paths@
            &&& missing_paths@ == wm.missing_paths@
            &&& build_paths@ == wm.build_paths@
            &&& module_type == wm.module_type
        }
    } else if w.has_module(m as int) {
        o matches BuildOutcome::Failed { diagnostics }
            && diagnostics@ == w.module_of(m as int).program.errors@
    } else {
        o matches BuildOutcome::Failed { diagnostics }
            && diagnostics@.len() == 1
            && diagnostics@[0].severity is Error
            && diagnostics@[0].kind is BuildFailed
            && diagnostics@[0].module == Some(m)
            && diagnostics@[0].span_start == 0
            && diagnostics@[0].span_end == 0
            && diagnostics@[0].message@ == "module resource cannot be read"@
    }
}

/// Cache correctness: two build outcomes for the same module against the
/// same world — a cache hit and a cold build, in particular — agree on
/// success, and on the original source, the scanned dependencies and blocks,
/// and the diagnostics.
pub proof fn lemma_cache_correct(w: World, m: ModuleId, hit: BuildOutcome, cold: BuildOutcome)
    requires
        outcome_matches(w, m, hit),
        outcome_matches(w, m, cold),
    ensures
        hit is Succeed <==> cold is Succeed,
        hit matches BuildOutcome::Succeed { source: s1, dependencies: d1, blocks: b1, .. }
            ==> cold matches BuildOutcome::Succeed { source: s2, dependencies: d2, blocks: b2, .. }
                && s1@ == s2@ && d1@ == d2@ && b1@ == b2@,
        hit matches BuildOutcome::Failed { diagnostics: g1 }
            ==> cold matches BuildOutcome::Failed { diagnostics: g2 }
                && crate::diagnostics::diags_match(g1@, g2@),
{
}

/// A field-for-field copy of a dependency record.
pub fn clone_dep(d: &Dep) -> (r: Dep)
    ensures
        r == *d,
{
    Dep {
        kind: d.kind,
        request: d.request.clone(),
        parent: d.parent,
        span_start: d.span_start,
        span_end: d.span_end,
    }
}

/// A field-for-field copy of a dependency list.
pub fn clone_deps(v: &Vec<Dep>) -> (r: Vec<Dep>)
    ensures
        r@ == v@,
{
    let mut r: Vec<Dep> = Vec::new();
    let n = v.len();
    let mut i: usize = 0;
    while i < n
        invariant
            n == v@.len(),
            i <= n,
            r@ == v@.take(i as int),
        decreases n - i,
    {
        r.push(clone_dep(&v[i]));
        proof {
            assert(v@.take(i + 1 as int) =~= v@.take(i as int).push(v@[i as int]));
        }
        i = i + 1;
    }
    proof {
        assert(v@.take(n as int) =~= v@);
    }
    r
}

/// A copy of a build outcome that matches whatever the original matched.
fn clone_outcome(o: &BuildOutcome, Ghost(w): Ghost<World>, Ghost(m): Ghost<ModuleId>)
    -> (r: BuildOutcome)
    requires
        outcome_matches(w, m, *o),
    ensures
        outcome_matches(w, m, r),
{
    match o {
        BuildOutcome::Failed { diagnostics } => BuildOutcome::Failed {
            diagnostics: crate::scanner::clone_diagnostics(diagnostics),
        },
        BuildOutcome::Succeed {
            source, dependencies, blocks, file_paths, context_paths, missing_paths, build_paths,
            module_type,
        } => BuildOutcome::Succeed {
            source: source.clone(),
            dependencies: clone_deps(dependencies),
            blocks: clone_deps(blocks),
            file_paths: file_paths.clone(),
            context_paths: context_paths.clone(),
            missing_paths: missing_paths.clone(),
            build_paths: build_paths.clone(),
            module_type: *module_type,
        },
    }
}

/// The shared build cache: outcomes keyed by module identity. Every entry is
/// exactly what a cold build would produce against the current world, so a
/// hit and a cold build are interchangeable.
pub struct CodeCache {
    pub entries: Vec<(ModuleId, BuildOutcome)>,
    /// How many lookups were answered from the cache.
    pub hits: u64,
}

impl CodeCache {
    /// Every cached outcome is the one building that module against `w`
    /// yields.
    pub open spec fn wf(&self, w: World) -> bool {
        forall|i: int| 0 <= i < self.entries@.len()
            ==> outcome_matches(w, (#[trigger] self.entries@[i]).0, self.entries@[i].1)
    }

    pub fn new() -> (r: CodeCache)
        ensures
            forall|w: World| r.wf(w),
            r.hits == 0,
    {
        CodeCache { entries: Vec::new(), hits: 0 }
    }

    /// The cached outcome for module `m`, if present.
    fn lookup(&self, m: ModuleId, Ghost(w): Ghost<World>) -> (r: Option<BuildOutcome>)
        requires
            self.wf(w),
        ensures
            r matches Some(o) ==> outcome_matches(w, m, o),
        decreases self.entries@.len(),
    {
        let n = self.entries.len();
        let mut i: usize = 0;
        while i < n
            invariant
                self.wf(w),
                n == self.entries@.len(),
                i <= n,
            decreases n - i,
        {
            if self.entries[i].0 == m {
                return Some(clone_outcome(&self.entries[i].1, Ghost(w), Ghost(m)));
            }
            i = i + 1;
        }
        None
    }

    fn insert(&mut self, m: ModuleId, o: &BuildOutcome, Ghost(w): Ghost<World>)
        requires
            old(self).wf(w),
            outcome_matches(w, m, *o),
        ensures
            final(self).wf(w),
            final(self).hits == old(self).hits,
    {
        let copy = clone_outcome(o, Ghost(w), Ghost(m));
        self.entries.push((m, copy));
        proof {
            assert forall|i: int| 0 <= i < self.entries@.len()
                implies outcome_matches(w, (#[trigger] self.entries@[i]).0, self.entries@[i].1) by {
                if i < old(self).entries@.len() {
                    assert(self.entries@[i] == old(self).entries@[i]);
                }
            }
        }
    }
}

/// Build a module cold: read it from the world, scan its dependencies, and
/// package the outcome.
fn cold_build(world: &World, m: ModuleId) -> (o: BuildOutcome)
    ensures
        outcome_matches(*world, m, o),
{
    if m >= world.modules.len() {
        let msg = String::from_str("module resource cannot be read");
        let mut ds: Vec<Diagnostic> = Vec::new();
        ds.push(Diagnostic::build_failed(m, msg));
        return BuildOutcome::Failed { diagnostics: ds };
    }
    match &world.modules[m] {
        None => {
            let msg = String::from_str("module resource cannot be read");
            let mut ds: Vec<Diagnostic> = Vec::new();
            ds.push(Diagnostic::build_failed(m, msg));
            BuildOutcome::Failed { diagnostics: ds }
        }
        Some(wm) => {
            match scan_dependencies(&wm.program, wm.module_type, m) {
                Err(errors) => BuildOutcome::Failed { diagnostics: errors },
                Ok(scan) => BuildOutcome::Succeed {
                    source: wm.source.clone(),
                    dependencies: scan.dependencies,
                    blocks: scan.blocks,
                    file_paths: wm.file_paths.clone(),
                    context_paths: wm.context_paths.clone(),
                    missing_paths: wm.missing_paths.clone(),
                    build_paths: wm.build_paths.clone(),
                    module_type: wm.module_type,
                },
            }
        }
    }
}

/// The committed output of one make cycle.
pub struct MakeArtifact {
    pub graph: ModuleGraph,
    /// Dependencies that could not be resolved, with their issuing module.
    pub make_failed_dependencies: Vec<(DepId, Option<ModuleId>)>,
    /// Modules whose build failed.
    pub make_failed_module: Vec<ModuleId>,
    pub diagnostics: Vec<Diagnostic>,
    /// The modules the entry dependencies resolved to, in order, deduplicated.
    pub entry_module_identifiers: Vec<ModuleId>,
    /// The dependency records of the configured entries.
    pub entry_dependencies: Vec<DepId>,
    pub file_dependencies: PathSet,
    pub context_dependencies: PathSet,
    pub missing_dependencies: PathSet,
    pub build_dependencies: PathSet,
    /// Whether this cycle changed the module graph.
    pub has_module_graph_change: bool,
}

/// Every dependency listed by a resident module carries that module as its
/// parent.
pub open spec fn deps_linked(g: ModuleGraph) -> bool {
    forall|m: int, k: int| g.resident(m) && 0 <= k < g.module_at(m).dependencies@.len()
        ==> g.deps@[(#[trigger] g.module_at(m).dependencies@[k]) as int].parent
            == Some(m as usize)
}

/// Entry dependency records are in bounds, parentless and of entry kind.
pub open spec fn entry_linked(g: ModuleGraph, eds: Seq<DepId>) -> bool {
    forall|j: int| 0 <= j < eds.len() ==> (#[trigger] eds[j]) < g.deps@.len()
        && g.deps@[eds[j] as int].parent is None
        && g.deps@[eds[j] as int].kind is Entry
}

/// Every resolved dependency points at a resident module.
pub open spec fn resolved_resident(g: ModuleGraph) -> bool {
    forall|d: int| 0 <= d < g.resolutions@.len() && (#[trigger] g.resolutions@[d]) is Resolved
        ==> g.resident(g.resolutions@[d]->Resolved_0 as int)
}

/// Whether some resident module lists dependency `d`.
pub open spec fn listed(g: ModuleGraph, d: int) -> bool {
    exists|m: int, k: int| g.resident(m) && 0 <= k < g.module_at(m).dependencies@.len()
        && (#[trigger] g.module_at(m).dependencies@[k]) as int == d
}

/// Whether dependency `d` is reachable from the graph: listed by a resident
/// module, or one of the entry dependencies.
pub open spec fn listed_or_entry(g: ModuleGraph, eds: Seq<DepId>, d: int) -> bool {
    listed(g, d) || exists|j: int| 0 <= j < eds.len() && (#[trigger] eds[j]) as int == d
}

/// Whether the failed-dependencies set records `d` with its parent.
pub open spec fn recorded_failed(
    fd: Seq<(DepId, Option<ModuleId>)>,
    parent: Option<ModuleId>,
    d: int,
) -> bool {
    exists|i: int| 0 <= i < fd.len() && (#[trigger] fd[i]).0 as int == d && fd[i].1 == parent
}

/// A dependency is settled when it either resolves to a resident module or
/// its failure is recorded.
pub open spec fn settled(g: ModuleGraph, fd: Seq<(DepId, Option<ModuleId>)>, d: int) -> bool {
    ||| (g.resolutions@[d] is Resolved && g.resident(g.resolutions@[d]->Resolved_0 as int))
    ||| (g.resolutions@[d] is Failed && recorded_failed(fd, g.deps@[d].parent, d))
}

/// Graph closure: every dependency of every resident module, and every
/// entry dependency, either resolves to a resident module or is recorded in
/// the failed-dependencies set.
pub open spec fn artifact_closed(a: MakeArtifact) -> bool {
    forall|d: int| 0 <= d < a.graph.deps@.len()
        && #[trigger] listed_or_entry(a.graph, a.entry_dependencies@, d)
        ==> settled(a.graph, a.make_failed_dependencies@, d)
}

/// Structural well-formedness of an artifact's graph.
pub open spec fn artifact_wf(a: MakeArtifact) -> bool {
    &&& a.graph.wf()
    &&& deps_linked(a.graph)
    &&& entry_linked(a.graph, a.entry_dependencies@)
    &&& resolved_resident(a.graph)
}

/// The entry module list an artifact should carry: the targets of its entry
/// dependencies, in order, without repetition.
pub open spec fn spec_entries(g: ModuleGraph, eds: Seq<DepId>) -> Seq<ModuleId>
    decreases eds.len(),
{
    if eds.len() == 0 {
        Seq::empty()
    } else {
        let prefix = spec_entries(g, eds.drop_last());
        let d = eds.last();
        if d < g.resolutions@.len() && g.resolutions@[d as int] is Resolved {
            let t = g.resolutions@[d as int]->Resolved_0;
            if prefix.contains(t) {
                prefix
            } else {
                prefix.push(t)
            }
        } else {
            prefix
        }
    }
}

/// The artifact's four dependency-path sets cover every resident module's
/// own build-info sets (the module-graph path invariant, one direction:
/// revoked modules may leave paths behind).
pub open spec fn paths_recorded(a: MakeArtifact) -> bool {
    &&& forall|m: int, k: int| a.graph.resident(m)
            && 0 <= k < a.graph.module_at(m).file_dependencies@.len()
            ==> a.file_dependencies@.contains(
                #[trigger] a.graph.module_at(m).file_dependencies@[k])
    &&& forall|m: int, k: int| a.graph.resident(m)
            && 0 <= k < a.graph.module_at(m).context_dependencies@.len()
            ==> a.context_dependencies@.contains(
                #[trigger] a.graph.module_at(m).context_dependencies@[k])
    &&& forall|m: int, k: int| a.graph.resident(m)
            && 0 <= k < a.graph.module_at(m).missing_dependencies@.len()
            ==> a.missing_dependencies@.contains(
                #[trigger] a.graph.module_at(m).missing_dependencies@[k])
    &&& forall|m: int, k: int| a.graph.resident(m)
            && 0 <= k < a.graph.module_at(m).build_dependencies@.len()
            ==> a.build_dependencies@.contains(
                #[trigger] a.graph.module_at(m).build_dependencies@[k])
}

/// Whether dependency `d`'s resolution is exactly what the world's
/// resolver table dictates for its request: resolved to the table's target,
/// failed when the table has none.
pub open spec fn follows_resolver(w: World, g: ModuleGraph, d: int) -> bool {
    match spec_resolve(w.resolutions@, g.deps@[d].request@) {
        Some(m) => g.resolutions@[d] == DepResolution::Resolved(m),
        None => g.resolutions@[d] is Failed,
    }
}

/// Whether a resolution-failure diagnostic for dependency `d` (with issuer
/// `parent`) is on record: right kind, right module, the import location's
/// span.
pub open spec fn failure_diag_recorded(
    diags: Seq<Diagnostic>,
    g: ModuleGraph,
    parent: Option<ModuleId>,
    d: int,
) -> bool {
    exists|j: int| 0 <= j < diags.len()
        && (#[trigger] diags[j]).kind is ResolutionFailed
        && diags[j].severity is Error
        && diags[j].module == parent
        && diags[j].span_start == g.deps@[d].span_start
        && diags[j].span_end == g.deps@[d].span_end
}

/// Whether `d` sits in the unprocessed part of the queue.
pub open spec fn in_suffix(q: Seq<DepId>, qi: int, d: int) -> bool {
    exists|j: int| qi <= j < q.len() && (#[trigger] q[j]) as int == d
}

pub open spec fn resident_in(mods: Seq<Option<Mod>>, m: int) -> bool {
    0 <= m < mods.len() && mods[m] is Some
}

/// A world module not yet resident in the graph.
pub open spec fn is_undiscovered(w: World, mods: Seq<Option<Mod>>, m: int) -> bool {
    w.has_module(m) && !resident_in(mods, m)
}

/// How many world modules the graph has not discovered yet, among the first
/// `n` identifiers.
pub open spec fn undiscovered_count(w: World, mods: Seq<Option<Mod>>, n: int) -> int
    decreases n,
{
    if n <= 0 {
        0
    } else {
        undiscovered_count(w, mods, n - 1)
            + if is_undiscovered(w, mods, n - 1) { 1int } else { 0int }
    }
}

proof fn lemma_undiscovered_nonneg(w: World, mods: Seq<Option<Mod>>, n: int)
    ensures
        undiscovered_count(w, mods, n) >= 0,
    decreases n,
{
    if n > 0 {
        lemma_undiscovered_nonneg(w, mods, n - 1);
    }
}

proof fn lemma_undiscovered_insert(
    w: World,
    mods1: Seq<Option<Mod>>,
    mods2: Seq<Option<Mod>>,
    mid: int,
    n: int,
)
    requires
        !resident_in(mods1, mid),
        resident_in(mods2, mid),
        forall|m: int| 0 <= m < n && m != mid
            ==> (resident_in(mods1, m) <==> resident_in(mods2, m)),
    ensures
        undiscovered_count(w, mods1, n) == undiscovered_count(w, mods2, n)
            + if 0 <= mid < n && w.has_module(mid) { 1int } else { 0int },
    decreases n,
{
    if n > 0 {
        lemma_undiscovered_insert(w, mods1, mods2, mid, n - 1);
    }
}

/// How many references the frontend scanned out of world module `m`.
pub open spec fn refs_of(w: World, m: int) -> int {
    if w.has_module(m) { w.module_of(m).program.refs@.len() as int } else { 0 }
}

/// The largest reference count among the first `n` world modules.
pub open spec fn max_refs(w: World, n: int) -> int
    decreases n,
{
    if n <= 0 {
        0
    } else if refs_of(w, n - 1) > max_refs(w, n - 1) {
        refs_of(w, n - 1)
    } else {
        max_refs(w, n - 1)
    }
}

proof fn lemma_max_refs_nonneg(w: World, n: int)
    ensures
        max_refs(w, n) >= 0,
    decreases n,
{
    if n > 0 {
        lemma_max_refs_nonneg(w, n - 1);
    }
}

proof fn lemma_max_refs_bound(w: World, m: int, n: int)
    requires
        0 <= m < n,
    ensures
        refs_of(w, m) <= max_refs(w, n),
    decreases n,
{
    if m < n - 1 {
        lemma_max_refs_bound(w, m, n - 1);
    }
}

/// Linking predicates carry over between graphs with the same module and
/// dependency arenas.
proof fn lemma_preds_same_views(g1: ModuleGraph, g2: ModuleGraph, eds: Seq<DepId>)
    requires
        deps_linked(g1),
        entry_linked(g1, eds),
        g2.modules@ == g1.modules@,
        g2.deps@ == g1.deps@,
    ensures
        deps_linked(g2),
        entry_linked(g2, eds),
{
    assert forall|m: int, k: int|
        g2.resident(m) && 0 <= k < g2.module_at(m).dependencies@.len()
        implies g2.deps@[(#[trigger] g2.module_at(m).dependencies@[k]) as int].parent
            == Some(m as usize) by {
        assert(g1.resident(m));
        assert(g2.module_at(m) == g1.module_at(m));
        assert(g1.deps@[g1.module_at(m).dependencies@[k] as int].parent == Some(m as usize));
    }
}

/// Reachability of a dependency carries over between graphs with the same
/// module arena.
proof fn lemma_listed_same(g1: ModuleGraph, g2: ModuleGraph, eds: Seq<DepId>, d: int)
    requires
        g2.modules@ == g1.modules@,
    ensures
        listed_or_entry(g2, eds, d) == listed_or_entry(g1, eds, d),
{
    if listed(g1, d) {
        let (m, k) = choose|m: int, k: int|
            g1.resident(m) && 0 <= k < g1.module_at(m).dependencies@.len()
                && (#[trigger] g1.module_at(m).dependencies@[k]) as int == d;
        assert(g2.resident(m));
        assert(g2.module_at(m) == g1.module_at(m));
        assert(g2.module_at(m).dependencies@[k] as int == d);
        assert(listed(g2, d));
    }
    if listed(g2, d) {
        let (m, k) = choose|m: int, k: int|
            g2.resident(m) && 0 <= k < g2.module_at(m).dependencies@.len()
                && (#[trigger] g2.module_at(m).dependencies@[k]) as int == d;
        assert(g1.resident(m));
        assert(g1.module_at(m) == g2.module_at(m));
        assert(g1.module_at(m).dependencies@[k] as int == d);
        assert(listed(g1, d));
    }
}

/// The working state of one make cycle: the growing graph, the failure
/// records, the diagnostics, and the FIFO queue of factorize obligations.
pub struct MakeTaskContext {
    pub graph: ModuleGraph,
    pub make_failed_dependencies: Vec<(DepId, Option<ModuleId>)>,
    pub make_failed_module: Vec<ModuleId>,
    pub diagnostics: Vec<Diagnostic>,
    pub entry_dependencies: Vec<DepId>,
    pub file_dependencies: PathSet,
    pub context_dependencies: PathSet,
    pub missing_dependencies: PathSet,
    pub build_dependency_paths: PathSet,
    pub has_module_graph_change: bool,
    /// FIFO queue of dependency identifiers awaiting factorization.
    pub queue: Vec<DepId>,
    /// How many queue entries have been processed.
    pub qi: usize,
}

impl MakeTaskContext {
    /// The task-loop invariant: the graph is well formed and linked, every
    /// resolved dependency points at a resident module, every reachable
    /// failed dependency is recorded, and every reachable pending dependency
    /// still waits in the queue.
    pub open spec fn inv(&self) -> bool {
        &&& self.graph.wf()
        &&& deps_linked(self.graph)
        &&& entry_linked(self.graph, self.entry_dependencies@)
        &&& resolved_resident(self.graph)
        &&& self.qi <= self.queue@.len()
        &&& forall|j: int| 0 <= j < self.queue@.len()
                ==> (#[trigger] self.queue@[j]) < self.graph.deps@.len()
        &&& forall|d: int| 0 <= d < self.graph.deps@.len()
                && (#[trigger] self.graph.resolutions@[d]) is Failed
                && listed_or_entry(self.graph, self.entry_dependencies@, d)
                ==> recorded_failed(
                    self.make_failed_dependencies@,
                    self.graph.deps@[d].parent,
                    d,
                )
        &&& forall|d: int| 0 <= d < self.graph.deps@.len()
                && (#[trigger] self.graph.resolutions@[d]) is Pending
                && listed_or_entry(self.graph, self.entry_dependencies@, d)
                ==> in_suffix(self.queue@, self.qi as int, d)
    }

    /// The working state's path sets cover every resident module's own
    /// build-info sets.
    pub open spec fn paths_ok(&self) -> bool {
        &&& forall|m: int, k: int| self.graph.resident(m)
                && 0 <= k < self.graph.module_at(m).file_dependencies@.len()
                ==> self.file_dependencies@.contains(
                    #[trigger] self.graph.module_at(m).file_dependencies@[k])
        &&& forall|m: int, k: int| self.graph.resident(m)
                && 0 <= k < self.graph.module_at(m).context_dependencies@.len()
                ==> self.context_dependencies@.contains(
                    #[trigger] self.graph.module_at(m).context_dependencies@[k])
        &&& forall|m: int, k: int| self.graph.resident(m)
                && 0 <= k < self.graph.module_at(m).missing_dependencies@.len()
                ==> self.missing_dependencies@.contains(
                    #[trigger] self.graph.module_at(m).missing_dependencies@[k])
        &&& forall|m: int, k: int| self.graph.resident(m)
                && 0 <= k < self.graph.module_at(m).build_dependencies@.len()
                ==> self.build_dependency_paths@.contains(
                    #[trigger] self.graph.module_at(m).build_dependencies@[k])
    }

    /// The termination measure of the task loop: discovering a module pays
    /// for every factorize task it can ever spawn.
    pub open spec fn measure(&self, w: World) -> int {
        (max_refs(w, w.modules@.len() as int) + 2)
            * undiscovered_count(w, self.graph.modules@, w.modules@.len() as int)
            + self.queue@.len() - self.qi
    }

    proof fn lemma_measure_nonneg(&self, w: World)
        requires
            self.qi <= self.queue@.len(),
        ensures
            self.measure(w) >= 0,
    {
        lemma_max_refs_nonneg(w, w.modules@.len() as int);
        lemma_undiscovered_nonneg(w, self.graph.modules@, w.modules@.len() as int);
        vstd::arithmetic::mul::lemma_mul_nonnegative(
            max_refs(w, w.modules@.len() as int) + 2,
            undiscovered_count(w, self.graph.modules@, w.modules@.len() as int),
        );
    }

    /// Re-establish the two failure/pending clauses of the invariant after a
    /// step that settled the queue head `d` and touched nothing else in the
    /// module arena or the dependency arena.
    proof fn lemma_settle_head(&self, prev: &MakeTaskContext, w: World, d: DepId)
        requires
            prev.inv(),
            prev.qi < prev.queue@.len(),
            prev.queue@[prev.qi as int] == d,
            self.graph.modules@ == prev.graph.modules@,
            self.graph.deps@ == prev.graph.deps@,
            self.entry_dependencies@ == prev.entry_dependencies@,
            self.queue@ == prev.queue@,
            self.qi == prev.qi + 1,
            !((#[trigger] self.graph.resolutions@[d as int]) is Pending),
            forall|dd: int| 0 <= dd < prev.graph.resolutions@.len() && dd != d as int
                ==> #[trigger] self.graph.resolutions@[dd] == prev.graph.resolutions@[dd],
            self.graph.resolutions@.len() == prev.graph.resolutions@.len(),
            self.graph.resolutions@[d as int] is Failed ==> (recorded_failed(
                self.make_failed_dependencies@,
                self.graph.deps@[d as int].parent,
                d as int,
            ) || prev.graph.resolutions@[d as int] is Failed),
            forall|i: int| 0 <= i < prev.make_failed_dependencies@.len()
                ==> #[trigger] self.make_failed_dependencies@[i]
                    == prev.make_failed_dependencies@[i],
            self.make_failed_dependencies@.len() >= prev.make_failed_dependencies@.len(),
        ensures
            forall|dd: int| 0 <= dd < self.graph.deps@.len()
                && (#[trigger] self.graph.resolutions@[dd]) is Failed
                && listed_or_entry(self.graph, self.entry_dependencies@, dd)
                ==> recorded_failed(
                    self.make_failed_dependencies@,
                    self.graph.deps@[dd].parent,
                    dd,
                ),
            forall|dd: int| 0 <= dd < self.graph.deps@.len()
                && (#[trigger] self.graph.resolutions@[dd]) is Pending
                && listed_or_entry(self.graph, self.entry_dependencies@, dd)
                ==> in_suffix(self.queue@, self.qi as int, dd),
    {
        assert forall|dd: int| 0 <= dd < self.graph.deps@.len()
            && (#[trigger] self.graph.resolutions@[dd]) is Failed
            && listed_or_entry(self.graph, self.entry_dependencies@, dd)
            implies recorded_failed(
                self.make_failed_dependencies@,
                self.graph.deps@[dd].parent,
                dd,
            ) by {
            lemma_listed_same(prev.graph, self.graph, self.entry_dependencies@, dd);
            if prev.graph.resolutions@[dd] is Failed {
                let i = choose|i: int| 0 <= i < prev.make_failed_dependencies@.len()
                    && (#[trigger] prev.make_failed_dependencies@[i]).0 as int == dd
                    && prev.make_failed_dependencies@[i].1 == prev.graph.deps@[dd].parent;
                assert(self.make_failed_dependencies@[i].0 as int == dd);
            }
        }
        assert forall|dd: int| 0 <= dd < self.graph.deps@.len()
            && (#[trigger] self.graph.resolutions@[dd]) is Pending
            && listed_or_entry(self.graph, self.entry_dependencies@, dd)
            implies in_suffix(self.queue@, self.qi as int, dd) by {
            lemma_listed_same(prev.graph, self.graph, self.entry_dependencies@, dd);
            assert(prev.graph.resolutions@[dd] is Pending);
            let j = choose|j: int| prev.qi <= j < prev.queue@.len()
                && (#[trigger] prev.queue@[j]) as int == dd;
            if j == prev.qi as int {
                assert(dd == d as int);
                assert(false);
            }
            assert(self.qi <= j < self.queue@.len() && self.queue@[j] as int == dd);
        }
    }

    /// Settle the queue head as a resolution failure: mark the dependency
    /// failed, record it with its issuer, and emit a diagnostic.
    fn step_resolution_failure(&mut self, world: &World, d: DepId)
        requires
            old(self).inv(),
            old(self).qi < old(self).queue@.len(),
            old(self).queue@[old(self).qi as int] == d,
            old(self).graph.resolutions@[d as int] is Pending,
        ensures
            final(self).inv(),
            final(self).measure(*world) < old(self).measure(*world),
            final(self).graph.modules@ == old(self).graph.modules@,
            final(self).graph.deps@ == old(self).graph.deps@,
            final(self).entry_dependencies@ == old(self).entry_dependencies@,
            final(self).queue@ == old(self).queue@,
            final(self).qi == old(self).qi + 1,
            final(self).graph.resolutions@
                == old(self).graph.resolutions@.update(d as int, DepResolution::Failed),
            final(self).file_dependencies == old(self).file_dependencies,
            final(self).context_dependencies == old(self).context_dependencies,
            final(self).missing_dependencies == old(self).missing_dependencies,
            final(self).build_dependency_paths == old(self).build_dependency_paths,
            final(self).make_failed_dependencies@
                == old(self).make_failed_dependencies@.push(
                    (d, old(self).graph.deps@[d as int].parent)),
            final(self).diagnostics@.len() == old(self).diagnostics@.len() + 1,
            forall|j: int| 0 <= j < old(self).diagnostics@.len()
                ==> #[trigger] final(self).diagnostics@[j] == old(self).diagnostics@[j],
            final(self).diagnostics@.last().kind is ResolutionFailed,
            final(self).diagnostics@.last().severity is Error,
            final(self).diagnostics@.last().module
                == old(self).graph.deps@[d as int].parent,
            final(self).diagnostics@.last().span_start
                == old(self).graph.deps@[d as int].span_start,
            final(self).diagnostics@.last().span_end
                == old(self).graph.deps@[d as int].span_end,
    {
        let ghost prev = *self;
        let parent = self.graph.deps[d].parent;
        let request = self.graph.deps[d].request.clone();
        let span_start = self.graph.deps[d].span_start;
        let span_end = self.graph.deps[d].span_end;
        self.graph.set_failed(d);
        self.make_failed_dependencies.push((d, parent));
        self.diagnostics.push(
            Diagnostic::resolution_failed(parent, span_start, span_end, request),
        );
        let qlen = self.queue.len();
        proof {
            assert(self.qi < qlen);
        }
        self.qi = self.qi + 1;
        proof {
            lemma_preds_same_views(prev.graph, self.graph, self.entry_dependencies@);
            assert(recorded_failed(
                self.make_failed_dependencies@,
                self.graph.deps@[d as int].parent,
                d as int,
            )) by {
                let i = self.make_failed_dependencies@.len() - 1;
                assert(self.make_failed_dependencies@[i] == (d, parent));
            }
            self.lemma_settle_head(&prev, *world, d);
            assert(resolved_resident(self.graph)) by {
                assert forall|dd: int| 0 <= dd < self.graph.resolutions@.len()
                    && (#[trigger] self.graph.resolutions@[dd]) is Resolved
                    implies self.graph.resident(self.graph.resolutions@[dd]->Resolved_0 as int)
                    by {
                    assert(self.graph.resolutions@[dd] == prev.graph.resolutions@[dd]);
                    assert(prev.graph.resident(
                        prev.graph.resolutions@[dd]->Resolved_0 as int,
                    ));
                }
            }
        }
    }

    /// Settle the queue head against an already-resident module: record the
    /// edge and rebuild nothing.
    fn step_connect_existing(&mut self, world: &World, d: DepId, m: ModuleId)
        requires
            old(self).inv(),
            old(self).qi < old(self).queue@.len(),
            old(self).queue@[old(self).qi as int] == d,
            old(self).graph.resolutions@[d as int] is Pending,
            old(self).graph.resident(m as int),
        ensures
            final(self).inv(),
            final(self).measure(*world) < old(self).measure(*world),
            final(self).graph.modules@ == old(self).graph.modules@,
            final(self).graph.deps@ == old(self).graph.deps@,
            final(self).entry_dependencies@ == old(self).entry_dependencies@,
            final(self).queue@ == old(self).queue@,
            final(self).qi == old(self).qi + 1,
            final(self).graph.resolutions@
                == old(self).graph.resolutions@.update(d as int, DepResolution::Resolved(m)),
            final(self).file_dependencies == old(self).file_dependencies,
            final(self).context_dependencies == old(self).context_dependencies,
            final(self).missing_dependencies == old(self).missing_dependencies,
            final(self).build_dependency_paths == old(self).build_dependency_paths,
            final(self).make_failed_dependencies@ == old(self).make_failed_dependencies@,
            final(self).diagnostics@ == old(self).diagnostics@,
        {
        let ghost prev = *self;
        self.graph.set_resolved(d, m);
        let qlen = self.queue.len();
        proof {
            assert(self.qi < qlen);
        }
        self.qi = self.qi + 1;
        proof {
            lemma_preds_same_views(prev.graph, self.graph, self.entry_dependencies@);
            self.lemma_settle_head(&prev, *world, d);
            assert(resolved_resident(self.graph)) by {
                assert forall|dd: int| 0 <= dd < self.graph.resolutions@.len()
                    && (#[trigger] self.graph.resolutions@[dd]) is Resolved
                    implies self.graph.resident(self.graph.resolutions@[dd]->Resolved_0 as int)
                    by {
                    if dd != d as int {
                        assert(self.graph.resolutions@[dd] == prev.graph.resolutions@[dd]);
                        assert(prev.graph.resident(
                            prev.graph.resolutions@[dd]->Resolved_0 as int,
                        ));
                    }
                }
            }
        }
    }

    /// Linking and residency predicates carry over to a graph that extended
    /// the dependency arena without touching modules or existing entries.
    proof fn lemma_preds_extend(g1: ModuleGraph, g2: ModuleGraph, eds: Seq<DepId>)
        requires
            g1.wf(),
            deps_linked(g1),
            entry_linked(g1, eds),
            g2.modules@ == g1.modules@,
            g2.deps@.len() >= g1.deps@.len(),
            forall|j: int| 0 <= j < g1.deps@.len() ==> #[trigger] g2.deps@[j] == g1.deps@[j],
        ensures
            deps_linked(g2),
            entry_linked(g2, eds),
    {
        assert forall|m: int, k: int|
            g2.resident(m) && 0 <= k < g2.module_at(m).dependencies@.len()
            implies g2.deps@[(#[trigger] g2.module_at(m).dependencies@[k]) as int].parent
                == Some(m as usize) by {
            assert(g1.resident(m));
            assert(g2.module_at(m) == g1.module_at(m));
            assert(g1.module_at(m).dependencies@[k] < g1.deps@.len());
            assert(g1.deps@[g1.module_at(m).dependencies@[k] as int].parent == Some(m as usize));
        }
        assert forall|j: int| 0 <= j < eds.len() implies (#[trigger] eds[j]) < g2.deps@.len()
            && g2.deps@[eds[j] as int].parent is None
            && g2.deps@[eds[j] as int].kind is Entry by {
            assert(eds[j] < g1.deps@.len());
        }
    }

    /// Invariant of the dependency-registration loops inside a discovery
    /// step: the arenas have grown only by pending dependencies, all of them
    /// already enqueued, and nothing settled has moved.
    pub open spec fn discover_loop_inv(
        &self,
        prev: &MakeTaskContext,
        d: DepId,
        m: ModuleId,
        base: int,
    ) -> bool {
        &&& prev.inv()
        &&& prev.qi < prev.queue@.len()
        &&& prev.queue@[prev.qi as int] == d
        &&& prev.graph.resolutions@[d as int] is Pending
        &&& !prev.graph.resident(m as int)
        &&& base == prev.graph.deps@.len()
        &&& self.graph.wf()
        &&& self.graph.modules@ == prev.graph.modules@
        &&& self.graph.deps@.len() >= base
        &&& self.graph.resolutions@.len() == self.graph.deps@.len()
        &&& forall|jj: int| 0 <= jj < base
                ==> #[trigger] self.graph.deps@[jj] == prev.graph.deps@[jj]
        &&& forall|jj: int| 0 <= jj < base
                ==> #[trigger] self.graph.resolutions@[jj] == prev.graph.resolutions@[jj]
        &&& forall|jj: int| base <= jj < self.graph.deps@.len()
                ==> (#[trigger] self.graph.resolutions@[jj]) is Pending
        &&& forall|jj: int| base <= jj < self.graph.deps@.len()
                ==> in_suffix(self.queue@, self.qi as int, jj)
        &&& self.qi == prev.qi
        &&& forall|jj: int| 0 <= jj < prev.queue@.len()
                ==> #[trigger] self.queue@[jj] == prev.queue@[jj]
        &&& self.queue@.len() >= prev.queue@.len()
        &&& forall|jj: int| 0 <= jj < self.queue@.len()
                ==> (#[trigger] self.queue@[jj]) < self.graph.deps@.len()
        &&& self.entry_dependencies@ == prev.entry_dependencies@
        &&& self.make_failed_dependencies@ == prev.make_failed_dependencies@
        &&& self.diagnostics@ == prev.diagnostics@
        &&& self.file_dependencies == prev.file_dependencies
        &&& self.context_dependencies == prev.context_dependencies
        &&& self.missing_dependencies == prev.missing_dependencies
        &&& self.build_dependency_paths == prev.build_dependency_paths
    }

    /// After a discovery step settles its head against the freshly inserted
    /// module `m`, whose dependency list is exactly the `k` new arena slots,
    /// the task-loop invariant holds again.
    proof fn lemma_discover_finish(
        prev: MakeTaskContext,
        cur: MakeTaskContext,
        d: DepId,
        m: ModuleId,
        base: int,
        k: int,
    )
        requires
            prev.inv(),
            prev.qi < prev.queue@.len(),
            prev.queue@[prev.qi as int] == d,
            prev.graph.resolutions@[d as int] is Pending,
            !prev.graph.resident(m as int),
            base == prev.graph.deps@.len(),
            k >= 0,
            cur.graph.wf(),
            cur.graph.deps@.len() == base + k,
            forall|jj: int| 0 <= jj < base
                ==> #[trigger] cur.graph.deps@[jj] == prev.graph.deps@[jj],
            cur.graph.resolutions@.len() == base + k,
            forall|jj: int| 0 <= jj < base && jj != d as int
                ==> #[trigger] cur.graph.resolutions@[jj] == prev.graph.resolutions@[jj],
            cur.graph.resolutions@[d as int] == DepResolution::Resolved(m),
            forall|jj: int| base <= jj < base + k
                ==> (#[trigger] cur.graph.resolutions@[jj]) is Pending,
            cur.graph.resident(m as int),
            forall|jj: int| 0 <= jj < cur.graph.modules@.len() && jj != m as int
                ==> #[trigger] cur.graph.modules@[jj]
                    == if jj < prev.graph.modules@.len() { prev.graph.modules@[jj] }
                       else { Option::<Mod>::None },
            cur.graph.module_at(m as int).dependencies@.len() == k,
            forall|kk: int| 0 <= kk < k
                ==> (#[trigger] cur.graph.module_at(m as int).dependencies@[kk]) as int
                    == base + kk,
            forall|kk: int| 0 <= kk < k
                ==> (#[trigger] cur.graph.deps@[base + kk]).parent == Some(m),
            cur.qi == prev.qi + 1,
            cur.queue@.len() == prev.queue@.len() + k,
            forall|jj: int| 0 <= jj < prev.queue@.len()
                ==> #[trigger] cur.queue@[jj] == prev.queue@[jj],
            forall|jj: int| 0 <= jj < cur.queue@.len()
                ==> (#[trigger] cur.queue@[jj]) < cur.graph.deps@.len(),
            forall|jj: int| base <= jj < base + k
                ==> in_suffix(cur.queue@, prev.qi as int, jj),
            cur.entry_dependencies@ == prev.entry_dependencies@,
            cur.make_failed_dependencies@ == prev.make_failed_dependencies@,
        ensures
            cur.inv(),
    {
        // deps_linked: the new module lists exactly the new slots, whose
        // parent is m; every other resident module is unchanged.
        assert forall|mm: int, kk: int|
            cur.graph.resident(mm) && 0 <= kk < cur.graph.module_at(mm).dependencies@.len()
            implies cur.graph.deps@[
                (#[trigger] cur.graph.module_at(mm).dependencies@[kk]) as int
            ].parent == Some(mm as usize) by {
            if mm == m as int {
                assert(cur.graph.module_at(mm).dependencies@[kk] as int == base + kk);
            } else {
                assert(prev.graph.resident(mm));
                assert(cur.graph.module_at(mm) == prev.graph.module_at(mm));
                let dd = prev.graph.module_at(mm).dependencies@[kk];
                assert(prev.graph.deps@[dd as int].parent == Some(mm as usize));
                assert(dd < base);
            }
        }
        assert(entry_linked(cur.graph, cur.entry_dependencies@)) by {
            assert forall|j: int| 0 <= j < cur.entry_dependencies@.len()
                implies (#[trigger] cur.entry_dependencies@[j]) < cur.graph.deps@.len()
                    && cur.graph.deps@[cur.entry_dependencies@[j] as int].parent is None
                    && cur.graph.deps@[cur.entry_dependencies@[j] as int].kind is Entry by {
                assert(prev.entry_dependencies@[j] < prev.graph.deps@.len());
            }
        }
        assert(resolved_resident(cur.graph)) by {
            assert forall|dd: int| 0 <= dd < cur.graph.resolutions@.len()
                && (#[trigger] cur.graph.resolutions@[dd]) is Resolved
                implies cur.graph.resident(cur.graph.resolutions@[dd]->Resolved_0 as int) by {
                if dd != d as int && dd < base {
                    assert(cur.graph.resolutions@[dd] == prev.graph.resolutions@[dd]);
                    let t = prev.graph.resolutions@[dd]->Resolved_0 as int;
                    assert(prev.graph.resident(t));
                    assert(cur.graph.modules@[t] == prev.graph.modules@[t]);
                }
            }
        }
        // which dependencies the new graph lists: the old ones plus the k
        // fresh slots
        assert forall|dd: int| 0 <= dd < cur.graph.deps@.len()
            && (#[trigger] cur.graph.resolutions@[dd]) is Failed
            && listed_or_entry(cur.graph, cur.entry_dependencies@, dd)
            implies recorded_failed(
                cur.make_failed_dependencies@,
                cur.graph.deps@[dd].parent,
                dd,
            ) by {
            assert(dd < base);
            assert(dd != d as int);
            assert(prev.graph.resolutions@[dd] is Failed);
            if listed(cur.graph, dd) {
                let (mm, kk) = choose|mm: int, kk: int|
                    cur.graph.resident(mm)
                        && 0 <= kk < cur.graph.module_at(mm).dependencies@.len()
                        && (#[trigger] cur.graph.module_at(mm).dependencies@[kk]) as int == dd;
                if mm == m as int {
                    assert(cur.graph.module_at(mm).dependencies@[kk] as int == base + kk);
                    assert(false);
                } else {
                    assert(prev.graph.resident(mm));
                    assert(cur.graph.module_at(mm) == prev.graph.module_at(mm));
                    assert(listed(prev.graph, dd));
                }
            }
            assert(listed_or_entry(prev.graph, prev.entry_dependencies@, dd));
        }
        assert forall|dd: int| 0 <= dd < cur.graph.deps@.len()
            && (#[trigger] cur.graph.resolutions@[dd]) is Pending
            && listed_or_entry(cur.graph, cur.entry_dependencies@, dd)
            implies in_suffix(cur.queue@, cur.qi as int, dd) by {
            if dd >= base {
                assert(in_suffix(cur.queue@, prev.qi as int, dd));
                let j = choose|j: int| prev.qi as int <= j < cur.queue@.len()
                    && (#[trigger] cur.queue@[j]) as int == dd;
                if j == prev.qi as int {
                    assert(cur.queue@[j] == prev.queue@[j]);
                    assert(prev.queue@[j] < prev.graph.deps@.len());
                    assert(false);
                }
                assert(cur.qi <= j);
                assert(in_suffix(cur.queue@, cur.qi as int, dd));
            } else {
                assert(dd != d as int);
                assert(prev.graph.resolutions@[dd] is Pending);
                if listed(cur.graph, dd) {
                    let (mm, kk) = choose|mm: int, kk: int|
                        cur.graph.resident(mm)
                            && 0 <= kk < cur.graph.module_at(mm).dependencies@.len()
                            && (#[trigger] cur.graph.module_at(mm).dependencies@[kk]) as int
                                == dd;
                    if mm == m as int {
                        assert(cur.graph.module_at(mm).dependencies@[kk] as int == base + kk);
                        assert(false);
                    } else {
                        assert(prev.graph.resident(mm));
                        assert(cur.graph.module_at(mm) == prev.graph.module_at(mm));
                        assert(listed(prev.graph, dd));
                    }
                }
                assert(listed_or_entry(prev.graph, prev.entry_dependencies@, dd));
                assert(in_suffix(prev.queue@, prev.qi as int, dd));
                let j = choose|j: int| prev.qi as int <= j < prev.queue@.len()
                    && (#[trigger] prev.queue@[j]) as int == dd;
                if j == prev.qi as int {
                    assert(dd == d as int);
                    assert(false);
                }
                assert(cur.queue@[j] as int == dd);
                assert(cur.qi <= j < cur.queue@.len());
                assert(in_suffix(cur.queue@, cur.qi as int, dd));
            }
        }
    }

    /// Factorize the queue head into a fresh module: run the build task,
    /// insert the module, and on success enqueue one factorize obligation per
    /// scanned dependency.
    fn step_discover(&mut self, world: &World, cache: &mut CodeCache, d: DepId, m: ModuleId)
        requires
            old(self).inv(),
            old(self).qi < old(self).queue@.len(),
            old(self).queue@[old(self).qi as int] == d,
            old(self).graph.resolutions@[d as int] is Pending,
            !old(self).graph.resident(m as int),
            m < usize::MAX,
            old(cache).wf(*world),
        ensures
            final(self).inv(),
            final(self).measure(*world) < old(self).measure(*world),
            final(self).entry_dependencies@ == old(self).entry_dependencies@,
            forall|mm: int| old(self).graph.resident(mm) ==> final(self).graph.resident(mm),
            final(self).graph.resident(m as int),
            final(cache).wf(*world),
            final(cache).hits >= old(cache).hits,
            final(self).qi == old(self).qi + 1,
            final(self).graph.deps@.len() >= old(self).graph.deps@.len(),
            forall|mm: int| 0 <= mm < final(self).graph.modules@.len() && mm != m as int
                ==> #[trigger] final(self).graph.modules@[mm]
                    == (if mm < old(self).graph.modules@.len() {
                        old(self).graph.modules@[mm]
                    } else {
                        Option::<Mod>::None
                    }),
            forall|dd: int| 0 <= dd < old(self).graph.deps@.len()
                ==> #[trigger] final(self).graph.deps@[dd] == old(self).graph.deps@[dd],
            final(self).graph.resolutions@[d as int] == DepResolution::Resolved(m),
            forall|dd: int| 0 <= dd < old(self).graph.deps@.len() && dd != d as int
                ==> #[trigger] final(self).graph.resolutions@[dd]
                    == old(self).graph.resolutions@[dd],
            forall|dd: int| old(self).graph.deps@.len() <= dd
                < final(self).graph.deps@.len()
                ==> (#[trigger] final(self).graph.resolutions@[dd]) is Pending,
            final(self).make_failed_dependencies@ == old(self).make_failed_dependencies@,
            forall|j: int| 0 <= j < old(self).diagnostics@.len()
                ==> #[trigger] final(self).diagnostics@[j] == old(self).diagnostics@[j],
            final(self).diagnostics@.len() >= old(self).diagnostics@.len(),
            forall|q: usize| old(self).file_dependencies@.contains(q)
                ==> final(self).file_dependencies@.contains(q),
            forall|q: usize| old(self).context_dependencies@.contains(q)
                ==> final(self).context_dependencies@.contains(q),
            forall|q: usize| old(self).missing_dependencies@.contains(q)
                ==> final(self).missing_dependencies@.contains(q),
            forall|q: usize| old(self).build_dependency_paths@.contains(q)
                ==> final(self).build_dependency_paths@.contains(q),
            forall|k: int| 0 <= k
                < final(self).graph.module_at(m as int).file_dependencies@.len()
                ==> final(self).file_dependencies@.contains(#[trigger] final(
                    self).graph.module_at(m as int).file_dependencies@[k]),
            forall|k: int| 0 <= k
                < final(self).graph.module_at(m as int).context_dependencies@.len()
                ==> final(self).context_dependencies@.contains(#[trigger] final(
                    self).graph.module_at(m as int).context_dependencies@[k]),
            forall|k: int| 0 <= k
                < final(self).graph.module_at(m as int).missing_dependencies@.len()
                ==> final(self).missing_dependencies@.contains(#[trigger] final(
                    self).graph.module_at(m as int).missing_dependencies@[k]),
            forall|k: int| 0 <= k
                < final(self).graph.module_at(m as int).build_dependencies@.len()
                ==> final(self).build_dependency_paths@.contains(#[trigger] final(
                    self).graph.module_at(m as int).build_dependencies@[k]),
    {
        let ghost prev = *self;
        let ghost w = *world;
        let ghost bign = w.modules@.len() as int;
        let ghost bigr = max_refs(w, bign);
        let outcome = build_task(world, m, cache);
        match outcome {
            BuildOutcome::Failed { diagnostics } => {
                let mut ds = diagnostics;
                let ghost pre_diags = self.diagnostics@;
                let module = Mod {
                    id: m,
                    module_type: ModuleType::Js,
                    state: SourceState::BuiltFailed,
                    original_source: None,
                    dependencies: Vec::new(),
                    file_dependencies: Vec::new(),
                    context_dependencies: Vec::new(),
                    missing_dependencies: Vec::new(),
                    build_dependencies: Vec::new(),
                };
                self.graph.insert_module(module);
                self.graph.set_resolved(d, m);
                self.make_failed_module.push(m);
                self.diagnostics.append(&mut ds);
                proof {
                    assert forall|j: int| 0 <= j < pre_diags.len()
                        implies #[trigger] self.diagnostics@[j] == pre_diags[j] by {}
                    assert(self.diagnostics@.len() >= pre_diags.len());
                }
                self.has_module_graph_change = true;
                let qlen = self.queue.len();
                proof {
                    assert(self.qi < qlen);
                }
                self.qi = self.qi + 1;
                proof {
                    assert(pre_diags == old(self).diagnostics@);
                    assert forall|j: int| 0 <= j < old(self).diagnostics@.len()
                        implies #[trigger] self.diagnostics@[j]
                            == old(self).diagnostics@[j] by {
                        assert(self.diagnostics@[j] == pre_diags[j]);
                    }
                    Self::lemma_discover_finish(prev, *self, d, m, prev.graph.deps@.len() as int, 0);
                    lemma_max_refs_nonneg(w, bign);
                    assert forall|mm: int| 0 <= mm < bign && mm != m as int
                        implies (resident_in(prev.graph.modules@, mm)
                            <==> resident_in(self.graph.modules@, mm)) by {
                        if mm < self.graph.modules@.len() {
                            assert(self.graph.modules@[mm]
                                == if mm < prev.graph.modules@.len() {
                                    prev.graph.modules@[mm]
                                } else {
                                    Option::<Mod>::None
                                });
                        }
                    }
                    lemma_undiscovered_insert(
                        w, prev.graph.modules@, self.graph.modules@, m as int, bign);
                    let ucur = undiscovered_count(w, self.graph.modules@, bign);
                    lemma_undiscovered_nonneg(w, self.graph.modules@, bign);
                    if w.has_module(m as int) {
                        assert((bigr + 2) * (ucur + 1)
                            == (bigr + 2) * ucur + (bigr + 2)) by (nonlinear_arith);
                    }
                }
            }
            BuildOutcome::Succeed {
                source, dependencies, blocks, file_paths, context_paths, missing_paths,
                build_paths, module_type,
            } => {
                let ghost base = self.graph.deps@.len() as int;
                proof {
                    let refs = w.module_of(m as int).program.refs@;
                    assert forall|k: int| 0 <= k < dependencies@.len()
                        implies (#[trigger] dependencies@[k]).parent == Some(m) by {
                        assert(dependencies@[k] == spec_sync_deps(refs, m)[k]);
                    }
                    assert forall|k: int| 0 <= k < blocks@.len()
                        implies (#[trigger] blocks@[k]).parent == Some(m) by {
                        assert(blocks@[k] == spec_async_deps(refs, m)[k]);
                    }
                }
                let mut dep_ids: Vec<DepId> = Vec::new();
                let nsync = dependencies.len();
                let nasync = blocks.len();
                let mut i: usize = 0;
                while i < nsync
                    invariant
                        nsync == dependencies@.len(),
                        i <= nsync,
                        self.discover_loop_inv(&prev, d, m, base),
                        dep_ids@.len() == i,
                        self.graph.deps@.len() == base + i,
                        self.queue@.len() == prev.queue@.len() + i,
                        forall|k: int| 0 <= k < i
                            ==> (#[trigger] dep_ids@[k]) as int == base + k,
                        forall|k: int| 0 <= k < i
                            ==> (#[trigger] self.graph.deps@[base + k]).parent == Some(m),
                        forall|k: int| 0 <= k < dependencies@.len()
                            ==> (#[trigger] dependencies@[k]).parent == Some(m),
                        forall|k: int| 0 <= k < blocks@.len()
                            ==> (#[trigger] blocks@[k]).parent == Some(m),
                    decreases nsync - i,
                {
                    let ghost snap = *self;
                    let dep = clone_dep(&dependencies[i]);
                    let did = self.graph.add_dependency(dep);
                    dep_ids.push(did);
                    self.queue.push(did);
                    proof {
                        assert forall|jj: int| base <= jj < self.graph.deps@.len()
                            implies in_suffix(self.queue@, self.qi as int, jj) by {
                            if jj < snap.graph.deps@.len() {
                                assert(in_suffix(snap.queue@, snap.qi as int, jj));
                                let j = choose|j: int| snap.qi as int <= j < snap.queue@.len()
                                    && (#[trigger] snap.queue@[j]) as int == jj;
                                assert(self.queue@[j] as int == jj);
                            } else {
                                assert(self.queue@[self.queue@.len() - 1] == did);
                            }
                        }
                    }
                    i = i + 1;
                }
                let mut j: usize = 0;
                while j < nasync
                    invariant
                        nsync == dependencies@.len(),
                        nasync == blocks@.len(),
                        j <= nasync,
                        self.discover_loop_inv(&prev, d, m, base),
                        dep_ids@.len() == nsync + j,
                        self.graph.deps@.len() == base + nsync + j,
                        self.queue@.len() == prev.queue@.len() + nsync + j,
                        forall|k: int| 0 <= k < nsync + j
                            ==> (#[trigger] dep_ids@[k]) as int == base + k,
                        forall|k: int| 0 <= k < nsync + j
                            ==> (#[trigger] self.graph.deps@[base + k]).parent == Some(m),
                        forall|k: int| 0 <= k < blocks@.len()
                            ==> (#[trigger] blocks@[k]).parent == Some(m),
                    decreases nasync - j,
                {
                    let ghost snap = *self;
                    let dep = clone_dep(&blocks[j]);
                    let did = self.graph.add_dependency(dep);
                    dep_ids.push(did);
                    self.queue.push(did);
                    proof {
                        assert forall|jj: int| base <= jj < self.graph.deps@.len()
                            implies in_suffix(self.queue@, self.qi as int, jj) by {
                            if jj < snap.graph.deps@.len() {
                                assert(in_suffix(snap.queue@, snap.qi as int, jj));
                                let jx = choose|jx: int| snap.qi as int <= jx < snap.queue@.len()
                                    && (#[trigger] snap.queue@[jx]) as int == jj;
                                assert(self.queue@[jx] as int == jj);
                            } else {
                                assert(self.queue@[self.queue@.len() - 1] == did);
                            }
                        }
                    }
                    j = j + 1;
                }
                self.file_dependencies.add_all(&file_paths);
                self.context_dependencies.add_all(&context_paths);
                self.missing_dependencies.add_all(&missing_paths);
                self.build_dependency_paths.add_all(&build_paths);
                let module = Mod {
                    id: m,
                    module_type,
                    state: SourceState::BuiltSucceed,
                    original_source: Some(source),
                    dependencies: dep_ids,
                    file_dependencies: file_paths,
                    context_dependencies: context_paths,
                    missing_dependencies: missing_paths,
                    build_dependencies: build_paths,
                };
                self.graph.insert_module(module);
                self.graph.set_resolved(d, m);
                self.has_module_graph_change = true;
                let qlen = self.queue.len();
                proof {
                    assert(self.qi < qlen);
                }
                self.qi = self.qi + 1;
                proof {
                    assert(self.diagnostics@ == old(self).diagnostics@);
                    let k = (nsync + nasync) as int;
                    Self::lemma_discover_finish(prev, *self, d, m, base, k);
                    lemma_max_refs_nonneg(w, bign);
                    lemma_scan_lengths(w.module_of(m as int).program.refs@, m);
                    lemma_max_refs_bound(w, m as int, bign);
                    assert forall|mm: int| 0 <= mm < bign && mm != m as int
                        implies (resident_in(prev.graph.modules@, mm)
                            <==> resident_in(self.graph.modules@, mm)) by {
                        if mm < self.graph.modules@.len() {
                            assert(self.graph.modules@[mm]
                                == if mm < prev.graph.modules@.len() {
                                    prev.graph.modules@[mm]
                                } else {
                                    Option::<Mod>::None
                                });
                        }
                    }
                    lemma_undiscovered_insert(
                        w, prev.graph.modules@, self.graph.modules@, m as int, bign);
                    let ucur = undiscovered_count(w, self.graph.modules@, bign);
                    lemma_undiscovered_nonneg(w, self.graph.modules@, bign);
                    assert((bigr + 2) * (ucur + 1)
                        == (bigr + 2) * ucur + (bigr + 2)) by (nonlinear_arith);
                }
            }
        }
    }

    /// Skip a queue entry that is already settled (a duplicate enqueue).
    fn step_skip(&mut self, world: &World, d: DepId)
        requires
            old(self).inv(),
            old(self).qi < old(self).queue@.len(),
            old(self).queue@[old(self).qi as int] == d,
            !(old(self).graph.resolutions@[d as int] is Pending),
        ensures
            final(self).inv(),
            final(self).measure(*world) < old(self).measure(*world),
            final(self).graph == old(self).graph,
            final(self).entry_dependencies@ == old(self).entry_dependencies@,
            final(self).queue@ == old(self).queue@,
            final(self).qi == old(self).qi + 1,
            final(self).make_failed_dependencies@ == old(self).make_failed_dependencies@,
            final(self).diagnostics@ == old(self).diagnostics@,
            final(self).file_dependencies == old(self).file_dependencies,
            final(self).context_dependencies == old(self).context_dependencies,
            final(self).missing_dependencies == old(self).missing_dependencies,
            final(self).build_dependency_paths == old(self).build_dependency_paths,
    {
        let ghost prev = *self;
        let qlen = self.queue.len();
        proof {
            assert(self.qi < qlen);
        }
        self.qi = self.qi + 1;
        proof {
            self.lemma_settle_head(&prev, *world, d);
        }
    }
}

/// Run one build task for module `m`: consult the shared cache first; on a
/// hit, skip the loader and the parse. Either way the outcome is the one a
/// cold build yields.
pub fn build_task(world: &World, m: ModuleId, cache: &mut CodeCache) -> (o: BuildOutcome)
    requires
        old(cache).wf(*world),
    ensures
        outcome_matches(*world, m, o),
        final(cache).wf(*world),
        final(cache).hits >= old(cache).hits,
{
    match cache.lookup(m, Ghost(*world)) {
        Some(o) => {
            if cache.hits < u64::MAX {
                cache.hits = cache.hits + 1;
            }
            o
        }
        None => {
            let o = cold_build(world, m);
            cache.insert(m, &o, Ghost(*world));
            o
        }
    }
}

impl World {
    /// Machine limit on the resolver's answers: every target identifier can
    /// index a flat arena.
    pub open spec fn targets_in_range(&self) -> bool {
        forall|i: int| 0 <= i < self.resolutions@.len()
            ==> (#[trigger] self.resolutions@[i]).1 < usize::MAX
    }
}

/// A successful resolution names one of the table's targets.
proof fn lemma_resolve_target(rules: Seq<(String, ModuleId)>, req: Seq<char>)
    ensures
        spec_resolve(rules, req) matches Some(m)
            ==> exists|i: int| 0 <= i < rules.len() && (#[trigger] rules[i]).1 == m,
    decreases rules.len(),
{
    if rules.len() > 0 && rules[0].0@ != req {
        lemma_resolve_target(rules.drop_first(), req);
        if spec_resolve(rules, req) is Some {
            let m = spec_resolve(rules, req)->Some_0;
            let i = choose|i: int| 0 <= i < rules.drop_first().len()
                && (#[trigger] rules.drop_first()[i]).1 == m;
            assert(rules[i + 1] == rules.drop_first()[i]);
        }
    }
}

/// Whether `v` holds the module identifier `x`.
pub fn contains_module_id(v: &Vec<ModuleId>, x: ModuleId) -> (r: bool)
    ensures
        r == v@.contains(x),
{
    let n = v.len();
    let mut i: usize = 0;
    while i < n
        invariant
            n == v@.len(),
            i <= n,
            forall|j: int| 0 <= j < i ==> v@[j] != x,
        decreases n - i,
    {
        if v[i] == x {
            return true;
        }
        i = i + 1;
    }
    false
}

/// The entry module list the graph's entry dependencies resolve to.
pub fn collect_entries(g: &ModuleGraph, eds: &Vec<DepId>) -> (r: Vec<ModuleId>)
    requires
        g.wf(),
        resolved_resident(*g),
        forall|j: int| 0 <= j < eds@.len() ==> (#[trigger] eds@[j]) < g.deps@.len(),
    ensures
        r@ == spec_entries(*g, eds@),
        forall|i: int| 0 <= i < r@.len() ==> g.resident((#[trigger] r@[i]) as int),
{
    let mut r: Vec<ModuleId> = Vec::new();
    let n = eds.len();
    let mut t: usize = 0;
    while t < n
        invariant
            g.wf(),
            resolved_resident(*g),
            forall|j: int| 0 <= j < eds@.len() ==> (#[trigger] eds@[j]) < g.deps@.len(),
            n == eds@.len(),
            t <= n,
            r@ == spec_entries(*g, eds@.take(t as int)),
            forall|i: int| 0 <= i < r@.len() ==> g.resident((#[trigger] r@[i]) as int),
        decreases n - t,
    {
        let d = eds[t];
        proof {
            assert(eds@.take(t + 1 as int).drop_last() =~= eds@.take(t as int));
            assert(eds@.take(t + 1 as int).last() == eds@[t as int]);
        }
        match g.resolution_of(d) {
            DepResolution::Resolved(m) => {
                if !contains_module_id(&r, m) {
                    r.push(m);
                }
            }
            _ => {}
        }
        t = t + 1;
    }
    proof {
        assert(eds@.take(n as int) =~= eds@);
    }
    r
}

/// Remove module `m` from the graph and reset every dependency that resolved
/// to it, so that the next cycle re-factorizes and rebuilds it.
pub fn revoke_module(g: &mut ModuleGraph, m: ModuleId)
    requires
        old(g).wf(),
        deps_linked(*old(g)),
        resolved_resident(*old(g)),
    ensures
        final(g).wf(),
        deps_linked(*final(g)),
        resolved_resident(*final(g)),
        final(g).deps@ == old(g).deps@,
        !final(g).resident(m as int),
        forall|j: int| 0 <= j < final(g).modules@.len() && j != m as int
            ==> #[trigger] final(g).modules@[j] == old(g).modules@[j],
        final(g).modules@.len() == old(g).modules@.len(),
        forall|d: int| 0 <= d < final(g).resolutions@.len()
            ==> #[trigger] final(g).resolutions@[d]
                == if old(g).resolutions@[d] == DepResolution::Resolved(m) {
                    DepResolution::Pending
                } else {
                    old(g).resolutions@[d]
                },
{
    let ghost g0 = *g;
    if m < g.modules.len() {
        g.modules.set(m, None);
    }
    proof {
        assert(g.modules@ =~= if m < g0.modules@.len() {
            g0.modules@.update(m as int, Option::<Mod>::None)
        } else {
            g0.modules@
        });
        assert forall|mm: int| g.resident(mm)
            implies (#[trigger] g.module_at(mm)).id == mm
                && g.module_at(mm) == g0.module_at(mm) && g0.resident(mm) by {
            assert(g.modules@[mm] == g0.modules@[mm]);
        }
        assert forall|mm: int, k: int|
            g.resident(mm) && 0 <= k < g.module_at(mm).dependencies@.len()
            implies (#[trigger] g.module_at(mm).dependencies@[k]) < g.deps@.len()
                && g.deps@[g.module_at(mm).dependencies@[k] as int].parent
                    == Some(mm as usize) by {
            assert(g0.resident(mm));
            assert(g.module_at(mm) == g0.module_at(mm));
            assert(g0.module_at(mm).dependencies@[k] < g0.deps@.len());
            assert(g0.deps@[g0.module_at(mm).dependencies@[k] as int].parent
                == Some(mm as usize));
        }
    }
    let n = g.resolutions.len();
    let mut d: usize = 0;
    while d < n
        invariant
            n == g.resolutions@.len(),
            d <= n,
            g.wf(),
            deps_linked(*g),
            g.deps@ == old(g).deps@,
            g.modules@.len() == old(g).modules@.len(),
            !g.resident(m as int),
            forall|j: int| 0 <= j < g.modules@.len() && j != m as int
                ==> #[trigger] g.modules@[j] == old(g).modules@[j],
            forall|dd: int| 0 <= dd < d
                ==> #[trigger] g.resolutions@[dd]
                    == if old(g).resolutions@[dd] == DepResolution::Resolved(m) {
                        DepResolution::Pending
                    } else {
                        old(g).resolutions@[dd]
                    },
            forall|dd: int| d <= dd < n
                ==> #[trigger] g.resolutions@[dd] == old(g).resolutions@[dd],
        decreases n - d,
    {
        let ghost snap = *g;
        match g.resolution_of(d) {
            DepResolution::Resolved(t) => {
                if t == m {
                    g.set_pending(d);
                    proof {
                        lemma_preds_same_views_free(snap, *g, Seq::<DepId>::empty());
                    }
                }
            }
            _ => {}
        }
        d = d + 1;
    }
    proof {
        assert forall|dd: int| 0 <= dd < g.resolutions@.len()
            && (#[trigger] g.resolutions@[dd]) is Resolved
            implies g.resident(g.resolutions@[dd]->Resolved_0 as int) by {
            assert(g.resolutions@[dd] == old(g).resolutions@[dd]);
            let t = g.resolutions@[dd]->Resolved_0;
            assert(old(g).resident(t as int));
            assert(t != m);
            assert(g.modules@[t as int] == old(g).modules@[t as int]);
        }
    }
}

/// Dependency linking carries over when the dependency arena only grew.
proof fn lemma_deps_linked_extend(g1: ModuleGraph, g2: ModuleGraph)
    requires
        g1.wf(),
        deps_linked(g1),
        g2.modules@ == g1.modules@,
        g2.deps@.len() >= g1.deps@.len(),
        forall|j: int| 0 <= j < g1.deps@.len() ==> #[trigger] g2.deps@[j] == g1.deps@[j],
    ensures
        deps_linked(g2),
{
    assert forall|m: int, k: int|
        g2.resident(m) && 0 <= k < g2.module_at(m).dependencies@.len()
        implies g2.deps@[(#[trigger] g2.module_at(m).dependencies@[k]) as int].parent
            == Some(m as usize) by {
        assert(g1.resident(m));
        assert(g2.module_at(m) == g1.module_at(m));
        assert(g1.module_at(m).dependencies@[k] < g1.deps@.len());
        assert(g1.deps@[g1.module_at(m).dependencies@[k] as int].parent == Some(m as usize));
    }
}

/// Linking predicates carry over between graphs with the same module and
/// dependency arenas (free-function form).
proof fn lemma_preds_same_views_free(g1: ModuleGraph, g2: ModuleGraph, eds: Seq<DepId>)
    requires
        deps_linked(g1),
        g2.modules@ == g1.modules@,
        g2.deps@ == g1.deps@,
    ensures
        deps_linked(g2),
{
    assert forall|m: int, k: int|
        g2.resident(m) && 0 <= k < g2.module_at(m).dependencies@.len()
        implies g2.deps@[(#[trigger] g2.module_at(m).dependencies@[k]) as int].parent
            == Some(m as usize) by {
        assert(g1.resident(m));
        assert(g2.module_at(m) == g1.module_at(m));
        assert(g1.deps@[g1.module_at(m).dependencies@[k] as int].parent == Some(m as usize));
    }
}

/// Membership survives extension: anything a prefix holds, the longer list
/// holds too.
proof fn lemma_contains_after_push(s1: Seq<DepId>, s2: Seq<DepId>, x: DepId)
    requires
        s2.len() >= s1.len(),
        forall|t: int| 0 <= t < s1.len() ==> #[trigger] s2[t] == s1[t],
        s1.contains(x),
    ensures
        s2.contains(x),
{
    let t = choose|t: int| 0 <= t < s1.len() && s1[t] == x;
    assert(s2[t] == x);
}

impl MakeArtifact {
    /// The empty artifact a first make cycle starts from.
    pub fn new() -> (r: MakeArtifact)
        ensures
            artifact_wf(r),
            artifact_closed(r),
            r.graph.deps@.len() == 0,
            r.graph.modules@.len() == 0,
            r.entry_dependencies@.len() == 0,
            r.entry_module_identifiers@.len() == 0,
            r.make_failed_dependencies@.len() == 0,
            r.make_failed_module@.len() == 0,
            r.diagnostics@.len() == 0,
            !r.has_module_graph_change,
            r.entry_module_identifiers@ == spec_entries(r.graph, r.entry_dependencies@),
    {
        MakeArtifact {
            graph: ModuleGraph::new(),
            make_failed_dependencies: Vec::new(),
            make_failed_module: Vec::new(),
            diagnostics: Vec::new(),
            entry_module_identifiers: Vec::new(),
            entry_dependencies: Vec::new(),
            file_dependencies: PathSet::new(),
            context_dependencies: PathSet::new(),
            missing_dependencies: PathSet::new(),
            build_dependencies: PathSet::new(),
            has_module_graph_change: false,
        }
    }
}

/// The dependencies one make cycle must re-factorize: every reachable
/// dependency that is pending (a fresh entry, or one reset by a revoked
/// module) or recorded as failed in a previous cycle.
pub fn compute_invalidations(a: &MakeArtifact) -> (r: Vec<DepId>)
    requires
        a.graph.wf(),
        entry_linked(a.graph, a.entry_dependencies@),
    ensures
        forall|d: int| 0 <= d < a.graph.deps@.len()
            && listed_or_entry(a.graph, a.entry_dependencies@, d)
            && ((#[trigger] a.graph.resolutions@[d]) is Pending
                || a.graph.resolutions@[d] is Failed)
            ==> r@.contains(d as DepId),
        forall|t: int| 0 <= t < r@.len() ==> (#[trigger] r@[t]) < a.graph.deps@.len()
            && listed_or_entry(a.graph, a.entry_dependencies@, r@[t] as int)
            && (a.graph.resolutions@[r@[t] as int] is Pending
                || a.graph.resolutions@[r@[t] as int] is Failed),
{
    let mut r: Vec<DepId> = Vec::new();
    let nm = a.graph.modules.len();
    let mut mm: usize = 0;
    while mm < nm
        invariant
            a.graph.wf(),
            nm == a.graph.modules@.len(),
            mm <= nm,
            forall|m2: int, k2: int| 0 <= m2 < mm && a.graph.resident(m2)
                && 0 <= k2 < a.graph.module_at(m2).dependencies@.len()
                && ((a.graph.resolutions@[
                        (#[trigger] a.graph.module_at(m2).dependencies@[k2]) as int
                    ]) is Pending
                    || a.graph.resolutions@[
                        a.graph.module_at(m2).dependencies@[k2] as int
                    ] is Failed)
                ==> r@.contains(a.graph.module_at(m2).dependencies@[k2]),
            forall|t: int| 0 <= t < r@.len() ==> (#[trigger] r@[t]) < a.graph.deps@.len()
                && listed_or_entry(a.graph, a.entry_dependencies@, r@[t] as int)
                && (a.graph.resolutions@[r@[t] as int] is Pending
                    || a.graph.resolutions@[r@[t] as int] is Failed),
        decreases nm - mm,
    {
        match a.graph.module_by_identifier(mm) {
            Some(md) => {
                let nk = md.dependencies.len();
                let mut k: usize = 0;
                while k < nk
                    invariant
                        a.graph.wf(),
                        a.graph.resident(mm as int),
                        *md == a.graph.module_at(mm as int),
                        nk == md.dependencies@.len(),
                        k <= nk,
                        forall|m2: int, k2: int| 0 <= m2 < mm && a.graph.resident(m2)
                            && 0 <= k2 < a.graph.module_at(m2).dependencies@.len()
                            && ((a.graph.resolutions@[
                                    (#[trigger] a.graph.module_at(m2).dependencies@[k2]) as int
                                ]) is Pending
                                || a.graph.resolutions@[
                                    a.graph.module_at(m2).dependencies@[k2] as int
                                ] is Failed)
                            ==> r@.contains(a.graph.module_at(m2).dependencies@[k2]),
                        forall|k2: int| 0 <= k2 < k
                            && ((a.graph.resolutions@[
                                    (#[trigger] md.dependencies@[k2]) as int
                                ]) is Pending
                                || a.graph.resolutions@[md.dependencies@[k2] as int] is Failed)
                            ==> r@.contains(md.dependencies@[k2]),
                        forall|t: int| 0 <= t < r@.len()
                            ==> (#[trigger] r@[t]) < a.graph.deps@.len()
                                && listed_or_entry(a.graph, a.entry_dependencies@, r@[t] as int)
                                && (a.graph.resolutions@[r@[t] as int] is Pending
                                    || a.graph.resolutions@[r@[t] as int] is Failed),
                    decreases nk - k,
                {
                    let d = md.dependencies[k];
                    let ghost rsnap = r@;
                    let push_it = match a.graph.resolution_of(d) {
                        DepResolution::Pending => true,
                        DepResolution::Failed => true,
                        DepResolution::Resolved(_) => false,
                    };
                    if push_it {
                        r.push(d);
                        proof {
                            assert(listed(a.graph, d as int));
                            assert(r@.contains(d)) by {
                                assert(r@[r@.len() - 1] == d);
                            }
                            assert forall|m2: int, k2: int| 0 <= m2 < mm
                                && a.graph.resident(m2)
                                && 0 <= k2 < a.graph.module_at(m2).dependencies@.len()
                                && ((a.graph.resolutions@[
                                        (#[trigger] a.graph.module_at(m2).dependencies@[k2])
                                            as int
                                    ]) is Pending
                                    || a.graph.resolutions@[
                                        a.graph.module_at(m2).dependencies@[k2] as int
                                    ] is Failed)
                                implies r@.contains(a.graph.module_at(m2).dependencies@[k2])
                                by {
                                lemma_contains_after_push(
                                    rsnap, r@, a.graph.module_at(m2).dependencies@[k2]);
                            }
                            assert forall|k2: int| 0 <= k2 < k + 1
                                && ((a.graph.resolutions@[
                                        (#[trigger] md.dependencies@[k2]) as int
                                    ]) is Pending
                                    || a.graph.resolutions@[
                                        md.dependencies@[k2] as int
                                    ] is Failed)
                                implies r@.contains(md.dependencies@[k2]) by {
                                if k2 < k {
                                    lemma_contains_after_push(
                                        rsnap, r@, md.dependencies@[k2]);
                                }
                            }
                        }
                    }
                    k = k + 1;
                }
            }
            None => {}
        }
        mm = mm + 1;
    }
    let ne = a.entry_dependencies.len();
    let mut j: usize = 0;
    while j < ne
        invariant
            a.graph.wf(),
            entry_linked(a.graph, a.entry_dependencies@),
            ne == a.entry_dependencies@.len(),
            j <= ne,
            forall|m2: int, k2: int| a.graph.resident(m2)
                && 0 <= k2 < a.graph.module_at(m2).dependencies@.len()
                && ((a.graph.resolutions@[
                        (#[trigger] a.graph.module_at(m2).dependencies@[k2]) as int
                    ]) is Pending
                    || a.graph.resolutions@[
                        a.graph.module_at(m2).dependencies@[k2] as int
                    ] is Failed)
                ==> r@.contains(a.graph.module_at(m2).dependencies@[k2]),
            forall|j2: int| 0 <= j2 < j
                && ((a.graph.resolutions@[
                        (#[trigger] a.entry_dependencies@[j2]) as int
                    ]) is Pending
                    || a.graph.resolutions@[a.entry_dependencies@[j2] as int] is Failed)
                ==> r@.contains(a.entry_dependencies@[j2]),
            forall|t: int| 0 <= t < r@.len() ==> (#[trigger] r@[t]) < a.graph.deps@.len()
                && listed_or_entry(a.graph, a.entry_dependencies@, r@[t] as int)
                && (a.graph.resolutions@[r@[t] as int] is Pending
                    || a.graph.resolutions@[r@[t] as int] is Failed),
        decreases ne - j,
    {
        let d = a.entry_dependencies[j];
        let ghost rsnap = r@;
        let push_it = match a.graph.resolution_of(d) {
            DepResolution::Pending => true,
            DepResolution::Failed => true,
            DepResolution::Resolved(_) => false,
        };
        if push_it {
            r.push(d);
            proof {
                assert(a.entry_dependencies@[j as int] as int == d as int);
                assert(listed_or_entry(a.graph, a.entry_dependencies@, d as int));
                assert(r@.contains(d)) by {
                    assert(r@[r@.len() - 1] == d);
                }
                assert forall|m2: int, k2: int| a.graph.resident(m2)
                    && 0 <= k2 < a.graph.module_at(m2).dependencies@.len()
                    && ((a.graph.resolutions@[
                            (#[trigger] a.graph.module_at(m2).dependencies@[k2]) as int
                        ]) is Pending
                        || a.graph.resolutions@[
                            a.graph.module_at(m2).dependencies@[k2] as int
                        ] is Failed)
                    implies r@.contains(a.graph.module_at(m2).dependencies@[k2]) by {
                    lemma_contains_after_push(
                        rsnap, r@, a.graph.module_at(m2).dependencies@[k2]);
                }
                assert forall|j2: int| 0 <= j2 < j + 1
                    && ((a.graph.resolutions@[
                            (#[trigger] a.entry_dependencies@[j2]) as int
                        ]) is Pending
                        || a.graph.resolutions@[
                            a.entry_dependencies@[j2] as int
                        ] is Failed)
                    implies r@.contains(a.entry_dependencies@[j2]) by {
                    if j2 < j {
                        lemma_contains_after_push(rsnap, r@, a.entry_dependencies@[j2]);
                    }
                }
            }
        }
        j = j + 1;
    }
    proof {
        assert forall|d: int| 0 <= d < a.graph.deps@.len()
            && listed_or_entry(a.graph, a.entry_dependencies@, d)
            && ((#[trigger] a.graph.resolutions@[d]) is Pending
                || a.graph.resolutions@[d] is Failed)
            implies r@.contains(d as DepId) by {
            if listed(a.graph, d) {
                let (m2, k2) = choose|m2: int, k2: int|
                    a.graph.resident(m2)
                        && 0 <= k2 < a.graph.module_at(m2).dependencies@.len()
                        && (#[trigger] a.graph.module_at(m2).dependencies@[k2]) as int == d;
                assert(r@.contains(a.graph.module_at(m2).dependencies@[k2]));
            } else {
                let j2 = choose|j2: int| 0 <= j2 < a.entry_dependencies@.len()
                    && (#[trigger] a.entry_dependencies@[j2]) as int == d;
                assert(r@.contains(a.entry_dependencies@[j2]));
            }
        }
    }
    r
}

/// One make cycle's task loop (graph repair): seed the queue with the given
/// build dependencies, then factorize, add, build and process dependencies
/// until the queue drains. Graph closure: afterwards every
/// reachable dependency either resolves to a resident module or is recorded
/// in the failed-dependencies set.
pub fn repair(
    artifact: MakeArtifact,
    world: &World,
    build_dependencies: &Vec<DepId>,
    cache: &mut CodeCache,
) -> (r: MakeArtifact)
    requires
        artifact_wf(artifact),
        paths_recorded(artifact),
        old(cache).wf(*world),
        world.targets_in_range(),
        // a dangling dependency identifier is an invariant violation the
        // caller rules out before starting the cycle
        forall|t: int| 0 <= t < build_dependencies@.len()
            ==> (#[trigger] build_dependencies@[t]) < artifact.graph.deps@.len(),
        forall|d: int| 0 <= d < artifact.graph.deps@.len()
            && listed_or_entry(artifact.graph, artifact.entry_dependencies@, d)
            && ((#[trigger] artifact.graph.resolutions@[d]) is Pending
                || artifact.graph.resolutions@[d] is Failed)
            ==> build_dependencies@.contains(d as DepId),
    ensures
        artifact_wf(r),
        artifact_closed(r),
        paths_recorded(r),
        final(cache).wf(*world),
        r.entry_dependencies@ == artifact.entry_dependencies@,
        // an already-resident module is reused, never rebuilt or replaced
        forall|mm: int| artifact.graph.resident(mm) ==> r.graph.resident(mm)
            && (#[trigger] r.graph.module_at(mm)) == artifact.graph.module_at(mm),
        r.entry_module_identifiers@ == spec_entries(r.graph, r.entry_dependencies@),
        forall|i: int| 0 <= i < r.entry_module_identifiers@.len()
            ==> r.graph.resident((#[trigger] r.entry_module_identifiers@[i]) as int),
        // every dependency's outcome follows the resolver table, except ones
        // this cycle left untouched (and none that is reachable stays
        // pending, by closure)
        forall|dd: int| 0 <= dd < r.graph.deps@.len() ==> {
            ||| (#[trigger] r.graph.resolutions@[dd]) is Pending
            ||| follows_resolver(*world, r.graph, dd)
            ||| (dd < artifact.graph.deps@.len()
                && r.graph.resolutions@[dd] == artifact.graph.resolutions@[dd]
                && r.graph.deps@[dd] == artifact.graph.deps@[dd])
        },
        // every recorded failure points at a resolution-failure diagnostic
        // carrying the issuer and the import location
        forall|i: int| 0 <= i < r.make_failed_dependencies@.len() ==> {
            let fdp = #[trigger] r.make_failed_dependencies@[i];
            (fdp.0 as int) < r.graph.deps@.len()
                && failure_diag_recorded(r.diagnostics@, r.graph, fdp.1, fdp.0 as int)
        },
        build_dependencies@.len() == 0 ==> (
            r.graph == artifact.graph
            && !r.has_module_graph_change
            && r.make_failed_dependencies@.len() == 0
            && r.make_failed_module@.len() == 0
            && r.diagnostics@.len() == 0
            && r.file_dependencies == artifact.file_dependencies
            && r.context_dependencies == artifact.context_dependencies
            && r.missing_dependencies == artifact.missing_dependencies
            && r.build_dependencies == artifact.build_dependencies
        ),
{
    let ghost g0 = artifact.graph;
    let MakeArtifact {
        graph,
        make_failed_dependencies: _,
        make_failed_module: _,
        diagnostics: _,
        entry_module_identifiers: _,
        entry_dependencies,
        file_dependencies,
        context_dependencies,
        missing_dependencies,
        build_dependencies: build_dependency_paths,
        has_module_graph_change: _,
    } = artifact;
    let mut ctx = MakeTaskContext {
        graph,
        make_failed_dependencies: Vec::new(),
        make_failed_module: Vec::new(),
        diagnostics: Vec::new(),
        entry_dependencies,
        file_dependencies,
        context_dependencies,
        missing_dependencies,
        build_dependency_paths,
        has_module_graph_change: false,
        queue: Vec::new(),
        qi: 0,
    };
    // Seed the queue: reset and enqueue each requested dependency whose
    // issuer is still resident (entries have no issuer and always qualify).
    let nb = build_dependencies.len();
    let mut t: usize = 0;
    while t < nb
        invariant
            nb == build_dependencies@.len(),
            t <= nb,
            forall|tt: int| 0 <= tt < nb
                ==> (#[trigger] build_dependencies@[tt]) < ctx.graph.deps@.len(),
            ctx.graph.wf(),
            deps_linked(ctx.graph),
            entry_linked(ctx.graph, ctx.entry_dependencies@),
            resolved_resident(ctx.graph),
            ctx.graph.modules@ == g0.modules@,
            ctx.graph.deps@ == g0.deps@,
            ctx.entry_dependencies@ == artifact.entry_dependencies@,
            ctx.qi == 0,
            forall|j: int| 0 <= j < ctx.queue@.len()
                ==> (#[trigger] ctx.queue@[j]) < ctx.graph.deps@.len(),
            ctx.make_failed_dependencies@.len() == 0,
            ctx.make_failed_module@.len() == 0,
            ctx.diagnostics@.len() == 0,
            !ctx.has_module_graph_change,
            ctx.paths_ok(),
            forall|dd: int| 0 <= dd < ctx.graph.deps@.len() ==> {
                ||| (#[trigger] ctx.graph.resolutions@[dd]) is Pending
                ||| (ctx.graph.resolutions@[dd] == g0.resolutions@[dd]
                    && ctx.graph.deps@[dd] == g0.deps@[dd])
            },
            // a reachable failed dependency still awaits its turn in the
            // seed list; once its turn came it was reset to pending
            forall|d: int| 0 <= d < ctx.graph.deps@.len()
                && listed_or_entry(ctx.graph, ctx.entry_dependencies@, d)
                && (#[trigger] ctx.graph.resolutions@[d]) is Failed
                ==> exists|tt: int| t <= tt < nb
                    && (#[trigger] build_dependencies@[tt]) as int == d,
            // a reachable pending dependency is enqueued or still awaits its
            // turn in the seed list
            forall|d: int| 0 <= d < ctx.graph.deps@.len()
                && listed_or_entry(ctx.graph, ctx.entry_dependencies@, d)
                && (#[trigger] ctx.graph.resolutions@[d]) is Pending
                ==> in_suffix(ctx.queue@, 0, d)
                    || exists|tt: int| t <= tt < nb
                        && (#[trigger] build_dependencies@[tt]) as int == d,
            nb == 0 ==> (ctx.graph == g0 && ctx.queue@.len() == 0
                && ctx.file_dependencies == artifact.file_dependencies
                && ctx.context_dependencies == artifact.context_dependencies
                && ctx.missing_dependencies == artifact.missing_dependencies
                && ctx.build_dependency_paths == artifact.build_dependencies),
        decreases nb - t,
    {
        let ghost snap = ctx.graph;
        let ghost qsnap = ctx.queue@;
        let d = build_dependencies[t];
        let issuer_ok = match ctx.graph.deps[d].parent {
            Some(p) => ctx.graph.contains_module(p),
            None => true,
        };
        if issuer_ok {
            ctx.graph.set_pending(d);
            ctx.queue.push(d);
            proof {
                lemma_preds_same_views_free(snap, ctx.graph, Seq::<DepId>::empty());
                assert forall|dd: int| 0 <= dd < ctx.graph.resolutions@.len()
                    && (#[trigger] ctx.graph.resolutions@[dd]) is Resolved
                    implies ctx.graph.resident(
                        ctx.graph.resolutions@[dd]->Resolved_0 as int,
                    ) by {
                    assert(ctx.graph.resolutions@[dd] == snap.resolutions@[dd]);
                }
            }
        }
        proof {
            assert forall|mm: int, k: int| ctx.graph.resident(mm)
                        && 0 <= k < ctx.graph.module_at(mm).file_dependencies@.len()
                        implies ctx.file_dependencies@.contains(
                            #[trigger] ctx.graph.module_at(mm).file_dependencies@[k]) by {
                        assert(snap.resident(mm));
                        assert(ctx.graph.module_at(mm) == snap.module_at(mm));
                        assert(ctx.file_dependencies@.contains(snap.module_at(mm).file_dependencies@[k]));
                    }

            assert forall|mm: int, k: int| ctx.graph.resident(mm)
                        && 0 <= k < ctx.graph.module_at(mm).context_dependencies@.len()
                        implies ctx.context_dependencies@.contains(
                            #[trigger] ctx.graph.module_at(mm).context_dependencies@[k]) by {
                        assert(snap.resident(mm));
                        assert(ctx.graph.module_at(mm) == snap.module_at(mm));
                        assert(ctx.context_dependencies@.contains(snap.module_at(mm).context_dependencies@[k]));
                    }

            assert forall|mm: int, k: int| ctx.graph.resident(mm)
                        && 0 <= k < ctx.graph.module_at(mm).missing_dependencies@.len()
                        implies ctx.missing_dependencies@.contains(
                            #[trigger] ctx.graph.module_at(mm).missing_dependencies@[k]) by {
                        assert(snap.resident(mm));
                        assert(ctx.graph.module_at(mm) == snap.module_at(mm));
                        assert(ctx.missing_dependencies@.contains(snap.module_at(mm).missing_dependencies@[k]));
                    }

            assert forall|mm: int, k: int| ctx.graph.resident(mm)
                        && 0 <= k < ctx.graph.module_at(mm).build_dependencies@.len()
                        implies ctx.build_dependency_paths@.contains(
                            #[trigger] ctx.graph.module_at(mm).build_dependencies@[k]) by {
                        assert(snap.resident(mm));
                        assert(ctx.graph.module_at(mm) == snap.module_at(mm));
                        assert(ctx.build_dependency_paths@.contains(snap.module_at(mm).build_dependencies@[k]));
                    }
            // whether the head was enqueued: if it is reachable, its issuer
            // is resident (or it is an entry), so the filter accepted it
            assert forall|dd: int| 0 <= dd < ctx.graph.deps@.len()
                && listed_or_entry(ctx.graph, ctx.entry_dependencies@, dd)
                && (#[trigger] ctx.graph.resolutions@[dd]) is Failed
                implies exists|tt: int| t + 1 <= tt < nb
                    && (#[trigger] build_dependencies@[tt]) as int == dd by {
                lemma_listed_same(snap, ctx.graph, ctx.entry_dependencies@, dd);
                assert(snap.resolutions@[dd] == ctx.graph.resolutions@[dd]
                    || ctx.graph.resolutions@[dd] is Pending);
                let tt = choose|tt: int| t <= tt < nb
                    && (#[trigger] build_dependencies@[tt]) as int == dd;
                if tt == t {
                    // the head was reset or filtered; a reachable head always
                    // passes the filter, so it would be pending now
                    if listed(ctx.graph, dd) {
                        let (m2, k2) = choose|m2: int, k2: int|
                            ctx.graph.resident(m2)
                                && 0 <= k2 < ctx.graph.module_at(m2).dependencies@.len()
                                && (#[trigger] ctx.graph.module_at(m2).dependencies@[k2])
                                    as int == dd;
                        assert(ctx.graph.deps@[dd].parent == Some(m2 as usize));
                        assert(snap.resident(m2));
                        assert(false);
                    } else {
                        assert(ctx.graph.deps@[dd].parent is None);
                        assert(false);
                    }
                }
            }
            assert forall|dd: int| 0 <= dd < ctx.graph.deps@.len()
                && listed_or_entry(ctx.graph, ctx.entry_dependencies@, dd)
                && (#[trigger] ctx.graph.resolutions@[dd]) is Pending
                implies in_suffix(ctx.queue@, 0, dd)
                    || exists|tt: int| t + 1 <= tt < nb
                        && (#[trigger] build_dependencies@[tt]) as int == dd by {
                lemma_listed_same(snap, ctx.graph, ctx.entry_dependencies@, dd);
                if dd == d as int && ctx.queue@.len() > qsnap.len() {
                    assert(ctx.queue@[ctx.queue@.len() - 1] == d);
                    assert(in_suffix(ctx.queue@, 0, dd));
                } else if dd == d as int {
                    // head not enqueued: it was filtered or out of bounds,
                    // but a reachable pending head passes the filter
                    if snap.resolutions@[dd] is Pending {
                        if listed(ctx.graph, dd) {
                            let (m2, k2) = choose|m2: int, k2: int|
                                ctx.graph.resident(m2)
                                    && 0 <= k2 < ctx.graph.module_at(m2).dependencies@.len()
                                    && (#[trigger] ctx.graph.module_at(m2).dependencies@[k2])
                                        as int == dd;
                            assert(ctx.graph.deps@[dd].parent == Some(m2 as usize));
                            assert(snap.resident(m2));
                            assert(false);
                        } else {
                            assert(ctx.graph.deps@[dd].parent is None);
                            assert(false);
                        }
                    } else {
                        // it was failed and awaits its turn later in the list
                        let tt = choose|tt: int| t <= tt < nb
                            && (#[trigger] build_dependencies@[tt]) as int == dd;
                        assert(tt != t || ctx.graph.resolutions@[dd] is Pending);
                        assert(false);
                    }
                } else {
                    assert(snap.resolutions@[dd] == ctx.graph.resolutions@[dd]);
                    if in_suffix(qsnap, 0, dd) {
                        let jx = choose|jx: int| 0 <= jx < qsnap.len()
                            && (#[trigger] qsnap[jx]) as int == dd;
                        assert(ctx.queue@[jx] as int == dd);
                        assert(in_suffix(ctx.queue@, 0, dd));
                    } else {
                        let tt = choose|tt: int| t <= tt < nb
                            && (#[trigger] build_dependencies@[tt]) as int == dd;
                        assert(tt != t);
                    }
                }
            }
        }
        t = t + 1;
    }
    // Drain the queue: one cooperative task per iteration.
    while ctx.qi < ctx.queue.len()
        invariant
            ctx.inv(),
            cache.wf(*world),
            world.targets_in_range(),
            ctx.entry_dependencies@ == artifact.entry_dependencies@,
            forall|mm: int| g0.resident(mm) ==> ctx.graph.resident(mm)
                && (#[trigger] ctx.graph.module_at(mm)) == g0.module_at(mm),
            ctx.paths_ok(),
            forall|dd: int| 0 <= dd < ctx.graph.deps@.len() ==> {
                ||| (#[trigger] ctx.graph.resolutions@[dd]) is Pending
                ||| follows_resolver(*world, ctx.graph, dd)
                ||| (dd < g0.deps@.len()
                    && ctx.graph.resolutions@[dd] == g0.resolutions@[dd]
                    && ctx.graph.deps@[dd] == g0.deps@[dd])
            },
            forall|i: int| 0 <= i < ctx.make_failed_dependencies@.len() ==> {
                let fdp = #[trigger] ctx.make_failed_dependencies@[i];
                (fdp.0 as int) < ctx.graph.deps@.len()
                    && failure_diag_recorded(ctx.diagnostics@, ctx.graph, fdp.1,
                        fdp.0 as int)
            },
            nb == 0 ==> (ctx.graph == g0 && ctx.queue@.len() == 0
                && ctx.make_failed_dependencies@.len() == 0
                && ctx.make_failed_module@.len() == 0
                && ctx.diagnostics@.len() == 0
                && !ctx.has_module_graph_change
                && ctx.file_dependencies == artifact.file_dependencies
                && ctx.context_dependencies == artifact.context_dependencies
                && ctx.missing_dependencies == artifact.missing_dependencies
                && ctx.build_dependency_paths == artifact.build_dependencies),
        decreases ctx.measure(*world),
    {
        let ghost before = ctx;
        let d = ctx.queue[ctx.qi];
        let settledness = ctx.graph.resolution_of(d);
        match settledness {
            DepResolution::Pending => {
                let target = resolve_request(world, &ctx.graph.deps[d].request);
                match target {
                    None => {
                        ctx.step_resolution_failure(world, d);
                        proof {
                            assert forall|dd: int| 0 <= dd < ctx.graph.deps@.len()
                                implies {
                                ||| (#[trigger] ctx.graph.resolutions@[dd]) is Pending
                                ||| follows_resolver(*world, ctx.graph, dd)
                                ||| (dd < g0.deps@.len()
                                    && ctx.graph.resolutions@[dd] == g0.resolutions@[dd]
                                    && ctx.graph.deps@[dd] == g0.deps@[dd])
                            } by {
                                if dd == d as int {
                                    assert(follows_resolver(*world, ctx.graph, dd));
                                } else {
                                    assert(ctx.graph.resolutions@[dd]
                                        == before.graph.resolutions@[dd]);
                                    assert(ctx.graph.deps@[dd] == before.graph.deps@[dd]);
                                }
                            }
                            assert forall|i: int|
                                0 <= i < ctx.make_failed_dependencies@.len() implies {
                                let fdp = #[trigger] ctx.make_failed_dependencies@[i];
                                (fdp.0 as int) < ctx.graph.deps@.len()
                                    && failure_diag_recorded(ctx.diagnostics@, ctx.graph,
                                        fdp.1, fdp.0 as int)
                            } by {
                                if i < before.make_failed_dependencies@.len() {
                                    assert(ctx.make_failed_dependencies@[i]
                                        == before.make_failed_dependencies@[i]);
                                    let fdp = before.make_failed_dependencies@[i];
                                    assert(failure_diag_recorded(before.diagnostics@,
                                        before.graph, fdp.1, fdp.0 as int));
                                    let j = choose|j: int| 0 <= j < before.diagnostics@.len()
                                        && (#[trigger] before.diagnostics@[j]).kind
                                            is ResolutionFailed
                                        && before.diagnostics@[j].severity is Error
                                        && before.diagnostics@[j].module == fdp.1
                                        && before.diagnostics@[j].span_start
                                            == before.graph.deps@[fdp.0 as int].span_start
                                        && before.diagnostics@[j].span_end
                                            == before.graph.deps@[fdp.0 as int].span_end;
                                    assert(ctx.diagnostics@[j] == before.diagnostics@[j]);
                                } else {
                                    let j = ctx.diagnostics@.len() - 1;
                                    assert(ctx.diagnostics@[j].kind is ResolutionFailed);
                                }
                            }
                        }
                    }
                    Some(m) => {
                        proof {
                            lemma_resolve_target(
                                world.resolutions@,
                                ctx.graph.deps@[d as int].request@,
                            );
                        }
                        if ctx.graph.contains_module(m) {
                            ctx.step_connect_existing(world, d, m);
                        } else {
                            ctx.step_discover(world, cache, d, m);
                        }
                        proof {
                            assert forall|dd: int| 0 <= dd < ctx.graph.deps@.len()
                                implies {
                                ||| (#[trigger] ctx.graph.resolutions@[dd]) is Pending
                                ||| follows_resolver(*world, ctx.graph, dd)
                                ||| (dd < g0.deps@.len()
                                    && ctx.graph.resolutions@[dd] == g0.resolutions@[dd]
                                    && ctx.graph.deps@[dd] == g0.deps@[dd])
                            } by {
                                if dd == d as int {
                                    assert(ctx.graph.resolutions@[dd]
                                        == DepResolution::Resolved(m));
                                    assert(ctx.graph.deps@[dd] == before.graph.deps@[dd]);
                                    assert(follows_resolver(*world, ctx.graph, dd));
                                } else if dd < before.graph.deps@.len() {
                                    assert(ctx.graph.resolutions@[dd]
                                        == before.graph.resolutions@[dd]);
                                    assert(ctx.graph.deps@[dd] == before.graph.deps@[dd]);
                                } else {
                                    assert(ctx.graph.resolutions@[dd] is Pending);
                                }
                            }
                            assert forall|i: int|
                                0 <= i < ctx.make_failed_dependencies@.len() implies {
                                let fdp = #[trigger] ctx.make_failed_dependencies@[i];
                                (fdp.0 as int) < ctx.graph.deps@.len()
                                    && failure_diag_recorded(ctx.diagnostics@, ctx.graph,
                                        fdp.1, fdp.0 as int)
                            } by {
                                assert(ctx.make_failed_dependencies@[i]
                                    == before.make_failed_dependencies@[i]);
                                let fdp = before.make_failed_dependencies@[i];
                                assert(failure_diag_recorded(before.diagnostics@,
                                    before.graph, fdp.1, fdp.0 as int));
                                let j = choose|j: int| 0 <= j < before.diagnostics@.len()
                                    && (#[trigger] before.diagnostics@[j]).kind
                                        is ResolutionFailed
                                    && before.diagnostics@[j].severity is Error
                                    && before.diagnostics@[j].module == fdp.1
                                    && before.diagnostics@[j].span_start
                                        == before.graph.deps@[fdp.0 as int].span_start
                                    && before.diagnostics@[j].span_end
                                        == before.graph.deps@[fdp.0 as int].span_end;
                                assert(ctx.diagnostics@[j] == before.diagnostics@[j]);
                                assert(ctx.graph.deps@[fdp.0 as int]
                                    == before.graph.deps@[fdp.0 as int]);
                            }
                            assert forall|mm: int, k: int| ctx.graph.resident(mm)
                                && 0 <= k
                                    < ctx.graph.module_at(mm).file_dependencies@.len()
                                implies ctx.file_dependencies@.contains(
                                    #[trigger] ctx.graph.module_at(
                                        mm).file_dependencies@[k]) by {
                                if mm != m as int {
                                    assert(mm < before.graph.modules@.len());
                                    assert(ctx.graph.modules@[mm]
                                        == before.graph.modules@[mm]);
                                    assert(before.file_dependencies@.contains(
                                        before.graph.module_at(
                                            mm).file_dependencies@[k]));
                                }
                            }
                            assert forall|mm: int, k: int| ctx.graph.resident(mm)
                                && 0 <= k
                                    < ctx.graph.module_at(mm).context_dependencies@.len()
                                implies ctx.context_dependencies@.contains(
                                    #[trigger] ctx.graph.module_at(
                                        mm).context_dependencies@[k]) by {
                                if mm != m as int {
                                    assert(mm < before.graph.modules@.len());
                                    assert(ctx.graph.modules@[mm]
                                        == before.graph.modules@[mm]);
                                    assert(before.context_dependencies@.contains(
                                        before.graph.module_at(
                                            mm).context_dependencies@[k]));
                                }
                            }
                            assert forall|mm: int, k: int| ctx.graph.resident(mm)
                                && 0 <= k
                                    < ctx.graph.module_at(mm).missing_dependencies@.len()
                                implies ctx.missing_dependencies@.contains(
                                    #[trigger] ctx.graph.module_at(
                                        mm).missing_dependencies@[k]) by {
                                if mm != m as int {
                                    assert(mm < before.graph.modules@.len());
                                    assert(ctx.graph.modules@[mm]
                                        == before.graph.modules@[mm]);
                                    assert(before.missing_dependencies@.contains(
                                        before.graph.module_at(
                                            mm).missing_dependencies@[k]));
                                }
                            }
                            assert forall|mm: int, k: int| ctx.graph.resident(mm)
                                && 0 <= k
                                    < ctx.graph.module_at(mm).build_dependencies@.len()
                                implies ctx.build_dependency_paths@.contains(
                                    #[trigger] ctx.graph.module_at(
                                        mm).build_dependencies@[k]) by {
                                if mm != m as int {
                                    assert(mm < before.graph.modules@.len());
                                    assert(ctx.graph.modules@[mm]
                                        == before.graph.modules@[mm]);
                                    assert(before.build_dependency_paths@.contains(
                                        before.graph.module_at(
                                            mm).build_dependencies@[k]));
                                }
                            }
                        }
                    }
                }
            }
            _ => {
                ctx.step_skip(world, d);
            }
        }
        proof {
            ctx.lemma_measure_nonneg(*world);
            assert forall|mm: int| g0.resident(mm)
                implies ctx.graph.resident(mm)
                    && (#[trigger] ctx.graph.module_at(mm)) == g0.module_at(mm) by {
                assert(before.graph.resident(mm));
                assert(before.graph.module_at(mm) == g0.module_at(mm));
                assert(ctx.graph.modules@[mm] == before.graph.modules@[mm]);
            }
            assert forall|mm: int, k: int| ctx.graph.resident(mm)
                && 0 <= k < ctx.graph.module_at(mm).file_dependencies@.len()
                implies ctx.file_dependencies@.contains(
                    #[trigger] ctx.graph.module_at(mm).file_dependencies@[k]) by {
                if before.graph.resident(mm)
                    && ctx.graph.module_at(mm) == before.graph.module_at(mm) {
                    assert(before.file_dependencies@.contains(
                        before.graph.module_at(mm).file_dependencies@[k]));
                }
            }
            assert forall|mm: int, k: int| ctx.graph.resident(mm)
                && 0 <= k < ctx.graph.module_at(mm).context_dependencies@.len()
                implies ctx.context_dependencies@.contains(
                    #[trigger] ctx.graph.module_at(mm).context_dependencies@[k]) by {
                if before.graph.resident(mm)
                    && ctx.graph.module_at(mm) == before.graph.module_at(mm) {
                    assert(before.context_dependencies@.contains(
                        before.graph.module_at(mm).context_dependencies@[k]));
                }
            }
            assert forall|mm: int, k: int| ctx.graph.resident(mm)
                && 0 <= k < ctx.graph.module_at(mm).missing_dependencies@.len()
                implies ctx.missing_dependencies@.contains(
                    #[trigger] ctx.graph.module_at(mm).missing_dependencies@[k]) by {
                if before.graph.resident(mm)
                    && ctx.graph.module_at(mm) == before.graph.module_at(mm) {
                    assert(before.missing_dependencies@.contains(
                        before.graph.module_at(mm).missing_dependencies@[k]));
                }
            }
            assert forall|mm: int, k: int| ctx.graph.resident(mm)
                && 0 <= k < ctx.graph.module_at(mm).build_dependencies@.len()
                implies ctx.build_dependency_paths@.contains(
                    #[trigger] ctx.graph.module_at(mm).build_dependencies@[k]) by {
                if before.graph.resident(mm)
                    && ctx.graph.module_at(mm) == before.graph.module_at(mm) {
                    assert(before.build_dependency_paths@.contains(
                        before.graph.module_at(mm).build_dependencies@[k]));
                }
            }
        }
    }
    let entry_module_identifiers = collect_entries(&ctx.graph, &ctx.entry_dependencies);
    proof {
        // with the queue drained, no reachable dependency is pending, so the
        // graph is closed
        assert forall|d: int| 0 <= d < ctx.graph.deps@.len()
            && #[trigger] listed_or_entry(ctx.graph, ctx.entry_dependencies@, d)
            implies settled(ctx.graph, ctx.make_failed_dependencies@, d) by {
            if ctx.graph.resolutions@[d] is Pending {
                assert(in_suffix(ctx.queue@, ctx.qi as int, d));
                assert(false);
            }
        }
    }
    let MakeTaskContext {
        graph,
        make_failed_dependencies,
        make_failed_module,
        diagnostics,
        entry_dependencies,
        file_dependencies,
        context_dependencies,
        missing_dependencies,
        build_dependency_paths,
        has_module_graph_change,
        queue: _,
        qi: _,
    } = ctx;
    MakeArtifact {
        graph,
        make_failed_dependencies,
        make_failed_module,
        diagnostics,
        entry_module_identifiers,
        entry_dependencies,
        file_dependencies,
        context_dependencies,
        missing_dependencies,
        build_dependencies: build_dependency_paths,
        has_module_graph_change,
    }
}

/// One end-to-end make cycle. On the first run the configured entries are
/// turned into entry dependencies; on later runs the modules named in
/// `changed_modules` are revoked and rebuilt, together with everything the
/// previous cycle recorded as failed. With no changes and a clean previous
/// artifact, the cycle returns the artifact unchanged and reports
/// `has_module_graph_change == false` (idempotent make).
#[verifier::rlimit(60)]
pub fn make(
    entries: &Vec<String>,
    world: &World,
    artifact: MakeArtifact,
    changed_modules: &Vec<ModuleId>,
    cache: &mut CodeCache,
) -> (r: MakeArtifact)
    requires
        artifact_wf(artifact),
        artifact_closed(artifact),
        paths_recorded(artifact),
        old(cache).wf(*world),
        world.targets_in_range(),
    ensures
        artifact_wf(r),
        artifact_closed(r),
        paths_recorded(r),
        final(cache).wf(*world),
        r.entry_module_identifiers@ == spec_entries(r.graph, r.entry_dependencies@),
        forall|i: int| 0 <= i < r.entry_module_identifiers@.len()
            ==> r.graph.resident((#[trigger] r.entry_module_identifiers@[i]) as int),
        (changed_modules@.len() == 0
            && artifact.make_failed_dependencies@.len() == 0
            && artifact.make_failed_module@.len() == 0
            && artifact.entry_dependencies@.len() > 0) ==> (
            r.graph == artifact.graph
            && !r.has_module_graph_change
            && r.make_failed_dependencies@.len() == 0
            && r.make_failed_module@.len() == 0
            && r.diagnostics@.len() == 0
            && r.entry_dependencies@ == artifact.entry_dependencies@
            && r.file_dependencies == artifact.file_dependencies
            && r.context_dependencies == artifact.context_dependencies
            && r.missing_dependencies == artifact.missing_dependencies
            && r.build_dependencies == artifact.build_dependencies
        ),
{
    let ghost a0 = artifact;
    let mut artifact = artifact;
    // First run: record one entry dependency per configured entry.
    if artifact.entry_dependencies.len() == 0 {
        let ne = entries.len();
        let mut i: usize = 0;
        while i < ne
            invariant
                ne == entries@.len(),
                i <= ne,
                artifact.graph.wf(),
                deps_linked(artifact.graph),
                entry_linked(artifact.graph, artifact.entry_dependencies@),
                resolved_resident(artifact.graph),
                artifact.graph.modules@ == a0.graph.modules@,
                forall|d: int| 0 <= d < a0.graph.deps@.len()
                    ==> #[trigger] artifact.graph.deps@[d] == a0.graph.deps@[d]
                        && artifact.graph.resolutions@[d] == a0.graph.resolutions@[d],
                artifact.graph.deps@.len() >= a0.graph.deps@.len(),
                artifact.make_failed_dependencies@ == a0.make_failed_dependencies@,
                artifact.make_failed_module@ == a0.make_failed_module@,
                paths_recorded(artifact),
            decreases ne - i,
        {
            let ghost snap = artifact.graph;
            let dep = Dep {
                kind: DepKind::Entry,
                request: entries[i].clone(),
                parent: None,
                span_start: 0,
                span_end: 0,
            };
            let d = artifact.graph.add_dependency(dep);
            artifact.entry_dependencies.push(d);
            proof {
                lemma_deps_linked_extend(snap, artifact.graph);
                assert forall|mm: int, k: int| artifact.graph.resident(mm)
                                && 0 <= k < artifact.graph.module_at(mm).file_dependencies@.len()
                                implies artifact.file_dependencies@.contains(
                                    #[trigger] artifact.graph.module_at(mm).file_dependencies@[k]) by {
                                assert(snap.resident(mm));
                                assert(artifact.graph.module_at(mm) == snap.module_at(mm));
                                assert(artifact.file_dependencies@.contains(snap.module_at(mm).file_dependencies@[k]));
                            }

            assert forall|mm: int, k: int| artifact.graph.resident(mm)
                                && 0 <= k < artifact.graph.module_at(mm).context_dependencies@.len()
                                implies artifact.context_dependencies@.contains(
                                    #[trigger] artifact.graph.module_at(mm).context_dependencies@[k]) by {
                                assert(snap.resident(mm));
                                assert(artifact.graph.module_at(mm) == snap.module_at(mm));
                                assert(artifact.context_dependencies@.contains(snap.module_at(mm).context_dependencies@[k]));
                            }

            assert forall|mm: int, k: int| artifact.graph.resident(mm)
                                && 0 <= k < artifact.graph.module_at(mm).missing_dependencies@.len()
                                implies artifact.missing_dependencies@.contains(
                                    #[trigger] artifact.graph.module_at(mm).missing_dependencies@[k]) by {
                                assert(snap.resident(mm));
                                assert(artifact.graph.module_at(mm) == snap.module_at(mm));
                                assert(artifact.missing_dependencies@.contains(snap.module_at(mm).missing_dependencies@[k]));
                            }

            assert forall|mm: int, k: int| artifact.graph.resident(mm)
                                && 0 <= k < artifact.graph.module_at(mm).build_dependencies@.len()
                                implies artifact.build_dependencies@.contains(
                                    #[trigger] artifact.graph.module_at(mm).build_dependencies@[k]) by {
                                assert(snap.resident(mm));
                                assert(artifact.graph.module_at(mm) == snap.module_at(mm));
                                assert(artifact.build_dependencies@.contains(snap.module_at(mm).build_dependencies@[k]));
                            }
                assert forall|dd: int| 0 <= dd < a0.graph.deps@.len()
                    implies #[trigger] artifact.graph.deps@[dd] == a0.graph.deps@[dd]
                        && artifact.graph.resolutions@[dd] == a0.graph.resolutions@[dd] by {
                    assert(dd < snap.deps@.len());
                    assert(artifact.graph.deps@[dd] == snap.deps@[dd]);
                    assert(snap.deps@[dd] == a0.graph.deps@[dd]);
                    assert(artifact.graph.resolutions@[dd] == snap.resolutions@[dd]);
                    assert(snap.resolutions@[dd] == a0.graph.resolutions@[dd]);
                }
                assert forall|j: int| 0 <= j < artifact.entry_dependencies@.len()
                    implies (#[trigger] artifact.entry_dependencies@[j])
                        < artifact.graph.deps@.len()
                        && artifact.graph.deps@[artifact.entry_dependencies@[j] as int].parent
                            is None
                        && artifact.graph.deps@[artifact.entry_dependencies@[j] as int].kind
                            is Entry by {
                    if j < artifact.entry_dependencies@.len() - 1 {
                        assert(snap.deps@[artifact.entry_dependencies@[j] as int].parent
                            is None);
                    }
                }
                assert forall|dd: int| 0 <= dd < artifact.graph.resolutions@.len()
                    && (#[trigger] artifact.graph.resolutions@[dd]) is Resolved
                    implies artifact.graph.resident(
                        artifact.graph.resolutions@[dd]->Resolved_0 as int,
                    ) by {
                    assert(snap.resolutions@[dd] == artifact.graph.resolutions@[dd]);
                }
            }
            i = i + 1;
        }
    }
    // Revoke every changed module so the cycle re-factorizes it.
    let ghost a1 = artifact;
    let nc = changed_modules.len();
    let mut c: usize = 0;
    while c < nc
        invariant
            nc == changed_modules@.len(),
            c <= nc,
            artifact.graph.wf(),
            deps_linked(artifact.graph),
            entry_linked(artifact.graph, artifact.entry_dependencies@),
            resolved_resident(artifact.graph),
            paths_recorded(artifact),
            nc == 0 ==> artifact == a1,
        decreases nc - c,
    {
        let ghost snap = artifact.graph;
        revoke_module(&mut artifact.graph, changed_modules[c]);
        proof {
            assert forall|mm: int, k: int| artifact.graph.resident(mm)
                && 0 <= k < artifact.graph.module_at(mm).file_dependencies@.len()
                implies artifact.file_dependencies@.contains(
                    #[trigger] artifact.graph.module_at(mm).file_dependencies@[k]) by {
                assert(artifact.graph.modules@[mm] == snap.modules@[mm]);
                assert(snap.resident(mm));
                assert(artifact.graph.module_at(mm) == snap.module_at(mm));
                assert(artifact.file_dependencies@.contains(
                    snap.module_at(mm).file_dependencies@[k]));
            }
            assert forall|mm: int, k: int| artifact.graph.resident(mm)
                && 0 <= k < artifact.graph.module_at(mm).context_dependencies@.len()
                implies artifact.context_dependencies@.contains(
                    #[trigger] artifact.graph.module_at(mm).context_dependencies@[k]) by {
                assert(artifact.graph.modules@[mm] == snap.modules@[mm]);
                assert(snap.resident(mm));
                assert(artifact.graph.module_at(mm) == snap.module_at(mm));
                assert(artifact.context_dependencies@.contains(
                    snap.module_at(mm).context_dependencies@[k]));
            }
            assert forall|mm: int, k: int| artifact.graph.resident(mm)
                && 0 <= k < artifact.graph.module_at(mm).missing_dependencies@.len()
                implies artifact.missing_dependencies@.contains(
                    #[trigger] artifact.graph.module_at(mm).missing_dependencies@[k]) by {
                assert(artifact.graph.modules@[mm] == snap.modules@[mm]);
                assert(snap.resident(mm));
                assert(artifact.graph.module_at(mm) == snap.module_at(mm));
                assert(artifact.missing_dependencies@.contains(
                    snap.module_at(mm).missing_dependencies@[k]));
            }
            assert forall|mm: int, k: int| artifact.graph.resident(mm)
                && 0 <= k < artifact.graph.module_at(mm).build_dependencies@.len()
                implies artifact.build_dependencies@.contains(
                    #[trigger] artifact.graph.module_at(mm).build_dependencies@[k]) by {
                assert(artifact.graph.modules@[mm] == snap.modules@[mm]);
                assert(snap.resident(mm));
                assert(artifact.graph.module_at(mm) == snap.module_at(mm));
                assert(artifact.build_dependencies@.contains(
                    snap.module_at(mm).build_dependencies@[k]));
            }
        }
        c = c + 1;
    }
    let invalidations = compute_invalidations(&artifact);
    proof {
        if changed_modules@.len() == 0 && a0.make_failed_dependencies@.len() == 0
            && a0.make_failed_module@.len() == 0 && a0.entry_dependencies@.len() > 0 {
            // a clean artifact leaves nothing to invalidate
            if invalidations@.len() > 0 {
                let d = invalidations@[0] as int;
                assert(listed_or_entry(artifact.graph, artifact.entry_dependencies@, d));
                assert(settled(a0.graph, a0.make_failed_dependencies@, d));
            }
        }
    }
    repair(artifact, world, &invalidations, cache)
}

/// Graph closure, read per module: after a successful make cycle, every
/// outgoing dependency of every resident module either resolves to a
/// resident module or is recorded in the failed-dependencies set.
pub proof fn lemma_graph_closure(a: MakeArtifact, m: int, k: int)
    requires
        artifact_wf(a),
        artifact_closed(a),
        a.graph.resident(m),
        0 <= k < a.graph.module_at(m).dependencies@.len(),
    ensures
        ({
            let d = a.graph.module_at(m).dependencies@[k] as int;
            settled(a.graph, a.make_failed_dependencies@, d)
        }),
{
    let d = a.graph.module_at(m).dependencies@[k] as int;
    assert(listed(a.graph, d));
    assert(listed_or_entry(a.graph, a.entry_dependencies@, d));
}

} // verus!
