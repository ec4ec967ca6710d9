//! Chunking: after make, modules are grouped into chunks. Each entry point
//! seeds an initial chunk; every dynamic import splits an async child chunk,
//! linked to its parent through a chunk-group edge. A chunk's module set is
//! the synchronous closure of its root.

use vstd::prelude::*;
use crate::ids::Interner;
use crate::module_graph::{DepKind, DepResolution, ModuleGraph, ModuleId};
use crate::make::{resolved_resident};

verus! {

#[derive(Clone, Copy, PartialEq, Eq, Structural, Debug)]
pub enum ChunkKind {
    Normal,
    HotUpdate,
    Entry,
}

/// A grouping of modules emitted as one or more output assets.
#[derive(Debug)]
pub struct Chunk {
    /// Unique handle; equals this chunk's index in the chunk graph.
    pub ukey: usize,
    /// Stable identifier, rendered into output names.
    pub id: String,
    pub name: Option<String>,
    pub kind: ChunkKind,
    /// The chunk whose root this is: loaded at startup or on demand.
    pub is_initial: bool,
    /// Whether this chunk carries the runtime bootstrap.
    pub has_runtime: bool,
    /// The root module the chunk was seeded from.
    pub root: ModuleId,
    /// Member modules, in ascending stable-identifier order.
    pub modules: Vec<ModuleId>,
}

/// An ordered collection of chunks with entry-point semantics; parents and
/// children model async loading.
#[derive(Debug)]
pub struct ChunkGroup {
    /// Unique handle; equals this group's index in the chunk graph.
    pub ukey: usize,
    pub chunks: Vec<usize>,
    pub parents: Vec<usize>,
    pub children: Vec<usize>,
}

/// The chunk graph: chunks, their groups, and the group edges.
#[derive(Debug)]
pub struct ChunkGraph {
    pub chunks: Vec<Chunk>,
    pub groups: Vec<ChunkGroup>,
    /// For each module identifier, the chunk seeded at it, if any.
    pub chunk_of_root: Vec<Option<usize>>,
}

/// Whether the membership table is closed under resolved synchronous edges:
/// if a member module synchronously depends on a resident module, that
/// module is a member too.
pub open spec fn sync_members_closed(g: ModuleGraph, members: Seq<bool>) -> bool {
    forall|m: int, k: int|
        0 <= m < members.len() && members[m] && g.resident(m)
            && 0 <= k < g.module_at(m).dependencies@.len()
            && !(g.deps@[(#[trigger] g.module_at(m).dependencies@[k]) as int].kind is DynImport)
            && g.resolutions@[g.module_at(m).dependencies@[k] as int] is Resolved
            && g.resolutions@[g.module_at(m).dependencies@[k] as int]->Resolved_0
                < members.len()
        ==> members[g.resolutions@[g.module_at(m).dependencies@[k] as int]->Resolved_0 as int]
}

/// How many of the first `n` entries are still false.
pub open spec fn count_false(s: Seq<bool>, n: int) -> int
    decreases n,
{
    if n <= 0 {
        0
    } else {
        count_false(s, n - 1) + if s[n - 1] { 0int } else { 1int }
    }
}

proof fn lemma_count_false_nonneg(s: Seq<bool>, n: int)
    ensures
        count_false(s, n) >= 0,
    decreases n,
{
    if n > 0 {
        lemma_count_false_nonneg(s, n - 1);
    }
}

proof fn lemma_count_false_set(s1: Seq<bool>, s2: Seq<bool>, i: int, n: int)
    requires
        0 <= i < s1.len(),
        n <= s1.len(),
        !s1[i],
        s2 == s1.update(i, true),
    ensures
        count_false(s2, n) == count_false(s1, n) - if i < n { 1int } else { 0int },
    decreases n,
{
    if n > 0 {
        lemma_count_false_set(s1, s2, i, n - 1);
    }
}

/// The set of modules reachable from `root` over resolved synchronous
/// edges: membership is propagated until a full pass adds nothing.
pub fn sync_closure(g: &ModuleGraph, root: ModuleId) -> (r: Vec<bool>)
    requires
        g.wf(),
        (root as int) < g.modules@.len(),
    ensures
        r@.len() == g.modules@.len(),
        r@[root as int],
        sync_members_closed(*g, r@),
        // and nothing more: membership is the least closed set around the
        // root, so every closed superset of the root contains it
        forall|s: Seq<bool>, i: int|
            #![trigger sync_members_closed(*g, s), r@[i]]
            s.len() == g.modules@.len() && s[root as int]
                && sync_members_closed(*g, s) && 0 <= i < r@.len() && r@[i]
            ==> s[i],
{
    let n = g.modules.len();
    let mut members: Vec<bool> = Vec::new();
    let mut z: usize = 0;
    while z < n
        invariant
            z <= n,
            members@.len() == z,
            forall|i: int| 0 <= i < z ==> !(#[trigger] members@[i]),
        decreases n - z,
    {
        members.push(false);
        z = z + 1;
    }
    members.set(root, true);
    let mut changed = true;
    while changed
        invariant
            g.wf(),
            members@.len() == n,
            n == g.modules@.len(),
            (root as int) < n,
            members@[root as int],
            forall|s: Seq<bool>, i: int|
                #![trigger sync_members_closed(*g, s), members@[i]]
                s.len() == n && s[root as int] && sync_members_closed(*g, s)
                    && 0 <= i < n && members@[i]
                ==> s[i],
            // when the last pass changed nothing, membership is closed
            !changed ==> sync_members_closed(*g, members@),
        decreases count_false(members@, n as int) + if changed { 1int } else { 0int },
    {
        proof {
            lemma_count_false_nonneg(members@, n as int);
        }
        changed = false;
        let ghost start = members@;
        let mut m: usize = 0;
        while m < n
            invariant
                g.wf(),
                members@.len() == n,
                n == g.modules@.len(),
                (root as int) < n,
                m <= n,
                members@[root as int],
                forall|s: Seq<bool>, i: int|
                    #![trigger sync_members_closed(*g, s), members@[i]]
                    s.len() == n && s[root as int] && sync_members_closed(*g, s)
                        && 0 <= i < n && members@[i]
                    ==> s[i],
                !changed ==> members@ == start,
                // membership only grows
                forall|i: int| 0 <= i < n && start[i] ==> #[trigger] members@[i],
                count_false(members@, n as int) <= count_false(start, n as int),
                changed ==> count_false(members@, n as int)
                    < count_false(start, n as int),
                // modules already visited have their sync targets in the set,
                // relative to their membership at pass start
                forall|m2: int, k: int|
                    0 <= m2 < m && start[m2] && g.resident(m2)
                        && 0 <= k < g.module_at(m2).dependencies@.len()
                        && !(g.deps@[
                            (#[trigger] g.module_at(m2).dependencies@[k]) as int
                        ].kind is DynImport)
                        && g.resolutions@[g.module_at(m2).dependencies@[k] as int]
                            is Resolved
                        && g.resolutions@[
                            g.module_at(m2).dependencies@[k] as int
                        ]->Resolved_0 < n
                    ==> members@[g.resolutions@[
                        g.module_at(m2).dependencies@[k] as int
                    ]->Resolved_0 as int],
            decreases n - m,
        {
            if members[m] {
                match g.module_by_identifier(m) {
                    Some(md) => {
                        let nk = md.dependencies.len();
                        let mut k: usize = 0;
                        while k < nk
                            invariant
                                g.wf(),
                                members@.len() == n,
                                n == g.modules@.len(),
                                (root as int) < n,
                                k <= nk,
                                m < n,
                                members@[root as int],
                                members@[m as int],
                                forall|i: int| 0 <= i < n && start[i]
                                    ==> #[trigger] members@[i],
                                forall|s: Seq<bool>, i: int|
                                    #![trigger sync_members_closed(*g, s), members@[i]]
                                    s.len() == n && s[root as int]
                                        && sync_members_closed(*g, s)
                                        && 0 <= i < n && members@[i]
                                    ==> s[i],
                                g.resident(m as int),
                                *md == g.module_at(m as int),
                                nk == md.dependencies@.len(),
                                !changed ==> members@ == start,
                                forall|i: int| 0 <= i < n && start[i]
                                    ==> #[trigger] members@[i],
                                count_false(members@, n as int)
                                    <= count_false(start, n as int),
                                changed ==> count_false(members@, n as int)
                                    < count_false(start, n as int),
                                forall|m2: int, k2: int|
                                    0 <= m2 < m && start[m2] && g.resident(m2)
                                        && 0 <= k2 < g.module_at(m2).dependencies@.len()
                                        && !(g.deps@[
                                            (#[trigger] g.module_at(m2).dependencies@[k2])
                                                as int
                                        ].kind is DynImport)
                                        && g.resolutions@[
                                            g.module_at(m2).dependencies@[k2] as int
                                        ] is Resolved
                                        && g.resolutions@[
                                            g.module_at(m2).dependencies@[k2] as int
                                        ]->Resolved_0 < n
                                    ==> members@[g.resolutions@[
                                        g.module_at(m2).dependencies@[k2] as int
                                    ]->Resolved_0 as int],
                                forall|k2: int|
                                    0 <= k2 < k
                                        && !(g.deps@[
                                            (#[trigger] md.dependencies@[k2]) as int
                                        ].kind is DynImport)
                                        && g.resolutions@[md.dependencies@[k2] as int]
                                            is Resolved
                                        && g.resolutions@[
                                            md.dependencies@[k2] as int
                                        ]->Resolved_0 < n
                                    ==> members@[g.resolutions@[
                                        md.dependencies@[k2] as int
                                    ]->Resolved_0 as int],
                            decreases nk - k,
                        {
                            let d = md.dependencies[k];
                            let is_sync = match g.dependency_by_id(d) {
                                Some(dep) => match dep.kind {
                                    DepKind::DynImport => false,
                                    _ => true,
                                },
                                None => false,
                            };
                            if is_sync {
                                match g.resolution_of(d) {
                                    DepResolution::Resolved(t) => {
                                        if t < n && !members[t] {
                                            let ghost before = members@;
                                            members.set(t, true);
                                            changed = true;
                                            proof {
                                                lemma_count_false_set(
                                                    before, members@, t as int, n as int);
                                                assert forall|s: Seq<bool>, i: int|
                                                    #![trigger sync_members_closed(*g, s),
                                                        members@[i]]
                                                    s.len() == n && s[root as int]
                                                        && sync_members_closed(*g, s)
                                                        && 0 <= i < n && members@[i]
                                                    implies s[i] by {
                                                    if i != t as int {
                                                        assert(before[i]);
                                                    } else {
                                                        assert(members@[m as int]);
                                                        assert(s[m as int]);
                                                        assert(g.module_at(m as int)
                                                            .dependencies@[k as int] == d);
                                                        assert(s[t as int]);
                                                    }
                                                }
                                            }
                                        }
                                    }
                                    _ => {}
                                }
                            }
                            k = k + 1;
                        }
                    }
                    None => {}
                }
            }
            m = m + 1;
        }
        proof {
            lemma_count_false_nonneg(members@, n as int);
            if !changed {
                assert(members@ == start);
                assert forall|m2: int, k: int|
                    0 <= m2 < members@.len() && members@[m2] && g.resident(m2)
                        && 0 <= k < g.module_at(m2).dependencies@.len()
                        && !(g.deps@[
                            (#[trigger] g.module_at(m2).dependencies@[k]) as int
                        ].kind is DynImport)
                        && g.resolutions@[g.module_at(m2).dependencies@[k] as int]
                            is Resolved
                        && g.resolutions@[
                            g.module_at(m2).dependencies@[k] as int
                        ]->Resolved_0 < members@.len()
                    implies members@[g.resolutions@[
                        g.module_at(m2).dependencies@[k] as int
                    ]->Resolved_0 as int] by {
                    assert(start[m2]);
                }
            }
        }
    }
    members
}

/// The member list a membership table yields: the true indices, ascending.
pub open spec fn members_upto(s: Seq<bool>, n: int) -> Seq<ModuleId>
    decreases n,
{
    if n <= 0 {
        Seq::empty()
    } else {
        let p = members_upto(s, n - 1);
        if s[n - 1] {
            p.push((n - 1) as ModuleId)
        } else {
            p
        }
    }
}

/// Ascending order, bounds and completeness of the member list.
pub proof fn lemma_members_upto(s: Seq<bool>, n: int)
    requires
        n <= usize::MAX,
    ensures
        forall|i: int| 0 <= i < members_upto(s, n).len()
            ==> (#[trigger] members_upto(s, n)[i]) < n && s[members_upto(s, n)[i] as int],
        forall|i: int, j: int| 0 <= i < j < members_upto(s, n).len()
            ==> members_upto(s, n)[i] < members_upto(s, n)[j],
        forall|m: int| 0 <= m < n && s[m] ==> members_upto(s, n).contains(m as ModuleId),
    decreases n,
{
    if n > 0 {
        lemma_members_upto(s, n - 1);
        let p = members_upto(s, n - 1);
        let cur = members_upto(s, n);
        if s[n - 1] {
            assert(cur == p.push((n - 1) as ModuleId));
        } else {
            assert(cur == p);
        }
        assert forall|i: int| 0 <= i < cur.len()
            implies (#[trigger] cur[i]) < n && s[cur[i] as int] by {
            if i < p.len() {
                assert(cur[i] == p[i]);
            }
        }
        assert forall|i: int, j: int| 0 <= i < j < cur.len()
            implies cur[i] < cur[j] by {
            if j < p.len() {
                assert(cur[i] == p[i] && cur[j] == p[j]);
                assert(p[i] < p[j]);
            } else if s[n - 1] && j == p.len() {
                assert(cur[i] == p[i]);
                assert(cur[j] == (n - 1) as ModuleId);
                assert(p[i] < n - 1);
            }
        }
        if s[n - 1] {
            assert forall|m: int| 0 <= m < n && s[m]
                implies cur.contains(m as ModuleId) by {
                if m < n - 1 {
                    assert(p.contains(m as ModuleId));
                    let i = choose|i: int| 0 <= i < p.len() && p[i] == m as ModuleId;
                    assert(cur[i] == m as ModuleId);
                } else {
                    assert(cur[p.len() as int] == m as ModuleId);
                }
            }
        } else {
            assert forall|m: int| 0 <= m < n && s[m]
                implies cur.contains(m as ModuleId) by {
                assert(m < n - 1);
                assert(p.contains(m as ModuleId));
            }
        }
    }
}

/// The member modules of a chunk, ascending by stable identifier.
pub fn members_of(in_set: &Vec<bool>) -> (r: Vec<ModuleId>)
    ensures
        r@ == members_upto(in_set@, in_set@.len() as int),
{
    let n = in_set.len();
    let mut r: Vec<ModuleId> = Vec::new();
    let mut m: usize = 0;
    while m < n
        invariant
            n == in_set@.len(),
            m <= n,
            r@ == members_upto(in_set@, m as int),
        decreases n - m,
    {
        if in_set[m] {
            r.push(m);
        }
        m = m + 1;
    }
    r
}

/// Whether arena dependency `d` is a dynamic import issued by a member
/// module and resolved to a target.
pub open spec fn is_async_edge(g: ModuleGraph, members: Seq<bool>, d: int) -> bool {
    &&& g.deps@[d].kind is DynImport
    &&& g.deps@[d].parent matches Some(p) && (p as int) < members.len() && members[p as int]
    &&& g.resolutions@[d] is Resolved
}

/// The async roots a chunk spawns: the distinct targets of dynamic imports
/// issued by its members, in dependency order.
pub open spec fn async_roots_upto(g: ModuleGraph, members: Seq<bool>, n: int) -> Seq<ModuleId>
    decreases n,
{
    if n <= 0 {
        Seq::empty()
    } else {
        let p = async_roots_upto(g, members, n - 1);
        if is_async_edge(g, members, n - 1) {
            let t = g.resolutions@[n - 1]->Resolved_0;
            if p.contains(t) {
                p
            } else {
                p.push(t)
            }
        } else {
            p
        }
    }
}

pub proof fn lemma_async_roots_len(g: ModuleGraph, members: Seq<bool>, n: int)
    requires
        n >= 0,
    ensures
        async_roots_upto(g, members, n).len() <= n,
    decreases n,
{
    if n > 0 {
        lemma_async_roots_len(g, members, n - 1);
    }
}

/// Every async root is a resident module (its dynamic import resolved).
pub proof fn lemma_async_roots_resident(g: ModuleGraph, members: Seq<bool>, n: int)
    requires
        g.wf(),
        resolved_resident(g),
        n <= g.deps@.len(),
    ensures
        forall|i: int| 0 <= i < async_roots_upto(g, members, n).len()
            ==> g.resident((#[trigger] async_roots_upto(g, members, n)[i]) as int),
    decreases n,
{
    if n > 0 {
        lemma_async_roots_resident(g, members, n - 1);
        let p = async_roots_upto(g, members, n - 1);
        let cur = async_roots_upto(g, members, n);
        assert forall|i: int| 0 <= i < cur.len()
            implies g.resident((#[trigger] cur[i]) as int) by {
            if i < p.len() {
                assert(cur[i] == p[i]);
            } else {
                assert(is_async_edge(g, members, n - 1));
                assert(g.resolutions@[n - 1] is Resolved);
                assert(g.resident(g.resolutions@[n - 1]->Resolved_0 as int));
            }
        }
    }
}

/// Every resolved dynamic import of a member has its target among the
/// collected async roots.
pub proof fn lemma_async_roots_complete(
    g: ModuleGraph,
    members: Seq<bool>,
    d: int,
    n: int,
)
    requires
        0 <= d < n,
        is_async_edge(g, members, d),
    ensures
        async_roots_upto(g, members, n).contains(g.resolutions@[d]->Resolved_0),
    decreases n,
{
    let t = g.resolutions@[d]->Resolved_0;
    if d == n - 1 {
        let p = async_roots_upto(g, members, n - 1);
        if p.contains(t) {
            let i = choose|i: int| 0 <= i < p.len() && p[i] == t;
            assert(async_roots_upto(g, members, n)[i] == t);
        } else {
            assert(async_roots_upto(g, members, n).last() == t);
        }
    } else {
        lemma_async_roots_complete(g, members, d, n - 1);
        let p = async_roots_upto(g, members, n - 1);
        let cur = async_roots_upto(g, members, n);
        let i = choose|i: int| 0 <= i < p.len() && p[i] == t;
        assert(cur[i] == t);
    }
}

/// Collect the async roots a chunk's members spawn.
pub fn collect_async_targets(g: &ModuleGraph, in_set: &Vec<bool>) -> (r: Vec<ModuleId>)
    requires
        g.wf(),
    ensures
        r@ == async_roots_upto(*g, in_set@, g.deps@.len() as int),
{
    let nd = g.deps.len();
    let mut r: Vec<ModuleId> = Vec::new();
    let mut d: usize = 0;
    while d < nd
        invariant
            g.wf(),
            nd == g.deps@.len(),
            d <= nd,
            r@ == async_roots_upto(*g, in_set@, d as int),
        decreases nd - d,
    {
        let dep_is_async = match g.dependency_by_id(d) {
            Some(dep) => match dep.kind {
                DepKind::DynImport => match dep.parent {
                    Some(p) => p < in_set.len() && in_set[p],
                    None => false,
                },
                _ => false,
            },
            None => false,
        };
        if dep_is_async {
            match g.resolution_of(d) {
                DepResolution::Resolved(t) => {
                    if !crate::make::contains_module_id(&r, t) {
                        r.push(t);
                    }
                }
                _ => {}
            }
        }
        d = d + 1;
    }
    r
}

/// How many of the first `n` modules have no chunk assigned yet.
pub open spec fn count_unassigned(s: Seq<Option<usize>>, n: int) -> int
    decreases n,
{
    if n <= 0 {
        0
    } else {
        count_unassigned(s, n - 1) + if s[n - 1] is None { 1int } else { 0int }
    }
}

proof fn lemma_count_unassigned_nonneg(s: Seq<Option<usize>>, n: int)
    ensures
        count_unassigned(s, n) >= 0,
    decreases n,
{
    if n > 0 {
        lemma_count_unassigned_nonneg(s, n - 1);
    }
}

proof fn lemma_count_unassigned_set(
    s1: Seq<Option<usize>>,
    s2: Seq<Option<usize>>,
    i: int,
    c: usize,
    n: int,
)
    requires
        0 <= i < s1.len(),
        n <= s1.len(),
        s1[i] is None,
        s2 == s1.update(i, Some(c)),
    ensures
        count_unassigned(s2, n) == count_unassigned(s1, n) - if i < n { 1int } else { 0int },
    decreases n,
{
    if n > 0 {
        lemma_count_unassigned_set(s1, s2, i, c, n - 1);
    }
}

/// Structural well-formedness of one chunk against the module graph: the
/// root is a member, membership is closed under resolved synchronous edges,
/// and the member list ascends by stable identifier.
pub open spec fn chunk_wf(g: ModuleGraph, c: Chunk) -> bool {
    &&& (c.root as int) < g.modules@.len()
    &&& c.modules@.contains(c.root)
    &&& forall|i: int| 0 <= i < c.modules@.len()
            ==> ((#[trigger] c.modules@[i]) as int) < g.modules@.len()
    &&& forall|i: int, j: int| 0 <= i < j < c.modules@.len()
            ==> c.modules@[i] < c.modules@[j]
    &&& forall|j: int, k: int|
            0 <= j < c.modules@.len() && g.resident(c.modules@[j] as int)
                && 0 <= k < g.module_at(c.modules@[j] as int).dependencies@.len()
                && !(g.deps@[
                    (#[trigger] g.module_at(c.modules@[j] as int).dependencies@[k]) as int
                ].kind is DynImport)
                && g.resolutions@[
                    g.module_at(c.modules@[j] as int).dependencies@[k] as int
                ] is Resolved
            ==> c.modules@.contains(
                g.resolutions@[
                    g.module_at(c.modules@[j] as int).dependencies@[k] as int
                ]->Resolved_0,
            )
    // membership is exactly the synchronous closure: every closed set
    // around the root contains every member
    &&& forall|s: Seq<bool>, j: int|
            #![trigger sync_members_closed(g, s), c.modules@[j]]
            s.len() == g.modules@.len() && (c.root as int) < s.len()
                && s[c.root as int] && sync_members_closed(g, s)
                && 0 <= j < c.modules@.len()
            ==> s[c.modules@[j] as int]
}

/// The member list built from a closed membership table satisfies the
/// per-chunk well-formedness.
proof fn lemma_members_list_wf(g: ModuleGraph, members: Seq<bool>, mods: Seq<ModuleId>)
    requires
        g.wf(),
        resolved_resident(g),
        members.len() <= usize::MAX,
        members.len() == g.modules@.len(),
        sync_members_closed(g, members),
        mods == members_upto(members, members.len() as int),
    ensures
        forall|i: int| 0 <= i < mods.len()
            ==> ((#[trigger] mods[i]) as int) < g.modules@.len(),
        forall|i: int, j: int| 0 <= i < j < mods.len() ==> mods[i] < mods[j],
        forall|j: int, k: int|
            0 <= j < mods.len() && g.resident(mods[j] as int)
                && 0 <= k < g.module_at(mods[j] as int).dependencies@.len()
                && !(g.deps@[
                    (#[trigger] g.module_at(mods[j] as int).dependencies@[k]) as int
                ].kind is DynImport)
                && g.resolutions@[g.module_at(mods[j] as int).dependencies@[k] as int]
                    is Resolved
            ==> mods.contains(
                g.resolutions@[
                    g.module_at(mods[j] as int).dependencies@[k] as int
                ]->Resolved_0,
            ),
{
    lemma_members_upto(members, members.len() as int);
    assert forall|j: int, k: int|
        0 <= j < mods.len() && g.resident(mods[j] as int)
            && 0 <= k < g.module_at(mods[j] as int).dependencies@.len()
            && !(g.deps@[
                (#[trigger] g.module_at(mods[j] as int).dependencies@[k]) as int
            ].kind is DynImport)
            && g.resolutions@[g.module_at(mods[j] as int).dependencies@[k] as int]
                is Resolved
        implies mods.contains(
            g.resolutions@[
                g.module_at(mods[j] as int).dependencies@[k] as int
            ]->Resolved_0,
        ) by {
        let m = mods[j] as int;
        assert(members[m]);
        let t = g.resolutions@[g.module_at(m).dependencies@[k] as int]->Resolved_0;
        assert(g.resident(t as int));
        assert((t as int) < members.len());
        assert(members[t as int]);
        assert(mods.contains(t));
    }
}

/// Build the chunk graph: one initial chunk per entry point, one async
/// chunk per dynamic-import target, each holding the synchronous closure of
/// its root, with chunk-group edges from parent to async child.
pub fn build_chunk_graph(g: &ModuleGraph, entries: &Vec<ModuleId>, names: &Interner)
    -> (r: ChunkGraph)
    requires
        g.wf(),
        resolved_resident(*g),
        g.modules@.len() <= names@.len(),
        forall|e: int| 0 <= e < entries@.len()
            ==> g.resident((#[trigger] entries@[e]) as int),
    ensures
        r.chunks@.len() == r.groups@.len(),
        forall|i: int| 0 <= i < r.chunks@.len()
            ==> (#[trigger] r.chunks@[i]).ukey == i && chunk_wf(*g, r.chunks@[i])
                && (r.chunks@[i].is_initial <==> r.chunks@[i].kind is Entry)
                && r.chunks@[i].has_runtime == r.chunks@[i].is_initial,
        forall|i: int| 0 <= i < r.groups@.len() ==> (#[trigger] r.groups@[i]).ukey == i,
        forall|e: int| 0 <= e < entries@.len() ==> {
            let m = #[trigger] entries@[e];
            &&& (m as int) < r.chunk_of_root@.len()
            &&& r.chunk_of_root@[m as int] matches Some(c)
            &&& (r.chunk_of_root@[m as int]->Some_0 as int) < r.chunks@.len()
            &&& r.chunks@[r.chunk_of_root@[m as int]->Some_0 as int].root == m
            &&& r.chunks@[r.chunk_of_root@[m as int]->Some_0 as int].is_initial
        },
        forall|m: int| 0 <= m < r.chunk_of_root@.len()
            && (#[trigger] r.chunk_of_root@[m]) is Some
            ==> (r.chunk_of_root@[m]->Some_0 as int) < r.chunks@.len()
                && r.chunks@[r.chunk_of_root@[m]->Some_0 as int].root == m,
        // every resolved dynamic import issued by a chunk member has an
        // async child chunk, linked by a chunk-group edge from its parent
        forall|i: int, d: int| 0 <= i < r.chunks@.len() && 0 <= d < g.deps@.len()
            && (#[trigger] g.deps@[d]).kind is DynImport
            && g.deps@[d].parent is Some
            && (#[trigger] r.chunks@[i]).modules@.contains(g.deps@[d].parent->0)
            && g.resolutions@[d] is Resolved
            ==> {
                let t = g.resolutions@[d]->Resolved_0;
                &&& (t as int) < r.chunk_of_root@.len()
                &&& r.chunk_of_root@[t as int] is Some
                &&& r.groups@[i].children@.contains(
                        r.chunk_of_root@[t as int]->Some_0)
            },
{
    let n = g.modules.len();
    let ghost big_t = g.deps@.len() as int;
    let mut chunks: Vec<Chunk> = Vec::new();
    let mut groups: Vec<ChunkGroup> = Vec::new();
    let mut chunk_of_root: Vec<Option<usize>> = Vec::new();
    let mut z: usize = 0;
    while z < n
        invariant
            z <= n,
            chunk_of_root@.len() == z,
            forall|i: int| 0 <= i < z ==> (#[trigger] chunk_of_root@[i]) is None,
        decreases n - z,
    {
        chunk_of_root.push(None);
        z = z + 1;
    }
    let mut pending: Vec<(ModuleId, Option<usize>, bool)> = Vec::new();
    let ne = entries.len();
    let mut e: usize = 0;
    while e < ne
        invariant
            ne == entries@.len(),
            e <= ne,
            pending@.len() == e,
            forall|j: int| 0 <= j < e
                ==> #[trigger] pending@[j] == (entries@[j], Option::<usize>::None, true),
        decreases ne - e,
    {
        pending.push((entries[e], None, true));
        e = e + 1;
    }
    let mut pi: usize = 0;
    while pi < pending.len()
        invariant
            g.wf(),
            resolved_resident(*g),
            g.modules@.len() <= names@.len(),
            n == g.modules@.len(),
            ne == entries@.len(),
            forall|e2: int| 0 <= e2 < ne
                ==> g.resident((#[trigger] entries@[e2]) as int),
            pi <= pending@.len(),
            big_t == g.deps@.len(),
            chunks@.len() == groups@.len(),
            chunk_of_root@.len() == n,
            forall|i: int| 0 <= i < chunks@.len()
                ==> (#[trigger] chunks@[i]).ukey == i && chunk_wf(*g, chunks@[i])
                    && (chunks@[i].is_initial <==> chunks@[i].kind is Entry)
                    && chunks@[i].has_runtime == chunks@[i].is_initial,
            forall|i: int| 0 <= i < groups@.len() ==> (#[trigger] groups@[i]).ukey == i,
            forall|m: int| 0 <= m < n && (#[trigger] chunk_of_root@[m]) is Some
                ==> (chunk_of_root@[m]->Some_0 as int) < chunks@.len()
                    && chunks@[chunk_of_root@[m]->Some_0 as int].root == m,
            forall|j: int| 0 <= j < pending@.len() ==> {
                &&& ((#[trigger] pending@[j]).0 as int) < n
                &&& g.resident(pending@[j].0 as int)
                &&& (pending@[j].1 matches Some(pg)
                    ==> (pg as int) < groups@.len())
            },
            pending@.len() >= ne,
            forall|j: int| 0 <= j < ne
                ==> #[trigger] pending@[j] == (entries@[j], Option::<usize>::None, true),
            // while the entry prefix is being processed, every chunk so far
            // is an initial chunk
            pi <= ne ==> forall|i: int| 0 <= i < chunks@.len()
                ==> (#[trigger] chunks@[i]).is_initial,
            forall|j: int| 0 <= j < pi && j < ne ==> {
                let m = (#[trigger] pending@[j]).0;
                &&& chunk_of_root@[m as int] is Some
                &&& chunks@[chunk_of_root@[m as int]->Some_0 as int].is_initial
            },
            forall|i: int, d: int| 0 <= i < chunks@.len() && 0 <= d < g.deps@.len()
                && (#[trigger] g.deps@[d]).kind is DynImport
                && g.deps@[d].parent is Some
                && (#[trigger] chunks@[i]).modules@.contains(g.deps@[d].parent->0)
                && g.resolutions@[d] is Resolved
                ==> {
                    let t = g.resolutions@[d]->Resolved_0;
                    ||| ((t as int) < n && chunk_of_root@[t as int] is Some
                        && groups@[i].children@.contains(
                            chunk_of_root@[t as int]->Some_0))
                    ||| exists|j: int| pi <= j < pending@.len()
                        && #[trigger] pending@[j] == (t, Some(i as usize), false)
                },
        decreases (big_t + 2) * count_unassigned(chunk_of_root@, n as int)
            + pending@.len() - pi,
    {
        let ghost snap_chunks = chunks@;
        let ghost snap_assign = chunk_of_root@;
        let ghost snap_pending = pending@;
        let ghost snap_groups = groups@;
        let ghost pi0 = pi as int;
        let (root, parent, is_initial) = pending[pi];
        pi = pi + 1;
        let existing = chunk_of_root[root];
        match existing {
            Some(cu) => {
                // the root already has a chunk: only link the groups
                if let Some(pg) = parent {
                    let child_group = cu;
                    let pgm = &mut groups[pg];
                    pgm.children.push(child_group);
                    let cgm = &mut groups[child_group];
                    cgm.parents.push(pg);
                    proof {
                        assert forall|i: int| 0 <= i < groups@.len()
                            implies (#[trigger] groups@[i]).ukey == i by {}
                    }
                }
                proof {
                    // children only grow, so recorded edges survive; the
                    // popped obligation is now linked
                    assert forall|i: int, jc: int| 0 <= i < groups@.len()
                        && 0 <= jc < snap_groups[i].children@.len()
                        implies groups@[i].children@.contains(
                            #[trigger] snap_groups[i].children@[jc]) by {
                        if parent is Some && i == parent->0 as int {
                            assert(groups@[i].children@[jc]
                                == snap_groups[i].children@[jc]);
                        } else {
                            assert(groups@[i].children@[jc]
                                == snap_groups[i].children@[jc]);
                        }
                    }
                    assert forall|i: int, d: int| 0 <= i < chunks@.len()
                        && 0 <= d < g.deps@.len()
                        && (#[trigger] g.deps@[d]).kind is DynImport
                        && g.deps@[d].parent is Some
                        && (#[trigger] chunks@[i]).modules@.contains(g.deps@[d].parent->0)
                        && g.resolutions@[d] is Resolved
                        implies {
                        let t = g.resolutions@[d]->Resolved_0;
                        ||| ((t as int) < n && chunk_of_root@[t as int] is Some
                            && groups@[i].children@.contains(
                                chunk_of_root@[t as int]->Some_0))
                        ||| exists|j: int| pi <= j < pending@.len()
                            && #[trigger] pending@[j] == (t, Some(i as usize), false)
                    } by {
                        let t = g.resolutions@[d]->Resolved_0;
                        assert(chunks@[i] == snap_chunks[i]);
                        if (t as int) < n && snap_assign[t as int] is Some
                            && snap_groups[i].children@.contains(
                                snap_assign[t as int]->Some_0) {
                            let jc = choose|jc: int| 0 <= jc
                                < snap_groups[i].children@.len()
                                && snap_groups[i].children@[jc]
                                    == snap_assign[t as int]->Some_0;
                            assert(groups@[i].children@.contains(
                                snap_assign[t as int]->Some_0));
                        } else {
                            let j = choose|j: int| pi0 <= j < snap_pending.len()
                                && #[trigger] snap_pending[j]
                                    == (t, Some(i as usize), false);
                            if j == pi0 {
                                assert(snap_pending[j] == (root, parent, is_initial));
                                assert(t == root && parent == Some(i as usize));
                                assert(chunk_of_root@[t as int] == Some(cu));
                                assert(groups@[i].children@.last() == cu);
                            } else {
                                assert(pending@[j] == snap_pending[j]);
                            }
                        }
                    }
                }
            }
            None => {
                let members = sync_closure(g, root);
                let mods = members_of(&members);
                let async_roots = collect_async_targets(g, &members);
                let cu = chunks.len();
                chunk_of_root.set(root, Some(cu));
                let root_name = names.resolve(root).clone();
                let chunk = Chunk {
                    ukey: cu,
                    id: root_name,
                    name: if is_initial { Some(names.resolve(root).clone()) } else { None },
                    kind: if is_initial { ChunkKind::Entry } else { ChunkKind::Normal },
                    is_initial,
                    has_runtime: is_initial,
                    root,
                    modules: mods,
                };
                proof {
                    lemma_members_list_wf(*g, members@, chunk.modules@);
                    lemma_members_upto(members@, members@.len() as int);
                    assert(chunk.modules@.contains(root));
                    assert forall|s: Seq<bool>, j: int|
                        #![trigger sync_members_closed(*g, s), chunk.modules@[j]]
                        s.len() == g.modules@.len() && (chunk.root as int) < s.len()
                            && s[chunk.root as int] && sync_members_closed(*g, s)
                            && 0 <= j < chunk.modules@.len()
                        implies s[chunk.modules@[j] as int] by {
                        assert(members@[chunk.modules@[j] as int]);
                    }
                    assert(chunk_wf(*g, chunk));
                    lemma_count_unassigned_set(
                        snap_assign, chunk_of_root@, root as int, cu, n as int);
                }
                chunks.push(chunk);
                let parents = match parent {
                    Some(pg) => {
                        let pgm = &mut groups[pg];
                        pgm.children.push(cu);
                        let mut ps: Vec<usize> = Vec::new();
                        ps.push(pg);
                        ps
                    }
                    None => Vec::new(),
                };
                let mut own_chunks: Vec<usize> = Vec::new();
                own_chunks.push(cu);
                groups.push(ChunkGroup {
                    ukey: cu,
                    chunks: own_chunks,
                    parents,
                    children: Vec::new(),
                });
                let na = async_roots.len();
                let mut a: usize = 0;
                proof {
                    lemma_async_roots_len(*g, members@, big_t);
                    lemma_async_roots_resident(*g, members@, big_t);
                }
                while a < na
                    invariant
                        g.wf(),
                        na == async_roots@.len(),
                        a <= na,
                        forall|i: int| 0 <= i < async_roots@.len()
                            ==> g.resident((#[trigger] async_roots@[i]) as int),
                        n == g.modules@.len(),
                        (cu as int) < groups@.len(),
                        pending@.len() == snap_pending.len() + a,
                        forall|j: int| 0 <= j < snap_pending.len()
                            ==> #[trigger] pending@[j] == snap_pending[j],
                        forall|j: int| snap_pending.len() <= j < pending@.len()
                            ==> #[trigger] pending@[j]
                                == (async_roots@[j - snap_pending.len()],
                                    Some(cu), false),
                    decreases na - a,
                {
                    pending.push((async_roots[a], Some(cu), false));
                    a = a + 1;
                }
                proof {
                    lemma_count_unassigned_nonneg(chunk_of_root@, n as int);
                    assert((big_t + 2) * (count_unassigned(chunk_of_root@, n as int) + 1)
                        == (big_t + 2) * count_unassigned(chunk_of_root@, n as int)
                            + (big_t + 2)) by (nonlinear_arith);
                    // children only grow, and the new chunk's dynamic imports
                    // all wait in the queue
                    assert forall|i: int, jc: int| 0 <= i < snap_groups.len()
                        && 0 <= jc < snap_groups[i].children@.len()
                        implies groups@[i].children@.contains(
                            #[trigger] snap_groups[i].children@[jc]) by {
                        assert(groups@[i].children@[jc]
                            == snap_groups[i].children@[jc]);
                    }
                    assert forall|i: int, d: int| 0 <= i < chunks@.len()
                        && 0 <= d < g.deps@.len()
                        && (#[trigger] g.deps@[d]).kind is DynImport
                        && g.deps@[d].parent is Some
                        && (#[trigger] chunks@[i]).modules@.contains(g.deps@[d].parent->0)
                        && g.resolutions@[d] is Resolved
                        implies {
                        let t = g.resolutions@[d]->Resolved_0;
                        ||| ((t as int) < n && chunk_of_root@[t as int] is Some
                            && groups@[i].children@.contains(
                                chunk_of_root@[t as int]->Some_0))
                        ||| exists|j: int| pi <= j < pending@.len()
                            && #[trigger] pending@[j] == (t, Some(i as usize), false)
                    } by {
                        let t = g.resolutions@[d]->Resolved_0;
                        let p = g.deps@[d].parent->0;
                        if i < snap_chunks.len() {
                            assert(chunks@[i] == snap_chunks[i]);
                            if (t as int) < n && snap_assign[t as int] is Some
                                && snap_groups[i].children@.contains(
                                    snap_assign[t as int]->Some_0) {
                                assert(chunk_of_root@[t as int]
                                    == snap_assign[t as int]);
                                let jc = choose|jc: int| 0 <= jc
                                    < snap_groups[i].children@.len()
                                    && snap_groups[i].children@[jc]
                                        == snap_assign[t as int]->Some_0;
                                assert(groups@[i].children@.contains(
                                    snap_assign[t as int]->Some_0));
                            } else {
                                let j = choose|j: int| pi0 <= j < snap_pending.len()
                                    && #[trigger] snap_pending[j]
                                        == (t, Some(i as usize), false);
                                if j == pi0 {
                                    assert(snap_pending[j]
                                        == (root, parent, is_initial));
                                    assert(t == root && parent == Some(i as usize));
                                    assert(chunk_of_root@[t as int] == Some(cu));
                                    assert(groups@[i as int].children@.last() == cu);
                                } else {
                                    assert(pending@[j] == snap_pending[j]);
                                }
                            }
                        } else {
                            // the freshly created chunk: its dynamic imports
                            // were all enqueued just now
                            assert(i == snap_chunks.len());
                            assert(chunks@[i].modules@
                                == members_upto(members@, members@.len() as int));
                            lemma_members_upto(members@, members@.len() as int);
                            assert(members@[p as int]);
                            assert(is_async_edge(*g, members@, d));
                            lemma_async_roots_complete(*g, members@, d, big_t);
                            assert(async_roots@.contains(t));
                            let idx = choose|idx: int| 0 <= idx < async_roots@.len()
                                && async_roots@[idx] == t;
                            assert(pending@[snap_pending.len() + idx]
                                == (t, Some(cu), false));
                            assert(pi <= snap_pending.len() + idx);
                        }
                    }
                }
            }
        }
        proof {
            lemma_count_unassigned_nonneg(chunk_of_root@, n as int);
        }
    }
    proof {
        assert forall|e: int| 0 <= e < entries@.len() implies {
            let m = #[trigger] entries@[e];
            &&& (m as int) < chunk_of_root@.len()
            &&& chunk_of_root@[m as int] matches Some(c)
            &&& (chunk_of_root@[m as int]->Some_0 as int) < chunks@.len()
            &&& chunks@[chunk_of_root@[m as int]->Some_0 as int].root == entries@[e]
            &&& chunks@[chunk_of_root@[m as int]->Some_0 as int].is_initial
        } by {
            assert(pending@[e] == (entries@[e], Option::<usize>::None, true));
            assert(e < pi);
        }
    }
    ChunkGraph { chunks, groups, chunk_of_root }
}

} // verus!
