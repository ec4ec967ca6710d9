//! The split-chunks engine: evaluate the configured cache groups against
//! the chunk graph, form provisional split chunks, filter them by the size
//! and count thresholds, resolve overlapping claims by priority, enforce the
//! request limits, and commit the surviving splits as new chunks.

use vstd::prelude::*;
use crate::chunk_graph::{Chunk, ChunkGraph, ChunkGroup, ChunkKind};
use crate::diagnostics::Diagnostic;
use crate::ids::Interner;
use crate::module_graph::{ModuleGraph, ModuleId};
use crate::options::{CacheGroupOptions, ChunkType, SplitChunksOptions};

verus! {

/// One cache-group claim: group `group_index` claims `module`, which lives
/// in the selected `chunks`.
pub struct Candidate {
    pub group_index: usize,
    pub key: String,
    pub module: ModuleId,
    pub chunks: Vec<usize>,
}

/// A provisional split chunk: one key's aggregated claims.
pub struct ProvisionalChunk {
    pub group_index: usize,
    pub key: String,
    pub modules: Vec<ModuleId>,
    pub chunks: Vec<usize>,
}

/// The byte size chunking assigns to a module: the length of its original
/// source.
pub open spec fn spec_module_size(g: ModuleGraph, m: int) -> int {
    if g.resident(m) && g.module_at(m).original_source is Some {
        g.module_at(m).original_source->Some_0@.len() as int
    } else {
        0
    }
}

/// The priority of a cache group; an absent priority counts as zero.
pub open spec fn spec_priority(o: Option<i32>) -> int {
    match o {
        Some(p) => p as int,
        None => 0,
    }
}

/// The total size of a provisional chunk's modules.
pub open spec fn spec_total_size(g: ModuleGraph, mods: Seq<ModuleId>) -> int
    decreases mods.len(),
{
    if mods.len() == 0 {
        0
    } else {
        spec_total_size(g, mods.drop_last()) + spec_module_size(g, mods.last() as int)
    }
}

/// The byte size of one module (the length of its original source).
pub fn module_size(g: &ModuleGraph, m: ModuleId) -> (r: usize)
    requires
        g.wf(),
    ensures
        r == spec_module_size(*g, m as int),
{
    match g.module_by_identifier(m) {
        Some(md) => match &md.original_source {
            Some(src) => src.as_str().unicode_len(),
            None => 0,
        },
        None => 0,
    }
}

/// The total size of a module list, saturating at u64::MAX.
pub open spec fn spec_total_sat(g: ModuleGraph, mods: Seq<ModuleId>) -> int {
    if spec_total_size(g, mods) > u64::MAX { u64::MAX as int } else { spec_total_size(g, mods) }
}

pub proof fn lemma_total_size_nonneg(g: ModuleGraph, mods: Seq<ModuleId>)
    ensures
        spec_total_size(g, mods) >= 0,
    decreases mods.len(),
{
    if mods.len() > 0 {
        lemma_total_size_nonneg(g, mods.drop_last());
    }
}

/// The total size of a provisional chunk's modules, saturating at u64::MAX.
pub fn total_size(g: &ModuleGraph, mods: &Vec<ModuleId>) -> (r: u64)
    requires
        g.wf(),
    ensures
        r == spec_total_sat(*g, mods@),
{
    let n = mods.len();
    let mut acc: u64 = 0;
    let mut i: usize = 0;
    while i < n
        invariant
            g.wf(),
            n == mods@.len(),
            i <= n,
            acc as int == spec_total_sat(*g, mods@.take(i as int)),
        decreases n - i,
    {
        let sz = module_size(g, mods[i]);
        proof {
            assert(mods@.take(i + 1 as int).drop_last() =~= mods@.take(i as int));
            assert(mods@.take(i + 1 as int).last() == mods@[i as int]);
            lemma_total_size_nonneg(*g, mods@.take(i as int));
        }
        if sz as u64 <= u64::MAX - acc {
            acc = acc + sz as u64;
        } else {
            acc = u64::MAX;
        }
        i = i + 1;
    }
    proof {
        assert(mods@.take(n as int) =~= mods@);
    }
    acc
}

/// The size left in a chunk after extracting the modules in `pmods`.
pub open spec fn spec_remaining_size(
    g: ModuleGraph,
    chunkmods: Seq<ModuleId>,
    pmods: Seq<ModuleId>,
) -> int
    decreases chunkmods.len(),
{
    if chunkmods.len() == 0 {
        0
    } else {
        spec_remaining_size(g, chunkmods.drop_last(), pmods)
            + if pmods.contains(chunkmods.last()) {
                0int
            } else {
                spec_module_size(g, chunkmods.last() as int)
            }
    }
}

pub open spec fn spec_remaining_sat(
    g: ModuleGraph,
    chunkmods: Seq<ModuleId>,
    pmods: Seq<ModuleId>,
) -> int {
    if spec_remaining_size(g, chunkmods, pmods) > u64::MAX {
        u64::MAX as int
    } else {
        spec_remaining_size(g, chunkmods, pmods)
    }
}

pub proof fn lemma_remaining_size_nonneg(
    g: ModuleGraph,
    chunkmods: Seq<ModuleId>,
    pmods: Seq<ModuleId>,
)
    ensures
        spec_remaining_size(g, chunkmods, pmods) >= 0,
    decreases chunkmods.len(),
{
    if chunkmods.len() > 0 {
        lemma_remaining_size_nonneg(g, chunkmods.drop_last(), pmods);
    }
}

/// The size left in a chunk after extracting `pmods`, saturating at
/// u64::MAX.
pub fn remaining_size(g: &ModuleGraph, chunkmods: &Vec<ModuleId>, pmods: &Vec<ModuleId>)
    -> (r: u64)
    requires
        g.wf(),
    ensures
        r == spec_remaining_sat(*g, chunkmods@, pmods@),
{
    let n = chunkmods.len();
    let mut acc: u64 = 0;
    let mut i: usize = 0;
    while i < n
        invariant
            g.wf(),
            n == chunkmods@.len(),
            i <= n,
            acc as int == spec_remaining_sat(*g, chunkmods@.take(i as int), pmods@),
        decreases n - i,
    {
        proof {
            assert(chunkmods@.take(i + 1 as int).drop_last() =~= chunkmods@.take(i as int));
            assert(chunkmods@.take(i + 1 as int).last() == chunkmods@[i as int]);
            lemma_remaining_size_nonneg(*g, chunkmods@.take(i as int), pmods@);
        }
        if !crate::make::contains_module_id(pmods, chunkmods[i]) {
            let sz = module_size(g, chunkmods[i]);
            if sz as u64 <= u64::MAX - acc {
                acc = acc + sz as u64;
            } else {
                acc = u64::MAX;
            }
        }
        i = i + 1;
    }
    proof {
        assert(chunkmods@.take(n as int) =~= chunkmods@);
    }
    acc
}

/// Whether a regex source compiles.
pub uninterp spec fn is_valid_regex(pat: Seq<char>) -> bool;

/// Whether the regex compiled from `pat` matches anywhere in `name`.
pub uninterp spec fn regex_matches(pat: Seq<char>, name: Seq<char>) -> bool;

/// Relies on regex's `Regex::new`: whether a pattern compiles is a function
/// of the pattern alone.
#[verifier::external_body]
fn regex_is_valid(pat: &str) -> (r: bool)
    ensures
        r == is_valid_regex(pat@),
{
    regex::Regex::new(pat).is_ok()
}

/// Relies on regex's `Regex::new` and `Regex::is_match`: true iff the
/// pattern's regex matches anywhere in the name; the result depends on the
/// pattern and the name alone.
#[verifier::external_body]
fn regex_test(pat: &str, name: &str) -> (r: bool)
    requires
        is_valid_regex(pat@),
    ensures
        r == regex_matches(pat@, name@),
{
    regex::Regex::new(pat).expect("the pattern was validated").is_match(name)
}

/// Whether a cache group's test accepts a module: no test accepts every
/// module; a test pattern accepts the modules whose condition name the
/// pattern's regex matches.
pub open spec fn spec_test_accepts(cg: CacheGroupOptions, name: Seq<char>) -> bool {
    match cg.test {
        None => true,
        Some(pat) => regex_matches(pat@, name),
    }
}

/// Every configured test pattern is a regex source that compiles.
pub open spec fn options_tests_valid(o: SplitChunksOptions) -> bool {
    forall|gi: int| 0 <= gi < o.cache_groups@.len()
        ==> ((#[trigger] o.cache_groups@[gi]).1.test matches Some(p) ==> is_valid_regex(p@))
}

/// The chunk selector group `gi` uses: its own, else the global one, else
/// `async`.
pub open spec fn spec_selector(o: SplitChunksOptions, gi: int) -> ChunkType {
    match o.cache_groups@[gi].1.chunks {
        Some(t) => t,
        None => match o.chunks {
            Some(t) => t,
            None => ChunkType::Async,
        },
    }
}

/// The chunks among the first `n` that contain module `m` and pass
/// selector `t`, in chunk order.
pub open spec fn spec_selected_chunks(cg: ChunkGraph, m: ModuleId, t: ChunkType, n: int)
    -> Seq<usize>
    decreases n,
{
    if n <= 0 {
        Seq::empty()
    } else {
        let p = spec_selected_chunks(cg, m, t, n - 1);
        if cg.chunks@[n - 1].modules@.contains(m)
            && t.spec_selects(cg.chunks@[n - 1].is_initial) {
            p.push((n - 1) as usize)
        } else {
            p
        }
    }
}

/// Every selected chunk is in bounds, holds the module and passes the
/// selector; every chunk with those properties is selected.
pub proof fn lemma_selected_chunks(cg: ChunkGraph, m: ModuleId, t: ChunkType, n: int)
    requires
        n <= usize::MAX,
    ensures
        forall|i: int| 0 <= i < spec_selected_chunks(cg, m, t, n).len() ==> {
            let c = (#[trigger] spec_selected_chunks(cg, m, t, n)[i]) as int;
            &&& c < n
            &&& cg.chunks@[c].modules@.contains(m)
            &&& t.spec_selects(cg.chunks@[c].is_initial)
        },
        forall|c: int| 0 <= c < n && (#[trigger] cg.chunks@[c]).modules@.contains(m)
            && t.spec_selects(cg.chunks@[c].is_initial)
            ==> spec_selected_chunks(cg, m, t, n).contains(c as usize),
    decreases n,
{
    if n > 0 {
        lemma_selected_chunks(cg, m, t, n - 1);
        let p = spec_selected_chunks(cg, m, t, n - 1);
        let cur = spec_selected_chunks(cg, m, t, n);
        assert forall|i: int| 0 <= i < cur.len() implies {
            let c = (#[trigger] cur[i]) as int;
            &&& c < n
            &&& cg.chunks@[c].modules@.contains(m)
            &&& t.spec_selects(cg.chunks@[c].is_initial)
        } by {
            if i < p.len() {
                assert(cur[i] == p[i]);
            }
        }
        assert forall|c: int| 0 <= c < n && (#[trigger] cg.chunks@[c]).modules@.contains(m)
            && t.spec_selects(cg.chunks@[c].is_initial)
            implies cur.contains(c as usize) by {
            if c < n - 1 {
                assert(p.contains(c as usize));
                let i = choose|i: int| 0 <= i < p.len() && p[i] == c as usize;
                assert(cur[i] == c as usize);
            } else {
                assert(cur[cur.len() - 1] == c as usize);
            }
        }
    }
}

/// The chunks of `cg` that contain module `m` and pass selector `t`.
pub fn selected_chunks_of(cg: &ChunkGraph, m: ModuleId, t: ChunkType) -> (r: Vec<usize>)
    ensures
        r@ == spec_selected_chunks(*cg, m, t, cg.chunks@.len() as int),
{
    let n = cg.chunks.len();
    let mut r: Vec<usize> = Vec::new();
    let mut c: usize = 0;
    while c < n
        invariant
            n == cg.chunks@.len(),
            c <= n,
            r@ == spec_selected_chunks(*cg, m, t, c as int),
        decreases n - c,
    {
        if crate::make::contains_module_id(&cg.chunks[c].modules, m) {
            let selected = cg.chunks[c].is_initial;
            if match t {
                ChunkType::Initial => selected,
                ChunkType::Async => !selected,
                ChunkType::All => true,
            } {
                r.push(c);
            }
        }
        c = c + 1;
    }
    r
}

/// Compare two claims the way the engine prefers them: higher priority
/// first, ties broken by larger module count, then larger total size, then
/// cache-group name order (earlier group wins).
pub open spec fn spec_better_view(
    g: ModuleGraph,
    o: SplitChunksOptions,
    a: (usize, Seq<char>, Seq<ModuleId>, Seq<usize>),
    ai: int,
    b: (usize, Seq<char>, Seq<ModuleId>, Seq<usize>),
    bi: int,
) -> bool {
    let pa = spec_priority(o.cache_groups@[a.0 as int].1.priority);
    let pb = spec_priority(o.cache_groups@[b.0 as int].1.priority);
    if pa != pb {
        pa > pb
    } else if a.2.len() != b.2.len() {
        a.2.len() > b.2.len()
    } else if spec_total_sat(g, a.2) != spec_total_sat(g, b.2) {
        spec_total_sat(g, a.2) > spec_total_sat(g, b.2)
    } else {
        ai <= bi
    }
}

pub open spec fn spec_better_claim(
    g: ModuleGraph,
    o: SplitChunksOptions,
    a: ProvisionalChunk,
    ai: int,
    b: ProvisionalChunk,
    bi: int,
) -> bool {
    spec_better_view(g, o, prov_view(a), ai, prov_view(b), bi)
}

/// Whether claim `p` beats every rival claim on module `m`.
pub open spec fn spec_wins(
    g: ModuleGraph,
    o: SplitChunksOptions,
    ps: Seq<(usize, Seq<char>, Seq<ModuleId>, Seq<usize>)>,
    p: int,
    m: ModuleId,
) -> bool {
    forall|q: int| 0 <= q < ps.len() && q != p && (#[trigger] ps[q]).2.contains(m)
        ==> spec_better_view(g, o, ps[p], p, ps[q], q)
}

/// The modules claim `p` keeps: those among its first `i` that beat every
/// rival claim.
pub open spec fn spec_keep_modules(
    g: ModuleGraph,
    o: SplitChunksOptions,
    ps: Seq<(usize, Seq<char>, Seq<ModuleId>, Seq<usize>)>,
    p: int,
    i: int,
) -> Seq<ModuleId>
    decreases i,
{
    if i <= 0 {
        Seq::empty()
    } else {
        let r = spec_keep_modules(g, o, ps, p, i - 1);
        let m = ps[p].2[i - 1];
        if spec_wins(g, o, ps, p, m) {
            r.push(m)
        } else {
            r
        }
    }
}

/// Priority resolution in full: every claim keeps exactly the modules on
/// which it beats every rival.
pub open spec fn spec_resolve_all(
    g: ModuleGraph,
    o: SplitChunksOptions,
    ps: Seq<(usize, Seq<char>, Seq<ModuleId>, Seq<usize>)>,
) -> Seq<(usize, Seq<char>, Seq<ModuleId>, Seq<usize>)> {
    Seq::new(ps.len(), |p: int| (ps[p].0, ps[p].1,
        spec_keep_modules(g, o, ps, p, ps[p].2.len() as int), ps[p].3))
}

/// The properties every pipeline stage preserves of a provisional chunk:
/// its cache group exists, and its chunk references are valid.
pub open spec fn prov_ok(o: SplitChunksOptions, cg: ChunkGraph, p: ProvisionalChunk) -> bool {
    &&& (p.group_index as int) < o.cache_groups@.len()
    &&& forall|i: int| 0 <= i < p.chunks@.len()
            ==> ((#[trigger] p.chunks@[i]) as int) < cg.chunks@.len()
}

/// A field-for-field copy of a chunk-index list.
pub fn clone_usizes(v: &Vec<usize>) -> (r: Vec<usize>)
    ensures
        r@ == v@,
{
    let n = v.len();
    let mut r: Vec<usize> = Vec::new();
    let mut i: usize = 0;
    while i < n
        invariant
            n == v@.len(),
            i <= n,
            r@ == v@.take(i as int),
        decreases n - i,
    {
        r.push(v[i]);
        proof {
            assert(v@.take(i + 1 as int) =~= v@.take(i as int).push(v@[i as int]));
        }
        i = i + 1;
    }
    proof {
        assert(v@.take(n as int) =~= v@);
    }
    r
}

/// The ghost view of one candidate: group index, key text, module, chunks.
pub open spec fn cand_view(c: Candidate) -> (usize, Seq<char>, ModuleId, Seq<usize>) {
    (c.group_index, c.key@, c.module, c.chunks@)
}

/// The ghost view of one provisional chunk.
pub open spec fn prov_view(p: ProvisionalChunk) -> (usize, Seq<char>, Seq<ModuleId>, Seq<usize>) {
    (p.group_index, p.key@, p.modules@, p.chunks@)
}

pub open spec fn cand_views(s: Seq<Candidate>) -> Seq<(usize, Seq<char>, ModuleId, Seq<usize>)> {
    s.map_values(|c: Candidate| cand_view(c))
}

pub open spec fn prov_views(s: Seq<ProvisionalChunk>)
    -> Seq<(usize, Seq<char>, Seq<ModuleId>, Seq<usize>)> {
    s.map_values(|p: ProvisionalChunk| prov_view(p))
}

/// The key a group's claims aggregate under: the configured name, or the
/// group's map key.
pub open spec fn spec_group_key(o: SplitChunksOptions, gi: int) -> Seq<char> {
    match o.cache_groups@[gi].1.name {
        Some(nm) => nm@,
        None => o.cache_groups@[gi].0@,
    }
}

/// Whether group `gi` claims module `m`: the module is resident, its
/// condition name passes the group's test, and the group's selector accepts
/// at least one chunk holding it.
pub open spec fn spec_claims(
    cgr: ChunkGraph,
    g: ModuleGraph,
    o: SplitChunksOptions,
    names: Seq<Seq<char>>,
    m: int,
    gi: int,
) -> bool {
    &&& g.resident(m)
    &&& spec_test_accepts(o.cache_groups@[gi].1, names[m])
    &&& spec_selected_chunks(cgr, m as ModuleId, spec_selector(o, gi),
            cgr.chunks@.len() as int).len() > 0
}

/// The candidates module `m` contributes, over the first `gi` groups.
pub open spec fn spec_cands_for_module(
    cgr: ChunkGraph,
    g: ModuleGraph,
    o: SplitChunksOptions,
    names: Seq<Seq<char>>,
    m: int,
    gi: int,
) -> Seq<(usize, Seq<char>, ModuleId, Seq<usize>)>
    decreases gi,
{
    if gi <= 0 {
        Seq::empty()
    } else {
        let p = spec_cands_for_module(cgr, g, o, names, m, gi - 1);
        if spec_claims(cgr, g, o, names, m, gi - 1) {
            p.push((
                (gi - 1) as usize,
                spec_group_key(o, gi - 1),
                m as ModuleId,
                spec_selected_chunks(cgr, m as ModuleId, spec_selector(o, gi - 1),
                    cgr.chunks@.len() as int),
            ))
        } else {
            p
        }
    }
}

/// Candidate formation in full: every module in identifier order, every
/// group in registration order.
pub open spec fn spec_candidates(
    cgr: ChunkGraph,
    g: ModuleGraph,
    o: SplitChunksOptions,
    names: Seq<Seq<char>>,
    m: int,
) -> Seq<(usize, Seq<char>, ModuleId, Seq<usize>)>
    decreases m,
{
    if m <= 0 {
        Seq::empty()
    } else {
        spec_candidates(cgr, g, o, names, m - 1)
            + spec_cands_for_module(cgr, g, o, names, m - 1, o.cache_groups@.len() as int)
    }
}

/// A non-resident module contributes no candidates.
proof fn lemma_cands_nonresident(
    cgr: ChunkGraph,
    g: ModuleGraph,
    o: SplitChunksOptions,
    names: Seq<Seq<char>>,
    m: int,
    gi: int,
)
    requires
        !g.resident(m),
    ensures
        spec_cands_for_module(cgr, g, o, names, m, gi) == Seq::<(usize, Seq<char>,
            ModuleId, Seq<usize>)>::empty(),
    decreases gi,
{
    if gi > 0 {
        lemma_cands_nonresident(cgr, g, o, names, m, gi - 1);
    }
}

/// Candidate formation: each cache group claims every module whose
/// condition name passes its test and that lives in at least one chunk its
/// selector accepts. The candidate key is the group's configured name, or
/// the group's map key when no name is set.
pub fn candidates(
    cgr: &ChunkGraph,
    g: &ModuleGraph,
    o: &SplitChunksOptions,
    names: &Interner,
) -> (r: Vec<Candidate>)
    requires
        g.wf(),
        g.modules@.len() <= names@.len(),
        options_tests_valid(*o),
    ensures
        forall|i: int| 0 <= i < r@.len() ==> {
            let c = #[trigger] r@[i];
            &&& (c.group_index as int) < o.cache_groups@.len()
            &&& c.chunks@.len() > 0
            &&& spec_test_accepts(
                o.cache_groups@[c.group_index as int].1,
                names@[c.module as int],
            )
            &&& (c.module as int) < g.modules@.len()
            &&& forall|j: int| 0 <= j < c.chunks@.len()
                    ==> ((#[trigger] c.chunks@[j]) as int) < cgr.chunks@.len()
                        && cgr.chunks@[c.chunks@[j] as int].modules@.contains(c.module)
                        && spec_selector(*o, c.group_index as int).spec_selects(
                            cgr.chunks@[c.chunks@[j] as int].is_initial,
                        )
        },
        cand_views(r@) == spec_candidates(*cgr, *g, *o, names@, g.modules@.len() as int),
{
    let nm = g.modules.len();
    let ng = o.cache_groups.len();
    let mut r: Vec<Candidate> = Vec::new();
    let mut m: usize = 0;
    while m < nm
        invariant
            g.wf(),
            g.modules@.len() <= names@.len(),
            options_tests_valid(*o),
            nm == g.modules@.len(),
            ng == o.cache_groups@.len(),
            m <= nm,
            forall|i: int| 0 <= i < r@.len() ==> {
                let c = #[trigger] r@[i];
                &&& (c.group_index as int) < o.cache_groups@.len()
                &&& c.chunks@.len() > 0
                &&& spec_test_accepts(
                    o.cache_groups@[c.group_index as int].1,
                    names@[c.module as int],
                )
                &&& (c.module as int) < g.modules@.len()
                &&& forall|j: int| 0 <= j < c.chunks@.len()
                        ==> ((#[trigger] c.chunks@[j]) as int) < cgr.chunks@.len()
                            && cgr.chunks@[c.chunks@[j] as int].modules@.contains(c.module)
                            && spec_selector(*o, c.group_index as int).spec_selects(
                                cgr.chunks@[c.chunks@[j] as int].is_initial,
                            )
            },
            cand_views(r@) == spec_candidates(*cgr, *g, *o, names@, m as int),
        decreases nm - m,
    {
        if g.contains_module(m) {
            proof {
                assert(cand_views(r@) =~= spec_candidates(*cgr, *g, *o, names@, m as int)
                    + spec_cands_for_module(*cgr, *g, *o, names@, m as int, 0));
            }
            let mut gi: usize = 0;
            while gi < ng
                invariant
                    g.wf(),
                    g.modules@.len() <= names@.len(),
                    options_tests_valid(*o),
                    nm == g.modules@.len(),
                    ng == o.cache_groups@.len(),
                    m < nm,
                    gi <= ng,
                    forall|i: int| 0 <= i < r@.len() ==> {
                        let c = #[trigger] r@[i];
                        &&& (c.group_index as int) < o.cache_groups@.len()
                        &&& c.chunks@.len() > 0
                        &&& spec_test_accepts(
                            o.cache_groups@[c.group_index as int].1,
                            names@[c.module as int],
                        )
                        &&& (c.module as int) < g.modules@.len()
                        &&& forall|j: int| 0 <= j < c.chunks@.len()
                                ==> ((#[trigger] c.chunks@[j]) as int) < cgr.chunks@.len()
                                    && cgr.chunks@[c.chunks@[j] as int].modules@.contains(
                                        c.module,
                                    )
                                    && spec_selector(*o, c.group_index as int).spec_selects(
                                        cgr.chunks@[c.chunks@[j] as int].is_initial,
                                    )
                    },
                    g.resident(m as int),
                    cand_views(r@) == spec_candidates(*cgr, *g, *o, names@, m as int)
                        + spec_cands_for_module(*cgr, *g, *o, names@, m as int, gi as int),
                decreases ng - gi,
            {
                let ghost rpre = r@;
                let accepts = match &o.cache_groups[gi].1.test {
                    None => true,
                    Some(pat) => regex_test(pat.as_str(), names.resolve(m).as_str()),
                };
                proof {
                    assert(accepts == spec_test_accepts(
                        o.cache_groups@[gi as int].1, names@[m as int]));
                }
                if accepts {
                    let selector = match o.cache_groups[gi].1.chunks {
                        Some(t) => t,
                        None => match o.chunks {
                            Some(t) => t,
                            None => ChunkType::Async,
                        },
                    };
                    let selected = selected_chunks_of(cgr, m, selector);
                    if selected.len() > 0 {
                        let ncg = cgr.chunks.len();
                        proof {
                            assert(ncg == cgr.chunks@.len());
                            assert(selector == spec_selector(*o, gi as int));
                            lemma_selected_chunks(*cgr, m, selector, ncg as int);
                        }
                        let key = match &o.cache_groups[gi].1.name {
                            Some(nm2) => nm2.clone(),
                            None => o.cache_groups[gi].0.clone(),
                        };
                        r.push(Candidate { group_index: gi, key, module: m, chunks: selected });
                        proof {
                            assert(key@ == spec_group_key(*o, gi as int));
                            assert(spec_claims(*cgr, *g, *o, names@, m as int, gi as int));
                        }
                    }
                }
                proof {
                    let spec_pre = spec_candidates(*cgr, *g, *o, names@, m as int)
                        + spec_cands_for_module(*cgr, *g, *o, names@, m as int, gi as int);
                    let next = spec_cands_for_module(*cgr, *g, *o, names@, m as int,
                        gi + 1 as int);
                    assert(next.drop_last() == spec_cands_for_module(*cgr, *g, *o, names@,
                        m as int, gi as int) || !spec_claims(*cgr, *g, *o, names@, m as int,
                        gi as int)) by {}
                    if spec_claims(*cgr, *g, *o, names@, m as int, gi as int) {
                        assert(r@ == rpre.push(r@[r@.len() - 1]));
                        assert(cand_views(r@)
                            =~= cand_views(rpre).push(cand_view(r@[r@.len() - 1])));
                        assert(cand_views(r@) =~= spec_candidates(*cgr, *g, *o, names@,
                            m as int) + next);
                    } else {
                        assert(r@ == rpre);
                        assert(cand_views(r@) =~= spec_candidates(*cgr, *g, *o, names@,
                            m as int) + next);
                    }
                }
                gi = gi + 1;
            }
            proof {
                assert(spec_candidates(*cgr, *g, *o, names@, m + 1 as int)
                    =~= spec_candidates(*cgr, *g, *o, names@, m as int)
                        + spec_cands_for_module(*cgr, *g, *o, names@, m as int, ng as int));
            }
        } else {
            proof {
                lemma_cands_nonresident(*cgr, *g, *o, names@, m as int, ng as int);
                assert(spec_candidates(*cgr, *g, *o, names@, m + 1 as int)
                    == spec_candidates(*cgr, *g, *o, names@, m as int)
                        + spec_cands_for_module(*cgr, *g, *o, names@, m as int, ng as int));
                assert(spec_candidates(*cgr, *g, *o, names@, m as int)
                    + Seq::<(usize, Seq<char>, ModuleId, Seq<usize>)>::empty()
                    =~= spec_candidates(*cgr, *g, *o, names@, m as int));
                assert(cand_views(r@) =~= spec_candidates(*cgr, *g, *o, names@, m + 1 as int));
            }
        }
        m = m + 1;
    }
    proof {
        assert(cand_views(r@) == spec_candidates(*cgr, *g, *o, names@, nm as int));
    }
    r
}

/// The first provisional chunk (at or after `i`) whose key is `key`, or -1.
pub open spec fn find_key(
    ps: Seq<(usize, Seq<char>, Seq<ModuleId>, Seq<usize>)>,
    key: Seq<char>,
    i: int,
) -> int
    decreases ps.len() - i,
{
    if i < 0 || i >= ps.len() {
        -1
    } else if ps[i].1 == key {
        i
    } else {
        find_key(ps, key, i + 1)
    }
}

proof fn lemma_find_key(
    ps: Seq<(usize, Seq<char>, Seq<ModuleId>, Seq<usize>)>,
    key: Seq<char>,
    i: int,
)
    requires
        0 <= i <= ps.len(),
        forall|j: int| 0 <= j < i ==> (#[trigger] ps[j]).1 != key,
    ensures
        find_key(ps, key, 0) == find_key(ps, key, i),
    decreases i,
{
    if i > 0 {
        lemma_find_key(ps, key, i - 1);
    }
}

/// Append each chunk reference of `new[..j]` that is not yet present.
pub open spec fn add_new_chunks(cs: Seq<usize>, new: Seq<usize>, j: int) -> Seq<usize>
    decreases j,
{
    if j <= 0 {
        cs
    } else {
        let p = add_new_chunks(cs, new, j - 1);
        if p.contains(new[j - 1]) {
            p
        } else {
            p.push(new[j - 1])
        }
    }
}

/// Aggregation in full: candidates are processed in order; one that shares
/// a key with an earlier provisional chunk merges into it (module appended
/// if new, chunks unioned in order), otherwise it opens a new one.
pub open spec fn spec_aggregate(
    cands: Seq<(usize, Seq<char>, ModuleId, Seq<usize>)>,
    n: int,
) -> Seq<(usize, Seq<char>, Seq<ModuleId>, Seq<usize>)>
    decreases n,
{
    if n <= 0 {
        Seq::empty()
    } else {
        let p = spec_aggregate(cands, n - 1);
        let c = cands[n - 1];
        let f = find_key(p, c.1, 0);
        if 0 <= f < p.len() {
            let prior = p[f];
            let mods2 = if prior.2.contains(c.2) { prior.2 } else { prior.2.push(c.2) };
            let chunks2 = add_new_chunks(prior.3, c.3, c.3.len() as int);
            p.update(f, (prior.0, prior.1, mods2, chunks2))
        } else {
            p.push((c.0, c.1, seq![c.2], c.3))
        }
    }
}

/// Aggregation: candidates that share a key merge into one provisional
/// split chunk, accumulating distinct modules and distinct chunks.
pub fn aggregate(cands: Vec<Candidate>, Ghost(o): Ghost<SplitChunksOptions>,
    Ghost(cgr): Ghost<ChunkGraph>) -> (r: Vec<ProvisionalChunk>)
    requires
        forall|i: int| 0 <= i < cands@.len() ==> {
            let c = #[trigger] cands@[i];
            &&& (c.group_index as int) < o.cache_groups@.len()
            &&& forall|j: int| 0 <= j < c.chunks@.len()
                    ==> ((#[trigger] c.chunks@[j]) as int) < cgr.chunks@.len()
        },
    ensures
        forall|p: int| 0 <= p < r@.len() ==> prov_ok(o, cgr, #[trigger] r@[p]),
        forall|p: int, q: int| 0 <= p < q < r@.len()
            ==> (#[trigger] r@[p]).key@ != (#[trigger] r@[q]).key@,
        forall|p: int, i: int, j: int| 0 <= p < r@.len()
            && 0 <= i < j < r@[p].modules@.len()
            ==> (#[trigger] r@[p].modules@[i]) != (#[trigger] r@[p].modules@[j]),
        prov_views(r@) == spec_aggregate(cand_views(cands@), cands@.len() as int),
{
    let mut pool = cands;
    let ghost cands0 = pool@;
    let mut r: Vec<ProvisionalChunk> = Vec::new();
    let ghost mut t: int = 0;
    proof {
        assert(prov_views(r@) =~= spec_aggregate(cand_views(cands0), 0));
        assert(pool@ =~= cands0.skip(0));
    }
    while pool.len() > 0
        invariant
            0 <= t <= cands0.len(),
            pool@ == cands0.skip(t),
            prov_views(r@) == spec_aggregate(cand_views(cands0), t),
            forall|i: int| 0 <= i < cands0.len() ==> {
                let c = #[trigger] cands0[i];
                &&& (c.group_index as int) < o.cache_groups@.len()
                &&& forall|j: int| 0 <= j < c.chunks@.len()
                        ==> ((#[trigger] c.chunks@[j]) as int) < cgr.chunks@.len()
            },
            forall|p: int| 0 <= p < r@.len() ==> prov_ok(o, cgr, #[trigger] r@[p]),
            forall|p: int, q: int| 0 <= p < q < r@.len()
                ==> (#[trigger] r@[p]).key@ != (#[trigger] r@[q]).key@,
            forall|p: int, i: int, j: int| 0 <= p < r@.len()
                && 0 <= i < j < r@[p].modules@.len()
                ==> (#[trigger] r@[p].modules@[i]) != (#[trigger] r@[p].modules@[j]),
        decreases pool@.len(),
    {
        let cand = pool.remove(0);
        proof {
            assert(cands0.skip(t)[0] == cands0[t]);
            assert(cands0.skip(t).remove(0) =~= cands0.skip(t + 1));
            assert(cand_view(cand) == cand_views(cands0)[t]);
        }
        let nr = r.len();
        let mut found: Option<usize> = None;
        let mut p: usize = 0;
        while p < nr
            invariant
                nr == r@.len(),
                p <= nr,
                match found {
                    Some(fp) => (fp as int) < r@.len() && r@[fp as int].key@ == cand.key@
                        && forall|p2: int| 0 <= p2 < fp as int
                            ==> (#[trigger] r@[p2]).key@ != cand.key@,
                    None => forall|p2: int| 0 <= p2 < p
                        ==> (#[trigger] r@[p2]).key@ != cand.key@,
                },
            decreases nr - p,
        {
            if found.is_none() {
                if r[p].key == cand.key {
                    found = Some(p);
                }
            }
            if found.is_some() {
                p = nr;
            } else {
                p = p + 1;
            }
        }
        proof {
            // connect the search to the specification's key lookup
            let views = prov_views(r@);
            match found {
                Some(fp) => {
                    assert forall|j: int| 0 <= j < fp as int
                        implies (#[trigger] views[j]).1 != cand.key@ by {
                        assert(views[j] == prov_view(r@[j]));
                    }
                    lemma_find_key(views, cand.key@, fp as int);
                    assert(views[fp as int].1 == cand.key@) by {
                        assert(views[fp as int] == prov_view(r@[fp as int]));
                    }
                    assert(find_key(views, cand.key@, 0) == fp as int);
                }
                None => {
                    assert forall|j: int| 0 <= j < views.len()
                        implies (#[trigger] views[j]).1 != cand.key@ by {
                        assert(views[j] == prov_view(r@[j]));
                    }
                    lemma_find_key(views, cand.key@, views.len() as int);
                    assert(find_key(views, cand.key@, 0) == -1);
                }
            }
        }
        match found {
            Some(fp) => {
                let ghost rsnap = r@;
                let mut target = r.remove(fp);
                let ghost tkey = target.key@;
                if !crate::make::contains_module_id(&target.modules, cand.module) {
                    target.modules.push(cand.module);
                }
                let ghost merged_mods = target.modules@;
                let ncc = cand.chunks.len();
                let mut cc: usize = 0;
                while cc < ncc
                    invariant
                        ncc == cand.chunks@.len(),
                        cc <= ncc,
                        target.key@ == tkey,
                        target.group_index == rsnap[fp as int].group_index,
                        target.modules@ == merged_mods,
                        target.chunks@ == add_new_chunks(rsnap[fp as int].chunks@,
                            cand.chunks@, cc as int),
                        forall|i2: int, j2: int| 0 <= i2 < j2 < target.modules@.len()
                            ==> (#[trigger] target.modules@[i2])
                                != (#[trigger] target.modules@[j2]),
                        forall|j: int| 0 <= j < cand.chunks@.len()
                            ==> ((#[trigger] cand.chunks@[j]) as int) < cgr.chunks@.len(),
                        forall|j: int| 0 <= j < target.chunks@.len()
                            ==> ((#[trigger] target.chunks@[j]) as int) < cgr.chunks@.len(),
                    decreases ncc - cc,
                {
                    if !crate::make::contains_module_id(&target.chunks, cand.chunks[cc]) {
                        target.chunks.push(cand.chunks[cc]);
                    }
                    cc = cc + 1;
                }
                r.insert(fp, target);
                proof {
                    assert forall|p2: int, q2: int| 0 <= p2 < q2 < r@.len()
                        implies (#[trigger] r@[p2]).key@ != (#[trigger] r@[q2]).key@ by {
                        assert(r@ == rsnap.remove(fp as int).insert(fp as int, r@[fp as int]));
                        if p2 != fp as int && q2 != fp as int {
                            assert(r@[p2] == rsnap[p2] && r@[q2] == rsnap[q2]);
                        } else if p2 == fp as int {
                            assert(r@[q2] == rsnap[q2]);
                            assert(r@[p2].key@ == rsnap[fp as int].key@);
                        } else {
                            assert(r@[p2] == rsnap[p2]);
                            assert(r@[q2].key@ == rsnap[fp as int].key@);
                        }
                    }
                    // the merged provisional chunk is the spec's merge
                    let views = prov_views(rsnap);
                    let c = cand_views(cands0)[t];
                    let prior = views[fp as int];
                    let mods2 = if prior.2.contains(c.2) { prior.2 } else { prior.2.push(c.2) };
                    let chunks2 = add_new_chunks(prior.3, c.3, c.3.len() as int);
                    assert(prior == prov_view(rsnap[fp as int]));
                    assert(merged_mods == mods2);
                    assert(prov_view(r@[fp as int]) == (prior.0, prior.1, mods2, chunks2));
                    assert(prov_views(r@) =~= views.update(fp as int,
                        (prior.0, prior.1, mods2, chunks2))) by {
                        assert forall|p2: int| 0 <= p2 < r@.len() && p2 != fp as int
                            implies prov_views(r@)[p2] == views[p2] by {
                            assert(r@[p2] == rsnap[p2]);
                        }
                    }
                    assert(prov_views(r@) == spec_aggregate(cand_views(cands0), t + 1));
                }
            }
            None => {
                let mut mods: Vec<ModuleId> = Vec::new();
                mods.push(cand.module);
                let ghost rsnap = r@;
                r.push(ProvisionalChunk {
                    group_index: cand.group_index,
                    key: cand.key,
                    modules: mods,
                    chunks: cand.chunks,
                });
                proof {
                    let c = cand_views(cands0)[t];
                    assert(prov_view(r@[r@.len() - 1]) == (c.0, c.1, seq![c.2], c.3)) by {
                        assert(r@[r@.len() - 1].modules@ =~= seq![c.2]);
                    }
                    assert(prov_views(r@) =~= prov_views(rsnap).push(
                        (c.0, c.1, seq![c.2], c.3))) by {
                        assert forall|p2: int| 0 <= p2 < rsnap.len()
                            implies prov_views(r@)[p2] == prov_views(rsnap)[p2] by {
                            assert(r@[p2] == rsnap[p2]);
                        }
                    }
                    assert(prov_views(r@) == spec_aggregate(cand_views(cands0), t + 1));
                }
            }
        }
        proof {
            t = t + 1;
        }
    }
    proof {
        assert(pool@.len() == 0);
        assert(t == cands0.len());
    }
    r
}

/// The effective min-chunks threshold of a group: its own, else the global
/// one, else one.
pub open spec fn spec_min_chunks(o: SplitChunksOptions, gi: int) -> int {
    match o.cache_groups@[gi].1.min_chunks {
        Some(v) => v as int,
        None => match o.min_chunks {
            Some(v) => v as int,
            None => 1,
        },
    }
}

/// The feasibility filter: a provisional chunk survives if it claims enough
/// modules, its total size clears `min_size` (or the enforce threshold), and
/// every affected chunk keeps at least `min_remaining_size` behind.
pub open spec fn spec_feasible_view(
    g: ModuleGraph,
    o: SplitChunksOptions,
    cgr: ChunkGraph,
    p: (usize, Seq<char>, Seq<ModuleId>, Seq<usize>),
) -> bool {
    &&& p.2.len() >= spec_min_chunks(o, p.0 as int)
    &&& match o.min_size {
            Some(ms) => spec_total_sat(g, p.2) >= ms as int
                || match o.enforce_size_threshold {
                    Some(e) => spec_total_sat(g, p.2) >= e as int,
                    None => false,
                },
            None => true,
        }
    &&& match o.min_remaining_size {
            Some(mr) => forall|i: int| 0 <= i < p.3.len()
                ==> spec_remaining_sat(
                    g,
                    cgr.chunks@[(#[trigger] p.3[i]) as int].modules@,
                    p.2,
                ) >= mr as int,
            None => true,
        }
}

pub open spec fn spec_feasible(
    g: ModuleGraph,
    o: SplitChunksOptions,
    cgr: ChunkGraph,
    p: ProvisionalChunk,
) -> bool {
    spec_feasible_view(g, o, cgr, prov_view(p))
}

/// The feasible provisional chunks among the first `n`, in order.
pub open spec fn spec_filter_feasible(
    g: ModuleGraph,
    o: SplitChunksOptions,
    cgr: ChunkGraph,
    ps: Seq<(usize, Seq<char>, Seq<ModuleId>, Seq<usize>)>,
    n: int,
) -> Seq<(usize, Seq<char>, Seq<ModuleId>, Seq<usize>)>
    decreases n,
{
    if n <= 0 {
        Seq::empty()
    } else {
        let r = spec_filter_feasible(g, o, cgr, ps, n - 1);
        if spec_feasible_view(g, o, cgr, ps[n - 1]) {
            r.push(ps[n - 1])
        } else {
            r
        }
    }
}

/// Whether one provisional chunk passes the feasibility filter.
pub fn feasible(
    g: &ModuleGraph,
    o: &SplitChunksOptions,
    cgr: &ChunkGraph,
    p: &ProvisionalChunk,
) -> (r: bool)
    requires
        g.wf(),
        prov_ok(*o, *cgr, *p),
    ensures
        r == spec_feasible(*g, *o, *cgr, *p),
{
    let mc = match o.cache_groups[p.group_index].1.min_chunks {
        Some(v) => v,
        None => match o.min_chunks {
            Some(v) => v,
            None => 1u32,
        },
    };
    if (p.modules.len() as u64) < mc as u64 {
        return false;
    }
    let ts = total_size(g, &p.modules);
    let size_ok = match o.min_size {
        Some(ms) => ts >= ms || match o.enforce_size_threshold {
            Some(e) => ts >= e,
            None => false,
        },
        None => true,
    };
    if !size_ok {
        return false;
    }
    match o.min_remaining_size {
        Some(mr) => {
            let nc = p.chunks.len();
            let mut i: usize = 0;
            while i < nc
                invariant
                    g.wf(),
                    prov_ok(*o, *cgr, *p),
                    nc == p.chunks@.len(),
                    i <= nc,
                    o.min_remaining_size == Some(mr),
                    forall|j: int| 0 <= j < i
                        ==> spec_remaining_sat(
                            *g,
                            cgr.chunks@[(#[trigger] p.chunks@[j]) as int].modules@,
                            p.modules@,
                        ) >= mr as int,
                decreases nc - i,
            {
                let rem = remaining_size(g, &cgr.chunks[p.chunks[i]].modules, &p.modules);
                if rem < mr {
                    return false;
                }
                i = i + 1;
            }
            true
        }
        None => true,
    }
}

/// Feasibility filtering: keep exactly the provisional chunks that pass.
pub fn apply_feasibility(
    g: &ModuleGraph,
    o: &SplitChunksOptions,
    cgr: &ChunkGraph,
    provs: Vec<ProvisionalChunk>,
) -> (r: Vec<ProvisionalChunk>)
    requires
        g.wf(),
        forall|p: int| 0 <= p < provs@.len() ==> prov_ok(*o, *cgr, #[trigger] provs@[p]),
    ensures
        forall|p: int| 0 <= p < r@.len()
            ==> prov_ok(*o, *cgr, #[trigger] r@[p]) && spec_feasible(*g, *o, *cgr, r@[p]),
        prov_views(r@) == spec_filter_feasible(*g, *o, *cgr, prov_views(provs@),
            provs@.len() as int),
{
    let mut pool = provs;
    let ghost pool0 = pool@;
    let mut r: Vec<ProvisionalChunk> = Vec::new();
    let ghost mut t: int = 0;
    proof {
        assert(prov_views(r@) =~= spec_filter_feasible(*g, *o, *cgr, prov_views(pool0), 0));
        assert(pool@ =~= pool0.skip(0));
    }
    while pool.len() > 0
        invariant
            g.wf(),
            0 <= t <= pool0.len(),
            pool@ == pool0.skip(t),
            prov_views(r@) == spec_filter_feasible(*g, *o, *cgr, prov_views(pool0), t),
            forall|p: int| 0 <= p < pool0.len() ==> prov_ok(*o, *cgr, #[trigger] pool0[p]),
            forall|p: int| 0 <= p < r@.len()
                ==> prov_ok(*o, *cgr, #[trigger] r@[p]) && spec_feasible(*g, *o, *cgr, r@[p]),
        decreases pool@.len(),
    {
        let p = pool.remove(0);
        proof {
            assert(pool0.skip(t)[0] == pool0[t]);
            assert(pool0.skip(t).remove(0) =~= pool0.skip(t + 1));
            assert(prov_view(p) == prov_views(pool0)[t]);
        }
        let ghost rsnap = r@;
        if feasible(g, o, cgr, &p) {
            r.push(p);
            proof {
                assert(prov_views(r@) =~= prov_views(rsnap).push(prov_views(pool0)[t])) by {
                    assert forall|p2: int| 0 <= p2 < rsnap.len()
                        implies prov_views(r@)[p2] == prov_views(rsnap)[p2] by {
                        assert(r@[p2] == rsnap[p2]);
                    }
                }
            }
        }
        proof {
            t = t + 1;
        }
    }
    proof {
        assert(t == pool0.len());
    }
    r
}

/// Compare two claims executably.
fn better_claim(
    g: &ModuleGraph,
    o: &SplitChunksOptions,
    provs: &Vec<ProvisionalChunk>,
    ai: usize,
    bi: usize,
) -> (r: bool)
    requires
        g.wf(),
        ai < provs@.len(),
        bi < provs@.len(),
        (provs@[ai as int].group_index as int) < o.cache_groups@.len(),
        (provs@[bi as int].group_index as int) < o.cache_groups@.len(),
    ensures
        r == spec_better_claim(*g, *o, provs@[ai as int], ai as int, provs@[bi as int],
            bi as int),
{
    let pa = match o.cache_groups[provs[ai].group_index].1.priority {
        Some(p) => p,
        None => 0i32,
    };
    let pb = match o.cache_groups[provs[bi].group_index].1.priority {
        Some(p) => p,
        None => 0i32,
    };
    if pa != pb {
        return pa > pb;
    }
    let ca = provs[ai].modules.len();
    let cb = provs[bi].modules.len();
    if ca != cb {
        return ca > cb;
    }
    let sa = total_size(g, &provs[ai].modules);
    let sb = total_size(g, &provs[bi].modules);
    if sa != sb {
        return sa > sb;
    }
    ai <= bi
}

/// Priority resolution: a module claimed by several provisional chunks is
/// retained only in the best claim — the highest cache-group priority, ties
/// broken by larger module count, larger total size, and group order.
/// Priority dominance: if two groups claim a module and one has
/// strictly higher priority, the module stays with that group.
pub fn resolve_priorities(
    g: &ModuleGraph,
    o: &SplitChunksOptions,
    provs: Vec<ProvisionalChunk>,
) -> (r: Vec<ProvisionalChunk>)
    requires
        g.wf(),
        forall|p: int| 0 <= p < provs@.len()
            ==> ((#[trigger] provs@[p]).group_index as int) < o.cache_groups@.len(),
    ensures
        r@.len() == provs@.len(),
        forall|p: int| 0 <= p < r@.len() ==> {
            &&& (#[trigger] r@[p]).key@ == provs@[p].key@
            &&& r@[p].group_index == provs@[p].group_index
            &&& r@[p].chunks@ == provs@[p].chunks@
        },
        forall|p: int, i: int| 0 <= p < r@.len() && 0 <= i < r@[p].modules@.len() ==> {
            let m = #[trigger] r@[p].modules@[i];
            &&& provs@[p].modules@.contains(m)
            &&& forall|q: int| 0 <= q < provs@.len() && q != p
                    && (#[trigger] provs@[q].modules@).contains(m)
                    ==> spec_better_claim(*g, *o, provs@[p], p, provs@[q], q)
        },
        prov_views(r@) == spec_resolve_all(*g, *o, prov_views(provs@)),
{
    let ghost views = prov_views(provs@);
    let n = provs.len();
    let mut r: Vec<ProvisionalChunk> = Vec::new();
    let mut p: usize = 0;
    while p < n
        invariant
            g.wf(),
            n == provs@.len(),
            p <= n,
            forall|p2: int| 0 <= p2 < provs@.len()
                ==> ((#[trigger] provs@[p2]).group_index as int) < o.cache_groups@.len(),
            r@.len() == p,
            forall|p2: int| 0 <= p2 < p ==> {
                &&& (#[trigger] r@[p2]).key@ == provs@[p2].key@
                &&& r@[p2].group_index == provs@[p2].group_index
                &&& r@[p2].chunks@ == provs@[p2].chunks@
            },
            forall|p2: int, i: int| 0 <= p2 < p && 0 <= i < r@[p2].modules@.len() ==> {
                let m = #[trigger] r@[p2].modules@[i];
                &&& provs@[p2].modules@.contains(m)
                &&& forall|q: int| 0 <= q < provs@.len() && q != p2
                        && (#[trigger] provs@[q].modules@).contains(m)
                        ==> spec_better_claim(*g, *o, provs@[p2], p2, provs@[q], q)
            },
            views == prov_views(provs@),
            forall|p2: int| 0 <= p2 < p ==> #[trigger] prov_views(r@)[p2]
                == (views[p2].0, views[p2].1,
                    spec_keep_modules(*g, *o, views, p2, views[p2].2.len() as int),
                    views[p2].3),
        decreases n - p,
    {
        let nm = provs[p].modules.len();
        let mut kept: Vec<ModuleId> = Vec::new();
        let mut i: usize = 0;
        while i < nm
            invariant
                g.wf(),
                n == provs@.len(),
                p < n,
                forall|p2: int| 0 <= p2 < provs@.len()
                    ==> ((#[trigger] provs@[p2]).group_index as int)
                        < o.cache_groups@.len(),
                nm == provs@[p as int].modules@.len(),
                i <= nm,
                forall|i2: int| 0 <= i2 < kept@.len() ==> {
                    let m = #[trigger] kept@[i2];
                    &&& provs@[p as int].modules@.contains(m)
                    &&& forall|q: int| 0 <= q < provs@.len() && q != p as int
                            && (#[trigger] provs@[q].modules@).contains(m)
                            ==> spec_better_claim(*g, *o, provs@[p as int], p as int,
                                provs@[q], q)
                },
                views == prov_views(provs@),
                kept@ == spec_keep_modules(*g, *o, views, p as int, i as int),
            decreases nm - i,
        {
            let m = provs[p].modules[i];
            let mut wins = true;
            let mut q: usize = 0;
            while q < n
                invariant
                    g.wf(),
                    n == provs@.len(),
                    p < n,
                    q <= n,
                    forall|p2: int| 0 <= p2 < provs@.len()
                        ==> ((#[trigger] provs@[p2]).group_index as int)
                            < o.cache_groups@.len(),
                    wins ==> forall|q2: int| 0 <= q2 < q && q2 != p as int
                        && (#[trigger] provs@[q2].modules@).contains(m)
                        ==> spec_better_claim(*g, *o, provs@[p as int], p as int,
                            provs@[q2], q2),
                    views == prov_views(provs@),
                    !wins ==> !spec_wins(*g, *o, views, p as int, m),
                decreases n - q,
            {
                if q != p {
                    if crate::make::contains_module_id(&provs[q].modules, m) {
                        if !better_claim(g, o, &provs, p, q) {
                            wins = false;
                            proof {
                                assert(views[q as int].2.contains(m));
                                assert(!spec_better_view(*g, *o, views[p as int],
                                    p as int, views[q as int], q as int));
                            }
                            q = n;
                            continue;
                        }
                    }
                }
                q = q + 1;
            }
            proof {
                if wins {
                    assert(spec_wins(*g, *o, views, p as int, m)) by {
                        assert forall|q2: int| 0 <= q2 < views.len() && q2 != p as int
                            && (#[trigger] views[q2].2).contains(m)
                            implies spec_better_view(*g, *o, views[p as int], p as int,
                                views[q2], q2) by {
                            assert(provs@[q2].modules@.contains(m));
                            assert(spec_better_claim(*g, *o, provs@[p as int], p as int,
                                provs@[q2], q2));
                        }
                    }
                }
                assert(views[p as int].2[i as int] == m);
            }
            if wins {
                proof {
                    assert(provs@[p as int].modules@[i as int] == m);
                }
                kept.push(m);
            }
            i = i + 1;
        }
        let ghost rsnap = r@;
        r.push(ProvisionalChunk {
            group_index: provs[p].group_index,
            key: provs[p].key.clone(),
            modules: kept,
            chunks: clone_usizes(&provs[p].chunks),
        });
        proof {
            assert(prov_view(r@[p as int]) == (views[p as int].0, views[p as int].1,
                spec_keep_modules(*g, *o, views, p as int,
                    views[p as int].2.len() as int), views[p as int].3));
            assert forall|p2: int| 0 <= p2 < p + 1 implies #[trigger] prov_views(r@)[p2]
                == (views[p2].0, views[p2].1,
                    spec_keep_modules(*g, *o, views, p2, views[p2].2.len() as int),
                    views[p2].3) by {
                if p2 < p as int {
                    assert(r@[p2] == rsnap[p2]);
                    assert(prov_views(rsnap)[p2] == prov_view(rsnap[p2]));
                }
            }
        }
        p = p + 1;
    }
    proof {
        assert(prov_views(r@) =~= spec_resolve_all(*g, *o, views));
    }
    r
}

/// How many of the first `n` surviving provisional chunks affect chunk `c`.
pub open spec fn count_affecting(
    provs: Seq<ProvisionalChunk>,
    alive: Seq<bool>,
    c: usize,
    n: int,
) -> int
    decreases n,
{
    if n <= 0 {
        0
    } else {
        count_affecting(provs, alive, c, n - 1)
            + if alive[n - 1] && provs[n - 1].chunks@.contains(c) { 1int } else { 0int }
    }
}

proof fn lemma_count_affecting_nonneg(
    provs: Seq<ProvisionalChunk>,
    alive: Seq<bool>,
    c: usize,
    n: int,
)
    ensures
        count_affecting(provs, alive, c, n) >= 0,
    decreases n,
{
    if n > 0 {
        lemma_count_affecting_nonneg(provs, alive, c, n - 1);
    }
}

proof fn lemma_count_affecting_kill(
    provs: Seq<ProvisionalChunk>,
    a1: Seq<bool>,
    a2: Seq<bool>,
    i: int,
    c: usize,
    n: int,
)
    requires
        0 <= i < a1.len(),
        n <= a1.len(),
        a1[i],
        a2 == a1.update(i, false),
    ensures
        count_affecting(provs, a2, c, n) == count_affecting(provs, a1, c, n)
            - if i < n && provs[i].chunks@.contains(c) { 1int } else { 0int },
    decreases n,
{
    if n > 0 {
        lemma_count_affecting_kill(provs, a1, a2, i, c, n - 1);
    }
}

/// The surviving provisional chunks, in order.
pub open spec fn alive_prefix(
    provs: Seq<ProvisionalChunk>,
    alive: Seq<bool>,
    n: int,
) -> Seq<ProvisionalChunk>
    decreases n,
{
    if n <= 0 {
        Seq::empty()
    } else {
        let p = alive_prefix(provs, alive, n - 1);
        if alive[n - 1] {
            p.push(provs[n - 1])
        } else {
            p
        }
    }
}

/// The request cap a chunk carries, by its loading kind.
pub open spec fn cap_of(cgr: ChunkGraph, o: SplitChunksOptions, c: int) -> Option<u32> {
    if cgr.chunks@[c].is_initial {
        o.max_initial_requests
    } else {
        o.max_async_requests
    }
}

/// How many splits a cap leaves room for beside the parent's own file.
pub open spec fn spec_allowance(l: u32) -> int {
    if l >= 1 { l - 1 } else { 0 }
}

/// A provisional chunk may be dropped only under force: some capped parent
/// it loads from is over its cap in the input.
pub open spec fn drop_forced(
    cgr: ChunkGraph,
    o: SplitChunksOptions,
    provs: Seq<ProvisionalChunk>,
    i: int,
) -> bool {
    exists|c: int| 0 <= c < cgr.chunks@.len()
        && provs[i].chunks@.contains(c as usize)
        && (#[trigger] cap_of(cgr, o, c)) is Some
        && count_affecting(provs, Seq::new(provs.len(), |x: int| true), c as usize,
            provs.len() as int) > spec_allowance(cap_of(cgr, o, c)->Some_0)
}

/// Fewer survivors never means more affecting claims.
proof fn lemma_count_affecting_mono(
    provs: Seq<ProvisionalChunk>,
    a1: Seq<bool>,
    a2: Seq<bool>,
    c: usize,
    n: int,
)
    requires
        forall|i: int| 0 <= i < n && #[trigger] a2[i] ==> a1[i],
    ensures
        count_affecting(provs, a2, c, n) <= count_affecting(provs, a1, c, n),
    decreases n,
{
    if n > 0 {
        lemma_count_affecting_mono(provs, a1, a2, c, n - 1);
    }
}

/// The witness shape the limit-enforcement contract promises.
pub open spec fn keep_witness_ok(
    cgr: ChunkGraph,
    o: SplitChunksOptions,
    provs: Seq<ProvisionalChunk>,
    keep: Seq<bool>,
    r: Seq<ProvisionalChunk>,
    n: int,
) -> bool {
    &&& keep.len() == provs.len()
    &&& r == alive_prefix(provs, keep, n)
    &&& forall|i: int| 0 <= i < keep.len() && !keep[i] ==> drop_forced(cgr, o, provs, i)
}

/// Limit enforcement: for every chunk whose request cap is set, drop the
/// lowest-priority provisional chunks that load from it until the cap
/// holds. Limit safety: in the result, a parent chunk with cap
/// `l >= 1` is affected by at most `l - 1` split chunks, so its requests
/// (its own file plus one per split) stay within the cap.
pub fn enforce_limits(
    g: &ModuleGraph,
    cgr: &ChunkGraph,
    o: &SplitChunksOptions,
    provs: Vec<ProvisionalChunk>,
    warnings: &mut Vec<Diagnostic>,
) -> (r: Vec<ProvisionalChunk>)
    requires
        g.wf(),
        forall|p: int| 0 <= p < provs@.len() ==> prov_ok(*o, *cgr, #[trigger] provs@[p]),
    ensures
        // dropping under over-constraint degrades with a warning
        forall|j: int| 0 <= j < old(warnings)@.len()
            ==> #[trigger] final(warnings)@[j] == old(warnings)@[j],
        forall|j: int| old(warnings)@.len() <= j < final(warnings)@.len()
            ==> (#[trigger] final(warnings)@[j]).kind is SplitChunksOverConstraint
                && final(warnings)@[j].severity is Warning,
        forall|p: int| 0 <= p < r@.len() ==> prov_ok(*o, *cgr, #[trigger] r@[p]),
        forall|c: int| 0 <= c < cgr.chunks@.len() ==> {
            let cap = if (#[trigger] cgr.chunks@[c]).is_initial {
                o.max_initial_requests
            } else {
                o.max_async_requests
            };
            cap is Some ==> count_affecting(r@, Seq::new(r@.len(), |x: int| true),
                c as usize, r@.len() as int)
                <= if cap->Some_0 >= 1 { cap->Some_0 - 1 } else { 0int }
        },
        // the survivors are the input in order, and a chunk is dropped only
        // when a capped parent it loads from is over its cap in the input
        exists|keep: Seq<bool>| {
            &&& keep.len() == provs@.len()
            &&& r@ == alive_prefix(provs@, keep, provs@.len() as int)
            &&& forall|i: int| 0 <= i < keep.len() && !keep[i]
                    ==> drop_forced(*cgr, *o, provs@, i)
            &&& ((exists|i: int| 0 <= i < keep.len() && !(#[trigger] keep[i]))
                    <==> final(warnings)@.len() > old(warnings)@.len())
        },
{
    let n = provs.len();
    let mut alive: Vec<bool> = Vec::new();
    let mut z: usize = 0;
    while z < n
        invariant
            z <= n,
            alive@.len() == z,
            forall|i: int| 0 <= i < z ==> #[trigger] alive@[i],
        decreases n - z,
    {
        alive.push(true);
        z = z + 1;
    }
    let nc = cgr.chunks.len();
    let mut c: usize = 0;
    while c < nc
        invariant
            g.wf(),
            n == provs@.len(),
            nc == cgr.chunks@.len(),
            c <= nc,
            alive@.len() == n,
            warnings@.len() >= old(warnings)@.len(),
            forall|j: int| 0 <= j < old(warnings)@.len()
                ==> #[trigger] warnings@[j] == old(warnings)@[j],
            forall|j: int| old(warnings)@.len() <= j < warnings@.len()
                ==> (#[trigger] warnings@[j]).kind is SplitChunksOverConstraint
                    && warnings@[j].severity is Warning,
            (exists|i: int| 0 <= i < n && !(#[trigger] alive@[i]))
                <==> warnings@.len() > old(warnings)@.len(),
            forall|p: int| 0 <= p < provs@.len()
                ==> prov_ok(*o, *cgr, #[trigger] provs@[p]),
            forall|c2: int| 0 <= c2 < c ==> {
                let cap = if (#[trigger] cgr.chunks@[c2]).is_initial {
                    o.max_initial_requests
                } else {
                    o.max_async_requests
                };
                cap is Some ==> count_affecting(provs@, alive@, c2 as usize, n as int)
                    <= if cap->Some_0 >= 1 { cap->Some_0 - 1 } else { 0int }
            },
            forall|i: int| 0 <= i < n && !(#[trigger] alive@[i])
                ==> drop_forced(*cgr, *o, provs@, i),
        decreases nc - c,
    {
        let cap_opt = if cgr.chunks[c].is_initial {
            o.max_initial_requests
        } else {
            o.max_async_requests
        };
        if let Some(l) = cap_opt {
            {
                // a cap of zero cannot be met even with no splits: degrade by
                // dropping every split that loads from this parent
                let allowance: u32 = if l >= 1 { l - 1 } else { 0 };
                let ghost alive_entry = alive@;
                loop
                    invariant
                        g.wf(),
                        n == provs@.len(),
                        nc == cgr.chunks@.len(),
                        c < nc,
                        allowance as int == if l >= 1 { l - 1 } else { 0int },
                        cap_opt == Some(l),
                        cap_opt == (if cgr.chunks@[c as int].is_initial {
                            o.max_initial_requests
                        } else {
                            o.max_async_requests
                        }),
                        alive@.len() == n,
                        warnings@.len() >= old(warnings)@.len(),
                        forall|j: int| 0 <= j < old(warnings)@.len()
                            ==> #[trigger] warnings@[j] == old(warnings)@[j],
                        forall|j: int| old(warnings)@.len() <= j < warnings@.len()
                            ==> (#[trigger] warnings@[j]).kind
                                is SplitChunksOverConstraint
                                && warnings@[j].severity is Warning,
                        (exists|i: int| 0 <= i < n && !(#[trigger] alive@[i]))
                            <==> warnings@.len() > old(warnings)@.len(),
                        forall|p: int| 0 <= p < provs@.len()
                            ==> prov_ok(*o, *cgr, #[trigger] provs@[p]),
                        forall|i: int| 0 <= i < n && #[trigger] alive@[i]
                            ==> alive_entry[i],
                        forall|i: int| 0 <= i < n && !(#[trigger] alive@[i])
                            ==> drop_forced(*cgr, *o, provs@, i),
                        forall|c2: int| 0 <= c2 < c ==> {
                            let cap = if (#[trigger] cgr.chunks@[c2]).is_initial {
                                o.max_initial_requests
                            } else {
                                o.max_async_requests
                            };
                            cap is Some ==> count_affecting(provs@, alive@, c2 as usize,
                                n as int)
                                <= if cap->Some_0 >= 1 { cap->Some_0 - 1 } else { 0int }
                        },
                    ensures
                        count_affecting(provs@, alive@, c as usize, n as int)
                            <= allowance as int,
                        forall|c2: int| 0 <= c2 < c ==> {
                            let cap = if (#[trigger] cgr.chunks@[c2]).is_initial {
                                o.max_initial_requests
                            } else {
                                o.max_async_requests
                            };
                            cap is Some ==> count_affecting(provs@, alive@, c2 as usize,
                                n as int)
                                <= if cap->Some_0 >= 1 { cap->Some_0 - 1 } else { 0int }
                        },
                        alive@.len() == n,
                        warnings@.len() >= old(warnings)@.len(),
                        forall|j: int| 0 <= j < old(warnings)@.len()
                            ==> #[trigger] warnings@[j] == old(warnings)@[j],
                        forall|j: int| old(warnings)@.len() <= j < warnings@.len()
                            ==> (#[trigger] warnings@[j]).kind
                                is SplitChunksOverConstraint
                                && warnings@[j].severity is Warning,
                        (exists|i: int| 0 <= i < n && !(#[trigger] alive@[i]))
                            <==> warnings@.len() > old(warnings)@.len(),
                        forall|i: int| 0 <= i < n && #[trigger] alive@[i]
                            ==> alive_entry[i],
                        forall|i: int| 0 <= i < n && !(#[trigger] alive@[i])
                            ==> drop_forced(*cgr, *o, provs@, i),
                    decreases count_affecting(provs@, alive@, c as usize, n as int),
                {
                    let ghost warnings_snap = warnings@;
                    // count the surviving provisional chunks that load from c
                    let mut cnt: u64 = 0;
                    let mut worst: Option<usize> = None;
                    let mut p: usize = 0;
                    while p < n
                        invariant
                            g.wf(),
                            n == provs@.len(),
                            p <= n,
                            alive@.len() == n,
                            warnings@ == warnings_snap,
                            forall|p2: int| 0 <= p2 < provs@.len()
                                ==> prov_ok(*o, *cgr, #[trigger] provs@[p2]),
                            cnt as int == count_affecting(provs@, alive@, c as usize,
                                p as int),
                            cnt <= p as u64,
                            match worst {
                                Some(w) => (w as int) < p && alive@[w as int]
                                    && provs@[w as int].chunks@.contains(c),
                                None => cnt == 0,
                            },
                        decreases n - p,
                    {
                        if alive[p] && crate::make::contains_module_id(&provs[p].chunks, c) {
                            cnt = cnt + 1;
                            let replace = match worst {
                                None => true,
                                Some(w) => better_claim(g, o, &provs, w, p),
                            };
                            if replace {
                                worst = Some(p);
                            }
                        }
                        p = p + 1;
                    }
                    if cnt <= allowance as u64 {
                        break;
                    }
                    // over the cap: drop the worst surviving claim on c
                    match worst {
                        Some(w) => {
                            let ghost a1 = alive@;
                            alive.set(w, false);
                            warnings.push(Diagnostic {
                                severity: crate::diagnostics::Severity::Warning,
                                kind: crate::diagnostics::DiagnosticKind::SplitChunksOverConstraint,
                                module: None,
                                span_start: 0,
                                span_end: 0,
                                message: String::from_str(
                                    "split dropped to satisfy the request limit",
                                ),
                            });
                            proof {
                                assert(!alive@[w as int]);
                                assert(warnings@.len() > old(warnings)@.len());
                                assert(warnings@.last().kind
                                    is SplitChunksOverConstraint);
                                // the drop is forced: this parent is capped and
                                // over its cap already in the input
                                let all = Seq::new(provs@.len(), |x: int| true);
                                lemma_count_affecting_mono(provs@, all, a1, c, n as int);
                                assert(cap_of(*cgr, *o, c as int) == Some(l));
                                assert(count_affecting(provs@, all, c, n as int)
                                    > spec_allowance(l));
                                assert(drop_forced(*cgr, *o, provs@, w as int));
                                assert forall|i: int| 0 <= i < n && !(#[trigger] alive@[i])
                                    implies drop_forced(*cgr, *o, provs@, i) by {
                                    if i != w as int {
                                        assert(!a1[i]);
                                    }
                                }
                                lemma_count_affecting_kill(
                                    provs@, a1, alive@, w as int, c, n as int);
                                lemma_count_affecting_nonneg(
                                    provs@, alive@, c, n as int);
                                assert forall|c2: int| 0 <= c2 < c implies {
                                    let cap = if (#[trigger] cgr.chunks@[c2]).is_initial {
                                        o.max_initial_requests
                                    } else {
                                        o.max_async_requests
                                    };
                                    cap is Some ==> count_affecting(provs@, alive@,
                                        c2 as usize, n as int)
                                        <= if cap->Some_0 >= 1 { cap->Some_0 - 1 }
                                           else { 0int }
                                } by {
                                    lemma_count_affecting_kill(
                                        provs@, a1, alive@, w as int, c2 as usize, n as int);
                                }
                            }
                        }
                        None => {
                            proof {
                                assert(cnt as int == count_affecting(provs@, alive@,
                                    c as usize, n as int));
                                assert(false);
                            }
                            break;
                        }
                    }
                }
            }
        }
        c = c + 1;
    }
    // collect the survivors
    let mut r: Vec<ProvisionalChunk> = Vec::new();
    let mut i: usize = 0;
    let ghost alive_fin = alive@;
    let mut pool = provs;
    proof {
        assert(alive_prefix(pool@, alive_fin, 0) =~= Seq::<ProvisionalChunk>::empty());
    }
    let ghost pool0 = pool@;
    while i < n
        invariant
            n == pool0.len(),
            pool@ == pool0.skip(i as int),
            alive@ == alive_fin,
            alive_fin.len() == n,
            i <= n,
            r@ == alive_prefix(pool0, alive_fin, i as int),
        decreases n - i,
    {
        let item = pool.remove(0);
        proof {
            assert(pool0.skip(i as int)[0] == pool0[i as int]);
            assert(pool0.skip(i as int).remove(0) =~= pool0.skip(i + 1 as int));
        }
        if alive[i] {
            r.push(item);
            proof {
                assert(alive_prefix(pool0, alive_fin, i + 1 as int)
                    == alive_prefix(pool0, alive_fin, i as int).push(pool0[i as int]));
            }
        }
        i = i + 1;
    }
    proof {
        assert(r@ == alive_prefix(pool0, alive_fin, n as int));
    }
    proof {
        assert(keep_witness_ok(*cgr, *o, pool0, alive_fin, r@, n as int)) by {
            assert(r@ == alive_prefix(pool0, alive_fin, n as int));
        }
        lemma_alive_prefix_props(*g, *cgr, *o, pool0, alive_fin, n as int);
        assert forall|c2: int| 0 <= c2 < cgr.chunks@.len() implies {
            let cap = if (#[trigger] cgr.chunks@[c2]).is_initial {
                o.max_initial_requests
            } else {
                o.max_async_requests
            };
            cap is Some ==> count_affecting(r@, Seq::new(r@.len(), |x: int| true),
                c2 as usize, r@.len() as int)
                <= if cap->Some_0 >= 1 { cap->Some_0 - 1 } else { 0int }
        } by {
            lemma_alive_prefix_count(pool0, alive_fin, c2 as usize, n as int);
            lemma_count_affecting_nonneg(pool0, alive_fin, c2 as usize, n as int);
        }
    }
    r
}

/// Survivor collection preserves per-chunk validity.
proof fn lemma_alive_prefix_props(
    g: ModuleGraph,
    cgr: ChunkGraph,
    o: SplitChunksOptions,
    provs: Seq<ProvisionalChunk>,
    alive: Seq<bool>,
    n: int,
)
    requires
        n <= provs.len(),
        forall|p: int| 0 <= p < provs.len() ==> prov_ok(o, cgr, #[trigger] provs[p]),
    ensures
        forall|p: int| 0 <= p < alive_prefix(provs, alive, n).len()
            ==> prov_ok(o, cgr, #[trigger] alive_prefix(provs, alive, n)[p]),
    decreases n,
{
    if n > 0 {
        lemma_alive_prefix_props(g, cgr, o, provs, alive, n - 1);
        let pp = alive_prefix(provs, alive, n - 1);
        let cur = alive_prefix(provs, alive, n);
        assert forall|p: int| 0 <= p < cur.len()
            implies prov_ok(o, cgr, #[trigger] cur[p]) by {
            if p < pp.len() {
                assert(cur[p] == pp[p]);
            }
        }
    }
}

/// The affecting count over the survivors equals the alive-filtered count.
proof fn lemma_alive_prefix_count(
    provs: Seq<ProvisionalChunk>,
    alive: Seq<bool>,
    c: usize,
    n: int,
)
    ensures
        count_affecting(
            alive_prefix(provs, alive, n),
            Seq::new(alive_prefix(provs, alive, n).len(), |x: int| true),
            c,
            alive_prefix(provs, alive, n).len() as int,
        ) == count_affecting(provs, alive, c, n),
    decreases n,
{
    if n > 0 {
        lemma_alive_prefix_count(provs, alive, c, n - 1);
        let pp = alive_prefix(provs, alive, n - 1);
        let cur = alive_prefix(provs, alive, n);
        let all_pp = Seq::new(pp.len(), |x: int| true);
        let all_cur = Seq::new(cur.len(), |x: int| true);
        if alive[n - 1] {
            assert(cur == pp.push(provs[n - 1]));
            assert(count_affecting(cur, all_cur, c, cur.len() as int)
                == count_affecting(cur, all_cur, c, pp.len() as int)
                    + if provs[n - 1].chunks@.contains(c) { 1int } else { 0int });
            lemma_count_affecting_prefix(pp, cur, all_pp, all_cur, c, pp.len() as int);
        } else {
            assert(cur == pp);
            assert(all_cur =~= all_pp);
        }
    }
}

/// The affecting count only reads the first `n` entries.
proof fn lemma_count_affecting_prefix(
    s1: Seq<ProvisionalChunk>,
    s2: Seq<ProvisionalChunk>,
    a1: Seq<bool>,
    a2: Seq<bool>,
    c: usize,
    n: int,
)
    requires
        forall|i: int| 0 <= i < n ==> #[trigger] s2[i] == s1[i],
        forall|i: int| 0 <= i < n ==> #[trigger] a2[i] == a1[i],
    ensures
        count_affecting(s2, a2, c, n) == count_affecting(s1, a1, c, n),
    decreases n,
{
    if n > 0 {
        lemma_count_affecting_prefix(s1, s2, a1, a2, c, n - 1);
    }
}

/// Whether any provisional chunk affecting chunk `c` extracts module `m`.
pub open spec fn spec_is_extracted(provs: Seq<ProvisionalChunk>, c: usize, m: ModuleId) -> bool {
    exists|p: int| 0 <= p < provs.len() && (#[trigger] provs[p]).chunks@.contains(c)
        && provs[p].modules@.contains(m)
}

/// The modules a chunk keeps after the splits are taken out.
pub open spec fn spec_kept(
    mods: Seq<ModuleId>,
    provs: Seq<ProvisionalChunk>,
    c: usize,
    n: int,
) -> Seq<ModuleId>
    decreases n,
{
    if n <= 0 {
        Seq::empty()
    } else {
        let pfx = spec_kept(mods, provs, c, n - 1);
        if spec_is_extracted(provs, c, mods[n - 1]) {
            pfx
        } else {
            pfx.push(mods[n - 1])
        }
    }
}

/// Whether module `m` is extracted from chunk `c` by one of the splits.
fn is_extracted(provs: &Vec<ProvisionalChunk>, c: usize, m: ModuleId) -> (r: bool)
    ensures
        r == spec_is_extracted(provs@, c, m),
{
    let n = provs.len();
    let mut p: usize = 0;
    while p < n
        invariant
            n == provs@.len(),
            p <= n,
            forall|p2: int| 0 <= p2 < p ==> !((#[trigger] provs@[p2]).chunks@.contains(c)
                && provs@[p2].modules@.contains(m)),
        decreases n - p,
    {
        if crate::make::contains_module_id(&provs[p].chunks, c)
            && crate::make::contains_module_id(&provs[p].modules, m) {
            return true;
        }
        p = p + 1;
    }
    false
}

/// Commit: move the extracted modules out of the original chunks and append
/// one new chunk (with its chunk group) per surviving provisional split.
pub fn commit_split(cgr: ChunkGraph, provs: Vec<ProvisionalChunk>) -> (r: ChunkGraph)
    requires
        cgr.chunks@.len() == cgr.groups@.len(),
        forall|i: int| 0 <= i < cgr.chunks@.len() ==> (#[trigger] cgr.chunks@[i]).ukey == i,
        forall|i: int| 0 <= i < cgr.groups@.len() ==> (#[trigger] cgr.groups@[i]).ukey == i,
    ensures
        r.chunks@.len() == cgr.chunks@.len() + provs@.len(),
        r.groups@.len() == cgr.groups@.len() + provs@.len(),
        forall|i: int| 0 <= i < r.chunks@.len() ==> (#[trigger] r.chunks@[i]).ukey == i,
        forall|i: int| 0 <= i < r.groups@.len() ==> (#[trigger] r.groups@[i]).ukey == i,
        // original chunks keep exactly the modules no split extracts
        forall|c: int| 0 <= c < cgr.chunks@.len() ==> {
            let ch = #[trigger] r.chunks@[c];
            &&& ch.id@ == cgr.chunks@[c].id@
            &&& ch.is_initial == cgr.chunks@[c].is_initial
            &&& ch.kind == cgr.chunks@[c].kind
            &&& ch.root == cgr.chunks@[c].root
            &&& ch.modules@ == spec_kept(cgr.chunks@[c].modules@, provs@, c as usize,
                    cgr.chunks@[c].modules@.len() as int)
        },
        // the new chunks are exactly the splits, in order
        forall|i: int| 0 <= i < provs@.len() ==> {
            let ch = #[trigger] r.chunks@[cgr.chunks@.len() + i];
            &&& ch.id@ == provs@[i].key@
            &&& !ch.is_initial
            &&& ch.kind is Normal
            &&& ch.modules@ == provs@[i].modules@
        },
        forall|i: int| 0 <= i < provs@.len()
            ==> (#[trigger] r.groups@[cgr.groups@.len() + i]).parents@ == provs@[i].chunks@,
        r.chunk_of_root@ == cgr.chunk_of_root@,
{
    let ChunkGraph { mut chunks, mut groups, chunk_of_root } = cgr;
    let ghost chunks0 = chunks@;
    let nold = chunks.len();
    // strip the extracted modules out of the original chunks
    let mut c: usize = 0;
    while c < nold
        invariant
            nold == chunks0.len(),
            chunks@.len() == nold,
            c <= nold,
            forall|c2: int| c <= c2 < nold ==> #[trigger] chunks@[c2] == chunks0[c2],
            forall|c2: int| 0 <= c2 < c ==> {
                let ch = #[trigger] chunks@[c2];
                &&& ch.id@ == chunks0[c2].id@
                &&& ch.is_initial == chunks0[c2].is_initial
                &&& ch.kind == chunks0[c2].kind
                &&& ch.root == chunks0[c2].root
                &&& ch.ukey == chunks0[c2].ukey
                &&& ch.has_runtime == chunks0[c2].has_runtime
                &&& ch.modules@ == spec_kept(chunks0[c2].modules@, provs@, c2 as usize,
                        chunks0[c2].modules@.len() as int)
            },
        decreases nold - c,
    {
        let nm = chunks[c].modules.len();
        let mut kept: Vec<ModuleId> = Vec::new();
        let mut i: usize = 0;
        while i < nm
            invariant
                c < chunks@.len(),
                nm == chunks@[c as int].modules@.len(),
                i <= nm,
                kept@ == spec_kept(chunks@[c as int].modules@, provs@, c as usize, i as int),
            decreases nm - i,
        {
            let m = chunks[c].modules[i];
            if !is_extracted(&provs, c, m) {
                kept.push(m);
            }
            i = i + 1;
        }
        let target = &mut chunks[c];
        target.modules = kept;
        c = c + 1;
    }
    // append one chunk and one group per split
    let ghost chunks1 = chunks@;
    let mut pool = provs;
    let ghost provs0 = pool@;
    let mut i: usize = 0;
    let np = pool.len();
    while i < np
        invariant
            np == provs0.len(),
            pool@ == provs0.skip(i as int),
            i <= np,
            chunks@.len() == nold + i,
            groups@.len() == nold + i,
            forall|c2: int| 0 <= c2 < nold + i ==> #[trigger] chunks@[c2].ukey == c2,
            forall|c2: int| 0 <= c2 < nold + i ==> #[trigger] groups@[c2].ukey == c2,
            forall|c2: int| 0 <= c2 < nold ==> #[trigger] chunks@[c2] == chunks1[c2],
            nold == chunks1.len(),
            forall|c2: int| 0 <= c2 < nold ==> {
                let ch = #[trigger] chunks1[c2];
                &&& ch.id@ == chunks0[c2].id@
                &&& ch.is_initial == chunks0[c2].is_initial
                &&& ch.kind == chunks0[c2].kind
                &&& ch.root == chunks0[c2].root
                &&& ch.ukey == chunks0[c2].ukey
                &&& ch.modules@ == spec_kept(chunks0[c2].modules@, provs0, c2 as usize,
                        chunks0[c2].modules@.len() as int)
            },
            forall|j: int| 0 <= j < i ==> {
                let ch = #[trigger] chunks@[nold + j];
                &&& ch.id@ == provs0[j].key@
                &&& !ch.is_initial
                &&& ch.kind is Normal
                &&& ch.modules@ == provs0[j].modules@
            },
            forall|j: int| 0 <= j < i
                ==> (#[trigger] groups@[nold + j]).parents@ == provs0[j].chunks@,
        decreases np - i,
    {
        let prov = pool.remove(0);
        proof {
            assert(provs0.skip(i as int)[0] == provs0[i as int]);
            assert(provs0.skip(i as int).remove(0) =~= provs0.skip(i + 1 as int));
        }
        let cu = chunks.len();
        let root = if prov.modules.len() > 0 { prov.modules[0] } else { 0 };
        let mut own: Vec<usize> = Vec::new();
        own.push(cu);
        chunks.push(Chunk {
            ukey: cu,
            id: prov.key,
            name: None,
            kind: ChunkKind::Normal,
            is_initial: false,
            has_runtime: false,
            root,
            modules: prov.modules,
        });
        groups.push(ChunkGroup {
            ukey: cu,
            chunks: own,
            parents: prov.chunks,
            children: Vec::new(),
        });
        i = i + 1;
    }
    ChunkGraph { chunks, groups, chunk_of_root }
}

/// How many of the groups in `[from, n)` load from chunk `c`.
pub open spec fn count_new_parents(groups: Seq<ChunkGroup>, from: int, n: int, c: usize) -> int
    decreases n - from,
{
    if n <= from {
        0
    } else {
        count_new_parents(groups, from, n - 1, c)
            + if groups[n - 1].parents@.contains(c) { 1int } else { 0int }
    }
}

proof fn lemma_count_new_parents(
    groups: Seq<ChunkGroup>,
    from: int,
    provs: Seq<ProvisionalChunk>,
    np: int,
    c: usize,
)
    requires
        0 <= from,
        0 <= np <= provs.len(),
        from + np <= groups.len(),
        forall|j: int| 0 <= j < np
            ==> (#[trigger] groups[from + j]).parents@ == provs[j].chunks@,
    ensures
        count_new_parents(groups, from, from + np, c)
            == count_affecting(provs, Seq::new(provs.len(), |x: int| true), c, np),
    decreases np,
{
    if np > 0 {
        lemma_count_new_parents(groups, from, provs, np - 1, c);
    }
}

/// View-level form of the extraction test: some split loading from chunk
/// `c` carries module `m`.
pub open spec fn spec_is_extracted_v(
    ps: Seq<(usize, Seq<char>, Seq<ModuleId>, Seq<usize>)>,
    c: usize,
    m: ModuleId,
) -> bool {
    exists|p: int| 0 <= p < ps.len() && (#[trigger] ps[p]).3.contains(c)
        && ps[p].2.contains(m)
}

/// View-level form of the kept-modules filter.
pub open spec fn spec_kept_v(
    mods: Seq<ModuleId>,
    ps: Seq<(usize, Seq<char>, Seq<ModuleId>, Seq<usize>)>,
    c: usize,
    n: int,
) -> Seq<ModuleId>
    decreases n,
{
    if n <= 0 {
        Seq::empty()
    } else {
        let pfx = spec_kept_v(mods, ps, c, n - 1);
        if spec_is_extracted_v(ps, c, mods[n - 1]) {
            pfx
        } else {
            pfx.push(mods[n - 1])
        }
    }
}

/// Extraction depends only on the splits' views.
proof fn lemma_is_extracted_views(provs: Seq<ProvisionalChunk>, c: usize, m: ModuleId)
    ensures
        spec_is_extracted(provs, c, m) == spec_is_extracted_v(prov_views(provs), c, m),
{
    let vs = prov_views(provs);
    if spec_is_extracted(provs, c, m) {
        let p = choose|p: int| 0 <= p < provs.len() && (#[trigger] provs[p]).chunks@.contains(c)
            && provs[p].modules@.contains(m);
        assert(vs[p] == prov_view(provs[p]));
        assert(vs[p].3.contains(c) && vs[p].2.contains(m));
    }
    if spec_is_extracted_v(vs, c, m) {
        let p = choose|p: int| 0 <= p < vs.len() && (#[trigger] vs[p]).3.contains(c)
            && vs[p].2.contains(m);
        assert(vs[p] == prov_view(provs[p]));
        assert(provs[p].chunks@.contains(c) && provs[p].modules@.contains(m));
    }
}

/// The kept-modules filter depends only on the splits' views.
proof fn lemma_kept_views(
    mods: Seq<ModuleId>,
    provs: Seq<ProvisionalChunk>,
    c: usize,
    n: int,
)
    ensures
        spec_kept(mods, provs, c, n) == spec_kept_v(mods, prov_views(provs), c, n),
    decreases n,
{
    if n > 0 {
        lemma_kept_views(mods, provs, c, n - 1);
        lemma_is_extracted_views(provs, c, mods[n - 1]);
    }
}

/// The survivors among the first `n` views, in order.
pub open spec fn spec_alive_v(
    ps: Seq<(usize, Seq<char>, Seq<ModuleId>, Seq<usize>)>,
    keep: Seq<bool>,
    n: int,
) -> Seq<(usize, Seq<char>, Seq<ModuleId>, Seq<usize>)>
    decreases n,
{
    if n <= 0 {
        Seq::empty()
    } else {
        let p = spec_alive_v(ps, keep, n - 1);
        if keep[n - 1] {
            p.push(ps[n - 1])
        } else {
            p
        }
    }
}

/// Filtering survivors commutes with taking views.
proof fn lemma_alive_prefix_views(
    provs: Seq<ProvisionalChunk>,
    keep: Seq<bool>,
    n: int,
)
    requires
        n <= provs.len(),
    ensures
        prov_views(alive_prefix(provs, keep, n))
            == spec_alive_v(prov_views(provs), keep, n),
    decreases n,
{
    if n > 0 {
        lemma_alive_prefix_views(provs, keep, n - 1);
        let pv = prov_views(alive_prefix(provs, keep, n - 1));
        if keep[n - 1] {
            assert(alive_prefix(provs, keep, n)
                == alive_prefix(provs, keep, n - 1).push(provs[n - 1]));
            assert(prov_views(alive_prefix(provs, keep, n))
                =~= pv.push(prov_view(provs[n - 1]))) by {
                let ap = alive_prefix(provs, keep, n);
                assert forall|i: int| 0 <= i < ap.len()
                    implies prov_views(ap)[i] == pv.push(prov_view(provs[n - 1]))[i] by {
                    if i < ap.len() - 1 {
                        assert(ap[i] == alive_prefix(provs, keep, n - 1)[i]);
                    }
                }
            }
            assert(prov_views(provs)[n - 1] == prov_view(provs[n - 1]));
        }
    }
}

/// The staged engine, end to end: candidate formation, aggregation,
/// feasibility, priority resolution.
pub open spec fn spec_pipeline(
    cgr: ChunkGraph,
    g: ModuleGraph,
    o: SplitChunksOptions,
    names: Seq<Seq<char>>,
) -> Seq<(usize, Seq<char>, Seq<ModuleId>, Seq<usize>)> {
    let cands = spec_candidates(cgr, g, o, names, g.modules@.len() as int);
    let aggregated = spec_aggregate(cands, cands.len() as int);
    let feas = spec_filter_feasible(g, o, cgr, aggregated, aggregated.len() as int);
    spec_resolve_all(g, o, feas)
}

/// What a committed split-chunks run must look like, for some survivor
/// selection `keep` over the staged pipeline's provisional chunks: the new
/// chunks are exactly the survivors, each original chunk keeps exactly the
/// modules no survivor extracts.
pub open spec fn split_outcome_ok(
    cgr: ChunkGraph,
    g: ModuleGraph,
    o: SplitChunksOptions,
    names: Seq<Seq<char>>,
    keep: Seq<bool>,
    r: ChunkGraph,
) -> bool {
    let resolved = spec_pipeline(cgr, g, o, names);
    let survivors = spec_alive_v(resolved, keep, resolved.len() as int);
    &&& keep.len() == resolved.len()
    &&& r.chunks@.len() == cgr.chunks@.len() + survivors.len()
    &&& r.groups@.len() == cgr.groups@.len() + survivors.len()
    &&& forall|i: int| 0 <= i < survivors.len() ==> {
            let ch = #[trigger] r.chunks@[cgr.chunks@.len() + i];
            &&& ch.id@ == survivors[i].1
            &&& ch.modules@ == survivors[i].2
            &&& !ch.is_initial
            &&& r.groups@[cgr.groups@.len() + i].parents@ == survivors[i].3
        }
    &&& forall|c: int| 0 <= c < cgr.chunks@.len() ==> {
            let ch = #[trigger] r.chunks@[c];
            &&& ch.id@ == cgr.chunks@[c].id@
            &&& ch.root == cgr.chunks@[c].root
            &&& ch.is_initial == cgr.chunks@[c].is_initial
            &&& ch.modules@ == spec_kept_v(cgr.chunks@[c].modules@, survivors, c as usize,
                    cgr.chunks@[c].modules@.len() as int)
        }
}

/// The split-chunks engine: candidate formation, aggregation by key,
/// feasibility filtering, priority resolution, limit enforcement, and the
/// commit into the chunk graph. The engine is a pure function of the module
/// graph, the chunk graph and the options — its output is identical across
/// runs and does not depend on any execution interleaving.
pub fn split_chunks(
    cgr: ChunkGraph,
    g: &ModuleGraph,
    o: &SplitChunksOptions,
    names: &Interner,
    warnings: &mut Vec<Diagnostic>,
) -> (r: ChunkGraph)
    requires
        g.wf(),
        g.modules@.len() <= names@.len(),
        options_tests_valid(*o),
        cgr.chunks@.len() == cgr.groups@.len(),
        forall|i: int| 0 <= i < cgr.chunks@.len() ==> (#[trigger] cgr.chunks@[i]).ukey == i,
        forall|i: int| 0 <= i < cgr.groups@.len() ==> (#[trigger] cgr.groups@[i]).ukey == i,
    ensures
        r.chunks@.len() >= cgr.chunks@.len(),
        r.chunks@.len() == r.groups@.len(),
        forall|i: int| 0 <= i < r.chunks@.len() ==> (#[trigger] r.chunks@[i]).ukey == i,
        // limit safety: every parent chunk with a request cap of l stays
        // within it — at most l - 1 split chunks load from it
        forall|c: int| 0 <= c < cgr.chunks@.len() ==> {
            let cap = if (#[trigger] cgr.chunks@[c]).is_initial {
                o.max_initial_requests
            } else {
                o.max_async_requests
            };
            cap is Some ==> count_new_parents(r.groups@, cgr.groups@.len() as int,
                r.groups@.len() as int, c as usize)
                <= if cap->Some_0 >= 1 { cap->Some_0 - 1 } else { 0int }
        },
        // the committed graph is exactly the staged pipeline's outcome, for
        // some survivor selection forced by the request caps
        exists|keep: Seq<bool>| split_outcome_ok(cgr, *g, *o, names@, keep, r),
        // dropping a split under over-constraint degrades with a warning
        forall|j: int| 0 <= j < old(warnings)@.len()
            ==> #[trigger] final(warnings)@[j] == old(warnings)@[j],
        forall|j: int| old(warnings)@.len() <= j < final(warnings)@.len()
            ==> (#[trigger] final(warnings)@[j]).kind is SplitChunksOverConstraint
                && final(warnings)@[j].severity is Warning,
{
    let ghost old_len = cgr.chunks@.len();
    let cands = candidates(&cgr, g, o, names);
    let ghost candsv = cands@;
    let provs = aggregate(cands, Ghost(*o), Ghost(cgr));
    let ghost provsv = provs@;
    let feas = apply_feasibility(g, o, &cgr, provs);
    let ghost feasv = feas@;
    proof {
        assert forall|p: int| 0 <= p < feas@.len()
            implies ((#[trigger] feas@[p]).group_index as int) < o.cache_groups@.len() by {
            assert(prov_ok(*o, cgr, feas@[p]));
        }
    }
    let resolved = resolve_priorities(g, o, feas);
    let ghost resolvedv = resolved@;
    proof {
        assert forall|p: int| 0 <= p < resolved@.len()
            implies prov_ok(*o, cgr, #[trigger] resolved@[p]) by {
            assert(prov_ok(*o, cgr, feasv[p]));
            assert(resolved@[p].chunks@ == feasv[p].chunks@);
        }
    }
    let survivors = enforce_limits(g, &cgr, o, resolved, warnings);
    let ghost surv = survivors@;
    let r = commit_split(cgr, survivors);
    proof {
        assert forall|c: int| 0 <= c < old_len implies {
            let cap = if (#[trigger] cgr.chunks@[c]).is_initial {
                o.max_initial_requests
            } else {
                o.max_async_requests
            };
            cap is Some ==> count_new_parents(r.groups@, old_len as int,
                r.groups@.len() as int, c as usize)
                <= if cap->Some_0 >= 1 { cap->Some_0 - 1 } else { 0int }
        } by {
            lemma_count_new_parents(r.groups@, old_len as int, surv,
                surv.len() as int, c as usize);
        }
        // chain the stage contracts into the pipeline specification
        let spec_cands = spec_candidates(cgr, *g, *o, names@, g.modules@.len() as int);
        let aggregated = spec_aggregate(spec_cands, spec_cands.len() as int);
        let spec_feas = spec_filter_feasible(*g, *o, cgr, aggregated,
            aggregated.len() as int);
        let resolved_spec = spec_pipeline(cgr, *g, *o, names@);
        assert(cand_views(candsv) == spec_cands);
        assert(candsv.len() == spec_cands.len());
        assert(prov_views(provsv) == aggregated);
        assert(provsv.len() == aggregated.len());
        assert(prov_views(feasv) == spec_feas);
        assert(prov_views(resolvedv) == resolved_spec);
        let keep = choose|keep: Seq<bool>| {
            &&& keep.len() == resolvedv.len()
            &&& surv == alive_prefix(resolvedv, keep, resolvedv.len() as int)
            &&& forall|i: int| 0 <= i < keep.len() && !keep[i]
                    ==> drop_forced(cgr, *o, resolvedv, i)
            &&& ((exists|i: int| 0 <= i < keep.len() && !(#[trigger] keep[i]))
                    <==> warnings@.len() > old(warnings)@.len())
        };
        lemma_alive_prefix_views(resolvedv, keep, resolvedv.len() as int);
        let survivors_spec = spec_alive_v(resolved_spec, keep, resolved_spec.len() as int);
        assert(prov_views(surv) == survivors_spec);
        assert(split_outcome_ok(cgr, *g, *o, names@, keep, r)) by {
            assert(keep.len() == resolved_spec.len());
            assert(r.chunks@.len() == cgr.chunks@.len() + survivors_spec.len());
            assert forall|i: int| 0 <= i < survivors_spec.len() implies {
                let ch = #[trigger] r.chunks@[cgr.chunks@.len() + i];
                &&& ch.id@ == survivors_spec[i].1
                &&& ch.modules@ == survivors_spec[i].2
                &&& !ch.is_initial
                &&& r.groups@[cgr.groups@.len() + i].parents@ == survivors_spec[i].3
            } by {
                assert(prov_views(surv)[i] == prov_view(surv[i]));
            }
            assert forall|c: int| 0 <= c < cgr.chunks@.len() implies {
                let ch = #[trigger] r.chunks@[c];
                &&& ch.id@ == cgr.chunks@[c].id@
                &&& ch.root == cgr.chunks@[c].root
                &&& ch.is_initial == cgr.chunks@[c].is_initial
                &&& ch.modules@ == spec_kept_v(cgr.chunks@[c].modules@, survivors_spec,
                        c as usize, cgr.chunks@[c].modules@.len() as int)
            } by {
                lemma_kept_views(cgr.chunks@[c].modules@, surv, c as usize,
                    cgr.chunks@[c].modules@.len() as int);
            }
        }
    }
    r
}

/// Validate the cache groups' test patterns, then run the engine: a group
/// whose test is not a compilable regex source is a configuration error,
/// reported instead of split (the binding layer aborts on such patterns).
pub fn split_chunks_checked(
    cgr: ChunkGraph,
    g: &ModuleGraph,
    o: &SplitChunksOptions,
    names: &Interner,
    warnings: &mut Vec<Diagnostic>,
) -> (r: Result<ChunkGraph, Diagnostic>)
    requires
        g.wf(),
        g.modules@.len() <= names@.len(),
        cgr.chunks@.len() == cgr.groups@.len(),
        forall|i: int| 0 <= i < cgr.chunks@.len() ==> (#[trigger] cgr.chunks@[i]).ukey == i,
        forall|i: int| 0 <= i < cgr.groups@.len() ==> (#[trigger] cgr.groups@[i]).ukey == i,
    ensures
        r is Ok <==> options_tests_valid(*o),
        r matches Err(d) ==> d.severity is Error && d.kind is InvariantViolation,
        forall|j: int| 0 <= j < old(warnings)@.len()
            ==> #[trigger] final(warnings)@[j] == old(warnings)@[j],
        forall|j: int| old(warnings)@.len() <= j < final(warnings)@.len()
            ==> (#[trigger] final(warnings)@[j]).kind is SplitChunksOverConstraint
                && final(warnings)@[j].severity is Warning,
{
    let ng = o.cache_groups.len();
    let mut gi: usize = 0;
    while gi < ng
        invariant
            ng == o.cache_groups@.len(),
            gi <= ng,
            forall|g2: int| 0 <= g2 < gi
                ==> ((#[trigger] o.cache_groups@[g2]).1.test matches Some(p)
                    ==> is_valid_regex(p@)),
        decreases ng - gi,
    {
        let bad = match &o.cache_groups[gi].1.test {
            Some(pat) => !regex_is_valid(pat.as_str()),
            None => false,
        };
        if bad {
            return Err(Diagnostic {
                severity: crate::diagnostics::Severity::Error,
                kind: crate::diagnostics::DiagnosticKind::InvariantViolation,
                module: None,
                span_start: 0,
                span_end: 0,
                message: String::from_str("invalid cache group test pattern"),
            });
        }
        gi = gi + 1;
    }
    Ok(split_chunks(cgr, g, o, names, warnings))
}

} // verus!
