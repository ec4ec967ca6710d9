//! Dependency scanning: turning the frontend's parse of a module into the
//! module's outgoing dependencies and async blocks.
//!
//! The source-language parser is an external collaborator; what it reports
//! about a module — the references it saw and its parse diagnostics — arrives
//! here as a [`Program`], and scanning classifies those references.

use vstd::prelude::*;
use crate::diagnostics::Diagnostic;
use crate::module_graph::{Dep, DepKind, ModuleId, ModuleType};

verus! {

/// One reference the frontend observed in a module's source: an import, a
/// require, a dynamic import or a context request.
#[derive(Clone, Debug)]
pub struct RawRef {
    pub kind: DepKind,
    pub request: String,
    pub span_start: u32,
    pub span_end: u32,
}

/// Extra information recorded for a source span during scanning.
#[derive(Clone, Debug)]
pub enum ExtraSpanInfo {
    ReWriteUsedByExports,
    /// Pairs of (local symbol, exported name) whose usage must be rewritten.
    AddVariableUsage(Vec<(String, String)>),
}

/// The frontend's parse of one module: the references its scanner walked,
/// span annotations, and the diagnostics the parse raised.
#[derive(Clone, Debug)]
pub struct Program {
    pub refs: Vec<RawRef>,
    pub usage_spans: Vec<(u32, ExtraSpanInfo)>,
    pub errors: Vec<Diagnostic>,
    pub warnings: Vec<Diagnostic>,
}

/// What scanning one module produces: its synchronous dependencies, its
/// async dependency blocks, span usage records and non-fatal diagnostics.
pub struct ScanDependenciesResult {
    pub dependencies: Vec<Dep>,
    pub blocks: Vec<Dep>,
    pub usage_span_record: Vec<(u32, ExtraSpanInfo)>,
    pub warning_diagnostics: Vec<Diagnostic>,
}

/// Whether two span records carry the same annotation: equal variants, and
/// for variable usages, the same (local, exported) pairs.
pub open spec fn span_info_matches(a: ExtraSpanInfo, b: ExtraSpanInfo) -> bool {
    match (a, b) {
        (ExtraSpanInfo::ReWriteUsedByExports, ExtraSpanInfo::ReWriteUsedByExports) => true,
        (ExtraSpanInfo::AddVariableUsage(x), ExtraSpanInfo::AddVariableUsage(y)) => x@ == y@,
        _ => false,
    }
}

/// Whether two span usage records agree pointwise.
pub open spec fn usage_record_matches(
    a: Seq<(u32, ExtraSpanInfo)>,
    b: Seq<(u32, ExtraSpanInfo)>,
) -> bool {
    a.len() == b.len() && forall|i: int| 0 <= i < a.len()
        ==> (#[trigger] a[i]).0 == b[i].0 && span_info_matches(a[i].1, b[i].1)
}

/// The dependency record a reference of module `m` turns into.
pub open spec fn ref_to_dep(r: RawRef, m: ModuleId) -> Dep {
    Dep {
        kind: r.kind,
        request: r.request,
        parent: Some(m),
        span_start: r.span_start,
        span_end: r.span_end,
    }
}

/// The synchronous dependencies scanned from `refs` for module `m`.
pub open spec fn spec_sync_deps(refs: Seq<RawRef>, m: ModuleId) -> Seq<Dep> {
    refs.filter(|r: RawRef| !r.kind.is_async()).map_values(|r: RawRef| ref_to_dep(r, m))
}

/// The async dependency blocks scanned from `refs` for module `m`.
pub open spec fn spec_async_deps(refs: Seq<RawRef>, m: ModuleId) -> Seq<Dep> {
    refs.filter(|r: RawRef| r.kind.is_async()).map_values(|r: RawRef| ref_to_dep(r, m))
}

/// Appending one reference extends the scanned dependency lists by exactly
/// that reference's record, on the side its kind selects.
proof fn lemma_scan_push(refs: Seq<RawRef>, r: RawRef, m: ModuleId)
    ensures
        spec_sync_deps(refs.push(r), m) == if !r.kind.is_async() {
            spec_sync_deps(refs, m).push(ref_to_dep(r, m))
        } else {
            spec_sync_deps(refs, m)
        },
        spec_async_deps(refs.push(r), m) == if r.kind.is_async() {
            spec_async_deps(refs, m).push(ref_to_dep(r, m))
        } else {
            spec_async_deps(refs, m)
        },
{
    reveal(Seq::filter);
    let psync = |rr: RawRef| !rr.kind.is_async();
    let pasync = |rr: RawRef| rr.kind.is_async();
    let s = refs.push(r);
    assert(s.drop_last() =~= refs);
    assert(s.last() == r);
    if !r.kind.is_async() {
        assert(s.filter(psync) == refs.filter(psync).push(r));
        assert(s.filter(pasync) == refs.filter(pasync));
        assert(spec_sync_deps(s, m) =~= spec_sync_deps(refs, m).push(ref_to_dep(r, m)));
        assert(spec_async_deps(s, m) =~= spec_async_deps(refs, m));
    } else {
        assert(s.filter(psync) == refs.filter(psync));
        assert(s.filter(pasync) == refs.filter(pasync).push(r));
        assert(spec_sync_deps(s, m) =~= spec_sync_deps(refs, m));
        assert(spec_async_deps(s, m) =~= spec_async_deps(refs, m).push(ref_to_dep(r, m)));
    }
}

/// Every reference is classified exactly once: the sync dependencies and the
/// async blocks together account for all scanned references.
pub proof fn lemma_scan_lengths(refs: Seq<RawRef>, m: ModuleId)
    ensures
        spec_sync_deps(refs, m).len() + spec_async_deps(refs, m).len() == refs.len(),
    decreases refs.len(),
{
    reveal(Seq::filter);
    if refs.len() > 0 {
        let prefix = refs.drop_last();
        lemma_scan_lengths(prefix, m);
        lemma_scan_push(prefix, refs.last(), m);
        assert(prefix.push(refs.last()) =~= refs);
    }
}

/// A field-for-field copy of a diagnostic.
pub fn clone_diagnostic(d: &Diagnostic) -> (r: Diagnostic)
    ensures
        r == *d,
{
    Diagnostic {
        severity: d.severity,
        kind: d.kind,
        module: d.module,
        span_start: d.span_start,
        span_end: d.span_end,
        message: d.message.clone(),
    }
}

/// A field-for-field copy of a diagnostics list.
pub fn clone_diagnostics(v: &Vec<Diagnostic>) -> (r: Vec<Diagnostic>)
    ensures
        r@ == v@,
{
    let mut r: Vec<Diagnostic> = Vec::new();
    let n = v.len();
    let mut i: usize = 0;
    while i < n
        invariant
            n == v@.len(),
            i <= n,
            r@ == v@.take(i as int),
        decreases n - i,
    {
        r.push(clone_diagnostic(&v[i]));
        proof {
            assert(v@.take(i + 1 as int) =~= v@.take(i as int).push(v@[i as int]));
        }
        i = i + 1;
    }
    proof {
        assert(v@.take(n as int) =~= v@);
    }
    r
}

/// A field-for-field copy of a span usage record.
fn clone_usage_spans(v: &Vec<(u32, ExtraSpanInfo)>) -> (r: Vec<(u32, ExtraSpanInfo)>)
    ensures
        usage_record_matches(r@, v@),
{
    let mut r: Vec<(u32, ExtraSpanInfo)> = Vec::new();
    let n = v.len();
    let mut i: usize = 0;
    while i < n
        invariant
            n == v@.len(),
            i <= n,
            usage_record_matches(r@, v@.take(i as int)),
        decreases n - i,
    {
        let (span, info) = &v[i];
        let info2 = match info {
            ExtraSpanInfo::ReWriteUsedByExports => ExtraSpanInfo::ReWriteUsedByExports,
            ExtraSpanInfo::AddVariableUsage(pairs) => {
                let mut ps: Vec<(String, String)> = Vec::new();
                let pn = pairs.len();
                let mut j: usize = 0;
                while j < pn
                    invariant
                        pn == pairs@.len(),
                        j <= pn,
                        ps@ == pairs@.take(j as int),
                    decreases pn - j,
                {
                    ps.push((pairs[j].0.clone(), pairs[j].1.clone()));
                    proof {
                        assert(pairs@.take(j + 1 as int)
                            =~= pairs@.take(j as int).push(pairs@[j as int]));
                    }
                    j = j + 1;
                }
                proof {
                    assert(pairs@.take(pn as int) =~= pairs@);
                }
                ExtraSpanInfo::AddVariableUsage(ps)
            }
        };
        r.push((*span, info2));
        i = i + 1;
    }
    proof {
        assert(v@.take(n as int) =~= v@);
    }
    r
}

/// Walks the frontend's scan of one module and classifies every reference:
/// synchronous requests become dependencies, dynamic imports become async
/// blocks. If the parse raised errors, scanning fails with exactly those
/// errors and no dependencies are produced.
pub fn scan_dependencies(
    program: &Program,
    module_type: ModuleType,
    module_identifier: ModuleId,
) -> (r: Result<ScanDependenciesResult, Vec<Diagnostic>>)
    ensures
        match r {
            Ok(res) => program.errors@.len() == 0
                && res.dependencies@ == spec_sync_deps(program.refs@, module_identifier)
                && res.blocks@ == spec_async_deps(program.refs@, module_identifier)
                && usage_record_matches(res.usage_span_record@, program.usage_spans@)
                && res.warning_diagnostics@ == program.warnings@,
            Err(errors) => program.errors@.len() > 0 && errors@ == program.errors@,
        },
{
    if program.errors.len() > 0 {
        return Err(clone_diagnostics(&program.errors));
    }
    let mut dependencies: Vec<Dep> = Vec::new();
    let mut blocks: Vec<Dep> = Vec::new();
    let n = program.refs.len();
    let mut i: usize = 0;
    while i < n
        invariant
            n == program.refs@.len(),
            i <= n,
            dependencies@ == spec_sync_deps(program.refs@.take(i as int), module_identifier),
            blocks@ == spec_async_deps(program.refs@.take(i as int), module_identifier),
        decreases n - i,
    {
        let r = &program.refs[i];
        let dep = Dep {
            kind: r.kind,
            request: r.request.clone(),
            parent: Some(module_identifier),
            span_start: r.span_start,
            span_end: r.span_end,
        };
        proof {
            assert(dep == ref_to_dep(program.refs@[i as int], module_identifier));
            lemma_scan_push(
                program.refs@.take(i as int),
                program.refs@[i as int],
                module_identifier,
            );
            assert(program.refs@.take(i + 1 as int)
                =~= program.refs@.take(i as int).push(program.refs@[i as int]));
        }
        let is_async = match r.kind {
            DepKind::DynImport => true,
            _ => false,
        };
        if is_async {
            blocks.push(dep);
        } else {
            dependencies.push(dep);
        }
        i = i + 1;
    }
    proof {
        assert(program.refs@.take(n as int) =~= program.refs@);
    }
    Ok(ScanDependenciesResult {
        dependencies,
        blocks,
        usage_span_record: clone_usage_spans(&program.usage_spans),
        warning_diagnostics: clone_diagnostics(&program.warnings),
    })
}

} // verus!
