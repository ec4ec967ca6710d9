//! Structured errors and warnings with source locations.

use vstd::prelude::*;
use crate::ids::Id;

verus! {

#[derive(Clone, Copy, PartialEq, Eq, Structural, Debug)]
pub enum Severity {
    Error,
    Warning,
}

/// What went wrong; each variant is one recoverable or fatal error kind of
/// the pipeline.
#[derive(Clone, Copy, PartialEq, Eq, Structural, Debug)]
pub enum DiagnosticKind {
    /// A dependency could not be resolved to a resource.
    ResolutionFailed,
    /// The loader or parser failed on a module.
    BuildFailed,
    /// A plugin returned a fatal diagnostic.
    PluginFatal,
    /// An internal consistency check failed.
    InvariantViolation,
    /// A split-chunks rule had to be dropped to satisfy the request limits.
    SplitChunksOverConstraint,
}

/// Whether two diagnostic lists agree pointwise: same severity, kind,
/// module, span and message text.
pub open spec fn diags_match(a: Seq<Diagnostic>, b: Seq<Diagnostic>) -> bool {
    a.len() == b.len() && forall|i: int| 0 <= i < a.len() ==> {
        &&& (#[trigger] a[i]).severity == b[i].severity
        &&& a[i].kind == b[i].kind
        &&& a[i].module == b[i].module
        &&& a[i].span_start == b[i].span_start
        &&& a[i].span_end == b[i].span_end
        &&& a[i].message@ == b[i].message@
    }
}

/// A structured diagnostic record: severity, kind, the module it concerns
/// (if any), a byte span into that module's source, and a rendered message.
#[derive(Clone, Debug)]
pub struct Diagnostic {
    pub severity: Severity,
    pub kind: DiagnosticKind,
    pub module: Option<Id>,
    pub span_start: u32,
    pub span_end: u32,
    pub message: String,
}

impl Diagnostic {
    pub open spec fn is_error(&self) -> bool {
        self.severity is Error
    }

    /// A resolution-failure diagnostic for the dependency request `request`
    /// issued by `module` at the given span.
    pub fn resolution_failed(module: Option<Id>, span_start: u32, span_end: u32, request: String)
        -> (d: Diagnostic)
        ensures
            d.severity is Error,
            d.kind is ResolutionFailed,
            d.module == module,
            d.span_start == span_start,
            d.span_end == span_end,
            d.message@ == "failed to resolve "@ + request@,
    {
        let message = String::from_str("failed to resolve ").concat(request.as_str());
        Diagnostic {
            severity: Severity::Error,
            kind: DiagnosticKind::ResolutionFailed,
            module,
            span_start,
            span_end,
            message,
        }
    }

    /// A build-failure diagnostic for `module`.
    pub fn build_failed(module: Id, message: String) -> (d: Diagnostic)
        ensures
            d.severity is Error,
            d.kind is BuildFailed,
            d.module == Some(module),
            d.span_start == 0,
            d.span_end == 0,
            d.message == message,
    {
        Diagnostic {
            severity: Severity::Error,
            kind: DiagnosticKind::BuildFailed,
            module: Some(module),
            span_start: 0,
            span_end: 0,
            message,
        }
    }
}

} // verus!
