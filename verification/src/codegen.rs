//! Per-module-type code generation: the JavaScript parser/generator. The
//! language frontend itself is an external collaborator; what it reports
//! arrives as a [`Program`], and this module makes the decisions around it:
//! which module types are accepted, what a parse failure degrades to, and
//! which source types can be generated.

use vstd::prelude::*;
use crate::diagnostics::{Diagnostic, DiagnosticKind, Severity};
use crate::module_graph::{Dep, Mod, ModuleId, ModuleType};
use crate::scanner::{scan_dependencies, spec_async_deps, spec_sync_deps, Program};

verus! {

/// The output types a module can produce.
#[derive(Clone, Copy, PartialEq, Eq, Structural, Debug)]
pub enum SourceType {
    JavaScript,
    Css,
    Wasm,
    Asset,
}

/// What parsing one module yields: its dependencies and async blocks, plus
/// the diagnostics the parse raised. A failed parse degrades to an empty
/// program whose diagnostics carry the errors.
pub struct ParseResult {
    pub dependencies: Vec<Dep>,
    pub blocks: Vec<Dep>,
    pub diagnostics: Vec<Diagnostic>,
}

/// The JavaScript-family parser and generator.
pub struct JavaScriptParserAndGenerator {
}

impl JavaScriptParserAndGenerator {
    pub fn new() -> (r: JavaScriptParserAndGenerator)
    {
        JavaScriptParserAndGenerator {  }
    }

    /// The one output type this generator produces.
    pub fn source_types(&self) -> (r: Vec<SourceType>)
        ensures
            r@.len() == 1,
            r@[0] is JavaScript,
    {
        let mut r: Vec<SourceType> = Vec::new();
        r.push(SourceType::JavaScript);
        r
    }

    /// The size chunking uses for a module: the length of its original
    /// source, in bytes.
    pub fn size(&self, module: &Mod) -> (r: usize)
        ensures
            r == (match module.original_source {
                Some(src) => src@.len(),
                None => 0,
            }),
    {
        match &module.original_source {
            Some(src) => src.as_str().unicode_len(),
            None => 0,
        }
    }

    /// Parse one module: a non-JavaScript module type is rejected; a parse
    /// failure degrades to an empty program carrying the errors; a clean
    /// parse yields the scanned dependencies and blocks.
    pub fn parse(
        &self,
        module_type: ModuleType,
        program: &Program,
        module_identifier: ModuleId,
    ) -> (r: Result<ParseResult, Diagnostic>)
        ensures
            match r {
                Ok(res) => module_type.spec_is_js_like() && {
                    if program.errors@.len() == 0 {
                        &&& res.dependencies@
                            == spec_sync_deps(program.refs@, module_identifier)
                        &&& res.blocks@
                            == spec_async_deps(program.refs@, module_identifier)
                        &&& res.diagnostics@.len() == 0
                    } else {
                        &&& res.dependencies@.len() == 0
                        &&& res.blocks@.len() == 0
                        &&& res.diagnostics@ == program.errors@
                    }
                },
                Err(d) => !module_type.spec_is_js_like()
                    && d.severity is Error && d.kind is InvariantViolation,
            },
    {
        if !module_type.is_js_like() {
            return Err(Diagnostic {
                severity: Severity::Error,
                kind: DiagnosticKind::InvariantViolation,
                module: Some(module_identifier),
                span_start: 0,
                span_end: 0,
                message: String::from_str("module type not supported by the JavaScript parser"),
            });
        }
        match scan_dependencies(program, module_type, module_identifier) {
            Ok(scan) => Ok(ParseResult {
                dependencies: scan.dependencies,
                blocks: scan.blocks,
                diagnostics: Vec::new(),
            }),
            Err(errors) => Ok(ParseResult {
                dependencies: Vec::new(),
                blocks: Vec::new(),
                diagnostics: errors,
            }),
        }
    }

    /// Generate one requested source type: only JavaScript is supported;
    /// the rendered text is the generated source the frontend produced.
    pub fn generate(
        &self,
        requested_source_type: SourceType,
        generated: &String,
    ) -> (r: Result<String, Diagnostic>)
        ensures
            match r {
                Ok(out) => requested_source_type is JavaScript && out@ == generated@,
                Err(d) => !(requested_source_type is JavaScript)
                    && d.severity is Error && d.kind is InvariantViolation,
            },
    {
        match requested_source_type {
            SourceType::JavaScript => Ok(generated.clone()),
            _ => Err(Diagnostic {
                severity: Severity::Error,
                kind: DiagnosticKind::InvariantViolation,
                module: None,
                span_start: 0,
                span_end: 0,
                message: String::from_str("unsupported source type for the JavaScript plugin"),
            }),
        }
    }
}

} // verus!
