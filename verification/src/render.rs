//! Rendering chunks into JavaScript assets: the entry bootstrap, the module
//! table, the main (runtime-carrying) shape, the web and node child-chunk
//! shapes, and output-file naming from a filename template.

use vstd::prelude::*;
use crate::chunk_graph::{Chunk, ChunkKind};
use crate::diagnostics::{Diagnostic, DiagnosticKind, Severity};
use crate::gen_cache::GenCache;
use crate::ids::Interner;
use crate::module_graph::ModuleId;
use crate::strutil::{
    chars_to_string, contains_sub, push_chars, push_str_chars, replace_first,
    spec_replace_first, to_chars,
};

verus! {

/// The placeholder the runtime template leaves where the module table goes.
pub const RUNTIME_PLACEHOLDER_INSTALLED_MODULES: &'static str = "__INSTALLED_MODULES__";

/// The platform the output targets.
#[derive(Clone, Copy, PartialEq, Eq, Structural, Debug)]
pub enum TargetPlatform {
    Browser,
    Node,
}

/// One render-manifest entry: rendered source bytes and the output path.
pub struct RenderManifestEntry {
    pub source: String,
    pub output_path: String,
    pub chunk_ukey: usize,
}

/// The entry bootstrap line for one module id.
pub open spec fn spec_require_call(id: Seq<char>) -> Seq<char> {
    "__webpack_require__(\""@ + id + "\");"@
}

/// The entry bootstrap code: one require call per entry module id.
pub open spec fn spec_entry_code(ids: Seq<Seq<char>>) -> Seq<char>
    decreases ids.len(),
{
    if ids.len() == 0 {
        Seq::empty()
    } else {
        spec_entry_code(ids.drop_last()) + spec_require_call(ids.last())
    }
}

/// A module source wrapped in its `function(module, exports, require)`
/// envelope, keyed by its id.
pub open spec fn spec_wrap_module(id: Seq<char>, src: Seq<char>) -> Seq<char> {
    "\""@ + id + "\": function(module, exports, __webpack_require__) {\n"@ + src + "\n},\n"@
}

/// The module table: every (id, source) pair wrapped, inside braces.
pub open spec fn spec_module_items(pairs: Seq<(Seq<char>, Seq<char>)>) -> Seq<char>
    decreases pairs.len(),
{
    if pairs.len() == 0 {
        Seq::empty()
    } else {
        spec_module_items(pairs.drop_last())
            + spec_wrap_module(pairs.last().0, pairs.last().1)
    }
}

pub open spec fn spec_modules_code(pairs: Seq<(Seq<char>, Seq<char>)>) -> Seq<char> {
    "{\n"@ + spec_module_items(pairs) + "\n}"@
}

/// A source wrapped in an immediately-invoked scope.
pub open spec fn spec_iife(content: Seq<char>) -> Seq<char> {
    "(function() {\n"@ + content + "\n})();\n"@
}

/// The eval-mode wrapping of one module source: the eval carries the
/// per-module sourceURL comment.
pub open spec fn spec_eval_wrap(src: Seq<char>, id: Seq<char>) -> Seq<char> {
    "eval(\""@ + src + "\\n//# sourceURL=webpack-internal:///"@ + id + "\");"@
}

/// The JavaScript render plugin: renders chunks into the main, web-child,
/// node-child or hot-update shapes, and caches eval-wrapped sources by the
/// identity of the original source.
pub struct JsPlugin {
    pub eval_source_map_cache: GenCache,
}

impl JsPlugin {
    pub fn new() -> (r: JsPlugin)
        ensures
            forall|k: u64| !r.eval_source_map_cache@.dom().contains(k),
    {
        JsPlugin { eval_source_map_cache: GenCache::new() }
    }

    pub fn name(&self) -> (r: &'static str)
        ensures
            r@ == "javascript"@,
    {
        "javascript"
    }

    /// The entry bootstrap: one `__webpack_require__("<id>");` call per
    /// entry module, in order.
    pub fn generate_chunk_entry_code(&self, entry_ids: &Vec<String>) -> (r: Vec<char>)
        ensures
            r@ == spec_entry_code(entry_ids@.map_values(|s: String| s@)),
    {
        let n = entry_ids.len();
        let mut out: Vec<char> = Vec::new();
        let mut i: usize = 0;
        while i < n
            invariant
                n == entry_ids@.len(),
                i <= n,
                out@ == spec_entry_code(
                    entry_ids@.take(i as int).map_values(|s: String| s@),
                ),
            decreases n - i,
        {
            push_str_chars(&mut out, "__webpack_require__(\"");
            push_str_chars(&mut out, entry_ids[i].as_str());
            push_str_chars(&mut out, "\");");
            proof {
                let idsm = entry_ids@.take(i + 1 as int).map_values(|s: String| s@);
                assert(idsm.drop_last()
                    =~= entry_ids@.take(i as int).map_values(|s: String| s@));
                assert(idsm.last() == entry_ids@[i as int]@);
                assert(out@ =~= spec_entry_code(idsm));
            }
            i = i + 1;
        }
        proof {
            assert(entry_ids@.take(n as int) =~= entry_ids@);
        }
        out
    }

    /// Wrap rendered content in an immediately-invoked scope.
    pub fn render_iife(&self, content: &Vec<char>) -> (r: Vec<char>)
        ensures
            r@ == spec_iife(content@),
    {
        let mut out: Vec<char> = Vec::new();
        push_str_chars(&mut out, "(function() {\n");
        push_chars(&mut out, content);
        push_str_chars(&mut out, "\n})();\n");
        out
    }

    /// The module table of a chunk: each module's generated source wrapped
    /// in its envelope, concatenated in the given (stable-identifier) order,
    /// inside braces.
    pub fn render_chunk_modules(&self, pairs: &Vec<(String, String)>) -> (r: Vec<char>)
        ensures
            r@ == spec_modules_code(
                pairs@.map_values(|p: (String, String)| (p.0@, p.1@)),
            ),
    {
        let n = pairs.len();
        let mut out: Vec<char> = Vec::new();
        push_str_chars(&mut out, "{\n");
        let mut i: usize = 0;
        while i < n
            invariant
                n == pairs@.len(),
                i <= n,
                out@ == "{\n"@ + spec_module_items(
                    pairs@.take(i as int).map_values(|p: (String, String)| (p.0@, p.1@)),
                ),
            decreases n - i,
        {
            push_str_chars(&mut out, "\"");
            push_str_chars(&mut out, pairs[i].0.as_str());
            push_str_chars(&mut out, "\": function(module, exports, __webpack_require__) {\n");
            push_str_chars(&mut out, pairs[i].1.as_str());
            push_str_chars(&mut out, "\n},\n");
            proof {
                let pm = pairs@.take(i + 1 as int).map_values(
                    |p: (String, String)| (p.0@, p.1@),
                );
                assert(pm.drop_last() =~= pairs@.take(i as int).map_values(
                    |p: (String, String)| (p.0@, p.1@),
                ));
                assert(pm.last() == (pairs@[i as int].0@, pairs@[i as int].1@));
                assert(out@ =~= "{\n"@ + spec_module_items(pm));
            }
            i = i + 1;
        }
        push_str_chars(&mut out, "\n}");
        proof {
            assert(pairs@.take(n as int) =~= pairs@);
        }
        out
    }

    /// The main chunk shape: the runtime template with the module table
    /// spliced in at its placeholder, the entry bootstrap appended when the
    /// chunk has an entry module, all wrapped in an immediately-invoked
    /// scope. Fails when the runtime template lacks the placeholder.
    pub fn render_main(
        &self,
        runtime_source: &String,
        modules_code: &Vec<char>,
        entry_code: Option<&Vec<char>>,
    ) -> (r: Result<Vec<char>, Diagnostic>)
        ensures
            match r {
                Ok(out) => contains_sub(runtime_source@,
                        RUNTIME_PLACEHOLDER_INSTALLED_MODULES@)
                    && out@ == spec_iife(
                        spec_replace_first(
                            runtime_source@,
                            RUNTIME_PLACEHOLDER_INSTALLED_MODULES@,
                            modules_code@,
                        ) + match entry_code {
                            Some(e) => e@,
                            None => Seq::empty(),
                        },
                    ),
                Err(d) => !contains_sub(runtime_source@,
                        RUNTIME_PLACEHOLDER_INSTALLED_MODULES@)
                    && d.severity is Error && d.kind is InvariantViolation,
            },
    {
        let runtime_chars = to_chars(runtime_source.as_str());
        let placeholder = to_chars(RUNTIME_PLACEHOLDER_INSTALLED_MODULES);
        match crate::strutil::find_sub(&runtime_chars, &placeholder) {
            None => Err(Diagnostic {
                severity: Severity::Error,
                kind: DiagnosticKind::InvariantViolation,
                module: None,
                span_start: 0,
                span_end: 0,
                message: String::from_str(
                    "runtime placeholder installed modules not found",
                ),
            }),
            Some(_) => {
                let mut inner = replace_first(&runtime_chars, &placeholder, modules_code);
                match entry_code {
                    Some(e) => {
                        push_chars(&mut inner, e);
                    }
                    None => {}
                }
                Ok(self.render_iife(&inner))
            }
        }
    }

    /// The web child-chunk shape: a push onto the global chunk registry
    /// carrying the chunk id and the module table, with the entry bootstrap
    /// when the chunk has an entry module.
    pub fn render_web_chunk(
        &self,
        chunk_id: &String,
        modules_code: &Vec<char>,
        entry_code: Option<&Vec<char>>,
    ) -> (r: Vec<char>)
        ensures
            r@ == "(self['webpackChunkwebpack'] = self['webpackChunkwebpack'] || []).push([[\""@
                + chunk_id@ + "\"], "@ + modules_code@
                + (match entry_code {
                    Some(e) => ",function(__webpack_require__) {\n"@ + e@ + "\n}\n"@,
                    None => Seq::<char>::empty(),
                }) + "]);"@,
    {
        let mut out: Vec<char> = Vec::new();
        push_str_chars(
            &mut out,
            "(self['webpackChunkwebpack'] = self['webpackChunkwebpack'] || []).push([[\"",
        );
        push_str_chars(&mut out, chunk_id.as_str());
        push_str_chars(&mut out, "\"], ");
        push_chars(&mut out, modules_code);
        match entry_code {
            Some(e) => {
                push_str_chars(&mut out, ",function(__webpack_require__) {\n");
                push_chars(&mut out, e);
                push_str_chars(&mut out, "\n}\n");
            }
            None => {}
        }
        push_str_chars(&mut out, "]);");
        proof {
            assert(out@ =~= "(self['webpackChunkwebpack'] = self['webpackChunkwebpack'] || []).push([[\""@
                + chunk_id@ + "\"], "@ + modules_code@
                + (match entry_code {
                    Some(e) => ",function(__webpack_require__) {\n"@ + e@ + "\n}\n"@,
                    None => Seq::<char>::empty(),
                }) + "]);"@);
        }
        out
    }

    /// The node child-chunk shape: `exports.ids`/`exports.modules`
    /// assignments, plus a require of the runtime chunk and the entry
    /// bootstrap when the chunk has an entry module.
    pub fn render_node_chunk(
        &self,
        chunk_id: &String,
        modules_code: &Vec<char>,
        runtime_and_entry: Option<(&String, &Vec<char>)>,
    ) -> (r: Vec<char>)
        ensures
            r@ == "exports.ids = [\""@ + chunk_id@ + "\"];\nexports.modules = "@
                + modules_code@ + ";"@
                + (match runtime_and_entry {
                    Some(re) => "\nvar __webpack_require__ = require('./"@ + re.0@
                        + "')\n__webpack_external_install_chunk__(exports)\n"@ + re.1@,
                    None => Seq::<char>::empty(),
                }),
    {
        let mut out: Vec<char> = Vec::new();
        push_str_chars(&mut out, "exports.ids = [\"");
        push_str_chars(&mut out, chunk_id.as_str());
        push_str_chars(&mut out, "\"];\nexports.modules = ");
        push_chars(&mut out, modules_code);
        push_str_chars(&mut out, ";");
        match runtime_and_entry {
            Some((runtime_chunk_filename, entry_code)) => {
                push_str_chars(&mut out, "\nvar __webpack_require__ = require('./");
                push_str_chars(&mut out, runtime_chunk_filename.as_str());
                push_str_chars(&mut out, "')\n__webpack_external_install_chunk__(exports)\n");
                push_chars(&mut out, entry_code);
            }
            None => {}
        }
        proof {
            assert(out@ =~= "exports.ids = [\""@ + chunk_id@ + "\"];\nexports.modules = "@
                + modules_code@ + ";"@
                + (match runtime_and_entry {
                    Some(re) => "\nvar __webpack_require__ = require('./"@ + re.0@
                        + "')\n__webpack_external_install_chunk__(exports)\n"@ + re.1@,
                    None => Seq::<char>::empty(),
                }));
        }
        out
    }

    /// Child-chunk dispatch by target platform.
    pub fn render_chunk(
        &self,
        platform: TargetPlatform,
        chunk_id: &String,
        modules_code: &Vec<char>,
        entry_code: Option<&Vec<char>>,
    ) -> (r: Vec<char>)
        ensures
            platform is Node ==> r@ == "exports.ids = [\""@ + chunk_id@
                + "\"];\nexports.modules = "@ + modules_code@ + ";"@,
            platform is Browser ==> r@
                == "(self['webpackChunkwebpack'] = self['webpackChunkwebpack'] || []).push([[\""@
                    + chunk_id@ + "\"], "@ + modules_code@
                    + (match entry_code {
                        Some(e) => ",function(__webpack_require__) {\n"@ + e@ + "\n}\n"@,
                        None => Seq::<char>::empty(),
                    }) + "]);"@,
    {
        match platform {
            TargetPlatform::Node => self.render_node_chunk(chunk_id, modules_code, None),
            TargetPlatform::Browser => self.render_web_chunk(chunk_id, modules_code,
                entry_code),
        }
    }

    /// The hot-update chunk shape.
    pub fn render_hot_update(&self, chunk_id: &String, modules_code: &Vec<char>)
        -> (r: Vec<char>)
        ensures
            r@ == "self['hotUpdate']('"@ + chunk_id@ + "', "@ + modules_code@ + ");"@,
    {
        let mut out: Vec<char> = Vec::new();
        push_str_chars(&mut out, "self['hotUpdate']('");
        push_str_chars(&mut out, chunk_id.as_str());
        push_str_chars(&mut out, "', ");
        push_chars(&mut out, modules_code);
        push_str_chars(&mut out, ");");
        proof {
            assert(out@ =~= "self['hotUpdate']('"@ + chunk_id@ + "', "@ + modules_code@
                + ");"@);
        }
        out
    }

    /// Wrap one module source for eval devtool mode, caching the wrapped
    /// text by the identity of the original source: a hit returns the cached
    /// text, a miss computes, stores and returns it.
    pub fn wrap_eval_source_map(&mut self, source_identity: u64, source: &String,
        id: &String) -> (r: String)
        ensures
            old(self).eval_source_map_cache@.dom().contains(source_identity)
                ==> r@ == old(self).eval_source_map_cache@[source_identity]
                    && final(self).eval_source_map_cache@
                        == old(self).eval_source_map_cache@,
            !old(self).eval_source_map_cache@.dom().contains(source_identity)
                ==> r@ == spec_eval_wrap(source@, id@)
                    && final(self).eval_source_map_cache@
                        == old(self).eval_source_map_cache@.insert(
                            source_identity, spec_eval_wrap(source@, id@)),
    {
        match self.eval_source_map_cache.get(source_identity) {
            Some(cached) => cached,
            None => {
                let mut out: Vec<char> = Vec::new();
                push_str_chars(&mut out, "eval(\"");
                push_str_chars(&mut out, source.as_str());
                push_str_chars(&mut out, "\\n//# sourceURL=webpack-internal:///");
                push_str_chars(&mut out, id.as_str());
                push_str_chars(&mut out, "\");");
                proof {
                    assert(out@ =~= spec_eval_wrap(source@, id@));
                }
                let wrapped = chars_to_string(&out);
                self.eval_source_map_cache.put(source_identity, wrapped.clone());
                wrapped
            }
        }
    }

    /// Register the JavaScript parser/generator builder for every
    /// JavaScript-family module type.
    pub fn apply(&self) -> (r: Vec<crate::plugin_driver::BuilderRegistration>)
        ensures
            r@.len() == 4,
            r@[0].module_type is Js,
            r@[1].module_type is Ts,
            r@[2].module_type is Tsx,
            r@[3].module_type is Jsx,
            forall|i: int| 0 <= i < 4
                ==> (#[trigger] r@[i]).builder_name@ == "JavaScriptParserAndGenerator"@,
    {
        let mut r: Vec<crate::plugin_driver::BuilderRegistration> = Vec::new();
        r.push(crate::plugin_driver::BuilderRegistration {
            module_type: crate::module_graph::ModuleType::Js,
            builder_name: String::from_str("JavaScriptParserAndGenerator"),
        });
        r.push(crate::plugin_driver::BuilderRegistration {
            module_type: crate::module_graph::ModuleType::Ts,
            builder_name: String::from_str("JavaScriptParserAndGenerator"),
        });
        r.push(crate::plugin_driver::BuilderRegistration {
            module_type: crate::module_graph::ModuleType::Tsx,
            builder_name: String::from_str("JavaScriptParserAndGenerator"),
        });
        r.push(crate::plugin_driver::BuilderRegistration {
            module_type: crate::module_graph::ModuleType::Jsx,
            builder_name: String::from_str("JavaScriptParserAndGenerator"),
        });
        r
    }

    /// Render one chunk into its manifest entry: the hot-update shape for a
    /// hot-update chunk, the main shape when the chunk carries the runtime,
    /// the child shape otherwise — named by the filename template with the
    /// chunk id and hash substituted.
    pub fn render_manifest(
        &self,
        chunk: &Chunk,
        pairs: &Vec<(String, String)>,
        runtime_source: &String,
        platform: TargetPlatform,
        entry_ids: &Vec<String>,
        filename_template: &String,
        hash: &String,
    ) -> (r: Result<RenderManifestEntry, Diagnostic>)
        ensures
            match r {
                Ok(entry) => {
                    let table = spec_modules_code(
                        pairs@.map_values(|p: (String, String)| (p.0@, p.1@)),
                    );
                    &&& entry.chunk_ukey == chunk.ukey
                    &&& entry.output_path@ == spec_render_filename(
                            filename_template@,
                            match chunk.name {
                                Some(nm) => nm@,
                                None => Seq::empty(),
                            },
                            ".js"@,
                            chunk.id@,
                            hash@,
                        )
                    &&& (chunk.kind is HotUpdate
                            ==> entry.source@ == "self['hotUpdate']('"@ + chunk.id@
                                + "', "@ + table + ");"@)
                    &&& (!(chunk.kind is HotUpdate) && chunk.has_runtime
                            ==> entry.source@ == spec_iife(
                                spec_replace_first(
                                    runtime_source@,
                                    RUNTIME_PLACEHOLDER_INSTALLED_MODULES@,
                                    table,
                                ) + spec_entry_code(
                                    entry_ids@.map_values(|s: String| s@),
                                ),
                            ))
                    &&& (!(chunk.kind is HotUpdate) && !chunk.has_runtime
                            && platform is Node
                            ==> entry.source@ == "exports.ids = [\""@ + chunk.id@
                                + "\"];\nexports.modules = "@ + table + ";"@)
                    &&& (!(chunk.kind is HotUpdate) && !chunk.has_runtime
                            && platform is Browser
                            ==> entry.source@
                                == "(self['webpackChunkwebpack'] = self['webpackChunkwebpack'] || []).push([[\""@
                                    + chunk.id@ + "\"], "@ + table + "]);"@)
                },
                Err(d) => !(chunk.kind is HotUpdate) && chunk.has_runtime
                    && !contains_sub(runtime_source@,
                        RUNTIME_PLACEHOLDER_INSTALLED_MODULES@)
                    && d.kind is InvariantViolation,
            },
    {
        let table = self.render_chunk_modules(pairs);
        let is_hot_update = match chunk.kind {
            ChunkKind::HotUpdate => true,
            _ => false,
        };
        let source_chars = if is_hot_update {
            self.render_hot_update(&chunk.id, &table)
        } else if chunk.has_runtime {
            let entry_code = self.generate_chunk_entry_code(entry_ids);
            match self.render_main(runtime_source, &table, Some(&entry_code)) {
                Ok(out) => out,
                Err(d) => {
                    return Err(d);
                }
            }
        } else {
            self.render_chunk(platform, &chunk.id, &table, None)
        };
        let name = match &chunk.name {
            Some(nm) => nm.clone(),
            None => String::new(),
        };
        let output_path = render_filename(filename_template, &name, ".js", &chunk.id, hash);
        Ok(RenderManifestEntry {
            source: chars_to_string(&source_chars),
            output_path,
            chunk_ukey: chunk.ukey,
        })
    }

    /// The asset-processing pass: pick out the assets the external
    /// optimizer should minify — fresh JavaScript outputs only.
    pub fn process_assets(&self, assets: &Vec<(String, bool)>, minify_enabled: bool)
        -> (r: Vec<usize>)
        ensures
            forall|t: int| 0 <= t < r@.len() ==> {
                let i = (#[trigger] r@[t]) as int;
                &&& i < assets@.len()
                &&& minify_enabled
                &&& !assets@[i].1
                &&& (ends_with(assets@[i].0@, ".js"@) || ends_with(assets@[i].0@, ".cjs"@)
                        || ends_with(assets@[i].0@, ".mjs"@))
            },
            forall|i: int| 0 <= i < assets@.len()
                && minify_enabled && !(#[trigger] assets@[i]).1
                && (ends_with(assets@[i].0@, ".js"@) || ends_with(assets@[i].0@, ".cjs"@)
                    || ends_with(assets@[i].0@, ".mjs"@))
                ==> r@.contains(i as usize),
    {
        let n = assets.len();
        let mut r: Vec<usize> = Vec::new();
        let mut i: usize = 0;
        while i < n
            invariant
                n == assets@.len(),
                i <= n,
                forall|t: int| 0 <= t < r@.len() ==> {
                    let j = (#[trigger] r@[t]) as int;
                    &&& j < assets@.len()
                    &&& minify_enabled
                    &&& !assets@[j].1
                    &&& (ends_with(assets@[j].0@, ".js"@)
                            || ends_with(assets@[j].0@, ".cjs"@)
                            || ends_with(assets@[j].0@, ".mjs"@))
                },
                forall|j: int| 0 <= j < i
                    && minify_enabled && !(#[trigger] assets@[j]).1
                    && (ends_with(assets@[j].0@, ".js"@)
                        || ends_with(assets@[j].0@, ".cjs"@)
                        || ends_with(assets@[j].0@, ".mjs"@))
                    ==> r@.contains(j as usize),
            decreases n - i,
        {
            let ghost rsnap = r@;
            if should_minify(&assets[i].0, assets[i].1, minify_enabled) {
                r.push(i);
            }
            proof {
                assert forall|t: int| 0 <= t < r@.len() implies {
                    let j = (#[trigger] r@[t]) as int;
                    &&& j < assets@.len()
                    &&& minify_enabled
                    &&& !assets@[j].1
                    &&& (ends_with(assets@[j].0@, ".js"@)
                            || ends_with(assets@[j].0@, ".cjs"@)
                            || ends_with(assets@[j].0@, ".mjs"@))
                } by {
                    if t < rsnap.len() {
                        assert(r@[t] == rsnap[t]);
                    } else {
                        assert(r@[t] == i as usize);
                    }
                }
                assert forall|j: int| 0 <= j < i + 1
                    && minify_enabled && !(#[trigger] assets@[j]).1
                    && (ends_with(assets@[j].0@, ".js"@)
                        || ends_with(assets@[j].0@, ".cjs"@)
                        || ends_with(assets@[j].0@, ".mjs"@))
                    implies r@.contains(j as usize) by {
                    if j < i {
                        let t = choose|t: int| 0 <= t < rsnap.len()
                            && (#[trigger] rsnap[t]) == j as usize;
                        assert(r@[t] == j as usize);
                    } else {
                        assert(r@[r@.len() - 1] == j as usize);
                    }
                }
            }
            i = i + 1;
        }
        r
    }
}

/// Output-file naming: one-pass substitution of the template keys
/// `[name]`, `[ext]`, `[id]`, `[contenthash]`, `[chunkhash]` and `[hash]`
/// (first occurrence each).
pub open spec fn spec_render_filename(
    template: Seq<char>,
    name: Seq<char>,
    ext: Seq<char>,
    id: Seq<char>,
    hash: Seq<char>,
) -> Seq<char> {
    let s1 = spec_replace_first(template, "[name]"@, name);
    let s2 = spec_replace_first(s1, "[ext]"@, ext);
    let s3 = spec_replace_first(s2, "[id]"@, id);
    let s4 = spec_replace_first(s3, "[contenthash]"@, hash);
    let s5 = spec_replace_first(s4, "[chunkhash]"@, hash);
    spec_replace_first(s5, "[hash]"@, hash)
}

/// Render a filename template with the substitution set
/// {filename, extension, id, contenthash, chunkhash, hash}.
pub fn render_filename(
    template: &String,
    name: &String,
    ext: &str,
    id: &String,
    hash: &String,
) -> (r: String)
    ensures
        r@ == spec_render_filename(template@, name@, ext@, id@, hash@),
{
    let t = to_chars(template.as_str());
    let namev = to_chars(name.as_str());
    let extv = to_chars(ext);
    let idv = to_chars(id.as_str());
    let hashv = to_chars(hash.as_str());
    let p1 = to_chars("[name]");
    let p2 = to_chars("[ext]");
    let p3 = to_chars("[id]");
    let p4 = to_chars("[contenthash]");
    let p5 = to_chars("[chunkhash]");
    let p6 = to_chars("[hash]");
    let s1 = replace_first(&t, &p1, &namev);
    let s2 = replace_first(&s1, &p2, &extv);
    let s3 = replace_first(&s2, &p3, &idv);
    let s4 = replace_first(&s3, &p4, &hashv);
    let s5 = replace_first(&s4, &p5, &hashv);
    let s6 = replace_first(&s5, &p6, &hashv);
    chars_to_string(&s6)
}

/// Whether the asset-processing pass should minify an asset: only
/// JavaScript outputs, and only ones not already minimized. The minifier
/// itself is an external optimizer.
pub fn should_minify(filename: &String, already_minimized: bool, minify_enabled: bool)
    -> (r: bool)
    ensures
        r == (minify_enabled && !already_minimized
            && (ends_with(filename@, ".js"@) || ends_with(filename@, ".cjs"@)
                || ends_with(filename@, ".mjs"@))),
{
    if !minify_enabled || already_minimized {
        return false;
    }
    let f = to_chars(filename.as_str());
    ends_with_exec(&f, ".js") || ends_with_exec(&f, ".cjs") || ends_with_exec(&f, ".mjs")
}

/// Whether `s` ends with `suffix`.
pub open spec fn ends_with(s: Seq<char>, suffix: Seq<char>) -> bool {
    s.len() >= suffix.len() && s.subrange(
        s.len() - suffix.len(),
        s.len() as int,
    ) == suffix
}

fn ends_with_exec(s: &Vec<char>, suffix: &str) -> (r: bool)
    ensures
        r == ends_with(s@, suffix@),
{
    let suf = to_chars(suffix);
    let n = s.len();
    let m = suf.len();
    if m > n {
        return false;
    }
    let off = n - m;
    let mut k: usize = 0;
    while k < m
        invariant
            n == s@.len(),
            m == suf@.len(),
            suf@ == suffix@,
            m <= n,
            off == n - m,
            k <= m,
            forall|j: int| 0 <= j < k ==> s@[off + j] == suf@[j],
        decreases m - k,
    {
        if s[off + k] != suf[k] {
            proof {
                assert(s@.subrange(n - m, n as int)[k as int] != suf@[k as int]);
            }
            return false;
        }
        k = k + 1;
    }
    proof {
        assert(s@.subrange(n - m, n as int) =~= suf@);
    }
    true
}

/// The chunk members that contribute to the JavaScript module table: the
/// ones with a generated JavaScript source, in member (stable-identifier)
/// order.
pub open spec fn js_pair_indices(
    gen: Seq<Option<String>>,
    mods: Seq<ModuleId>,
    n: int,
) -> Seq<ModuleId>
    decreases n,
{
    if n <= 0 {
        Seq::empty()
    } else {
        let p = js_pair_indices(gen, mods, n - 1);
        let m = mods[n - 1];
        if (m as int) < gen.len() && gen[m as int] is Some {
            p.push(m)
        } else {
            p
        }
    }
}

impl JsPlugin {
    /// Select the module table's (id, source) pairs for a chunk: its members
    /// with a generated JavaScript source, in stable-identifier order. Under
    /// the eval devtool each source is the per-module eval + sourceURL
    /// wrapping, served from the cache keyed by the module's source
    /// identity.
    pub fn render_chunk_module_pairs(
        &mut self,
        names: &Interner,
        chunk: &Chunk,
        gen: &Vec<Option<String>>,
        eval_devtool: bool,
    ) -> (r: Vec<(String, String)>)
        requires
            forall|j: int| 0 <= j < chunk.modules@.len()
                ==> ((#[trigger] chunk.modules@[j]) as int) < names@.len(),
            // the cache holds only current wrappings
            eval_devtool ==> forall|m: u64|
                old(self).eval_source_map_cache@.dom().contains(m)
                ==> (m as int) < gen@.len() && (#[trigger] gen@[m as int]) is Some
                    && (m as int) < names@.len()
                    && old(self).eval_source_map_cache@[m]
                        == spec_eval_wrap(gen@[m as int]->Some_0@, names@[m as int]),
        ensures
            ({
                let idxs = js_pair_indices(gen@, chunk.modules@,
                    chunk.modules@.len() as int);
                &&& r@.len() == idxs.len()
                &&& forall|k: int| 0 <= k < idxs.len() ==> {
                        let m = idxs[k];
                        &&& (#[trigger] r@[k]).0@ == names@[m as int]
                        &&& r@[k].1@ == if eval_devtool {
                                spec_eval_wrap(gen@[m as int]->Some_0@, names@[m as int])
                            } else {
                                gen@[m as int]->Some_0@
                            }
                    }
            }),
    {
        let n = chunk.modules.len();
        let mut r: Vec<(String, String)> = Vec::new();
        let mut j: usize = 0;
        while j < n
            invariant
                n == chunk.modules@.len(),
                j <= n,
                forall|j2: int| 0 <= j2 < chunk.modules@.len()
                    ==> ((#[trigger] chunk.modules@[j2]) as int) < names@.len(),
                eval_devtool ==> forall|m: u64|
                    self.eval_source_map_cache@.dom().contains(m)
                    ==> (m as int) < gen@.len() && (#[trigger] gen@[m as int]) is Some
                        && (m as int) < names@.len()
                        && self.eval_source_map_cache@[m]
                            == spec_eval_wrap(gen@[m as int]->Some_0@, names@[m as int]),
                ({
                    let idxs = js_pair_indices(gen@, chunk.modules@, j as int);
                    &&& r@.len() == idxs.len()
                    &&& forall|k: int| 0 <= k < idxs.len() ==> {
                            let m = idxs[k];
                            &&& (#[trigger] r@[k]).0@ == names@[m as int]
                            &&& r@[k].1@ == if eval_devtool {
                                    spec_eval_wrap(gen@[m as int]->Some_0@,
                                        names@[m as int])
                                } else {
                                    gen@[m as int]->Some_0@
                                }
                        }
                }),
            decreases n - j,
        {
            let m = chunk.modules[j];
            if m < gen.len() {
                match &gen[m] {
                    Some(source) => {
                        let id = names.resolve(m).clone();
                        let text = if eval_devtool {
                            let source_owned = source.clone();
                            self.wrap_eval_source_map(m as u64, &source_owned, &id)
                        } else {
                            source.clone()
                        };
                        r.push((id, text));
                    }
                    None => {}
                }
            }
            proof {
                let pre = js_pair_indices(gen@, chunk.modules@, j as int);
                let post = js_pair_indices(gen@, chunk.modules@, j + 1 as int);
                assert(post == if (chunk.modules@[j as int] as int) < gen@.len()
                        && gen@[chunk.modules@[j as int] as int] is Some {
                    pre.push(chunk.modules@[j as int])
                } else {
                    pre
                });
            }
            j = j + 1;
        }
        r
    }
}

} // verus!
