//! Async WebAssembly support: registers the wasm parser/generator builder
//! and renders one asset entry per wasm module of a chunk, using the
//! filenames recorded at generation time.

use vstd::prelude::*;
use crate::chunk_graph::Chunk;
use crate::gen_cache::GenCache;
use crate::module_graph::{ModuleId, ModuleType};
use crate::plugin_driver::BuilderRegistration;
use crate::render::RenderManifestEntry;

verus! {

/// Marker plugin that turns on wasm loading support.
pub struct EnableWasmLoadingPlugin;

/// The async-wasm plugin: remembers, per module, the output filename its
/// generator chose (shared concurrent map), and emits one manifest entry per
/// wasm module at render time.
pub struct AsyncWasmPlugin {
    pub module_id_to_filename_without_ext: GenCache,
}

/// The chunk members that produce a wasm asset: wasm modules with a
/// generation result, in member order.
pub open spec fn wasm_indices(
    types: Seq<ModuleType>,
    gen: Seq<Option<String>>,
    mods: Seq<ModuleId>,
    n: int,
) -> Seq<ModuleId>
    decreases n,
{
    if n <= 0 {
        Seq::empty()
    } else {
        let p = wasm_indices(types, gen, mods, n - 1);
        let m = mods[n - 1];
        if (m as int) < types.len() && types[m as int] is WasmAsync
            && (m as int) < gen.len() && gen[m as int] is Some {
            p.push(m)
        } else {
            p
        }
    }
}

impl AsyncWasmPlugin {
    pub fn new() -> (r: AsyncWasmPlugin)
        ensures
            forall|k: u64| !r.module_id_to_filename_without_ext@.dom().contains(k),
    {
        AsyncWasmPlugin { module_id_to_filename_without_ext: GenCache::new() }
    }

    pub fn name(&self) -> (r: &'static str)
        ensures
            r@ == "AsyncWebAssemblyModulesPlugin"@,
    {
        "AsyncWebAssemblyModulesPlugin"
    }

    /// Register the wasm parser/generator builder for async wasm modules.
    pub fn apply(&self) -> (r: BuilderRegistration)
        ensures
            r.module_type is WasmAsync,
            r.builder_name@ == "AsyncWasmParserAndGenerator"@,
    {
        BuilderRegistration {
            module_type: ModuleType::WasmAsync,
            builder_name: String::from_str("AsyncWasmParserAndGenerator"),
        }
    }

    /// Render one manifest entry per wasm module of the chunk: the module's
    /// generated wasm source under the filename its generator recorded.
    pub fn render_manifest(
        &self,
        chunk: &Chunk,
        module_types: &Vec<ModuleType>,
        gen_wasm: &Vec<Option<String>>,
    ) -> (r: Vec<RenderManifestEntry>)
        requires
            forall|j: int| 0 <= j < chunk.modules@.len() ==> {
                let m = #[trigger] chunk.modules@[j];
                ((m as int) < module_types@.len() && module_types@[m as int] is WasmAsync
                    && (m as int) < gen_wasm@.len() && gen_wasm@[m as int] is Some)
                    ==> self.module_id_to_filename_without_ext@.dom().contains(m as u64)
            },
        ensures
            ({
                let idxs = wasm_indices(module_types@, gen_wasm@, chunk.modules@,
                    chunk.modules@.len() as int);
                &&& r@.len() == idxs.len()
                &&& forall|k: int| 0 <= k < idxs.len() ==> {
                        let m = idxs[k];
                        &&& (#[trigger] r@[k]).source@ == gen_wasm@[m as int]->Some_0@
                        &&& r@[k].output_path@
                            == self.module_id_to_filename_without_ext@[m as u64]
                        &&& r@[k].chunk_ukey == chunk.ukey
                    }
            }),
    {
        let n = chunk.modules.len();
        let mut r: Vec<RenderManifestEntry> = Vec::new();
        let mut j: usize = 0;
        while j < n
            invariant
                n == chunk.modules@.len(),
                j <= n,
                forall|j2: int| 0 <= j2 < chunk.modules@.len() ==> {
                    let m = #[trigger] chunk.modules@[j2];
                    ((m as int) < module_types@.len()
                        && module_types@[m as int] is WasmAsync
                        && (m as int) < gen_wasm@.len() && gen_wasm@[m as int] is Some)
                        ==> self.module_id_to_filename_without_ext@.dom().contains(m as u64)
                },
                ({
                    let idxs = wasm_indices(module_types@, gen_wasm@, chunk.modules@,
                        j as int);
                    &&& r@.len() == idxs.len()
                    &&& forall|k: int| 0 <= k < idxs.len() ==> {
                            let m = idxs[k];
                            &&& (#[trigger] r@[k]).source@ == gen_wasm@[m as int]->Some_0@
                            &&& r@[k].output_path@
                                == self.module_id_to_filename_without_ext@[m as u64]
                            &&& r@[k].chunk_ukey == chunk.ukey
                        }
                }),
            decreases n - j,
        {
            let m = chunk.modules[j];
            let ghost idxs_pre = wasm_indices(module_types@, gen_wasm@, chunk.modules@,
                j as int);
            if m < module_types.len() {
                let is_wasm = match module_types[m] {
                    ModuleType::WasmAsync => true,
                    _ => false,
                };
                if is_wasm && m < gen_wasm.len() {
                    match &gen_wasm[m] {
                        Some(source) => {
                            match self.module_id_to_filename_without_ext.get(m as u64) {
                                Some(output_path) => {
                                    r.push(RenderManifestEntry {
                                        source: source.clone(),
                                        output_path,
                                        chunk_ukey: chunk.ukey,
                                    });
                                }
                                None => {
                                    proof {
                                        assert(false);
                                    }
                                }
                            }
                        }
                        None => {}
                    }
                }
            }
            proof {
                let idxs_post = wasm_indices(module_types@, gen_wasm@, chunk.modules@,
                    j + 1 as int);
                assert(idxs_post == if (chunk.modules@[j as int] as int)
                        < module_types@.len()
                        && module_types@[chunk.modules@[j as int] as int] is WasmAsync
                        && (chunk.modules@[j as int] as int) < gen_wasm@.len()
                        && gen_wasm@[chunk.modules@[j as int] as int] is Some {
                    idxs_pre.push(chunk.modules@[j as int])
                } else {
                    idxs_pre
                });
            }
            j = j + 1;
        }
        r
    }
}

} // verus!
