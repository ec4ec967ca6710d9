//! Core of a module bundler: a make pipeline that builds a module graph from
//! entry points, a plugin hook driver, a chunking pass, a split-chunks engine
//! and a renderer that turns chunks into output assets.

use vstd::prelude::*;

pub mod chunk_graph;
pub mod codegen;
pub mod diagnostics;
pub mod gen_cache;
pub mod hooks;
pub mod ids;
pub mod make;
pub mod module_graph;
pub mod options;
pub mod partial;
pub mod path_set;
pub mod plugin_driver;
pub mod render;
pub mod scanner;
pub mod split_chunks;
pub mod strutil;
pub mod wasm;

verus! {

} // verus!
