//! The plugin driver: the ordered plugin registry, the parser/generator
//! builder registry the plugins fill during `apply`, the shared diagnostics
//! collector, and one entry point per named hook, each with its invocation
//! discipline.

use vstd::prelude::*;
use crate::diagnostics::Diagnostic;
use crate::hooks::{
    first_err, first_fail, first_hit, run_bail, run_collect, run_collect_failing,
    run_sequential_all, BailAnswer, SeqAnswer,
};
use crate::module_graph::{ModuleId, ModuleType};
use crate::render::RenderManifestEntry;

verus! {

/// The registration of one parser/generator builder for a module type.
pub struct BuilderRegistration {
    pub module_type: ModuleType,
    pub builder_name: String,
}

/// The last registration for a module type wins, as later `apply` calls
/// overwrite earlier ones.
pub open spec fn spec_builder_for(regs: Seq<BuilderRegistration>, t: ModuleType)
    -> Option<int>
    decreases regs.len(),
{
    if regs.len() == 0 {
        None
    } else if regs.last().module_type == t {
        Some(regs.len() - 1)
    } else {
        spec_builder_for(regs.drop_last(), t)
    }
}

/// The plugin driver: plugin names in registration order, the builder
/// registry, and the diagnostics the plugin phases collected.
pub struct PluginDriver {
    pub plugins: Vec<String>,
    pub registered_parser_and_generator_builder: Vec<BuilderRegistration>,
    pub diagnostics: Vec<Diagnostic>,
}

impl PluginDriver {
    /// Build the driver from the plugins' names and the builder
    /// registrations each plugin made during `apply`, flattened in plugin
    /// registration order.
    pub fn new(plugins: Vec<String>, registrations: Vec<Vec<BuilderRegistration>>)
        -> (r: PluginDriver)
        ensures
            r.plugins@ == plugins@,
            r.diagnostics@.len() == 0,
            r.registered_parser_and_generator_builder@ == crate::hooks::concat_all(
                registrations@.map_values(|v: Vec<BuilderRegistration>| v@),
            ),
    {
        let flat = run_collect(registrations);
        PluginDriver {
            plugins,
            registered_parser_and_generator_builder: flat,
            diagnostics: Vec::new(),
        }
    }

    /// Take every collected diagnostic, leaving the collector empty.
    pub fn take_diagnostic(&mut self) -> (r: Vec<Diagnostic>)
        ensures
            r@ == old(self).diagnostics@,
            final(self).diagnostics@.len() == 0,
            final(self).plugins@ == old(self).plugins@,
            final(self).registered_parser_and_generator_builder@
                == old(self).registered_parser_and_generator_builder@,
    {
        let mut out: Vec<Diagnostic> = Vec::new();
        core::mem::swap(&mut out, &mut self.diagnostics);
        out
    }

    /// The parser/generator builder registered for a module type; the last
    /// registration wins.
    pub fn get_parser_and_generator_builder(&self, t: ModuleType) -> (r: Option<&String>)
        ensures
            match r {
                Some(b) => spec_builder_for(
                    self.registered_parser_and_generator_builder@, t,
                ) matches Some(i)
                    && b@ == self.registered_parser_and_generator_builder@[i].builder_name@,
                None => spec_builder_for(
                    self.registered_parser_and_generator_builder@, t,
                ) is None,
            },
    {
        let regs = &self.registered_parser_and_generator_builder;
        let n = regs.len();
        proof {
            assert(regs@.take(n as int) =~= regs@);
        }
        let mut i: usize = n;
        while i > 0
            invariant
                regs@ == self.registered_parser_and_generator_builder@,
                n == regs@.len(),
                i <= n,
                spec_builder_for(regs@, t) == spec_builder_for(regs@.take(i as int), t),
            decreases i,
        {
            proof {
                assert(regs@.take(i as int).last() == regs@[i - 1]);
                assert(regs@.take(i as int).drop_last() =~= regs@.take(i - 1 as int));
            }
            if regs[i - 1].module_type == t {
                proof {
                    assert(spec_builder_for(regs@.take(i as int), t) == Some(i - 1 as int));
                }
                return Some(&regs[i - 1].builder_name);
            }
            i = i - 1;
        }
        proof {
            assert(regs@.take(0) =~= Seq::<BuilderRegistration>::empty());
        }
        None
    }

    /// The render-manifest hook: every plugin contributes asset entries,
    /// concatenated in registration order; the first failure aborts the hook
    /// and is returned (collect discipline).
    pub fn render_manifest(
        &self,
        answers: Vec<Result<Vec<RenderManifestEntry>, Diagnostic>>,
    ) -> (r: (Vec<usize>, Result<Vec<RenderManifestEntry>, Diagnostic>))
        ensures
            r.0@.len() == if first_err(answers@) < answers@.len() {
                first_err(answers@) + 1
            } else {
                answers@.len() as int
            },
            forall|i: int| 0 <= i < r.0@.len() ==> (#[trigger] r.0@[i]) as int == i,
            first_err(answers@) < answers@.len() ==> match answers@[first_err(answers@)] {
                Result::Err(d) => r.1 == Err::<Vec<RenderManifestEntry>, Diagnostic>(d),
                Result::Ok(_) => false,
            },
            first_err(answers@) == answers@.len() ==> (r.1 matches Ok(v)
                && v@ == crate::hooks::concat_all(answers@.map_values(
                    |x: Result<Vec<RenderManifestEntry>, Diagnostic>| x->Ok_0@))),
    {
        run_collect_failing(answers)
    }

    /// Runs every plugin after a compilation has been created.
    /// Sequential-all discipline: plugins run in registration order; a fatal
    /// failure stops the hook.
    pub fn compilation(&mut self, answers: Vec<SeqAnswer>)
        -> (r: (Vec<usize>, Result<(), Diagnostic>))
        ensures
            r.0@.len() == if first_fail(answers@) < answers@.len() {
                first_fail(answers@) + 1
            } else {
                answers@.len() as int
            },
            forall|i: int| 0 <= i < r.0@.len() ==> (#[trigger] r.0@[i]) as int == i,
            first_fail(answers@) < answers@.len() ==> match answers@[first_fail(answers@)] {
                SeqAnswer::Fail(d) => r.1 == Err::<(), Diagnostic>(d),
                SeqAnswer::Done => false,
            },
            first_fail(answers@) == answers@.len() ==> r.1 == Ok::<(), Diagnostic>(()),
    {
        run_sequential_all(answers)
    }

    /// Runs every plugin while the compilation is initialized, before the compilation event.
    /// Sequential-all discipline: plugins run in registration order; a fatal
    /// failure stops the hook.
    pub fn this_compilation(&mut self, answers: Vec<SeqAnswer>)
        -> (r: (Vec<usize>, Result<(), Diagnostic>))
        ensures
            r.0@.len() == if first_fail(answers@) < answers@.len() {
                first_fail(answers@) + 1
            } else {
                answers@.len() as int
            },
            forall|i: int| 0 <= i < r.0@.len() ==> (#[trigger] r.0@[i]) as int == i,
            first_fail(answers@) < answers@.len() ==> match answers@[first_fail(answers@)] {
                SeqAnswer::Fail(d) => r.1 == Err::<(), Diagnostic>(d),
                SeqAnswer::Done => false,
            },
            first_fail(answers@) == answers@.len() ==> r.1 == Ok::<(), Diagnostic>(()),
    {
        run_sequential_all(answers)
    }

    /// Lets every plugin contribute to a chunk's content hash.
    /// Sequential-all discipline: plugins run in registration order; a fatal
    /// failure stops the hook.
    pub fn content_hash(&mut self, answers: Vec<SeqAnswer>)
        -> (r: (Vec<usize>, Result<(), Diagnostic>))
        ensures
            r.0@.len() == if first_fail(answers@) < answers@.len() {
                first_fail(answers@) + 1
            } else {
                answers@.len() as int
            },
            forall|i: int| 0 <= i < r.0@.len() ==> (#[trigger] r.0@[i]) as int == i,
            first_fail(answers@) < answers@.len() ==> match answers@[first_fail(answers@)] {
                SeqAnswer::Fail(d) => r.1 == Err::<(), Diagnostic>(d),
                SeqAnswer::Done => false,
            },
            first_fail(answers@) == answers@.len() ==> r.1 == Ok::<(), Diagnostic>(()),
    {
        run_sequential_all(answers)
    }

    /// Runs every plugin's asset-processing pass.
    /// Sequential-all discipline: plugins run in registration order; a fatal
    /// failure stops the hook.
    pub fn process_assets(&mut self, answers: Vec<SeqAnswer>)
        -> (r: (Vec<usize>, Result<(), Diagnostic>))
        ensures
            r.0@.len() == if first_fail(answers@) < answers@.len() {
                first_fail(answers@) + 1
            } else {
                answers@.len() as int
            },
            forall|i: int| 0 <= i < r.0@.len() ==> (#[trigger] r.0@[i]) as int == i,
            first_fail(answers@) < answers@.len() ==> match answers@[first_fail(answers@)] {
                SeqAnswer::Fail(d) => r.1 == Err::<(), Diagnostic>(d),
                SeqAnswer::Done => false,
            },
            first_fail(answers@) == answers@.len() ==> r.1 == Ok::<(), Diagnostic>(()),
    {
        run_sequential_all(answers)
    }

    /// Runs every plugin's make pass.
    /// Sequential-all discipline: plugins run in registration order; a fatal
    /// failure stops the hook.
    pub fn make(&mut self, answers: Vec<SeqAnswer>)
        -> (r: (Vec<usize>, Result<(), Diagnostic>))
        ensures
            r.0@.len() == if first_fail(answers@) < answers@.len() {
                first_fail(answers@) + 1
            } else {
                answers@.len() as int
            },
            forall|i: int| 0 <= i < r.0@.len() ==> (#[trigger] r.0@[i]) as int == i,
            first_fail(answers@) < answers@.len() ==> match answers@[first_fail(answers@)] {
                SeqAnswer::Fail(d) => r.1 == Err::<(), Diagnostic>(d),
                SeqAnswer::Done => false,
            },
            first_fail(answers@) == answers@.len() ==> r.1 == Ok::<(), Diagnostic>(()),
    {
        run_sequential_all(answers)
    }

    /// Runs every plugin when the build finishes.
    /// Sequential-all discipline: plugins run in registration order; a fatal
    /// failure stops the hook.
    pub fn done(&mut self, answers: Vec<SeqAnswer>)
        -> (r: (Vec<usize>, Result<(), Diagnostic>))
        ensures
            r.0@.len() == if first_fail(answers@) < answers@.len() {
                first_fail(answers@) + 1
            } else {
                answers@.len() as int
            },
            forall|i: int| 0 <= i < r.0@.len() ==> (#[trigger] r.0@[i]) as int == i,
            first_fail(answers@) < answers@.len() ==> match answers@[first_fail(answers@)] {
                SeqAnswer::Fail(d) => r.1 == Err::<(), Diagnostic>(d),
                SeqAnswer::Done => false,
            },
            first_fail(answers@) == answers@.len() ==> r.1 == Ok::<(), Diagnostic>(()),
    {
        run_sequential_all(answers)
    }

    /// Runs every plugin's chunk optimization pass.
    /// Sequential-all discipline: plugins run in registration order; a fatal
    /// failure stops the hook.
    pub fn optimize_chunks(&mut self, answers: Vec<SeqAnswer>)
        -> (r: (Vec<usize>, Result<(), Diagnostic>))
        ensures
            r.0@.len() == if first_fail(answers@) < answers@.len() {
                first_fail(answers@) + 1
            } else {
                answers@.len() as int
            },
            forall|i: int| 0 <= i < r.0@.len() ==> (#[trigger] r.0@[i]) as int == i,
            first_fail(answers@) < answers@.len() ==> match answers@[first_fail(answers@)] {
                SeqAnswer::Fail(d) => r.1 == Err::<(), Diagnostic>(d),
                SeqAnswer::Done => false,
            },
            first_fail(answers@) == answers@.len() ==> r.1 == Ok::<(), Diagnostic>(()),
    {
        run_sequential_all(answers)
    }

    /// Notifies every plugin that a module starts building.
    /// Sequential-all discipline: plugins run in registration order; a fatal
    /// failure stops the hook.
    pub fn build_module(&mut self, answers: Vec<SeqAnswer>)
        -> (r: (Vec<usize>, Result<(), Diagnostic>))
        ensures
            r.0@.len() == if first_fail(answers@) < answers@.len() {
                first_fail(answers@) + 1
            } else {
                answers@.len() as int
            },
            forall|i: int| 0 <= i < r.0@.len() ==> (#[trigger] r.0@[i]) as int == i,
            first_fail(answers@) < answers@.len() ==> match answers@[first_fail(answers@)] {
                SeqAnswer::Fail(d) => r.1 == Err::<(), Diagnostic>(d),
                SeqAnswer::Done => false,
            },
            first_fail(answers@) == answers@.len() ==> r.1 == Ok::<(), Diagnostic>(()),
    {
        run_sequential_all(answers)
    }

    /// Notifies every plugin that a module finished building.
    /// Sequential-all discipline: plugins run in registration order; a fatal
    /// failure stops the hook.
    pub fn succeed_module(&mut self, answers: Vec<SeqAnswer>)
        -> (r: (Vec<usize>, Result<(), Diagnostic>))
        ensures
            r.0@.len() == if first_fail(answers@) < answers@.len() {
                first_fail(answers@) + 1
            } else {
                answers@.len() as int
            },
            forall|i: int| 0 <= i < r.0@.len() ==> (#[trigger] r.0@[i]) as int == i,
            first_fail(answers@) < answers@.len() ==> match answers@[first_fail(answers@)] {
                SeqAnswer::Fail(d) => r.1 == Err::<(), Diagnostic>(d),
                SeqAnswer::Done => false,
            },
            first_fail(answers@) == answers@.len() ==> r.1 == Ok::<(), Diagnostic>(()),
    {
        run_sequential_all(answers)
    }

    /// Lets every plugin assign module ids.
    /// Sequential-all discipline: plugins run in registration order; a fatal
    /// failure stops the hook.
    pub fn module_ids(&mut self, answers: Vec<SeqAnswer>)
        -> (r: (Vec<usize>, Result<(), Diagnostic>))
        ensures
            r.0@.len() == if first_fail(answers@) < answers@.len() {
                first_fail(answers@) + 1
            } else {
                answers@.len() as int
            },
            forall|i: int| 0 <= i < r.0@.len() ==> (#[trigger] r.0@[i]) as int == i,
            first_fail(answers@) < answers@.len() ==> match answers@[first_fail(answers@)] {
                SeqAnswer::Fail(d) => r.1 == Err::<(), Diagnostic>(d),
                SeqAnswer::Done => false,
            },
            first_fail(answers@) == answers@.len() ==> r.1 == Ok::<(), Diagnostic>(()),
    {
        run_sequential_all(answers)
    }

    /// Collects per-chunk runtime requirements from every plugin.
    /// Sequential-all discipline: plugins run in registration order; a fatal
    /// failure stops the hook.
    pub fn additional_chunk_runtime_requirements(&mut self, answers: Vec<SeqAnswer>)
        -> (r: (Vec<usize>, Result<(), Diagnostic>))
        ensures
            r.0@.len() == if first_fail(answers@) < answers@.len() {
                first_fail(answers@) + 1
            } else {
                answers@.len() as int
            },
            forall|i: int| 0 <= i < r.0@.len() ==> (#[trigger] r.0@[i]) as int == i,
            first_fail(answers@) < answers@.len() ==> match answers@[first_fail(answers@)] {
                SeqAnswer::Fail(d) => r.1 == Err::<(), Diagnostic>(d),
                SeqAnswer::Done => false,
            },
            first_fail(answers@) == answers@.len() ==> r.1 == Ok::<(), Diagnostic>(()),
    {
        run_sequential_all(answers)
    }

    /// Collects per-tree runtime requirements from every plugin.
    /// Sequential-all discipline: plugins run in registration order; a fatal
    /// failure stops the hook.
    pub fn additional_tree_runtime_requirements(&mut self, answers: Vec<SeqAnswer>)
        -> (r: (Vec<usize>, Result<(), Diagnostic>))
        ensures
            r.0@.len() == if first_fail(answers@) < answers@.len() {
                first_fail(answers@) + 1
            } else {
                answers@.len() as int
            },
            forall|i: int| 0 <= i < r.0@.len() ==> (#[trigger] r.0@[i]) as int == i,
            first_fail(answers@) < answers@.len() ==> match answers@[first_fail(answers@)] {
                SeqAnswer::Fail(d) => r.1 == Err::<(), Diagnostic>(d),
                SeqAnswer::Done => false,
            },
            first_fail(answers@) == answers@.len() ==> r.1 == Ok::<(), Diagnostic>(()),
    {
        run_sequential_all(answers)
    }

    /// Resolves runtime requirements across the tree with every plugin.
    /// Sequential-all discipline: plugins run in registration order; a fatal
    /// failure stops the hook.
    pub fn runtime_requirements_in_tree(&mut self, answers: Vec<SeqAnswer>)
        -> (r: (Vec<usize>, Result<(), Diagnostic>))
        ensures
            r.0@.len() == if first_fail(answers@) < answers@.len() {
                first_fail(answers@) + 1
            } else {
                answers@.len() as int
            },
            forall|i: int| 0 <= i < r.0@.len() ==> (#[trigger] r.0@[i]) as int == i,
            first_fail(answers@) < answers@.len() ==> match answers@[first_fail(answers@)] {
                SeqAnswer::Fail(d) => r.1 == Err::<(), Diagnostic>(d),
                SeqAnswer::Done => false,
            },
            first_fail(answers@) == answers@.len() ==> r.1 == Ok::<(), Diagnostic>(()),
    {
        run_sequential_all(answers)
    }

    /// Asks the plugins to read a resource; the first one that returns content wins.
    /// Bail discipline: the first plugin to return a value or fail
    /// short-circuits the rest.
    pub fn read_resource(&self, answers: Vec<BailAnswer<String>>)
        -> (r: (Vec<usize>, Result<Option<String>, Diagnostic>))
        ensures
            r.0@.len() == if first_hit(answers@) < answers@.len() {
                first_hit(answers@) + 1
            } else {
                answers@.len() as int
            },
            forall|i: int| 0 <= i < r.0@.len() ==> (#[trigger] r.0@[i]) as int == i,
            first_hit(answers@) < answers@.len() ==> match answers@[first_hit(answers@)] {
                BailAnswer::Give(v) => r.1 == Ok::<Option<String>, Diagnostic>(Some(v)),
                BailAnswer::Fail(d) => r.1 == Err::<Option<String>, Diagnostic>(d),
                BailAnswer::Pass => false,
            },
            first_hit(answers@) == answers@.len()
                ==> r.1 == Ok::<Option<String>, Diagnostic>(None),
    {
        run_bail(answers)
    }

    /// Asks the plugins to factorize a dependency; the first one that returns a module wins.
    /// Bail discipline: the first plugin to return a value or fail
    /// short-circuits the rest.
    pub fn factorize(&self, answers: Vec<BailAnswer<ModuleId>>)
        -> (r: (Vec<usize>, Result<Option<ModuleId>, Diagnostic>))
        ensures
            r.0@.len() == if first_hit(answers@) < answers@.len() {
                first_hit(answers@) + 1
            } else {
                answers@.len() as int
            },
            forall|i: int| 0 <= i < r.0@.len() ==> (#[trigger] r.0@[i]) as int == i,
            first_hit(answers@) < answers@.len() ==> match answers@[first_hit(answers@)] {
                BailAnswer::Give(v) => r.1 == Ok::<Option<ModuleId>, Diagnostic>(Some(v)),
                BailAnswer::Fail(d) => r.1 == Err::<Option<ModuleId>, Diagnostic>(d),
                BailAnswer::Pass => false,
            },
            first_hit(answers@) == answers@.len()
                ==> r.1 == Ok::<Option<ModuleId>, Diagnostic>(None),
    {
        run_bail(answers)
    }

    /// Asks the plugins to create a module; the first one that returns one wins.
    /// Bail discipline: the first plugin to return a value or fail
    /// short-circuits the rest.
    pub fn module(&self, answers: Vec<BailAnswer<ModuleId>>)
        -> (r: (Vec<usize>, Result<Option<ModuleId>, Diagnostic>))
        ensures
            r.0@.len() == if first_hit(answers@) < answers@.len() {
                first_hit(answers@) + 1
            } else {
                answers@.len() as int
            },
            forall|i: int| 0 <= i < r.0@.len() ==> (#[trigger] r.0@[i]) as int == i,
            first_hit(answers@) < answers@.len() ==> match answers@[first_hit(answers@)] {
                BailAnswer::Give(v) => r.1 == Ok::<Option<ModuleId>, Diagnostic>(Some(v)),
                BailAnswer::Fail(d) => r.1 == Err::<Option<ModuleId>, Diagnostic>(d),
                BailAnswer::Pass => false,
            },
            first_hit(answers@) == answers@.len()
                ==> r.1 == Ok::<Option<ModuleId>, Diagnostic>(None),
    {
        run_bail(answers)
    }

    /// Asks the plugins to render a chunk; the first one that returns a source wins.
    /// Bail discipline: the first plugin to return a value or fail
    /// short-circuits the rest.
    pub fn render_chunk(&self, answers: Vec<BailAnswer<String>>)
        -> (r: (Vec<usize>, Result<Option<String>, Diagnostic>))
        ensures
            r.0@.len() == if first_hit(answers@) < answers@.len() {
                first_hit(answers@) + 1
            } else {
                answers@.len() as int
            },
            forall|i: int| 0 <= i < r.0@.len() ==> (#[trigger] r.0@[i]) as int == i,
            first_hit(answers@) < answers@.len() ==> match answers@[first_hit(answers@)] {
                BailAnswer::Give(v) => r.1 == Ok::<Option<String>, Diagnostic>(Some(v)),
                BailAnswer::Fail(d) => r.1 == Err::<Option<String>, Diagnostic>(d),
                BailAnswer::Pass => false,
            },
            first_hit(answers@) == answers@.len()
                ==> r.1 == Ok::<Option<String>, Diagnostic>(None),
    {
        run_bail(answers)
    }
}

} // verus!
