//! The module graph: built modules keyed by stable identifier, dependency
//! records, and the resolution state of every dependency.
//!
//! Nodes live in flat arenas indexed by identifier handles; an edge is a
//! dependency-id to module-id lookup, never an embedded module.

use vstd::prelude::*;
use crate::ids::Id;

verus! {

/// A module identifier: the interner handle of the resolved resource path.
pub type ModuleId = Id;

/// A dependency identifier: an index into the graph's dependency arena.
pub type DepId = usize;

/// The kind of request a dependency carries.
#[derive(Clone, Copy, PartialEq, Eq, Structural, Debug)]
pub enum DepKind {
    /// A configured entry point; has no parent module.
    Entry,
    /// A static ESM import: synchronous, stays in the issuing chunk.
    Esm,
    /// A CommonJS require: synchronous.
    Cjs,
    /// A dynamic `import()`: loads its target in an async child chunk.
    DynImport,
    /// A directory context request: synchronous.
    Context,
}

impl DepKind {
    /// Whether the target is loaded asynchronously in a child chunk.
    pub open spec fn is_async(self) -> bool {
        self is DynImport
    }

    pub open spec fn is_entry(self) -> bool {
        self is Entry
    }
}

/// A typed request issued by a module (or an entry).
#[derive(Clone, Debug)]
pub struct Dep {
    pub kind: DepKind,
    /// The request string as written in the source or the entry map.
    pub request: String,
    /// The issuing module; `None` for entries.
    pub parent: Option<ModuleId>,
    /// Byte span of the request in the issuer's source.
    pub span_start: u32,
    pub span_end: u32,
}

/// What the make pipeline knows about a dependency's target.
#[derive(Clone, Copy, PartialEq, Eq, Structural, Debug)]
pub enum DepResolution {
    /// Not factorized yet.
    Pending,
    /// Resolved to a resident module.
    Resolved(ModuleId),
    /// Factorization failed; recorded in the failed-dependencies set.
    Failed,
}

/// Build state of a module's source.
#[derive(Clone, Copy, PartialEq, Eq, Structural, Debug)]
pub enum SourceState {
    Unbuilt,
    Building,
    BuiltSucceed,
    BuiltFailed,
}

/// The module type, which picks the parser/generator used to build it.
#[derive(Clone, Copy, PartialEq, Eq, Structural, Debug)]
pub enum ModuleType {
    Js,
    JsEsm,
    Jsx,
    Ts,
    Tsx,
    Css,
    WasmAsync,
    Asset,
}

impl ModuleType {
    pub open spec fn spec_is_js_like(self) -> bool {
        self is Js || self is JsEsm || self is Jsx || self is Ts || self is Tsx
    }

    /// Whether a JavaScript-family parser accepts this module type.
    #[verifier::when_used_as_spec(spec_is_js_like)]
    pub fn is_js_like(self) -> (r: bool)
        ensures
            r == self.spec_is_js_like(),
    {
        match self {
            ModuleType::Js | ModuleType::JsEsm | ModuleType::Jsx | ModuleType::Ts
                | ModuleType::Tsx => true,
            _ => false,
        }
    }

    pub open spec fn spec_is_js_auto(self) -> bool {
        self is Js
    }

    pub open spec fn spec_is_js_esm(self) -> bool {
        self is JsEsm
    }
}

/// A built code unit.
#[derive(Clone, Debug)]
pub struct Mod {
    /// Identifier; equals this module's index in the graph arena.
    pub id: ModuleId,
    pub module_type: ModuleType,
    pub state: SourceState,
    /// The original source once the build succeeded.
    pub original_source: Option<String>,
    /// Outgoing dependencies, in discovery order.
    pub dependencies: Vec<DepId>,
    /// Path handles of the files this build read.
    pub file_dependencies: Vec<Id>,
    /// Path handles of the directories this build resolved against.
    pub context_dependencies: Vec<Id>,
    /// Path handles of files the build looked for and did not find.
    pub missing_dependencies: Vec<Id>,
    /// Path handles of the build tooling this build depends on.
    pub build_dependencies: Vec<Id>,
}

/// Directed graph of modules keyed by `ModuleId`, with edges labeled by
/// dependencies.
#[derive(Clone, Debug)]
pub struct ModuleGraph {
    /// Arena of modules; slot `m` holds the module with identifier `m`.
    pub modules: Vec<Option<Mod>>,
    /// Arena of dependency records.
    pub deps: Vec<Dep>,
    /// Resolution state, parallel to `deps`.
    pub resolutions: Vec<DepResolution>,
}

impl ModuleGraph {
    /// Whether a module with identifier `m` is resident.
    pub open spec fn resident(&self, m: int) -> bool {
        0 <= m < self.modules@.len() && self.modules@[m] is Some
    }

    /// The resident module with identifier `m`.
    pub open spec fn module_at(&self, m: int) -> Mod {
        self.modules@[m]->Some_0
    }

    /// Structural invariant: the resolution table is parallel to the
    /// dependency arena, every resident module sits in its own slot, and
    /// every edge endpoint is in bounds.
    pub open spec fn wf(&self) -> bool {
        &&& self.resolutions@.len() == self.deps@.len()
        &&& forall|m: int| self.resident(m) ==> (#[trigger] self.module_at(m)).id == m
        &&& forall|m: int, k: int|
            self.resident(m) && 0 <= k < self.module_at(m).dependencies@.len()
                ==> (#[trigger] self.module_at(m).dependencies@[k]) < self.deps@.len()
        &&& forall|d: int| 0 <= d < self.resolutions@.len()
                && (#[trigger] self.resolutions@[d]) is Resolved
                ==> self.resolutions@[d]->Resolved_0 < self.modules@.len()
    }

    /// Well-formedness carries over to a graph with the same modules, at
    /// least as many dependencies, and a resolution table that still points
    /// into the module arena.
    proof fn lemma_wf_same_modules(g1: ModuleGraph, g2: ModuleGraph)
        requires
            g1.wf(),
            g2.modules@ == g1.modules@,
            g2.deps@.len() >= g1.deps@.len(),
            g2.resolutions@.len() == g2.deps@.len(),
            forall|m: int| g2.resident(m) ==> g1.resident(m)
                && #[trigger] g2.module_at(m) == g1.module_at(m),
            forall|d: int| 0 <= d < g2.resolutions@.len()
                && (#[trigger] g2.resolutions@[d]) is Resolved
                ==> g2.resolutions@[d]->Resolved_0 < g2.modules@.len(),
        ensures
            g2.wf(),
    {
        assert forall|m: int| g2.resident(m) implies (#[trigger] g2.module_at(m)).id == m by {
            assert(g1.resident(m));
        }
        assert forall|m: int, k: int|
            g2.resident(m) && 0 <= k < g2.module_at(m).dependencies@.len()
            implies (#[trigger] g2.module_at(m).dependencies@[k]) < g2.deps@.len() by {
            assert(g1.resident(m));
            assert(g1.module_at(m).dependencies@[k] < g1.deps@.len());
        }
    }

    pub fn new() -> (g: ModuleGraph)
        ensures
            g.wf(),
            g.modules@.len() == 0,
            g.deps@.len() == 0,
    {
        ModuleGraph { modules: Vec::new(), deps: Vec::new(), resolutions: Vec::new() }
    }

    /// Look a module up by its identifier.
    pub fn module_by_identifier(&self, m: ModuleId) -> (r: Option<&Mod>)
        ensures
            match r {
                Some(md) => self.resident(m as int) && *md == self.module_at(m as int),
                None => !self.resident(m as int),
            },
    {
        if m < self.modules.len() {
            match &self.modules[m] {
                Some(md) => Some(md),
                None => None,
            }
        } else {
            None
        }
    }

    /// Whether a module with identifier `m` is resident.
    pub fn contains_module(&self, m: ModuleId) -> (r: bool)
        ensures
            r == self.resident(m as int),
    {
        m < self.modules.len() && self.modules[m].is_some()
    }

    /// Look a dependency up by its identifier.
    pub fn dependency_by_id(&self, d: DepId) -> (r: Option<&Dep>)
        ensures
            match r {
                Some(dep) => d < self.deps@.len() && *dep == self.deps@[d as int],
                None => d >= self.deps@.len(),
            },
    {
        if d < self.deps.len() {
            Some(&self.deps[d])
        } else {
            None
        }
    }

    /// The resolution state of dependency `d`.
    pub fn resolution_of(&self, d: DepId) -> (r: DepResolution)
        requires
            self.wf(),
            d < self.deps@.len(),
        ensures
            r == self.resolutions@[d as int],
    {
        self.resolutions[d]
    }

    /// Insert (or replace) the module whose identifier is `m.id`, growing
    /// the arena as needed. Everything else is untouched.
    pub fn insert_module(&mut self, m: Mod)
        requires
            old(self).wf(),
            m.id < usize::MAX,
            forall|k: int| 0 <= k < m.dependencies@.len()
                ==> m.dependencies@[k] < old(self).deps@.len(),
        ensures
            final(self).wf(),
            final(self).resident(m.id as int),
            final(self).module_at(m.id as int) == m,
            final(self).deps@ == old(self).deps@,
            final(self).resolutions@ == old(self).resolutions@,
            final(self).modules@.len() >= old(self).modules@.len(),
            final(self).modules@.len() > m.id,
            forall|j: int| 0 <= j < final(self).modules@.len() && j != m.id ==>
                #[trigger] final(self).modules@[j]
                    == if j < old(self).modules@.len() { old(self).modules@[j] }
                       else { Option::<Mod>::None },
    {
        while self.modules.len() <= m.id
            invariant
                m.id < usize::MAX,
                self.deps@ == old(self).deps@,
                self.resolutions@ == old(self).resolutions@,
                self.modules@.len() >= old(self).modules@.len(),
                forall|j: int| 0 <= j < self.modules@.len() ==>
                    #[trigger] self.modules@[j]
                        == if j < old(self).modules@.len() { old(self).modules@[j] }
                           else { Option::<Mod>::None },
            decreases m.id + 1 - self.modules@.len(),
        {
            self.modules.push(None);
        }
        self.modules.set(m.id, Some(m));
        proof {
            assert forall|j: int| self.resident(j)
                implies (#[trigger] self.module_at(j)).id == j by {
                if j == m.id as int {
                    assert(self.module_at(j) == m);
                } else {
                    assert(old(self).resident(j));
                    assert(self.module_at(j) == old(self).module_at(j));
                }
            }
            assert forall|j: int, k: int|
                self.resident(j) && 0 <= k < self.module_at(j).dependencies@.len()
                implies (#[trigger] self.module_at(j).dependencies@[k]) < self.deps@.len() by {
                if j != m.id as int {
                    assert(old(self).resident(j));
                    assert(old(self).module_at(j).dependencies@[k] < old(self).deps@.len());
                }
            }
            assert forall|dd: int| 0 <= dd < self.resolutions@.len()
                && (#[trigger] self.resolutions@[dd]) is Resolved
                implies self.resolutions@[dd]->Resolved_0 < self.modules@.len() by {
                assert(self.resolutions@[dd] == old(self).resolutions@[dd]);
                assert(self.resolutions@[dd]->Resolved_0 < old(self).modules@.len());
            }
        }
    }

    /// Record a new dependency; its resolution starts out `Pending`.
    pub fn add_dependency(&mut self, dep: Dep) -> (d: DepId)
        requires
            old(self).wf(),
        ensures
            final(self).wf(),
            d == old(self).deps@.len(),
            final(self).deps@ == old(self).deps@.push(dep),
            final(self).resolutions@ == old(self).resolutions@.push(DepResolution::Pending),
            final(self).modules@ == old(self).modules@,
    {
        let d = self.deps.len();
        self.deps.push(dep);
        self.resolutions.push(DepResolution::Pending);
        proof {
            assert forall|dd: int| 0 <= dd < self.resolutions@.len()
                && (#[trigger] self.resolutions@[dd]) is Resolved
                implies self.resolutions@[dd]->Resolved_0 < self.modules@.len() by {
                if dd < old(self).resolutions@.len() {
                    assert(self.resolutions@[dd] == old(self).resolutions@[dd]);
                }
            }
            Self::lemma_wf_same_modules(*old(self), *self);
        }
        d
    }

    /// Record that dependency `d` resolved to module `m`.
    pub fn set_resolved(&mut self, d: DepId, m: ModuleId)
        requires
            old(self).wf(),
            d < old(self).deps@.len(),
            m < old(self).modules@.len(),
        ensures
            final(self).wf(),
            final(self).deps@ == old(self).deps@,
            final(self).modules@ == old(self).modules@,
            final(self).resolutions@
                == old(self).resolutions@.update(d as int, DepResolution::Resolved(m)),
    {
        self.resolutions.set(d, DepResolution::Resolved(m));
        proof {
            assert forall|dd: int| 0 <= dd < self.resolutions@.len()
                && (#[trigger] self.resolutions@[dd]) is Resolved
                implies self.resolutions@[dd]->Resolved_0 < self.modules@.len() by {
                if dd != d as int {
                    assert(self.resolutions@[dd] == old(self).resolutions@[dd]);
                }
            }
            Self::lemma_wf_same_modules(*old(self), *self);
        }
    }

    /// Reset dependency `d` for re-factorization.
    pub fn set_pending(&mut self, d: DepId)
        requires
            old(self).wf(),
            d < old(self).deps@.len(),
        ensures
            final(self).wf(),
            final(self).deps@ == old(self).deps@,
            final(self).modules@ == old(self).modules@,
            final(self).resolutions@
                == old(self).resolutions@.update(d as int, DepResolution::Pending),
    {
        self.resolutions.set(d, DepResolution::Pending);
        proof {
            assert forall|dd: int| 0 <= dd < self.resolutions@.len()
                && (#[trigger] self.resolutions@[dd]) is Resolved
                implies self.resolutions@[dd]->Resolved_0 < self.modules@.len() by {
                if dd != d as int {
                    assert(self.resolutions@[dd] == old(self).resolutions@[dd]);
                }
            }
            Self::lemma_wf_same_modules(*old(self), *self);
        }
    }

    /// Record that dependency `d` could not be resolved.
    pub fn set_failed(&mut self, d: DepId)
        requires
            old(self).wf(),
            d < old(self).deps@.len(),
        ensures
            final(self).wf(),
            final(self).deps@ == old(self).deps@,
            final(self).modules@ == old(self).modules@,
            final(self).resolutions@
                == old(self).resolutions@.update(d as int, DepResolution::Failed),
    {
        self.resolutions.set(d, DepResolution::Failed);
        proof {
            assert forall|dd: int| 0 <= dd < self.resolutions@.len()
                && (#[trigger] self.resolutions@[dd]) is Resolved
                implies self.resolutions@[dd]->Resolved_0 < self.modules@.len() by {
                if dd != d as int {
                    assert(self.resolutions@[dd] == old(self).resolutions@[dd]);
                }
            }
            Self::lemma_wf_same_modules(*old(self), *self);
        }
    }
}

} // verus!
