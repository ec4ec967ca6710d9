//! Partial overlays over the module graph: speculative writes are collected
//! in a write-through overlay, reads check the overlay before the base, and
//! a commit merges the writes into the base graph atomically. For pure
//! additions — writes to pairwise distinct slots — the merge result does not
//! depend on the write order.

use vstd::prelude::*;
use crate::module_graph::{Mod, ModuleGraph, ModuleId};

verus! {

/// A partial view over the module arena: an ordered list of overriding
/// writes. The last write to a slot wins; `None` records a removal.
pub struct ModuleGraphPartial {
    pub overrides: Vec<(ModuleId, Option<Mod>)>,
}

/// What a read through the overlay yields for slot `m`: the latest override
/// if one exists, the base slot otherwise.
pub open spec fn spec_overlay(
    ovr: Seq<(ModuleId, Option<Mod>)>,
    base: Seq<Option<Mod>>,
    m: int,
) -> Option<Mod>
    decreases ovr.len(),
{
    if ovr.len() == 0 {
        if 0 <= m < base.len() {
            base[m]
        } else {
            None
        }
    } else if ovr.last().0 as int == m {
        ovr.last().1
    } else {
        spec_overlay(ovr.drop_last(), base, m)
    }
}

/// The writes a partial may carry into graph `g`: slots that fit the arena
/// and module values that sit in their own slot with in-bounds edges.
pub open spec fn partial_ok(ovr: Seq<(ModuleId, Option<Mod>)>, g: ModuleGraph) -> bool {
    forall|i: int| 0 <= i < ovr.len() ==> {
        let w = #[trigger] ovr[i];
        &&& (w.0 as int) < usize::MAX
        &&& (w.1 matches Some(md) ==> md.id == w.0
                && forall|k: int| 0 <= k < md.dependencies@.len()
                    ==> (#[trigger] md.dependencies@[k]) < g.deps@.len())
    }
}

impl ModuleGraphPartial {
    pub fn new() -> (r: ModuleGraphPartial)
        ensures
            r.overrides@.len() == 0,
    {
        ModuleGraphPartial { overrides: Vec::new() }
    }

    /// Record a write; it shadows the base and every earlier write to the
    /// same slot.
    pub fn write(&mut self, m: ModuleId, value: Option<Mod>)
        ensures
            final(self).overrides@ == old(self).overrides@.push((m, value)),
    {
        self.overrides.push((m, value));
    }

    /// Read through the overlay: the latest override for `m` wins, the base
    /// arena answers otherwise.
    pub fn lookup<'a>(&'a self, base: &'a Vec<Option<Mod>>, m: ModuleId) -> (r: Option<&'a Mod>)
        ensures
            match r {
                Some(md) => spec_overlay(self.overrides@, base@, m as int)
                    matches Some(md2) && *md == md2,
                None => spec_overlay(self.overrides@, base@, m as int) is None,
            },
    {
        let n = self.overrides.len();
        proof {
            assert(self.overrides@.take(n as int) =~= self.overrides@);
        }
        let mut i: usize = n;
        while i > 0
            invariant
                n == self.overrides@.len(),
                i <= n,
                spec_overlay(self.overrides@, base@, m as int)
                    == spec_overlay(self.overrides@.take(i as int), base@, m as int),
            decreases i,
        {
            proof {
                assert(self.overrides@.take(i as int).last() == self.overrides@[i - 1]);
                assert(self.overrides@.take(i as int).drop_last()
                    =~= self.overrides@.take(i - 1 as int));
            }
            if self.overrides[i - 1].0 == m {
                return match &self.overrides[i - 1].1 {
                    Some(md) => Some(md),
                    None => None,
                };
            }
            i = i - 1;
        }
        proof {
            assert(self.overrides@.take(0) =~= Seq::<(ModuleId, Option<Mod>)>::empty());
        }
        if m < base.len() {
            match &base[m] {
                Some(md) => Some(md),
                None => None,
            }
        } else {
            None
        }
    }
}

/// For pure additions — writes to pairwise distinct slots — the merged view
/// does not depend on the write order: a written slot reads its write, an
/// unwritten slot reads the base.
pub proof fn lemma_overlay_order_independent(
    ovr: Seq<(ModuleId, Option<Mod>)>,
    base: Seq<Option<Mod>>,
    m: int,
)
    requires
        forall|i: int, j: int| 0 <= i < j < ovr.len()
            ==> (#[trigger] ovr[i]).0 != (#[trigger] ovr[j]).0,
    ensures
        forall|i: int| 0 <= i < ovr.len() && (#[trigger] ovr[i]).0 as int == m
            ==> spec_overlay(ovr, base, m) == ovr[i].1,
        (forall|i: int| 0 <= i < ovr.len() ==> (#[trigger] ovr[i]).0 as int != m)
            ==> spec_overlay(ovr, base, m) == (if 0 <= m < base.len() {
                base[m]
            } else {
                Option::<Mod>::None
            }),
    decreases ovr.len(),
{
    if ovr.len() > 0 {
        let prefix = ovr.drop_last();
        assert forall|i: int, j: int| 0 <= i < j < prefix.len()
            implies (#[trigger] prefix[i]).0 != (#[trigger] prefix[j]).0 by {
            assert(ovr[i].0 != ovr[j].0);
        }
        lemma_overlay_order_independent(prefix, base, m);
        assert forall|i: int| 0 <= i < ovr.len() && (#[trigger] ovr[i]).0 as int == m
            implies spec_overlay(ovr, base, m) == ovr[i].1 by {
            if i < ovr.len() - 1 {
                assert(ovr[i].0 != ovr[ovr.len() - 1].0);
                assert(prefix[i] == ovr[i]);
            }
        }
    }
}

/// Commit: merge the partial into the base graph under exclusive access,
/// applying the writes in order. Afterwards every slot of the module arena
/// reads exactly what the overlay read, and the dependency arena and
/// resolutions are untouched.
pub fn commit_partial(p: ModuleGraphPartial, g: &mut ModuleGraph)
    requires
        old(g).wf(),
        partial_ok(p.overrides@, *old(g)),
    ensures
        final(g).wf(),
        final(g).deps@ == old(g).deps@,
        final(g).resolutions@ == old(g).resolutions@,
        final(g).modules@.len() >= old(g).modules@.len(),
        forall|m: int| 0 <= m < final(g).modules@.len()
            ==> #[trigger] final(g).modules@[m]
                == spec_overlay(p.overrides@, old(g).modules@, m),
        forall|m: int| m >= final(g).modules@.len()
            ==> (#[trigger] spec_overlay(p.overrides@, old(g).modules@, m)) is None,
{
    let ghost base0 = old(g).modules@;
    let n = p.overrides.len();
    let mut pool = p.overrides;
    let ghost writes = pool@;
    let mut t: usize = 0;
    while t < n
        invariant
            g.wf(),
            n == writes.len(),
            pool@ == writes.skip(t as int),
            t <= n,
            partial_ok(writes, *old(g)),
            g.deps@ == old(g).deps@,
            g.resolutions@ == old(g).resolutions@,
            g.modules@.len() >= old(g).modules@.len(),
            base0 == old(g).modules@,
            forall|m: int| 0 <= m < g.modules@.len()
                ==> #[trigger] g.modules@[m]
                    == spec_overlay(writes.take(t as int), base0, m),
            forall|m: int| m >= g.modules@.len()
                ==> (#[trigger] spec_overlay(writes.take(t as int), base0, m)) is None,
        decreases n - t,
    {
        let ghost gsnap = *g;
        let ghost snap = g.modules@;
        let (slot, value) = pool.remove(0);
        proof {
            assert(writes.skip(t as int)[0] == writes[t as int]);
            assert(writes.skip(t as int).remove(0) =~= writes.skip(t + 1 as int));
            assert(writes.take(t + 1 as int).drop_last() =~= writes.take(t as int));
            assert(writes.take(t + 1 as int).last() == writes[t as int]);
        }
        match value {
            Some(md) => {
                g.insert_module(md);
                proof {
                    assert forall|m: int| 0 <= m < g.modules@.len()
                        implies #[trigger] g.modules@[m]
                            == spec_overlay(writes.take(t + 1 as int), base0, m) by {
                        if m != slot as int {
                            if m < snap.len() {
                                assert(g.modules@[m] == snap[m]);
                            } else {
                                assert(spec_overlay(writes.take(t as int), base0, m)
                                    is None);
                            }
                        }
                    }
                    assert forall|m: int| m >= g.modules@.len()
                        implies (#[trigger] spec_overlay(writes.take(t + 1 as int), base0,
                            m)) is None by {
                        assert(g.modules@.len() > slot as int);
                        assert(m != slot as int);
                        assert(m >= snap.len());
                        assert(spec_overlay(writes.take(t as int), base0, m) is None);
                    }
                }
            }
            None => {
                if slot < g.modules.len() {
                    g.modules.set(slot, None);
                    proof {
                        assert forall|mm: int| g.resident(mm)
                            implies (#[trigger] g.module_at(mm)).id == mm by {
                            assert(mm != slot as int);
                            assert(g.modules@[mm] == snap[mm]);
                            assert(gsnap.resident(mm));
                            assert(gsnap.module_at(mm).id == mm);
                            assert(g.module_at(mm) == gsnap.module_at(mm));
                        }
                        assert forall|mm: int, k: int|
                            g.resident(mm) && 0 <= k < g.module_at(mm).dependencies@.len()
                            implies (#[trigger] g.module_at(mm).dependencies@[k])
                                < g.deps@.len() by {
                            assert(mm != slot as int);
                            assert(g.modules@[mm] == snap[mm]);
                            assert(gsnap.resident(mm));
                            assert(g.module_at(mm) == gsnap.module_at(mm));
                            assert(gsnap.module_at(mm).dependencies@[k]
                                < gsnap.deps@.len());
                        }
                    }
                }
                proof {
                    assert forall|m: int| 0 <= m < g.modules@.len()
                        implies #[trigger] g.modules@[m]
                            == spec_overlay(writes.take(t + 1 as int), base0, m) by {
                        if m != slot as int {
                            assert(g.modules@[m] == snap[m]);
                        }
                    }
                    assert forall|m: int| m >= g.modules@.len()
                        implies (#[trigger] spec_overlay(writes.take(t + 1 as int), base0,
                            m)) is None by {
                        if m != slot as int {
                            assert(spec_overlay(writes.take(t as int), base0, m) is None);
                        }
                    }
                }
            }
        }
        t = t + 1;
    }
    proof {
        assert(writes.take(n as int) =~= writes);
    }
}

} // verus!
