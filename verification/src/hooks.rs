//! The hook engine: how a hook's registered plugins are invoked.
//!
//! Each named hook follows one of three disciplines: sequential-all (every
//! plugin runs, in registration order), bail (the first plugin to return a
//! value short-circuits the rest), and collect (every plugin contributes
//! items, concatenated in registration order). The engine works on the
//! answers the plugins would give; the driver layer feeds it.

use vstd::prelude::*;
use crate::diagnostics::Diagnostic;

verus! {

/// What one plugin answers when a bail hook reaches it.
pub enum BailAnswer<T> {
    /// The plugin declines; the next plugin is consulted.
    Pass,
    /// The plugin returns a value; no later plugin is invoked.
    Give(T),
    /// The plugin fails fatally; no later plugin is invoked.
    Fail(Diagnostic),
}

/// What one plugin answers when a sequential-all hook reaches it.
pub enum SeqAnswer {
    Done,
    /// A fatal failure; no later plugin is invoked.
    Fail(Diagnostic),
}

/// The first index at which a bail hook stops: the least index whose answer
/// is not `Pass`, or the number of plugins if every one passes.
pub open spec fn first_hit<T>(s: Seq<BailAnswer<T>>) -> int
    decreases s.len(),
{
    if s.len() == 0 {
        0
    } else if !(s[0] is Pass) {
        0
    } else {
        1 + first_hit(s.drop_first())
    }
}

/// The first index at which a sequential-all hook stops: the least index
/// whose answer is `Fail`, or the number of plugins.
pub open spec fn first_fail(s: Seq<SeqAnswer>) -> int
    decreases s.len(),
{
    if s.len() == 0 {
        0
    } else if s[0] is Fail {
        0
    } else {
        1 + first_fail(s.drop_first())
    }
}

pub proof fn lemma_first_hit_bounds<T>(s: Seq<BailAnswer<T>>)
    ensures
        0 <= first_hit(s) <= s.len(),
        forall|j: int| 0 <= j < first_hit(s) ==> s[j] is Pass,
        first_hit(s) < s.len() ==> !(s[first_hit(s)] is Pass),
    decreases s.len(),
{
    if s.len() > 0 && s[0] is Pass {
        lemma_first_hit_bounds(s.drop_first());
        assert forall|j: int| 0 <= j < first_hit(s) implies s[j] is Pass by {
            if j > 0 {
                assert(s.drop_first()[j - 1] is Pass);
            }
        }
    }
}

/// Bail short-circuit: if plugin `i` is the first whose answer is not a
/// pass, the hook stops exactly there — no plugin after `i` is invoked.
pub proof fn lemma_bail_short_circuit<T>(s: Seq<BailAnswer<T>>, i: int)
    requires
        0 <= i < s.len(),
        !(s[i] is Pass),
        forall|j: int| 0 <= j < i ==> s[j] is Pass,
    ensures
        first_hit(s) == i,
    decreases i,
{
    if i > 0 {
        assert forall|j: int| 0 <= j < i - 1 implies s.drop_first()[j] is Pass by {
            assert(s[j + 1] is Pass);
        }
        lemma_bail_short_circuit(s.drop_first(), i - 1);
    }
}

pub proof fn lemma_first_fail_bounds(s: Seq<SeqAnswer>)
    ensures
        0 <= first_fail(s) <= s.len(),
        forall|j: int| 0 <= j < first_fail(s) ==> s[j] is Done,
        first_fail(s) < s.len() ==> s[first_fail(s)] is Fail,
    decreases s.len(),
{
    if s.len() > 0 && !(s[0] is Fail) {
        lemma_first_fail_bounds(s.drop_first());
        assert forall|j: int| 0 <= j < first_fail(s) implies s[j] is Done by {
            if j > 0 {
                assert(s.drop_first()[j - 1] is Done);
            }
        }
    }
}

/// Run a bail hook over the plugins' answers, in registration order.
/// Returns the indices invoked, in invocation order, and the hook's result:
/// the first value given, the first fatal failure, or nothing.
pub fn run_bail<T>(answers: Vec<BailAnswer<T>>) -> (r: (Vec<usize>, Result<Option<T>, Diagnostic>))
    ensures
        // the plugins invoked are exactly a prefix, in registration order
        r.0@.len() == if first_hit(answers@) < answers@.len() {
            first_hit(answers@) + 1
        } else {
            answers@.len() as int
        },
        forall|i: int| 0 <= i < r.0@.len() ==> (#[trigger] r.0@[i]) as int == i,
        // the result is the first non-pass answer
        first_hit(answers@) < answers@.len() ==> match answers@[first_hit(answers@)] {
            BailAnswer::Give(v) => r.1 == Ok::<Option<T>, Diagnostic>(Some(v)),
            BailAnswer::Fail(d) => r.1 == Err::<Option<T>, Diagnostic>(d),
            BailAnswer::Pass => false,
        },
        first_hit(answers@) == answers@.len()
            ==> r.1 == Ok::<Option<T>, Diagnostic>(None),
{
    proof {
        lemma_first_hit_bounds(answers@);
    }
    let mut pool = answers;
    let ghost orig = pool@;
    proof {
        assert(orig == answers@);
    }
    let mut invoked: Vec<usize> = Vec::new();
    let n = pool.len();
    let mut i: usize = 0;
    while i < n
        invariant
            n == orig.len(),
            orig == answers@,
            pool@ == orig,
            i <= n,
            forall|j: int| 0 <= j < i ==> orig[j] is Pass,
            invoked@.len() == i,
            forall|k: int| 0 <= k < i ==> (#[trigger] invoked@[k]) as int == k,
        decreases n - i,
    {
        invoked.push(i);
        let hit = match &pool[i] {
            BailAnswer::Pass => false,
            _ => true,
        };
        if hit {
            proof {
                lemma_bail_short_circuit(orig, i as int);
            }
            let a = pool.remove(i);
            match a {
                BailAnswer::Give(v) => {
                    return (invoked, Ok(Some(v)));
                }
                BailAnswer::Fail(d) => {
                    return (invoked, Err(d));
                }
                BailAnswer::Pass => {
                    proof {
                        assert(false);
                    }
                    return (invoked, Ok(None));
                }
            }
        }
        i = i + 1;
    }
    proof {
        lemma_first_hit_bounds(orig);
        if first_hit(orig) < orig.len() {
            assert(orig[first_hit(orig)] is Pass);
            assert(false);
        }
    }
    (invoked, Ok(None))
}

/// Run a sequential-all hook over the plugins' answers: every plugin is
/// invoked in registration order until the first fatal failure. The invoked
/// indices come back in invocation order — the order of side effects equals
/// the registration order.
pub fn run_sequential_all(answers: Vec<SeqAnswer>) -> (r: (Vec<usize>, Result<(), Diagnostic>))
    ensures
        r.0@.len() == if first_fail(answers@) < answers@.len() {
            first_fail(answers@) + 1
        } else {
            answers@.len() as int
        },
        forall|i: int| 0 <= i < r.0@.len() ==> (#[trigger] r.0@[i]) as int == i,
        first_fail(answers@) < answers@.len() ==> match answers@[first_fail(answers@)] {
            SeqAnswer::Fail(d) => r.1 == Err::<(), Diagnostic>(d),
            SeqAnswer::Done => false,
        },
        first_fail(answers@) == answers@.len() ==> r.1 == Ok::<(), Diagnostic>(()),
{
    proof {
        lemma_first_fail_bounds(answers@);
    }
    let mut pool = answers;
    let ghost orig = pool@;
    let mut invoked: Vec<usize> = Vec::new();
    let n = pool.len();
    let mut i: usize = 0;
    while i < n
        invariant
            n == orig.len(),
            orig == answers@,
            pool@ == orig,
            i <= n,
            forall|j: int| 0 <= j < i ==> orig[j] is Done,
            invoked@.len() == i,
            forall|k: int| 0 <= k < i ==> (#[trigger] invoked@[k]) as int == k,
        decreases n - i,
    {
        invoked.push(i);
        let failed = match &pool[i] {
            SeqAnswer::Fail(_) => true,
            SeqAnswer::Done => false,
        };
        if failed {
            proof {
                assert forall|j: int| 0 <= j < i implies !(orig[j] is Fail) by {}
                assert(first_fail_eq(orig, i as int)) by {
                    lemma_first_fail_at(orig, i as int);
                }
            }
            let a = pool.remove(i);
            match a {
                SeqAnswer::Fail(d) => {
                    return (invoked, Err(d));
                }
                SeqAnswer::Done => {
                    proof {
                        assert(false);
                    }
                    return (invoked, Ok(()));
                }
            }
        }
        i = i + 1;
    }
    proof {
        lemma_first_fail_bounds(orig);
        if first_fail(orig) < orig.len() {
            assert(orig[first_fail(orig)] is Done);
            assert(false);
        }
    }
    (invoked, Ok(()))
}

/// Helper naming `first_fail(s) == i` so it can be asserted by a lemma.
pub open spec fn first_fail_eq(s: Seq<SeqAnswer>, i: int) -> bool {
    first_fail(s) == i
}

/// If plugin `i` is the first to fail, the sequential-all hook stops there.
pub proof fn lemma_first_fail_at(s: Seq<SeqAnswer>, i: int)
    requires
        0 <= i < s.len(),
        s[i] is Fail,
        forall|j: int| 0 <= j < i ==> s[j] is Done,
    ensures
        first_fail(s) == i,
    decreases i,
{
    if i > 0 {
        assert forall|j: int| 0 <= j < i - 1 implies s.drop_first()[j] is Done by {
            assert(s[j + 1] is Done);
        }
        lemma_first_fail_at(s.drop_first(), i - 1);
    }
}

/// Everything the plugins of a collect hook contribute, concatenated in
/// registration order.
pub open spec fn concat_all<T>(s: Seq<Seq<T>>) -> Seq<T>
    decreases s.len(),
{
    if s.len() == 0 {
        Seq::empty()
    } else {
        s[0] + concat_all(s.drop_first())
    }
}

/// Run a collect hook: every plugin is invoked in registration order and
/// their contributions are concatenated.
pub fn run_collect<T>(answers: Vec<Vec<T>>) -> (r: Vec<T>)
    ensures
        r@ == concat_all(answers@.map_values(|v: Vec<T>| v@)),
{
    let mut pool = answers;
    let ghost orig = pool@.map_values(|v: Vec<T>| v@);
    let mut r: Vec<T> = Vec::new();
    proof {
        assert(pool@.map_values(|v: Vec<T>| v@) =~= orig);
    }
    while pool.len() > 0
        invariant
            orig == answers@.map_values(|v: Vec<T>| v@),
            r@ + concat_all(pool@.map_values(|v: Vec<T>| v@)) == concat_all(orig),
        decreases pool@.len(),
    {
        let ghost pre = pool@.map_values(|v: Vec<T>| v@);
        let mut v = pool.remove(0);
        proof {
            assert(pool@.map_values(|vv: Vec<T>| vv@) =~= pre.drop_first());
            assert(concat_all(pre) == pre[0] + concat_all(pre.drop_first()));
        }
        r.append(&mut v);
        proof {
            assert(r@ + concat_all(pool@.map_values(|vv: Vec<T>| vv@))
                =~= concat_all(orig));
        }
    }
    proof {
        assert(pool@.map_values(|v: Vec<T>| v@) =~= Seq::<Seq<T>>::empty());
        assert(r@ =~= concat_all(orig));
    }
    r
}

/// The first index at which a collect hook stops: the least index whose
/// answer is an error, or the number of plugins.
pub open spec fn first_err<T>(s: Seq<Result<Vec<T>, Diagnostic>>) -> int
    decreases s.len(),
{
    if s.len() == 0 {
        0
    } else if s[0] is Err {
        0
    } else {
        1 + first_err(s.drop_first())
    }
}

pub proof fn lemma_first_err_bounds<T>(s: Seq<Result<Vec<T>, Diagnostic>>)
    ensures
        0 <= first_err(s) <= s.len(),
        forall|j: int| 0 <= j < first_err(s) ==> s[j] is Ok,
        first_err(s) < s.len() ==> s[first_err(s)] is Err,
    decreases s.len(),
{
    if s.len() > 0 && !(s[0] is Err) {
        lemma_first_err_bounds(s.drop_first());
        assert forall|j: int| 0 <= j < first_err(s) implies s[j] is Ok by {
            if j > 0 {
                assert(s.drop_first()[j - 1] is Ok);
            }
        }
    }
}

/// If plugin `i` is the first to fail, the collect hook stops there.
proof fn lemma_first_err_at<T>(s: Seq<Result<Vec<T>, Diagnostic>>, i: int)
    requires
        0 <= i < s.len(),
        s[i] is Err,
        forall|j: int| 0 <= j < i ==> s[j] is Ok,
    ensures
        first_err(s) == i,
    decreases i,
{
    if i > 0 {
        assert forall|j: int| 0 <= j < i - 1 implies s.drop_first()[j] is Ok by {
            assert(s[j + 1] is Ok);
        }
        lemma_first_err_at(s.drop_first(), i - 1);
    }
}

/// Run a collect hook whose plugins can fail: contributions are
/// concatenated in registration order until the first error, which aborts
/// the hook and is returned; later plugins are not invoked.
pub fn run_collect_failing<T>(answers: Vec<Result<Vec<T>, Diagnostic>>)
    -> (r: (Vec<usize>, Result<Vec<T>, Diagnostic>))
    ensures
        r.0@.len() == if first_err(answers@) < answers@.len() {
            first_err(answers@) + 1
        } else {
            answers@.len() as int
        },
        forall|i: int| 0 <= i < r.0@.len() ==> (#[trigger] r.0@[i]) as int == i,
        first_err(answers@) < answers@.len() ==> match answers@[first_err(answers@)] {
            Result::Err(d) => r.1 == Err::<Vec<T>, Diagnostic>(d),
            Result::Ok(_) => false,
        },
        first_err(answers@) == answers@.len() ==> (r.1 matches Ok(v)
            && v@ == concat_all(answers@.map_values(
                |x: Result<Vec<T>, Diagnostic>| x->Ok_0@))),
{
    proof {
        lemma_first_err_bounds(answers@);
    }
    let mut pool = answers;
    let ghost orig = pool@;
    let mut invoked: Vec<usize> = Vec::new();
    let mut out: Vec<T> = Vec::new();
    let n = pool.len();
    let mut i: usize = 0;
    proof {
        assert(out@ + concat_all(orig.take(0).map_values(
            |x: Result<Vec<T>, Diagnostic>| x->Ok_0@)) =~= out@);
        assert(orig.take(0).map_values(|x: Result<Vec<T>, Diagnostic>| x->Ok_0@)
            =~= Seq::<Seq<T>>::empty());
    }
    while i < n
        invariant
            n == orig.len(),
            orig == answers@,
            pool@ == orig.skip(i as int),
            i <= n,
            forall|j: int| 0 <= j < i ==> orig[j] is Ok,
            invoked@.len() == i,
            forall|k: int| 0 <= k < i ==> (#[trigger] invoked@[k]) as int == k,
            out@ == concat_all(orig.take(i as int).map_values(
                |x: Result<Vec<T>, Diagnostic>| x->Ok_0@)),
        decreases n - i,
    {
        invoked.push(i);
        let a = pool.remove(0);
        proof {
            assert(orig.skip(i as int)[0] == orig[i as int]);
            assert(orig.skip(i as int).remove(0) =~= orig.skip(i + 1 as int));
        }
        match a {
            Result::Err(d) => {
                proof {
                    lemma_first_err_at(orig, i as int);
                }
                return (invoked, Err(d));
            }
            Result::Ok(mut v) => {
                let ghost outsnap = out@;
                out.append(&mut v);
                proof {
                    let f = |x: Result<Vec<T>, Diagnostic>| x->Ok_0@;
                    let pre = orig.take(i as int).map_values(f);
                    let post = orig.take(i + 1 as int).map_values(f);
                    assert(post =~= pre.push(orig[i as int]->Ok_0@)) by {
                        assert forall|k: int| 0 <= k < post.len()
                            implies post[k] == pre.push(orig[i as int]->Ok_0@)[k] by {
                            if k < pre.len() {
                                assert(orig.take(i + 1 as int)[k]
                                    == orig.take(i as int)[k]);
                            }
                        }
                    }
                    lemma_concat_all_push(pre, orig[i as int]->Ok_0@);
                    assert(out@ =~= concat_all(post));
                }
            }
        }
        i = i + 1;
    }
    proof {
        lemma_first_err_bounds(orig);
        if first_err(orig) < orig.len() {
            assert(orig[first_err(orig)] is Ok);
            assert(false);
        }
        assert(orig.take(n as int) =~= orig);
    }
    (invoked, Ok(out))
}

/// Concatenation extends by the appended tail.
proof fn lemma_concat_all_push<T>(s: Seq<Seq<T>>, tail: Seq<T>)
    ensures
        concat_all(s.push(tail)) == concat_all(s) + tail,
    decreases s.len(),
{
    if s.len() == 0 {
        assert(s.push(tail).drop_first() =~= Seq::<Seq<T>>::empty());
        assert(s.push(tail)[0] == tail);
        assert(concat_all(s.push(tail))
            == tail + concat_all(Seq::<Seq<T>>::empty()));
        assert(tail + Seq::<T>::empty() =~= tail);
        assert(concat_all(s) + tail =~= tail);
    } else {
        assert(s.push(tail).drop_first() =~= s.drop_first().push(tail));
        lemma_concat_all_push(s.drop_first(), tail);
        assert(concat_all(s.push(tail))
            == s[0] + concat_all(s.drop_first().push(tail)));
        assert(s[0] + (concat_all(s.drop_first()) + tail)
            =~= (s[0] + concat_all(s.drop_first())) + tail);
    }
}

} // verus!

