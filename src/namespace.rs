//! A model of the namespace that the operations act on, and what a run
//! leaves behind in it.
//!
//! The model maps each path to the entry found there.  An operation moves
//! (or, keeping the source, copies) the one entry at its origin to its
//! target, replacing what the target held; it does nothing where the origin
//! holds no entry.  The model does not follow entries nested below a moved
//! path.

use vstd::prelude::*;
use crate::plan::{is_order, placed, RenameSet};
use crate::schedule::planned_ops;

verus! {

/// The namespace after one operation.
pub open spec fn apply_op(m: Map<Seq<char>, nat>, op: (Seq<char>, Seq<char>, bool)) -> Map<
    Seq<char>,
    nat,
> {
    if m.contains_key(op.0) {
        let placed = m.insert(op.1, m[op.0]);
        if op.2 {
            placed
        } else {
            placed.remove(op.0)
        }
    } else {
        m
    }
}

/// The namespace after the operations `ops`, in order.
pub open spec fn run_ops(m: Map<Seq<char>, nat>, ops: Seq<(Seq<char>, Seq<char>, bool)>) -> Map<
    Seq<char>,
    nat,
>
    decreases ops.len(),
{
    if ops.len() == 0 {
        m
    } else {
        apply_op(run_ops(m, ops.drop_last()), ops.last())
    }
}

proof fn lemma_run_step(m: Map<Seq<char>, nat>, ops: Seq<(Seq<char>, Seq<char>, bool)>, t: int)
    requires
        0 <= t < ops.len(),
    ensures
        run_ops(m, ops.subrange(0, t + 1)) == apply_op(run_ops(m, ops.subrange(0, t)), ops[t]),
{
    assert(ops.subrange(0, t + 1).drop_last() =~= ops.subrange(0, t));
}

/// Whether `p` is the source, scratch path or destination of no pair of `v`.
pub open spec fn untouched(v: Seq<(Seq<char>, Seq<char>, Seq<char>)>, p: Seq<char>) -> bool {
    forall|j: int| 0 <= j < v.len() ==> p != (#[trigger] v[j]).0 && p != v[j].1 && p != v[j].2
}

/// Whether `p` is the destination of some pair of `v`.
pub open spec fn is_destination(v: Seq<(Seq<char>, Seq<char>, Seq<char>)>, p: Seq<char>) -> bool {
    exists|j: int| 0 <= j < v.len() && (#[trigger] v[j]).2 == p
}

/// The pairs that a run needs: sources present and scratch paths free at the
/// start, scratch paths apart from every source and destination, and
/// sources, scratch paths and destinations each different.
pub open spec fn run_ready(v: Seq<(Seq<char>, Seq<char>, Seq<char>)>, m0: Map<Seq<char>, nat>) -> bool {
    &&& forall|i: int| 0 <= i < v.len() ==> m0.contains_key((#[trigger] v[i]).0)
    &&& forall|i: int| 0 <= i < v.len() ==> !m0.contains_key((#[trigger] v[i]).1)
    &&& forall|i: int, j: int|
        0 <= i < v.len() && 0 <= j < v.len() ==> (#[trigger] v[i]).1 != (#[trigger] v[j]).0
            && v[i].1 != v[j].2
    &&& forall|i: int, j: int|
        0 <= i < v.len() && 0 <= j < v.len() && i != j ==> (#[trigger] v[i]).0 != (
        #[trigger] v[j]).0 && v[i].1 != v[j].1 && v[i].2 != v[j].2
}

/// The namespace after the first `t` phase-1 operations.
pub open spec fn phase_one_done(
    v: Seq<(Seq<char>, Seq<char>, Seq<char>)>,
    m0: Map<Seq<char>, nat>,
    m: Map<Seq<char>, nat>,
    t: int,
) -> bool {
    &&& forall|i: int|
        0 <= i < t ==> m.contains_key((#[trigger] v[i]).1) && m[v[i].1] == m0[v[i].0]
            && !m.contains_key(v[i].0)
    &&& forall|i: int|
        t <= i < v.len() ==> m.contains_key((#[trigger] v[i]).0) && m[v[i].0] == m0[v[i].0]
    &&& forall|p: Seq<char>|
        (forall|j: int| 0 <= j < t ==> p != (#[trigger] v[j]).0 && p != v[j].1) ==> (
        #[trigger] m.contains_key(p) == m0.contains_key(p)) && (m0.contains_key(p) ==> m[p]
            == m0[p])
}

/// Whether `p` is the destination of a pair among the first `k` of the order `o`.
pub open spec fn placed_before(
    v: Seq<(Seq<char>, Seq<char>, Seq<char>)>,
    o: Seq<int>,
    k: int,
    p: Seq<char>,
) -> bool {
    exists|a: int| 0 <= a < k && v[#[trigger] o[a]].2 == p
}

/// The namespace after phase 1 and the first `k` phase-2 operations, which
/// follow the order `o`.
pub open spec fn phase_two_done(
    v: Seq<(Seq<char>, Seq<char>, Seq<char>)>,
    o: Seq<int>,
    m0: Map<Seq<char>, nat>,
    m: Map<Seq<char>, nat>,
    k: int,
) -> bool {
    let n = v.len() as int;
    &&& forall|a: int|
        0 <= a < k ==> m.contains_key(v[#[trigger] o[a]].2) && m[v[o[a]].2] == m0[v[o[a]].0]
            && !m.contains_key(v[o[a]].1)
    &&& forall|a: int|
        k <= a < n ==> m.contains_key(v[#[trigger] o[a]].1) && m[v[o[a]].1] == m0[v[o[a]].0]
    &&& forall|i: int|
        0 <= i < n && !placed_before(v, o, k, v[i].0) ==> !m.contains_key((#[trigger] v[i]).0)
    &&& forall|p: Seq<char>|
        untouched(v, p) ==> (#[trigger] m.contains_key(p) == m0.contains_key(p)) && (
        m0.contains_key(p) ==> m[p] == m0[p])
}

proof fn lemma_phase_one(
    v: Seq<(Seq<char>, Seq<char>, Seq<char>)>,
    o: Seq<int>,
    m0: Map<Seq<char>, nat>,
    t: int,
)
    requires
        run_ready(v, m0),
        0 <= t <= v.len(),
    ensures
        phase_one_done(v, m0, run_ops(m0, planned_ops(v, o, false).subrange(0, t)), t),
    decreases t,
{
    let ops = planned_ops(v, o, false);
    let n = v.len() as int;
    if t == 0 {
        assert(ops.subrange(0, 0) =~= Seq::<(Seq<char>, Seq<char>, bool)>::empty());
    } else {
        let u = t - 1;
        lemma_phase_one(v, o, m0, u);
        let m = run_ops(m0, ops.subrange(0, u));
        lemma_run_step(m0, ops, u);
        assert(ops[u] == (v[u].0, v[u].1, false));
        assert(m.contains_key(v[u].0));
        let m2 = run_ops(m0, ops.subrange(0, t));
        assert(m2 == m.insert(v[u].1, m[v[u].0]).remove(v[u].0));
        assert forall|i: int| 0 <= i < t implies m2.contains_key((#[trigger] v[i]).1)
            && m2[v[i].1] == m0[v[i].0] && !m2.contains_key(v[i].0) by {
            if i < u {
                assert(v[i].1 != v[u].0);
                assert(v[i].0 != v[u].0);
                assert(v[i].0 != v[u].1);
                assert(v[i].1 != v[u].1);
            } else {
                assert(v[u].1 != v[u].0);
            }
        }
        assert forall|i: int| t <= i < n implies m2.contains_key((#[trigger] v[i]).0) && m2[v[i].0]
            == m0[v[i].0] by {
            assert(v[u].0 != v[i].0);
            assert(v[u].1 != v[i].0);
        }
        assert forall|p: Seq<char>|
            (forall|j: int| 0 <= j < t ==> p != (#[trigger] v[j]).0 && p != v[j].1) implies (
            #[trigger] m2.contains_key(p) == m0.contains_key(p)) && (m0.contains_key(p) ==> m2[p]
                == m0[p]) by {
            assert(p != v[u].0 && p != v[u].1);
            assert(forall|j: int| 0 <= j < u ==> p != (#[trigger] v[j]).0 && p != v[j].1);
        }
    }
}

proof fn lemma_phase_two(
    v: Seq<(Seq<char>, Seq<char>, Seq<char>)>,
    o: Seq<int>,
    m0: Map<Seq<char>, nat>,
    k: int,
)
    requires
        run_ready(v, m0),
        is_order(o, v.len() as int),
        0 <= k <= v.len(),
    ensures
        phase_two_done(v, o, m0, run_ops(m0, planned_ops(v, o, false).subrange(0, v.len() + k)), k),
    decreases k,
{
    let ops = planned_ops(v, o, false);
    let n = v.len() as int;
    if k == 0 {
        lemma_phase_one(v, o, m0, n);
        let m = run_ops(m0, ops.subrange(0, n));
        assert forall|p: Seq<char>| untouched(v, p) implies (#[trigger] m.contains_key(p)
            == m0.contains_key(p)) && (m0.contains_key(p) ==> m[p] == m0[p]) by {
            assert(forall|j: int| 0 <= j < n ==> p != (#[trigger] v[j]).0 && p != v[j].1);
        }
        assert forall|a: int| 0 <= a < n implies m.contains_key(v[#[trigger] o[a]].1) && m[v[o[a]].1]
            == m0[v[o[a]].0] by {
            let i = o[a];
            assert(0 <= i < n);
            assert(m.contains_key(v[i].1));
        }
        assert forall|i: int| 0 <= i < n && !placed_before(v, o, 0, v[i].0) implies !m.contains_key(
            (#[trigger] v[i]).0,
        ) by {
            assert(!m.contains_key(v[i].0));
        }
        assert(ops.subrange(0, v.len() + k) == ops.subrange(0, n));
        assert(phase_two_done(v, o, m0, m, 0));
    } else {
        let kk = k - 1;
        lemma_phase_two(v, o, m0, kk);
        let m = run_ops(m0, ops.subrange(0, n + kk));
        lemma_run_step(m0, ops, n + kk);
        let i0 = o[kk];
        assert(0 <= i0 < n);
        assert(ops[n + kk] == (v[i0].1, v[i0].2, false));
        assert(m.contains_key(v[i0].1));
        let m2 = run_ops(m0, ops.subrange(0, n + k));
        assert(m2 == m.insert(v[i0].2, m[v[i0].1]).remove(v[i0].1));
        assert forall|a: int| 0 <= a < k implies m2.contains_key(v[#[trigger] o[a]].2)
            && m2[v[o[a]].2] == m0[v[o[a]].0] && !m2.contains_key(v[o[a]].1) by {
            let i = o[a];
            assert(0 <= i < n);
            assert(v[i0].1 != v[i].2);
            assert(v[i0].1 != v[i0].2);
            if a < kk {
                assert(o[a] != o[kk]);
                assert(v[i].2 != v[i0].2);
                assert(v[i].1 != v[i0].2);
            }
        }
        assert forall|a: int| k <= a < n implies m2.contains_key(v[#[trigger] o[a]].1)
            && m2[v[o[a]].1] == m0[v[o[a]].0] by {
            let i = o[a];
            assert(0 <= i < n);
            assert(o[kk] != o[a]);
            assert(v[i].1 != v[i0].1);
            assert(v[i].1 != v[i0].2);
        }
        assert forall|i: int| 0 <= i < n && !placed_before(v, o, k, v[i].0) implies !m2.contains_key(
            (#[trigger] v[i]).0,
        ) by {
            assert(v[o[kk]].2 != v[i].0);
            assert(!placed_before(v, o, kk, v[i].0)) by {
                if placed_before(v, o, kk, v[i].0) {
                    let a = choose|a: int| 0 <= a < kk && v[#[trigger] o[a]].2 == v[i].0;
                    assert(a < k);
                }
            }
            assert(v[i0].1 != v[i].0);
        }
        assert forall|p: Seq<char>| untouched(v, p) implies (#[trigger] m2.contains_key(p)
            == m0.contains_key(p)) && (m0.contains_key(p) ==> m2[p] == m0[p]) by {
            assert(p != v[i0].1 && p != v[i0].2);
        }
    }
}

/// A run of the move variant, entry by entry: afterwards every destination
/// holds the entry its source held, a source that is no destination holds
/// nothing, no scratch path holds anything, and every other path is as it
/// was.  The run starts with every source holding an entry and every scratch
/// path free.
pub proof fn lemma_move_run(set: RenameSet, m0: Map<Seq<char>, nat>)
    requires
        set.wf(),
        forall|i: int| 0 <= i < set@.len() ==> m0.contains_key((#[trigger] set@[i]).0),
        forall|i: int| 0 <= i < set@.len() ==> !m0.contains_key((#[trigger] set@[i]).1),
    ensures
        ({
            let v = set@;
            let m = run_ops(m0, planned_ops(v, set.placement(), false));
            &&& forall|i: int|
                0 <= i < v.len() ==> m.contains_key((#[trigger] v[i]).2) && m[v[i].2] == m0[v[i].0]
            &&& forall|i: int|
                0 <= i < v.len() && !is_destination(v, (#[trigger] v[i]).0) ==> !m.contains_key(v[i].0)
            &&& forall|i: int| 0 <= i < v.len() ==> !m.contains_key((#[trigger] v[i]).1)
            &&& forall|p: Seq<char>|
                untouched(v, p) ==> (#[trigger] m.contains_key(p) == m0.contains_key(p)) && (
                m0.contains_key(p) ==> m[p] == m0[p])
        }),
{
    let v = set@;
    let o = set.placement();
    let n = v.len() as int;
    let ops = planned_ops(v, o, false);
    crate::schedule::lemma_scratch_apart_all(set);
    assert forall|i: int, j: int| 0 <= i < n && 0 <= j < n && i != j implies (#[trigger] v[i]).0
        != (#[trigger] v[j]).0 && v[i].1 != v[j].1 && v[i].2 != v[j].2 by {
        if j < i {
            assert(v[j].0 != v[i].0);
        }
    }
    lemma_phase_two(v, o, m0, n);
    assert(ops.subrange(0, 2 * n) =~= ops);
    let m = run_ops(m0, ops);
    assert forall|i: int| 0 <= i < n implies m.contains_key((#[trigger] v[i]).2) && m[v[i].2]
        == m0[v[i].0] && !m.contains_key(v[i].1) by {
        assert(placed(o, i));
        let a = choose|a: int| 0 <= a < o.len() && o[a] == i;
    }
    assert forall|i: int|
        0 <= i < v.len() && !is_destination(v, (#[trigger] v[i]).0) implies !m.contains_key(v[i].0) by {
        if placed_before(v, o, n, v[i].0) {
            let a = choose|a: int| 0 <= a < n && v[#[trigger] o[a]].2 == v[i].0;
            assert(0 <= o[a] < n);
            assert(is_destination(v, v[i].0));
        }
    }
}

/// The namespace after the first `k` copy operations, which follow `o`.
proof fn lemma_copy_prefix(
    v: Seq<(Seq<char>, Seq<char>, Seq<char>)>,
    o: Seq<int>,
    m0: Map<Seq<char>, nat>,
    k: int,
)
    requires
        forall|i: int| 0 <= i < v.len() ==> m0.contains_key((#[trigger] v[i]).0),
        forall|i: int, j: int|
            0 <= i < v.len() && 0 <= j < v.len() && i != j ==> (#[trigger] v[i]).2 != (
            #[trigger] v[j]).2,
        is_order(o, v.len() as int),
        0 <= k <= v.len(),
    ensures
        ({
            let m = run_ops(m0, planned_ops(v, o, true).subrange(0, k));
            &&& forall|a: int| 0 <= a < k ==> m.contains_key(v[#[trigger] o[a]].2)
            &&& forall|p: Seq<char>| m0.contains_key(p) ==> #[trigger] m.contains_key(p)
            &&& (forall|i: int, j: int|
                0 <= i < v.len() && 0 <= j < v.len() ==> (#[trigger] v[i]).2 != (#[trigger] v[j]).0)
                ==> {
                &&& forall|i: int| 0 <= i < v.len() ==> m[(#[trigger] v[i]).0] == m0[v[i].0]
                &&& forall|a: int| 0 <= a < k ==> m[v[#[trigger] o[a]].2] == m0[v[o[a]].0]
                &&& forall|p: Seq<char>|
                    untouched(v, p) ==> (#[trigger] m.contains_key(p) == m0.contains_key(p)) && (
                    m0.contains_key(p) ==> m[p] == m0[p])
            }
        }),
    decreases k,
{
    let ops = planned_ops(v, o, true);
    let n = v.len() as int;
    if k == 0 {
        assert(ops.subrange(0, 0) =~= Seq::<(Seq<char>, Seq<char>, bool)>::empty());
    } else {
        let kk = k - 1;
        lemma_copy_prefix(v, o, m0, kk);
        lemma_run_step(m0, ops, kk);
        let i0 = o[kk];
        assert(0 <= i0 < n);
        assert(ops[kk] == (v[i0].0, v[i0].2, true));
        let m = run_ops(m0, ops.subrange(0, kk));
        assert(m.contains_key(v[i0].0));
        let m2 = run_ops(m0, ops.subrange(0, k));
        assert(m2 == m.insert(v[i0].2, m[v[i0].0]));
        if forall|i: int, j: int|
            0 <= i < v.len() && 0 <= j < v.len() ==> (#[trigger] v[i]).2 != (#[trigger] v[j]).0 {
            assert forall|i: int| 0 <= i < v.len() implies m2[(#[trigger] v[i]).0] == m0[v[i].0] by {
                assert(v[i0].2 != v[i].0);
            }
            assert forall|a: int| 0 <= a < k implies m2[v[#[trigger] o[a]].2] == m0[v[o[a]].0] by {
                if a < kk {
                    assert(o[a] != o[kk]);
                    assert(0 <= o[a] < n);
                    assert(v[o[a]].2 != v[i0].2);
                } else {
                    assert(v[i0].2 != v[i0].0);
                }
            }
            assert forall|p: Seq<char>| untouched(v, p) implies (#[trigger] m2.contains_key(p)
                == m0.contains_key(p)) && (m0.contains_key(p) ==> m2[p] == m0[p]) by {
                assert(p != v[i0].2);
            }
        }
    }
}

/// A run of the copy variant, entry by entry: afterwards every source and
/// every destination holds an entry.  When no destination is also a source,
/// every source keeps its entry, every destination holds its source's entry,
/// and every other path is as it was.  The run starts with every source
/// holding an entry.
pub proof fn lemma_copy_run(set: RenameSet, m0: Map<Seq<char>, nat>)
    requires
        set.wf(),
        forall|i: int| 0 <= i < set@.len() ==> m0.contains_key((#[trigger] set@[i]).0),
    ensures
        ({
            let v = set@;
            let m = run_ops(m0, planned_ops(v, set.placement(), true));
            &&& forall|i: int| 0 <= i < v.len() ==> m.contains_key((#[trigger] v[i]).2)
            &&& forall|i: int| 0 <= i < v.len() ==> m.contains_key((#[trigger] v[i]).0)
            &&& (forall|i: int, j: int|
                0 <= i < v.len() && 0 <= j < v.len() ==> (#[trigger] v[i]).2 != (#[trigger] v[j]).0)
                ==> {
                &&& forall|i: int| 0 <= i < v.len() ==> m[(#[trigger] v[i]).0] == m0[v[i].0]
                &&& forall|i: int| 0 <= i < v.len() ==> m[(#[trigger] v[i]).2] == m0[v[i].0]
                &&& forall|p: Seq<char>|
                    untouched(v, p) ==> (#[trigger] m.contains_key(p) == m0.contains_key(p)) && (
                    m0.contains_key(p) ==> m[p] == m0[p])
            }
        }),
{
    let v = set@;
    let o = set.placement();
    let n = v.len() as int;
    assert forall|i: int, j: int| 0 <= i < n && 0 <= j < n && i != j implies (#[trigger] v[i]).2
        != (#[trigger] v[j]).2 by {
        if j < i {
            assert(v[j].2 != v[i].2);
        }
    }
    lemma_copy_prefix(v, o, m0, n);
    assert(planned_ops(v, o, true).subrange(0, n) =~= planned_ops(v, o, true));
    let m = run_ops(m0, planned_ops(v, o, true));
    assert forall|i: int| 0 <= i < n implies m.contains_key((#[trigger] v[i]).2) && ((forall|
        i2: int,
        j: int,
    | 0 <= i2 < v.len() && 0 <= j < v.len() ==> (#[trigger] v[i2]).2 != (#[trigger] v[j]).0) ==> m[v[i].2]
        == m0[v[i].0]) by {
        assert(placed(o, i));
        let a = choose|a: int| 0 <= a < o.len() && o[a] == i;
    }
}

} // verus!
