//! The filesystem operations that carry out a rename set, in order.
//!
//! Phase 1 moves every source to its scratch path, deepest source first.
//! Phase 2 then moves every scratch entry to its destination, shallowest
//! destination first, so that a destination exists before anything is placed
//! inside it.  In copy mode phase 1 is skipped and phase 2 copies each source
//! straight to its destination.

use vstd::prelude::*;
use crate::path::normalized;
use crate::plan::{depth, RenamePair, RenameSet};
use crate::scratch::{disjoint, strict_ancestor};

verus! {

/// One move of an entry from one path to another.  With `keep_source` the
/// entry is copied and the origin stays.
pub struct Op {
    pub from: String,
    pub to: String,
    pub keep_source: bool,
}

impl View for Op {
    type V = (Seq<char>, Seq<char>, bool);

    open spec fn view(&self) -> (Seq<char>, Seq<char>, bool) {
        (self.from@, self.to@, self.keep_source)
    }
}

/// Where the phase-2 operation at place `a` of `n` stands.
pub open spec fn phase_two_position(n: int, a: int, copy: bool) -> int {
    if copy {
        a
    } else {
        n + a
    }
}

/// The operations for the pairs `v` (source, scratch, destination) whose
/// phase 2 follows the order `o`.
pub open spec fn planned_ops(v: Seq<(Seq<char>, Seq<char>, Seq<char>)>, o: Seq<int>, copy: bool) -> Seq<
    (Seq<char>, Seq<char>, bool),
> {
    let n = v.len() as int;
    if copy {
        Seq::new(n as nat, |k: int| (v[o[k]].0, v[o[k]].2, true))
    } else {
        Seq::new(
            (2 * n) as nat,
            |k: int|
                if k < n {
                    (v[k].0, v[k].1, false)
                } else {
                    (v[o[k - n]].1, v[o[k - n]].2, false)
                },
        )
    }
}

pub open spec fn ops_view(ops: Seq<Op>) -> Seq<(Seq<char>, Seq<char>, bool)> {
    ops.map_values(|o: Op| o@)
}

impl RenameSet {
    /// The operations that carry out this set: in move mode phase 1 (each
    /// source to its scratch path, in set order) and then phase 2 (each
    /// scratch entry to its destination, shallowest destination first); in
    /// copy mode only phase 2, copying each source to its destination.
    pub fn operations(&self, copy: bool) -> (r: Vec<Op>)
        requires
            self.wf(),
        ensures
            ops_view(r@) == planned_ops(self@, self.placement(), copy),
    {
        let pairs = self.pairs();
        let order = self.placement_order();
        let ghost v = self@;
        let ghost o = self.placement();
        let n = pairs.len();
        let mut ops: Vec<Op> = Vec::new();
        if !copy {
            let mut i: usize = 0;
            while i < n
                invariant
                    n == pairs@.len(),
                    v == pairs@.map_values(|p: RenamePair| p@),
                    i <= n,
                    !copy,
                    ops@.len() == i,
                    forall|k: int| 0 <= k < i ==> #[trigger] ops@[k]@ == planned_ops(v, o, copy)[k],
                decreases n - i,
            {
                assert(v[i as int] == pairs@[i as int]@);
                ops.push(Op { from: pairs[i].src.clone(), to: pairs[i].scratch.clone(), keep_source: false });
                i = i + 1;
            }
        }
        let base: usize = if copy { 0 } else { n };
        let mut a: usize = 0;
        while a < n
            invariant
                n == pairs@.len(),
                v == pairs@.map_values(|p: RenamePair| p@),
                o == order@.map_values(|x: usize| x as int),
                crate::plan::is_order(o, n as int),
                a <= n,
                base == if copy { 0 } else { n },
                ops@.len() == base + a,
                forall|k: int| 0 <= k < base + a ==> #[trigger] ops@[k]@ == planned_ops(v, o, copy)[k],
            decreases n - a,
        {
            assert(0 <= o[a as int] < n);
            let i = order[a];
            assert(v[i as int] == pairs@[i as int]@);
            let from = if copy { pairs[i].src.clone() } else { pairs[i].scratch.clone() };
            ops.push(Op { from, to: pairs[i].dst.clone(), keep_source: copy });
            a = a + 1;
        }
        assert(ops_view(ops@) =~= planned_ops(v, o, copy));
        ops
    }
}

/// Phase 1 handles a nested source before the source that contains it.
///
/// When the source of pair `p` is a strict ancestor of the source of pair
/// `q`, pair `q` comes first in the set, and so its phase-1 operation (at its
/// own position) comes first.
pub proof fn lemma_nested_sources_first(set: RenameSet, p: int, q: int)
    requires
        set.wf(),
        0 <= p < set@.len(),
        0 <= q < set@.len(),
        strict_ancestor(set@[p].0, set@[q].0),
    ensures
        q < p,
        planned_ops(set@, set.placement(), false)[q] == (set@[q].0, set@[q].1, false),
        planned_ops(set@, set.placement(), false)[p] == (set@[p].0, set@[p].1, false),
{
    let v = set@;
    if p < q {
        assert(depth(v[p].0) >= depth(v[q].0));
    }
    assert(p != q);
}

/// Phase 2 places a destination before any destination nested in it.
///
/// When the destination of pair `p` is a strict ancestor of the destination
/// of pair `q`, the place `a` of `p` in the phase-2 order comes before the
/// place `b` of `q`, and the operations there bring each pair to its
/// destination.
pub proof fn lemma_enclosing_destinations_first(set: RenameSet, p: int, q: int, a: int, b: int, copy: bool)
    requires
        set.wf(),
        0 <= p < set@.len(),
        0 <= q < set@.len(),
        strict_ancestor(set@[p].2, set@[q].2),
        0 <= a < set@.len(),
        0 <= b < set@.len(),
        set.placement()[a] == p,
        set.placement()[b] == q,
    ensures
        a < b,
        phase_two_position(set@.len() as int, a, copy) < phase_two_position(set@.len() as int, b, copy),
        planned_ops(set@, set.placement(), copy)[phase_two_position(set@.len() as int, a, copy)].1
            == set@[p].2,
        planned_ops(set@, set.placement(), copy)[phase_two_position(set@.len() as int, b, copy)].1
            == set@[q].2,
{
    let v = set@;
    let o = set.placement();
    if b < a {
        assert(depth(v[o[b]].2) <= depth(v[o[a]].2));
    }
    assert(a != b);
}

/// No scratch path is a source or a destination, or lies in the subtree of
/// one, or holds one in its own subtree: phase 1 overwrites nothing.
pub proof fn lemma_scratch_apart(set: RenameSet, i: int, j: int)
    requires
        set.wf(),
        0 <= i < set@.len(),
        0 <= j < set@.len(),
    ensures
        set@[i].1 != set@[j].0,
        set@[i].1 != set@[j].2,
        disjoint(set@[i].1, set@[j].0),
        disjoint(set@[i].1, set@[j].2),
{
    let v = set@;
    assert(disjoint(v[i].1, v[j].0));
    assert(disjoint(v[i].1, v[j].2));
    let c = crate::path::components(v[i].1);
    assert(c.subrange(0, c.len() as int) =~= c);
}

/// Every scratch path differs from every source and destination.
pub proof fn lemma_scratch_apart_all(set: RenameSet)
    requires
        set.wf(),
    ensures
        forall|i: int, j: int|
            0 <= i < set@.len() && 0 <= j < set@.len() ==> (#[trigger] set@[i]).1 != (
            #[trigger] set@[j]).0 && set@[i].1 != set@[j].2,
{
    assert forall|i: int, j: int| 0 <= i < set@.len() && 0 <= j < set@.len() implies (
    #[trigger] set@[i]).1 != (#[trigger] set@[j]).0 && set@[i].1 != set@[j].2 by {
        lemma_scratch_apart(set, i, j);
    }
}

/// What a stat of a path found.
#[derive(Clone, Copy, Debug, PartialEq, Eq)]
pub enum PathKind {
    File,
    Directory,
}

/// A single filesystem primitive.
#[derive(Debug, PartialEq, Eq)]
pub enum Step {
    /// Create one directory.
    CreateDir(String),
    /// Create a directory and any missing parents.
    CreateDirAll(String),
    /// Copy the contents of a file to a new file.
    CopyFile(String, String),
    /// Remove an empty directory.
    RemoveDir(String),
    /// Remove a file.
    RemoveFile(String),
}

/// The primitives that carry out `op` on an entry of kind `kind` where a
/// plain rename is not available: a file is copied, a directory is created
/// anew, and unless the source is kept the origin is then removed.
pub fn fallback_steps(op: &Op, kind: PathKind) -> (r: Vec<Step>)
    ensures
        kind == PathKind::File ==> {
            &&& r@.len() == (if op.keep_source { 1int } else { 2 })
            &&& r@[0] matches Step::CopyFile(a, b) && a@ == op.from@ && b@ == op.to@
            &&& !op.keep_source ==> (r@[1] matches Step::RemoveFile(c) && c@ == op.from@)
        },
        kind == PathKind::Directory ==> {
            &&& r@.len() == (if op.keep_source { 1int } else { 2 })
            &&& r@[0] matches Step::CreateDir(b) && b@ == op.to@
            &&& !op.keep_source ==> (r@[1] matches Step::RemoveDir(c) && c@ == op.from@)
        },
{
    let mut r: Vec<Step> = Vec::new();
    match kind {
        PathKind::File => {
            r.push(Step::CopyFile(op.from.clone(), op.to.clone()));
            if !op.keep_source {
                r.push(Step::RemoveFile(op.from.clone()));
            }
        },
        PathKind::Directory => {
            r.push(Step::CreateDir(op.to.clone()));
            if !op.keep_source {
                r.push(Step::RemoveDir(op.from.clone()));
            }
        },
    }
    r
}

/// Where the backup of `src` goes under the backup directory `root`: the
/// absolute path of `src` repeated below `root`.
pub open spec fn backup_target(root: Seq<char>, src: Seq<char>) -> Seq<char> {
    normalized(root + seq!['/'] + src)
}

/// The directory that holds the backup of `src`.
pub open spec fn backup_parent(root: Seq<char>, src: Seq<char>) -> Seq<char> {
    normalized(root + seq!['/'] + src + seq!['/', '.', '.'])
}

/// The primitives that back up `src` under `root`: a directory is recreated
/// (without its contents); a file is copied, after its parent directories are
/// created.
pub fn backup_steps(root: &str, src: &str, kind: PathKind) -> (r: Vec<Step>)
    ensures
        kind == PathKind::Directory ==> {
            &&& r@.len() == 1
            &&& r@[0] matches Step::CreateDirAll(d) && d@ == backup_target(root@, src@)
        },
        kind == PathKind::File ==> {
            &&& r@.len() == 2
            &&& r@[0] matches Step::CreateDirAll(d) && d@ == backup_parent(root@, src@)
            &&& r@[1] matches Step::CopyFile(a, b) && a@ == src@ && b@ == backup_target(root@, src@)
        },
{
    let mut target = root.to_owned();
    target.append("/");
    target.append(src);
    proof {
        reveal_strlit("/");
        assert(target@ =~= root@ + seq!['/'] + src@);
    }
    let dest = crate::path::normalize_path(target.as_str());
    let mut r: Vec<Step> = Vec::new();
    match kind {
        PathKind::Directory => {
            r.push(Step::CreateDirAll(dest));
        },
        PathKind::File => {
            let mut up = target.clone();
            up.append("/..");
            proof {
                reveal_strlit("/..");
                assert(up@ =~= root@ + seq!['/'] + src@ + seq!['/', '.', '.']);
            }
            r.push(Step::CreateDirAll(crate::path::normalize_path(up.as_str())));
            r.push(Step::CopyFile(src.to_owned(), dest));
        },
    }
    r
}

/// The verb that reports a phase-2 action.
pub open spec fn verb(copy: bool) -> Seq<char> {
    if copy {
        seq!['c', 'o', 'p', 'i', 'e', 'd']
    } else {
        seq!['r', 'e', 'n', 'a', 'm', 'e', 'd']
    }
}

/// The report of an action: `<verb> '<from>' -> '<to>'`.
pub open spec fn action_text(copy: bool, from: Seq<char>, to: Seq<char>) -> Seq<char> {
    verb(copy) + seq![' ', '\''] + from + seq!['\'', ' ', '-', '>', ' ', '\''] + to + seq!['\'']
}

/// The report of the action that brings `from` to `to`.
pub fn action_line(copy: bool, from: &str, to: &str) -> (r: String)
    ensures
        r@ == action_text(copy, from@, to@),
{
    let mut r = String::new();
    if copy {
        r.append("copied");
        proof {
            reveal_strlit("copied");
        }
    } else {
        r.append("renamed");
        proof {
            reveal_strlit("renamed");
        }
    }
    r.append(" '");
    r.append(from);
    r.append("' -> '");
    r.append(to);
    r.append("'");
    proof {
        reveal_strlit(" '");
        reveal_strlit("' -> '");
        reveal_strlit("'");
        assert(r@ =~= action_text(copy, from@, to@));
    }
    r
}

impl RenameSet {
    /// One report line per phase-2 action, in phase-2 order, naming the
    /// pair's source (not its scratch path) and its destination.
    pub fn report_lines(&self, copy: bool) -> (r: Vec<String>)
        requires
            self.wf(),
        ensures
            r@.len() == self@.len(),
            forall|k: int|
                0 <= k < r@.len() ==> (#[trigger] r@[k])@ == action_text(
                    copy,
                    self@[self.placement()[k]].0,
                    self@[self.placement()[k]].2,
                ),
    {
        let pairs = self.pairs();
        let order = self.placement_order();
        let ghost v = self@;
        let ghost o = self.placement();
        let n = pairs.len();
        let mut r: Vec<String> = Vec::new();
        let mut a: usize = 0;
        while a < n
            invariant
                n == pairs@.len(),
                v == pairs@.map_values(|p: RenamePair| p@),
                o == order@.map_values(|x: usize| x as int),
                crate::plan::is_order(o, n as int),
                a <= n,
                r@.len() == a,
                forall|k: int|
                    0 <= k < a ==> (#[trigger] r@[k])@ == action_text(copy, v[o[k]].0, v[o[k]].2),
            decreases n - a,
        {
            assert(0 <= o[a as int] < n);
            let i = order[a];
            assert(v[i as int] == pairs@[i as int]@);
            r.push(action_line(copy, pairs[i].src.as_str(), pairs[i].dst.as_str()));
            a = a + 1;
        }
        r
    }
}

} // verus!
