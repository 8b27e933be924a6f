//! The staged rename set: every pair gets a scratch path, and the pairs are
//! ordered deepest source first.

use vstd::prelude::*;
use itertools::Itertools;
use crate::moves::{dup_destinations, dup_sources, lemma_dups_cover, AddError, ConsError, Move};
use crate::path::{
    absolute, absolute_path, components, is_absolute, path_components, same_path, views,
};
use crate::moves::{has_first, has_second};
use crate::scratch::{
    decimal_string, disjoint, is_prefix, is_prefix_of, lemma_absolute_shape,
    lemma_scratch_components, lemma_scratch_disjoint, lemma_scratch_unique, scratch_path,
    within,
};

verus! {

broadcast use vstd::seq_lib::group_to_multiset_ensures;

/// One planned rename: the source, its scratch path and its destination.
pub struct RenamePair {
    pub src: String,
    pub scratch: String,
    pub dst: String,
}

impl View for RenamePair {
    type V = (Seq<char>, Seq<char>, Seq<char>);

    open spec fn view(&self) -> (Seq<char>, Seq<char>, Seq<char>) {
        (self.src@, self.scratch@, self.dst@)
    }
}

/// The number of components of a path.
pub open spec fn depth(s: Seq<char>) -> nat {
    components(s).len()
}

/// What the pairs of a batch leave behind, added one by one as [`Move::add`]
/// does: the sources seen (with their first destination), the accepted pairs,
/// and the duplicate sources and destinations.
pub struct Batch {
    pub sources: Seq<(Seq<char>, Seq<char>)>,
    pub accepted: Seq<(Seq<char>, Seq<char>)>,
    pub dup_srcs: Seq<Seq<char>>,
    pub dup_dsts: Seq<Seq<char>>,
}

pub open spec fn batch(ps: Seq<(Seq<char>, Seq<char>)>) -> Batch
    decreases ps.len(),
{
    if ps.len() == 0 {
        Batch { sources: seq![], accepted: seq![], dup_srcs: seq![], dup_dsts: seq![] }
    } else {
        let b = batch(ps.drop_last());
        let (s, d) = ps.last();
        if crate::moves::has_first(b.sources, s) {
            Batch { dup_srcs: b.dup_srcs.push(s), ..b }
        } else if crate::moves::has_second(b.accepted, d) {
            Batch { sources: b.sources.push((s, d)), dup_dsts: b.dup_dsts.push(d), ..b }
        } else {
            Batch { sources: b.sources.push((s, d)), accepted: b.accepted.push((s, d)), ..b }
        }
    }
}

/// The pairs of a batch, each path made absolute against `cwd` and normalized.
pub open spec fn absolute_pairs(cwd: Seq<char>, srcs: Seq<Seq<char>>, dsts: Seq<Seq<char>>) -> Seq<
    (Seq<char>, Seq<char>),
> {
    Seq::new(srcs.len(), |i: int| (absolute(cwd, srcs[i]), absolute(cwd, dsts[i])))
}

/// Whether position `k` occurs in `o`.
pub open spec fn placed(o: Seq<int>, k: int) -> bool {
    exists|i: int| 0 <= i < o.len() && o[i] == k
}

/// Whether `o` lists each of the positions `0..n` exactly once.
pub open spec fn is_order(o: Seq<int>, n: int) -> bool {
    &&& o.len() == n
    &&& forall|a: int| 0 <= a < n ==> 0 <= #[trigger] o[a] < n
    &&& forall|a: int, b: int| 0 <= a < b < n ==> #[trigger] o[a] != #[trigger] o[b]
    &&& forall|i: int| 0 <= i < n ==> #[trigger] placed(o, i)
}

/// A validated, staged and ordered set of renames.
pub struct RenameSet {
    pairs: Vec<RenamePair>,
    /// The order of phase 2: positions in `pairs`, shallowest destination first.
    placement: Vec<usize>,
    /// For each pair, its position among the accepted pairs of the batch.
    origin: Ghost<Seq<int>>,
}

impl View for RenameSet {
    type V = Seq<(Seq<char>, Seq<char>, Seq<char>)>;

    closed spec fn view(&self) -> Seq<(Seq<char>, Seq<char>, Seq<char>)> {
        self.pairs@.map_values(|p: RenamePair| p@)
    }
}

impl RenameSet {
    /// For each pair, its position in the order the pairs were given.
    pub closed spec fn origin(&self) -> Seq<int> {
        self.origin@
    }

    /// The order in which phase 2 places the pairs, as positions in the set.
    pub closed spec fn placement(&self) -> Seq<int> {
        self.placement@.map_values(|x: usize| x as int)
    }

    /// The invariants of a rename set.
    pub open spec fn wf(&self) -> bool {
        &&& self.pairs_wf()
        &&& is_order(self.placement(), self@.len() as int)
        // shallowest destination first
        &&& forall|a: int, b: int|
            0 <= a < b < self.placement().len() ==> depth(self@[#[trigger] self.placement()[a]].2)
                <= depth(self@[#[trigger] self.placement()[b]].2)
    }

    /// The invariants of the pairs of a rename set.
    pub open spec fn pairs_wf(&self) -> bool {
        let v = self@;
        let o = self.origin();
        &&& o.len() == v.len()
        &&& forall|i: int, j: int| 0 <= i < j < v.len() ==> o[i] != o[j]
        // deepest source first; equal depths in the order given
        &&& forall|i: int, j: int|
            0 <= i < j < v.len() ==> depth((#[trigger] v[i]).0) > depth((#[trigger] v[j]).0) || (
            depth(v[i].0) == depth(v[j].0) && o[i] < o[j])
        &&& forall|i: int|
            0 <= i < v.len() ==> is_absolute((#[trigger] v[i]).0) && is_absolute(v[i].1)
                && is_absolute(v[i].2)
        &&& forall|i: int, j: int|
            0 <= i < j < v.len() ==> (#[trigger] v[i]).0 != (#[trigger] v[j]).0 && v[i].1
                != v[j].1 && v[i].2 != v[j].2
        // scratch paths lie outside every source and destination subtree
        &&& forall|i: int, j: int|
            0 <= i < v.len() && 0 <= j < v.len() ==> disjoint((#[trigger] v[i]).1, (#[trigger] v[j]).0)
                && disjoint(v[i].1, v[j].2)
    }

    /// Whether this set stages exactly the pairs `acc`, with scratch paths
    /// numbered by position under `root`.
    pub open spec fn stages(&self, acc: Seq<(Seq<char>, Seq<char>)>, root: Seq<char>) -> bool {
        let v = self@;
        let o = self.origin();
        &&& v.len() == acc.len()
        &&& forall|i: int| 0 <= i < v.len() ==> 0 <= #[trigger] o[i] < acc.len()
        &&& forall|k: int| 0 <= k < acc.len() ==> #[trigger] placed(o, k)
        &&& forall|i: int|
            0 <= i < v.len() ==> #[trigger] v[i] == (acc[o[i]].0, scratch_path(root, o[i] as nat), acc[o[i]].1)
    }

    /// The pairs, deepest source first.
    pub fn pairs(&self) -> (r: &Vec<RenamePair>)
        ensures
            r@.map_values(|p: RenamePair| p@) == self@,
    {
        &self.pairs
    }

    /// The order of phase 2, as positions in the set.
    pub fn placement_order(&self) -> (r: &Vec<usize>)
        ensures
            r@.map_values(|x: usize| x as int) == self.placement(),
    {
        &self.placement
    }

    pub fn len(&self) -> (r: usize)
        ensures
            r == self@.len(),
    {
        self.pairs.len()
    }
}

/// Why a batch could not be planned.
pub enum BuildError {
    /// The numbers of sources and destinations differ.
    SourceDestinationCount,
    /// Some sources or destinations were listed more than once.
    Duplicates(ConsError<String>),
    /// The scratch directory lies inside a source or destination subtree, or
    /// contains one.
    ScratchConflict,
}

/// Relies on `Itertools::sorted_by_key`, which collects the items and sorts
/// them with the stable `slice::sort_by_key`: the result holds the same items,
/// largest first component first, and items with equal first components keep
/// their relative order.
#[verifier::external_body]
fn sort_deepest_first(items: Vec<(usize, usize)>) -> (r: Vec<(usize, usize)>)
    ensures
        r@.to_multiset() == items@.to_multiset(),
        forall|i: int, j: int| 0 <= i < j < r@.len() ==> (#[trigger] r@[i]).0 >= (#[trigger] r@[j]).0,
        (forall|i: int, j: int| 0 <= i < j < items@.len() ==> (#[trigger] items@[i]).1 < (#[trigger] items@[j]).1)
            ==> forall|i: int, j: int|
            0 <= i < j < r@.len() && (#[trigger] r@[i]).0 == (#[trigger] r@[j]).0 ==> r@[i].1 < r@[j].1,
{
    items.into_iter().sorted_by_key(|x| std::cmp::Reverse(x.0)).collect()
}

/// The second members of `r`.
pub open spec fn seconds(r: Seq<(usize, usize)>) -> Seq<int> {
    Seq::new(r.len(), |i: int| r[i].1 as int)
}

/// A sorted arrangement of numbered items is a permutation of them.
proof fn lemma_sorted_permutation(items: Seq<(usize, usize)>, r: Seq<(usize, usize)>)
    requires
        forall|k: int| 0 <= k < items.len() ==> (#[trigger] items[k]).1 == k,
        r.to_multiset() == items.to_multiset(),
    ensures
        r.len() == items.len(),
        forall|i: int|
            0 <= i < r.len() ==> 0 <= (#[trigger] r[i]).1 < items.len() && r[i] == items[r[i].1 as int],
        forall|i: int, j: int| 0 <= i < j < r.len() ==> (#[trigger] r[i]).1 != (#[trigger] r[j]).1,
        forall|k: int| 0 <= k < items.len() ==> #[trigger] placed(seconds(r), k),
{
    assert(items.no_duplicates()) by {
        assert forall|i: int, j: int| 0 <= i < items.len() && 0 <= j < items.len() && i != j
            implies items[i] != items[j] by {
            assert(items[i].1 == i);
            assert(items[j].1 == j);
        }
    }
    items.lemma_multiset_has_no_duplicates();
    r.lemma_multiset_has_no_duplicates_conv();
    assert(r.len() == r.to_multiset().len());
    assert(items.len() == items.to_multiset().len());
    assert forall|i: int| 0 <= i < r.len() implies 0 <= (#[trigger] r[i]).1 < items.len()
        && r[i] == items[r[i].1 as int] by {
        assert(r.contains(r[i]));
        assert(r.to_multiset().count(r[i]) > 0);
        assert(items.contains(r[i]));
        let k = choose|k: int| 0 <= k < items.len() && items[k] == r[i];
        assert(items[k].1 == k);
    }
    let o = seconds(r);
    assert forall|k: int| 0 <= k < items.len() implies #[trigger] placed(o, k) by {
        assert(items.contains(items[k]));
        assert(items.to_multiset().count(items[k]) > 0);
        assert(r.contains(items[k]));
        let i = choose|i: int| 0 <= i < r.len() && r[i] == items[k];
        assert(o[i] == k);
    }
}

/// The scratch path numbered `k` under `root`, whose components are `root_cs`.
fn make_scratch(root: &String, root_cs: &Vec<String>, k: usize) -> (r: String)
    requires
        root@ == crate::path::rendered(true, components(root@)),
        views(root_cs@) == components(root@),
    ensures
        r@ == scratch_path(root@, k as nat),
{
    let ghost cs = components(root@);
    let name = decimal_string(k);
    let mut r = root.clone();
    if root_cs.len() > 0 {
        r.append("/");
        proof {
            reveal_strlit("/");
        }
    }
    r.append(name.as_str());
    proof {
        let full = cs.push(name@);
        assert(full.drop_last() =~= cs);
        if cs.len() == 0 {
            assert(crate::path::joined(cs) =~= Seq::<char>::empty());
            assert(r@ =~= seq!['/'] + crate::path::joined(full));
        } else {
            assert(r@ =~= seq!['/'] + crate::path::joined(full));
        }
    }
    r
}

/// The invariant of the pairs accepted from a batch, as [`stage`] needs it.
pub open spec fn stageable(root: Seq<char>, acc: Seq<(Seq<char>, Seq<char>)>) -> bool {
    &&& crate::moves::firsts_unique(acc)
    &&& crate::moves::seconds_unique(acc)
    &&& forall|k: int| 0 <= k < acc.len() ==> is_absolute((#[trigger] acc[k]).0) && is_absolute(acc[k].1)
    &&& forall|k: int| 0 <= k < acc.len() ==> disjoint(root, (#[trigger] acc[k]).0) && disjoint(root, acc[k].1)
}

/// Give each accepted pair its scratch path and order the pairs deepest
/// source first.
fn stage(root: &String, acc: &Vec<(String, String)>) -> (set: RenameSet)
    requires
        is_absolute(root@),
        root@ == crate::path::rendered(true, components(root@)),
        stageable(root@, crate::moves::pairs_view(acc@)),
    ensures
        set.wf(),
        set.stages(crate::moves::pairs_view(acc@), root@),
{
    let ghost av = crate::moves::pairs_view(acc@);
    let root_cs = path_components(root.as_str());
    let mut items: Vec<(usize, usize)> = Vec::new();
    let mut k: usize = 0;
    while k < acc.len()
        invariant
            k <= acc.len(),
            av == crate::moves::pairs_view(acc@),
            items@.len() == k,
            forall|j: int| 0 <= j < k ==> (#[trigger] items@[j]).1 == j,
            forall|j: int| 0 <= j < k ==> depth(av[j].0) == (#[trigger] items@[j]).0,
        decreases acc.len() - k,
    {
        let cs = path_components(acc[k].0.as_str());
        items.push((cs.len(), k));
        k = k + 1;
    }
    let ghost iv = items@;
    let sorted = sort_deepest_first(items);
    proof {
        lemma_sorted_permutation(iv, sorted@);
    }
    let ghost origin = seconds(sorted@);
    let mut pairs: Vec<RenamePair> = Vec::new();
    let mut i: usize = 0;
    while i < sorted.len()
        invariant
            i <= sorted.len(),
            sorted@.len() == av.len(),
            av == crate::moves::pairs_view(acc@),
            views(root_cs@) == components(root@),
            root@ == crate::path::rendered(true, components(root@)),
            origin == seconds(sorted@),
            forall|j: int| 0 <= j < sorted@.len() ==> 0 <= #[trigger] origin[j] < av.len(),
            pairs@.len() == i,
            forall|j: int|
                0 <= j < i ==> #[trigger] pairs@[j]@ == (av[origin[j]].0, scratch_path(
                    root@,
                    origin[j] as nat,
                ), av[origin[j]].1),
        decreases sorted.len() - i,
    {
        let k = sorted[i].1;
        assert(origin[i as int] == k);
        let src = acc[k].0.clone();
        let dst = acc[k].1.clone();
        let scratch = make_scratch(root, &root_cs, k);
        pairs.push(RenamePair { src, scratch, dst });
        i = i + 1;
    }
    let placement = phase_two_order(&pairs);
    let set = RenameSet { pairs, placement, origin: Ghost(origin) };
    proof {
        let v = set@;
        assert(v.len() == av.len());
        assert forall|j: int| 0 <= j < v.len() implies #[trigger] v[j] == (av[origin[j]].0, scratch_path(
            root@,
            origin[j] as nat,
        ), av[origin[j]].1) by {
            assert(v[j] == pairs@[j]@);
        }
        lemma_staged_wf(set, av, root@, iv, sorted@);
    }
    set
}

/// The order of phase 2 for `pairs`: ascending destination depth.
fn phase_two_order(pairs: &Vec<RenamePair>) -> (r: Vec<usize>)
    ensures
        is_order(r@.map_values(|x: usize| x as int), pairs@.len() as int),
        forall|a: int, b: int|
            0 <= a < b < r@.len() ==> depth(pairs@[#[trigger] r@[a] as int].dst@) <= depth(
                pairs@[#[trigger] r@[b] as int].dst@,
            ),
{
    let n = pairs.len();
    let mut items: Vec<(usize, usize)> = Vec::new();
    let mut k: usize = 0;
    while k < n
        invariant
            n == pairs@.len(),
            k <= n,
            items@.len() == k,
            forall|j: int| 0 <= j < k ==> (#[trigger] items@[j]).1 == j,
            forall|j: int| 0 <= j < k ==> depth(pairs@[j].dst@) == (#[trigger] items@[j]).0,
        decreases n - k,
    {
        let cs = path_components(pairs[k].dst.as_str());
        items.push((cs.len(), k));
        k = k + 1;
    }
    let ghost iv = items@;
    let sorted = sort_deepest_first(items);
    proof {
        lemma_sorted_permutation(iv, sorted@);
    }
    let mut r: Vec<usize> = Vec::new();
    let mut a: usize = 0;
    while a < n
        invariant
            n == pairs@.len(),
            sorted@.len() == n,
            a <= n,
            r@.len() == a,
            forall|j: int| 0 <= j < a ==> #[trigger] r@[j] == sorted@[n - 1 - j].1,
        decreases n - a,
    {
        r.push(sorted[n - 1 - a].1);
        a = a + 1;
    }
    proof {
        let sv = sorted@;
        let o = r@.map_values(|x: usize| x as int);
        assert forall|x: int| 0 <= x < n implies 0 <= #[trigger] o[x] < n by {
            assert(o[x] == sv[n - 1 - x].1);
        }
        assert forall|x: int, y: int| 0 <= x < y < n implies #[trigger] o[x] != #[trigger] o[y] by {
            assert(o[x] == sv[n - 1 - x].1);
            assert(o[y] == sv[n - 1 - y].1);
        }
        assert forall|i: int| 0 <= i < n implies #[trigger] placed(o, i) by {
            assert(placed(seconds(sv), i));
            let c = choose|c: int| 0 <= c < seconds(sv).len() && seconds(sv)[c] == i;
            assert(o[n - 1 - c] == sv[c].1);
        }
        assert forall|x: int, y: int| 0 <= x < y < r@.len() implies depth(
            pairs@[#[trigger] r@[x] as int].dst@,
        ) <= depth(pairs@[#[trigger] r@[y] as int].dst@) by {
            let cx = n - 1 - x;
            let cy = n - 1 - y;
            assert(sv[cy].0 >= sv[cx].0);
            assert(sv[cx] == iv[sv[cx].1 as int]);
            assert(sv[cy] == iv[sv[cy].1 as int]);
        }
    }
    r
}

proof fn lemma_staged_wf(
    set: RenameSet,
    av: Seq<(Seq<char>, Seq<char>)>,
    root: Seq<char>,
    iv: Seq<(usize, usize)>,
    sv: Seq<(usize, usize)>,
)
    requires
        is_absolute(root),
        stageable(root, av),
        iv.len() == av.len(),
        forall|j: int| 0 <= j < iv.len() ==> (#[trigger] iv[j]).1 == j,
        forall|j: int| 0 <= j < iv.len() ==> depth(av[j].0) == (#[trigger] iv[j]).0,
        sv.len() == iv.len(),
        forall|i: int|
            0 <= i < sv.len() ==> 0 <= (#[trigger] sv[i]).1 < iv.len() && sv[i] == iv[sv[i].1 as int],
        forall|i: int, j: int| 0 <= i < j < sv.len() ==> (#[trigger] sv[i]).1 != (#[trigger] sv[j]).1,
        forall|k: int| 0 <= k < iv.len() ==> #[trigger] placed(seconds(sv), k),
        forall|i: int, j: int| 0 <= i < j < sv.len() ==> (#[trigger] sv[i]).0 >= (#[trigger] sv[j]).0,
        (forall|i: int, j: int| 0 <= i < j < iv.len() ==> (#[trigger] iv[i]).1 < (#[trigger] iv[j]).1)
            ==> forall|i: int, j: int|
            0 <= i < j < sv.len() && (#[trigger] sv[i]).0 == (#[trigger] sv[j]).0 ==> sv[i].1 < sv[j].1,
        set.origin() == seconds(sv),
        set@.len() == av.len(),
        forall|j: int|
            0 <= j < set@.len() ==> #[trigger] set@[j] == (av[set.origin()[j]].0, scratch_path(
                root,
                set.origin()[j] as nat,
            ), av[set.origin()[j]].1),
    ensures
        set.pairs_wf(),
        set.stages(av, root),
{
    let v = set@;
    let o = set.origin();
    assert forall|i: int, j: int| 0 <= i < j < iv.len() implies (#[trigger] iv[i]).1 < (
    #[trigger] iv[j]).1 by {
        assert(iv[i].1 == i);
        assert(iv[j].1 == j);
    }
    assert forall|i: int, j: int| 0 <= i < j < v.len() implies depth((#[trigger] v[i]).0) > depth(
        (#[trigger] v[j]).0,
    ) || (depth(v[i].0) == depth(v[j].0) && o[i] < o[j]) by {
        assert(sv[i] == iv[sv[i].1 as int]);
        assert(sv[j] == iv[sv[j].1 as int]);
        assert(o[i] == sv[i].1);
        assert(o[j] == sv[j].1);
        assert(sv[i].0 >= sv[j].0);
    }
    assert forall|i: int| 0 <= i < v.len() implies is_absolute((#[trigger] v[i]).0) && is_absolute(
        v[i].1,
    ) && is_absolute(v[i].2) by {
        assert(o[i] == sv[i].1);
        lemma_scratch_components(root, o[i] as nat);
        let k = o[i];
        assert(is_absolute(av[k].0));
    }
    assert forall|i: int, j: int| 0 <= i < j < v.len() implies (#[trigger] v[i]).0 != (
    #[trigger] v[j]).0 && v[i].1 != v[j].1 && v[i].2 != v[j].2 by {
        assert(o[i] == sv[i].1);
        assert(o[j] == sv[j].1);
        assert(o[i] != o[j]);
        if v[i].1 == v[j].1 {
            lemma_scratch_unique(root, o[i] as nat, o[j] as nat);
        }
        if o[i] < o[j] {
            assert(av[o[i]].0 != av[o[j]].0);
            assert(av[o[i]].1 != av[o[j]].1);
        } else {
            assert(av[o[j]].0 != av[o[i]].0);
            assert(av[o[j]].1 != av[o[i]].1);
        }
    }
    assert forall|i: int, j: int| 0 <= i < v.len() && 0 <= j < v.len() implies disjoint(
        (#[trigger] v[i]).1,
        (#[trigger] v[j]).0,
    ) && disjoint(v[i].1, v[j].2) by {
        assert(o[i] == sv[i].1);
        assert(o[j] == sv[j].1);
        let kj = o[j];
        assert(disjoint(root, av[kj].0) && disjoint(root, av[kj].1));
        lemma_scratch_disjoint(root, o[i] as nat, av[kj].0);
        lemma_scratch_disjoint(root, o[i] as nat, av[kj].1);
    }
    assert forall|i: int, j: int| 0 <= i < j < v.len() implies o[i] != o[j] by {
        assert(o[i] == sv[i].1);
        assert(o[j] == sv[j].1);
    }
    assert forall|i: int| 0 <= i < v.len() implies 0 <= #[trigger] o[i] < av.len() by {
        assert(o[i] == sv[i].1);
    }
    assert forall|k: int| 0 <= k < av.len() implies #[trigger] placed(o, k) by {
        assert(placed(seconds(sv), k));
    }
}

/// The batch after adding each pair, made absolute, to a fresh [`Move`].
fn collect_pairs(cwd: &str, srcs: &Vec<String>, dsts: &Vec<String>) -> (r: (
    Move,
    Vec<AddError<String>>,
))
    requires
        srcs.len() == dsts.len(),
    ensures
        r.0.wf(),
        r.0.sources() == batch(absolute_pairs(cwd@, views(srcs@), views(dsts@))).sources,
        r.0.accepted() == batch(absolute_pairs(cwd@, views(srcs@), views(dsts@))).accepted,
        views(dup_sources(r.1@)) == batch(absolute_pairs(cwd@, views(srcs@), views(dsts@))).dup_srcs,
        views(dup_destinations(r.1@)) == batch(
            absolute_pairs(cwd@, views(srcs@), views(dsts@)),
        ).dup_dsts,
{
    let ghost ps = absolute_pairs(cwd@, views(srcs@), views(dsts@));
    let mut mv = Move::new();
    let mut errs: Vec<AddError<String>> = Vec::new();
    let mut i: usize = 0;
    assert(ps.subrange(0, 0) =~= Seq::<(Seq<char>, Seq<char>)>::empty());
    assert(views(Seq::<String>::empty()) =~= Seq::<Seq<char>>::empty());
    while i < srcs.len()
        invariant
            srcs.len() == dsts.len(),
            i <= srcs.len(),
            ps == absolute_pairs(cwd@, views(srcs@), views(dsts@)),
            mv.wf(),
            mv.sources() == batch(ps.subrange(0, i as int)).sources,
            mv.accepted() == batch(ps.subrange(0, i as int)).accepted,
            views(dup_sources(errs@)) == batch(ps.subrange(0, i as int)).dup_srcs,
            views(dup_destinations(errs@)) == batch(ps.subrange(0, i as int)).dup_dsts,
        decreases srcs.len() - i,
    {
        let s = absolute_path(cwd, srcs[i].as_str());
        let d = absolute_path(cwd, dsts[i].as_str());
        let ghost prev = ps.subrange(0, i as int);
        let ghost e0 = errs@;
        proof {
            assert(ps.subrange(0, i + 1).drop_last() =~= prev);
            assert(ps[i as int] == (s@, d@));
        }
        match mv.add(s, d) {
            Ok(()) => {},
            Err(e) => {
                errs.push(e);
                proof {
                    assert(errs@.drop_last() =~= e0);
                    match errs@.last() {
                        AddError::DupSrc { src, .. } => {
                            assert(views(dup_sources(e0).push(src)) =~= views(dup_sources(e0)).push(
                                src@,
                            ));
                        },
                        AddError::DupDst { dst, .. } => {
                            assert(views(dup_destinations(e0).push(dst)) =~= views(
                                dup_destinations(e0),
                            ).push(dst@));
                        },
                    }
                }
            },
        }
        i = i + 1;
    }
    assert(ps.subrange(0, srcs.len() as int) =~= ps);
    (mv, errs)
}

/// Whether `root` lies outside every source and destination subtree of `acc`,
/// and they outside its own.
fn scratch_clear(root: &String, acc: &Vec<(String, String)>) -> (r: bool)
    requires
        is_absolute(root@),
        forall|k: int|
            0 <= k < acc@.len() ==> is_absolute((#[trigger] acc@[k]).0@) && is_absolute(acc@[k].1@),
    ensures
        r == forall|k: int|
            0 <= k < acc@.len() ==> disjoint(root@, (#[trigger] acc@[k]).0@) && disjoint(
                root@,
                acc@[k].1@,
            ),
{
    let root_cs = path_components(root.as_str());
    let mut k: usize = 0;
    while k < acc.len()
        invariant
            k <= acc.len(),
            is_absolute(root@),
            views(root_cs@) == components(root@),
            forall|j: int|
                0 <= j < acc@.len() ==> is_absolute((#[trigger] acc@[j]).0@) && is_absolute(
                    acc@[j].1@,
                ),
            forall|j: int|
                0 <= j < k ==> disjoint(root@, (#[trigger] acc@[j]).0@) && disjoint(
                    root@,
                    acc@[j].1@,
                ),
        decreases acc.len() - k,
    {
        let s_cs = path_components(acc[k].0.as_str());
        let d_cs = path_components(acc[k].1.as_str());
        if is_prefix_of(&root_cs, &s_cs) || is_prefix_of(&s_cs, &root_cs) || is_prefix_of(
            &root_cs,
            &d_cs,
        ) || is_prefix_of(&d_cs, &root_cs) {
            assert(!(disjoint(root@, acc@[k as int].0@) && disjoint(root@, acc@[k as int].1@)));
            return false;
        }
        k = k + 1;
    }
    true
}

/// Plan a batch of renames.
///
/// Each source and destination is made absolute against `cwd` and normalized;
/// the pairs are then added in order as [`Move::add`] does.  Every duplicate
/// source and destination is reported at once.  The scratch directory
/// `scratch_root` (made absolute the same way) must lie outside every source
/// and destination subtree and hold none of them.  The pairs are numbered in
/// the order they were accepted, pair `k` is staged at `scratch_root/k`, and
/// the set is ordered deepest source first, equal depths in the order given.
pub fn build(cwd: &str, scratch_root: &str, srcs: &Vec<String>, dsts: &Vec<String>) -> (r: Result<
    RenameSet,
    BuildError,
>)
    requires
        is_absolute(cwd@),
    ensures
        (srcs.len() != dsts.len()) <==> r matches Err(BuildError::SourceDestinationCount),
        srcs.len() == dsts.len() ==> {
            let b = batch(absolute_pairs(cwd@, views(srcs@), views(dsts@)));
            let root = absolute(cwd@, scratch_root@);
            &&& (b.dup_srcs.len() > 0 || b.dup_dsts.len() > 0) <==> (r matches Err(
                BuildError::Duplicates(_),
            ))
            &&& (r matches Err(BuildError::Duplicates(e)) ==> views(e.sources()) == b.dup_srcs
                && views(e.destinations()) == b.dup_dsts)
            &&& (r matches Err(BuildError::ScratchConflict)) <==> (b.dup_srcs.len() == 0
                && b.dup_dsts.len() == 0 && exists|k: int|
                0 <= k < b.accepted.len() && !(disjoint(root, (#[trigger] b.accepted[k]).0)
                    && disjoint(root, b.accepted[k].1)))
            &&& (r matches Ok(set) ==> set.wf() && set.stages(b.accepted, root))
        },
{
    if srcs.len() != dsts.len() {
        return Err(BuildError::SourceDestinationCount);
    }
    let ghost ps = absolute_pairs(cwd@, views(srcs@), views(dsts@));
    let ghost b = batch(ps);
    let (mv, errs) = collect_pairs(cwd, srcs, dsts);
    let ghost ev = errs@;
    proof {
        lemma_dups_cover(ev);
    }
    match ConsError::from_iter(errs) {
        Err(e) => {
            return Err(BuildError::Duplicates(e));
        },
        Ok(()) => {},
    }
    assert(b.dup_srcs.len() == 0 && b.dup_dsts.len() == 0);
    let root = absolute_path(cwd, scratch_root);
    let acc = mv.pairs();
    proof {
        lemma_absolute_shape(cwd@, scratch_root@);
        lemma_accepted_absolute(cwd@, views(srcs@), views(dsts@));
    }
    let ghost av = crate::moves::pairs_view(acc@);
    assert forall|k: int| 0 <= k < acc@.len() implies is_absolute((#[trigger] acc@[k]).0@)
        && is_absolute(acc@[k].1@) by {
        assert(av[k] == crate::moves::pair_view(acc@[k]));
    }
    if !scratch_clear(&root, acc) {
        proof {
            let k = choose|k: int|
                0 <= k < acc@.len() && !(disjoint(root@, (#[trigger] acc@[k]).0@) && disjoint(
                    root@,
                    acc@[k].1@,
                ));
            assert(av[k] == crate::moves::pair_view(acc@[k]));
        }
        return Err(BuildError::ScratchConflict);
    }
    proof {
        assert forall|k: int| 0 <= k < av.len() implies disjoint(root@, (#[trigger] av[k]).0)
            && disjoint(root@, av[k].1) by {
            assert(av[k] == crate::moves::pair_view(acc@[k]));
        }
        assert(!exists|k: int|
            0 <= k < b.accepted.len() && !(disjoint(root@, (#[trigger] b.accepted[k]).0)
                && disjoint(root@, b.accepted[k].1)));
    }
    Ok(stage(&root, acc))
}

/// Every path of a batch made absolute against an absolute directory is absolute.
proof fn lemma_accepted_absolute(cwd: Seq<char>, srcs: Seq<Seq<char>>, dsts: Seq<Seq<char>>)
    requires
        is_absolute(cwd),
        srcs.len() == dsts.len(),
    ensures
        forall|k: int|
            0 <= k < batch(absolute_pairs(cwd, srcs, dsts)).accepted.len() ==> is_absolute(
                (#[trigger] batch(absolute_pairs(cwd, srcs, dsts)).accepted[k]).0,
            ) && is_absolute(batch(absolute_pairs(cwd, srcs, dsts)).accepted[k].1),
{
    let ps = absolute_pairs(cwd, srcs, dsts);
    assert forall|i: int| 0 <= i < ps.len() implies is_absolute((#[trigger] ps[i]).0)
        && is_absolute(ps[i].1) by {
        lemma_absolute_shape(cwd, srcs[i]);
        lemma_absolute_shape(cwd, dsts[i]);
    }
    lemma_batch_absolute(ps);
}

proof fn lemma_batch_absolute(ps: Seq<(Seq<char>, Seq<char>)>)
    requires
        forall|i: int| 0 <= i < ps.len() ==> is_absolute((#[trigger] ps[i]).0) && is_absolute(ps[i].1),
    ensures
        forall|k: int|
            0 <= k < batch(ps).accepted.len() ==> is_absolute((#[trigger] batch(ps).accepted[k]).0)
                && is_absolute(batch(ps).accepted[k].1),
    decreases ps.len(),
{
    if ps.len() > 0 {
        let q = ps.drop_last();
        assert forall|i: int| 0 <= i < q.len() implies is_absolute((#[trigger] q[i]).0)
            && is_absolute(q[i].1) by {
            assert(q[i] == ps[i]);
        }
        lemma_batch_absolute(q);
        let a = batch(q).accepted;
        let l = ps.last();
        assert(is_absolute(ps[ps.len() - 1].0));
        assert forall|k: int| 0 <= k < a.push(l).len() implies is_absolute(
            (#[trigger] a.push(l)[k]).0,
        ) && is_absolute(a.push(l)[k].1) by {
            if k < a.len() {
                assert(a.push(l)[k] == a[k]);
            }
        }
    }
}

/// Adding more pairs keeps every seen source, every accepted destination
/// and every reported duplicate.
proof fn lemma_batch_grows(ps: Seq<(Seq<char>, Seq<char>)>, t: int)
    requires
        0 <= t <= ps.len(),
    ensures
        batch(ps.subrange(0, t)).dup_srcs.len() <= batch(ps).dup_srcs.len(),
        batch(ps.subrange(0, t)).dup_dsts.len() <= batch(ps).dup_dsts.len(),
        forall|s: Seq<char>|
            #[trigger] has_first(batch(ps.subrange(0, t)).sources, s) ==> has_first(batch(ps).sources, s),
        forall|d: Seq<char>|
            #[trigger] has_second(batch(ps.subrange(0, t)).accepted, d) ==> has_second(
                batch(ps).accepted,
                d,
            ),
    decreases ps.len(),
{
    if t == ps.len() {
        assert(ps.subrange(0, t) =~= ps);
    } else {
        let q = ps.drop_last();
        lemma_batch_grows(q, t);
        assert(q.subrange(0, t) =~= ps.subrange(0, t));
        let b0 = batch(q);
        let b = batch(ps);
        assert forall|s: Seq<char>| has_first(b0.sources, s) implies has_first(b.sources, s) by {
            let k = choose|k: int| 0 <= k < b0.sources.len() && same_path((#[trigger] b0.sources[k]).0, s);
            if b.sources != b0.sources {
                assert(b.sources[k] == b0.sources[k]);
            }
        }
        assert forall|d: Seq<char>| has_second(b0.accepted, d) implies has_second(b.accepted, d) by {
            let k = choose|k: int| 0 <= k < b0.accepted.len() && same_path((#[trigger] b0.accepted[k]).1, d);
            if b.accepted != b0.accepted {
                assert(b.accepted[k] == b0.accepted[k]);
            }
        }
    }
}

/// After a pair is added, a duplicate has been reported, or the pair's source
/// is seen and its destination accepted.
proof fn lemma_batch_last(ps: Seq<(Seq<char>, Seq<char>)>)
    requires
        ps.len() > 0,
    ensures
        batch(ps).dup_srcs.len() > 0 || batch(ps).dup_dsts.len() > 0 || (has_first(
            batch(ps).sources,
            ps.last().0,
        ) && has_second(batch(ps).accepted, ps.last().1)),
        has_first(batch(ps.drop_last()).sources, ps.last().0) ==> batch(ps).dup_srcs.len() > 0,
        has_second(batch(ps.drop_last()).accepted, ps.last().1) ==> batch(ps).dup_srcs.len() > 0
            || batch(ps).dup_dsts.len() > 0,
{
    let b0 = batch(ps.drop_last());
    let b = batch(ps);
    let (s, d) = ps.last();
    if !has_first(b0.sources, s) && !has_second(b0.accepted, d) {
        assert(b.sources[b0.sources.len() as int] == (s, d));
        assert(b.accepted[b0.accepted.len() as int] == (s, d));
        assert(same_path(s, s) && same_path(d, d));
    }
}

/// A batch in which two pairs repeat a source, or two pairs repeat a
/// destination, once made absolute and normalized, reports a duplicate: `build`
/// then returns `Duplicates`, before anything is planned.
pub proof fn lemma_repeated_paths_rejected(
    cwd: Seq<char>,
    srcs: Seq<Seq<char>>,
    dsts: Seq<Seq<char>>,
    i: int,
    j: int,
)
    requires
        srcs.len() == dsts.len(),
        0 <= i < j < srcs.len(),
        absolute(cwd, srcs[i]) == absolute(cwd, srcs[j]) || absolute(cwd, dsts[i]) == absolute(
            cwd,
            dsts[j],
        ),
    ensures
        batch(absolute_pairs(cwd, srcs, dsts)).dup_srcs.len() > 0 || batch(
            absolute_pairs(cwd, srcs, dsts),
        ).dup_dsts.len() > 0,
{
    let ps = absolute_pairs(cwd, srcs, dsts);
    let q = ps.subrange(0, i + 1);
    let r = ps.subrange(0, j);
    let w = ps.subrange(0, j + 1);
    assert(q.last() == ps[i]);
    assert(w.last() == ps[j]);
    assert(w.drop_last() =~= r);
    lemma_batch_last(q);
    assert(r.subrange(0, i + 1) =~= q);
    lemma_batch_grows(r, i + 1);
    lemma_batch_grows(ps, j + 1);
    lemma_batch_last(w);
    let (si, di) = ps[i];
    let (sj, dj) = ps[j];
    if batch(q).dup_srcs.len() > 0 || batch(q).dup_dsts.len() > 0 {
        lemma_batch_grows(w, i + 1);
        assert(w.subrange(0, i + 1) =~= q);
    } else {
        assert(has_first(batch(r).sources, si));
        assert(has_second(batch(r).accepted, di));
        if si == sj {
            assert(has_first(batch(r).sources, sj));
        } else {
            assert(has_second(batch(r).accepted, dj));
        }
    }
}

} // verus!
