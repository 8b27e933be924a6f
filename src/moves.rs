//! Collecting source and destination pairs, with duplicate detection.

use vstd::prelude::*;
use crate::path::{paths_equal, same_path};

verus! {

/// An error arising in [`Move::add`].
pub enum AddError<P> {
    /// A single path is being used as a source for two moves.
    DupSrc { src: P, new: P, old: P },
    /// A single path is being used as a destination for two moves.
    DupDst { dst: P, new: P, old: P },
}

impl<P> AddError<P> {
    /// Map all contained paths to a different path type.
    pub fn map_paths<N, F: Fn(P) -> N>(self, f: F) -> (r: AddError<N>)
        requires
            forall|p: P| f.requires((p,)),
        ensures
            match (self, r) {
                (AddError::DupSrc { src, new, old }, AddError::DupSrc { src: s2, new: n2, old: o2 }) => {
                    &&& f.ensures((src,), s2)
                    &&& f.ensures((new,), n2)
                    &&& f.ensures((old,), o2)
                },
                (AddError::DupDst { dst, new, old }, AddError::DupDst { dst: d2, new: n2, old: o2 }) => {
                    &&& f.ensures((dst,), d2)
                    &&& f.ensures((new,), n2)
                    &&& f.ensures((old,), o2)
                },
                _ => false,
            },
    {
        match self {
            AddError::DupSrc { src, new, old } => AddError::DupSrc {
                src: f(src),
                new: f(new),
                old: f(old),
            },
            AddError::DupDst { dst, new, old } => AddError::DupDst {
                dst: f(dst),
                new: f(new),
                old: f(old),
            },
        }
    }
}

/// The sources named by the duplicate-source errors of `errs`, in order.
pub open spec fn dup_sources<P>(errs: Seq<AddError<P>>) -> Seq<P>
    decreases errs.len(),
{
    if errs.len() == 0 {
        seq![]
    } else {
        let rest = dup_sources(errs.drop_last());
        match errs.last() {
            AddError::DupSrc { src, .. } => rest.push(src),
            AddError::DupDst { .. } => rest,
        }
    }
}

/// The destinations named by the duplicate-destination errors of `errs`, in order.
pub open spec fn dup_destinations<P>(errs: Seq<AddError<P>>) -> Seq<P>
    decreases errs.len(),
{
    if errs.len() == 0 {
        seq![]
    } else {
        let rest = dup_destinations(errs.drop_last());
        match errs.last() {
            AddError::DupSrc { .. } => rest,
            AddError::DupDst { dst, .. } => rest.push(dst),
        }
    }
}

/// An error arising from constructing a [`Move`]: every duplicate source and
/// every duplicate destination of the batch.
pub struct ConsError<P> {
    /// A list of duplicate sources.
    dup_srcs: Vec<P>,
    /// A list of duplicate destinations.
    dup_dsts: Vec<P>,
}

impl<P> ConsError<P> {
    pub closed spec fn sources(&self) -> Seq<P> {
        self.dup_srcs@
    }

    pub closed spec fn destinations(&self) -> Seq<P> {
        self.dup_dsts@
    }

    /// The duplicate sources.
    pub fn dup_srcs(&self) -> (r: &Vec<P>)
        ensures
            r@ == self.sources(),
    {
        &self.dup_srcs
    }

    /// The duplicate destinations.
    pub fn dup_dsts(&self) -> (r: &Vec<P>)
        ensures
            r@ == self.destinations(),
    {
        &self.dup_dsts
    }

    /// Whether this is really an error or not.
    pub fn is_err(&self) -> (r: bool)
        ensures
            r == (self.sources().len() > 0 || self.destinations().len() > 0),
    {
        !self.dup_srcs.is_empty() || !self.dup_dsts.is_empty()
    }

    /// Record the paths of further errors.
    pub fn extend(&mut self, errs: Vec<AddError<P>>)
        ensures
            final(self).sources() == old(self).sources() + dup_sources(errs@),
            final(self).destinations() == old(self).destinations() + dup_destinations(errs@),
    {
        let ghost all = errs@;
        let ghost s0 = self.dup_srcs@;
        let ghost d0 = self.dup_dsts@;
        let mut errs = errs;
        let ghost mut k: int = 0;
        assert(all.subrange(0, 0) =~= Seq::<AddError<P>>::empty());
        assert(s0 + Seq::<P>::empty() =~= s0);
        assert(d0 + Seq::<P>::empty() =~= d0);
        while errs.len() > 0
            invariant
                0 <= k <= all.len(),
                errs@ == all.subrange(k, all.len() as int),
                self.dup_srcs@ == s0 + dup_sources(all.subrange(0, k)),
                self.dup_dsts@ == d0 + dup_destinations(all.subrange(0, k)),
            decreases errs.len(),
        {
            let e = errs.remove(0);
            proof {
                assert(all.subrange(0, k + 1).drop_last() =~= all.subrange(0, k));
                assert(all.subrange(0, k + 1).last() == e);
            }
            match e {
                AddError::DupSrc { src, .. } => {
                    self.dup_srcs.push(src);
                    proof {
                        assert(s0 + dup_sources(all.subrange(0, k)).push(src) =~= (s0
                            + dup_sources(all.subrange(0, k))).push(src));
                    }
                },
                AddError::DupDst { dst, .. } => {
                    self.dup_dsts.push(dst);
                    proof {
                        assert(d0 + dup_destinations(all.subrange(0, k)).push(dst) =~= (d0
                            + dup_destinations(all.subrange(0, k))).push(dst));
                    }
                },
            }
            proof {
                k = k + 1;
                assert(errs@ =~= all.subrange(k, all.len() as int));
            }
        }
        assert(all.subrange(0, all.len() as int) =~= all);
    }

    /// Attempt to construct a [`ConsError`] from the given errors: `Ok` when
    /// there are none.
    pub fn from_iter(errs: Vec<AddError<P>>) -> (r: Result<(), Self>)
        ensures
            r is Ok <==> errs@.len() == 0,
            r matches Err(e) ==> e.sources() == dup_sources(errs@) && e.destinations()
                == dup_destinations(errs@),
    {
        let ghost all = errs@;
        let mut this = ConsError { dup_srcs: Vec::new(), dup_dsts: Vec::new() };
        this.extend(errs);
        proof {
            assert(Seq::<P>::empty() + dup_sources(all) =~= dup_sources(all));
            assert(Seq::<P>::empty() + dup_destinations(all) =~= dup_destinations(all));
            lemma_dups_cover(all);
        }
        if this.is_err() {
            Err(this)
        } else {
            Ok(())
        }
    }
}

/// Every error is listed by one of the two sequences.
pub proof fn lemma_dups_cover<P>(errs: Seq<AddError<P>>)
    ensures
        dup_sources(errs).len() + dup_destinations(errs).len() == errs.len(),
    decreases errs.len(),
{
    if errs.len() > 0 {
        lemma_dups_cover(errs.drop_last());
    }
}

/// A source with the destination it was first paired with.
pub open spec fn pair_view(p: (String, String)) -> (Seq<char>, Seq<char>) {
    (p.0@, p.1@)
}

pub open spec fn pairs_view(v: Seq<(String, String)>) -> Seq<(Seq<char>, Seq<char>)> {
    v.map_values(|p: (String, String)| pair_view(p))
}

/// Whether the first member of some pair of `v` is the same path as `s`.
pub open spec fn has_first(v: Seq<(Seq<char>, Seq<char>)>, s: Seq<char>) -> bool {
    exists|k: int| 0 <= k < v.len() && same_path((#[trigger] v[k]).0, s)
}

/// Whether the second member of some pair of `v` is the same path as `d`.
pub open spec fn has_second(v: Seq<(Seq<char>, Seq<char>)>, d: Seq<char>) -> bool {
    exists|k: int| 0 <= k < v.len() && same_path((#[trigger] v[k]).1, d)
}

/// No two pairs have the same path as first member.
pub open spec fn firsts_unique(v: Seq<(Seq<char>, Seq<char>)>) -> bool {
    forall|i: int, j: int|
        0 <= i < j < v.len() ==> !same_path((#[trigger] v[i]).0, (#[trigger] v[j]).0)
}

/// No two pairs have the same path as second member.
pub open spec fn seconds_unique(v: Seq<(Seq<char>, Seq<char>)>) -> bool {
    forall|i: int, j: int|
        0 <= i < j < v.len() ==> !same_path((#[trigger] v[i]).1, (#[trigger] v[j]).1)
}

/// A batched move under construction.
///
/// It records every source with the destination it was first paired with,
/// and the pairs accepted so far.  A pair is accepted when neither its source
/// nor its destination was seen before.
pub struct Move {
    /// Each source seen, with the destination it was first paired with.
    srcs: Vec<(String, String)>,
    /// The accepted pairs, in the order they were added.
    pairs: Vec<(String, String)>,
}

impl Move {
    /// The sources seen so far, each with the destination it was first paired with.
    pub closed spec fn sources(&self) -> Seq<(Seq<char>, Seq<char>)> {
        pairs_view(self.srcs@)
    }

    /// The accepted source and destination pairs.
    pub closed spec fn accepted(&self) -> Seq<(Seq<char>, Seq<char>)> {
        pairs_view(self.pairs@)
    }

    pub open spec fn wf(&self) -> bool {
        &&& firsts_unique(self.sources())
        &&& firsts_unique(self.accepted())
        &&& seconds_unique(self.accepted())
        &&& forall|k: int|
            0 <= k < self.accepted().len() ==> has_first(
                self.sources(),
                #[trigger] self.accepted()[k].0,
            )
    }

    /// Construct a new, empty [`Move`].
    pub fn new() -> (r: Self)
        ensures
            r.wf(),
            r.sources().len() == 0,
            r.accepted().len() == 0,
    {
        let r = Move { srcs: Vec::new(), pairs: Vec::new() };
        assert(r.sources() =~= seq![]);
        assert(r.accepted() =~= seq![]);
        r
    }

    /// The accepted pairs, in the order they were added.
    pub fn pairs(&self) -> (r: &Vec<(String, String)>)
        ensures
            pairs_view(r@) == self.accepted(),
    {
        &self.pairs
    }

    /// Add the given source-destination pair to the set.  Paths are compared
    /// by their components, as `same_path` says.
    ///
    /// A source seen before gives `DupSrc`, with the destination it was first
    /// paired with as `old`; nothing changes.  Otherwise the source is recorded,
    /// and a destination already accepted gives `DupDst`, with the source it
    /// belongs to as `old`.  Otherwise the pair is accepted.
    pub fn add(&mut self, src: String, dst: String) -> (r: Result<(), AddError<String>>)
        requires
            old(self).wf(),
        ensures
            final(self).wf(),
            has_first(old(self).sources(), src@) ==> {
                &&& final(self).sources() == old(self).sources()
                &&& final(self).accepted() == old(self).accepted()
                &&& r matches Err(AddError::DupSrc { src: s, new, old: o }) && s@ == src@
                    && new@ == dst@ && exists|k: int|
                    0 <= k < old(self).sources().len() && same_path(
                        (#[trigger] old(self).sources()[k]).0,
                        src@,
                    ) && old(self).sources()[k].1 == o@
            },
            !has_first(old(self).sources(), src@) ==> {
                &&& final(self).sources() == old(self).sources().push((src@, dst@))
                &&& has_second(old(self).accepted(), dst@) ==> {
                    &&& final(self).accepted() == old(self).accepted()
                    &&& r matches Err(AddError::DupDst { dst: d, new, old: o }) && d@ == dst@
                        && new@ == src@ && exists|k: int|
                        0 <= k < old(self).accepted().len() && same_path(
                            (#[trigger] old(self).accepted()[k]).1,
                            dst@,
                        ) && old(self).accepted()[k].0 == o@
                }
                &&& !has_second(old(self).accepted(), dst@) ==> {
                    &&& final(self).accepted() == old(self).accepted().push((src@, dst@))
                    &&& r is Ok
                }
            },
    {
        let ghost s0 = self.sources();
        let ghost a0 = self.accepted();
        let mut k: usize = 0;
        while k < self.srcs.len()
            invariant
                k <= self.srcs.len(),
                s0 == self.sources(),
                a0 == self.accepted(),
                s0 == old(self).sources(),
                a0 == old(self).accepted(),
                self.wf(),
                forall|j: int| 0 <= j < k ==> !same_path((#[trigger] s0[j]).0, src@),
            decreases self.srcs.len() - k,
        {
            assert(s0[k as int] == pair_view(self.srcs@[k as int]));
            if paths_equal(self.srcs[k].0.as_str(), src.as_str()) {
                let old_dst = self.srcs[k].1.clone();
                return Err(AddError::DupSrc { src, new: dst, old: old_dst });
            }
            k = k + 1;
        }
        assert(!has_first(s0, src@));
        self.srcs.push((src.clone(), dst.clone()));
        proof {
            assert(self.sources() =~= s0.push((src@, dst@)));
            assert forall|k2: int| 0 <= k2 < a0.len() implies has_first(
                self.sources(),
                #[trigger] a0[k2].0,
            ) by {
                let j = choose|j: int| 0 <= j < s0.len() && same_path((#[trigger] s0[j]).0, a0[k2].0);
                assert(self.sources()[j] == s0[j]);
            }
            let s1 = self.sources();
            assert forall|i: int, j: int| 0 <= i < j < s1.len() implies !same_path(
                (#[trigger] s1[i]).0,
                (#[trigger] s1[j]).0,
            ) by {
                if j == s0.len() {
                    assert(s1[i] == s0[i]);
                } else {
                    assert(s1[i] == s0[i]);
                    assert(s1[j] == s0[j]);
                }
            }
        }
        let mut k: usize = 0;
        while k < self.pairs.len()
            invariant
                k <= self.pairs.len(),
                a0 == self.accepted(),
                self.sources() == s0.push((src@, dst@)),
                s0 == old(self).sources(),
                a0 == old(self).accepted(),
                !has_first(s0, src@),
                self.wf(),
                forall|j: int| 0 <= j < k ==> !same_path((#[trigger] a0[j]).1, dst@),
            decreases self.pairs.len() - k,
        {
            assert(a0[k as int] == pair_view(self.pairs@[k as int]));
            if paths_equal(self.pairs[k].1.as_str(), dst.as_str()) {
                let old_src = self.pairs[k].0.clone();
                return Err(AddError::DupDst { dst, new: src, old: old_src });
            }
            k = k + 1;
        }
        assert(!has_second(a0, dst@));
        self.pairs.push((src, dst));
        proof {
            assert(self.accepted() =~= a0.push((src@, dst@)));
            let s1 = self.sources();
            let a1 = self.accepted();
            assert(has_first(s1, src@)) by {
                assert(s1[s0.len() as int].0 == src@);
                assert(same_path(s1[s0.len() as int].0, src@));
            }
            assert forall|k2: int| 0 <= k2 < a1.len() implies has_first(
                s1,
                #[trigger] a1[k2].0,
            ) by {
                if k2 < a0.len() {
                    assert(a1[k2] == a0[k2]);
                }
            }
            assert forall|i: int, j: int| 0 <= i < j < a1.len() implies !same_path(
                (#[trigger] a1[i]).0,
                (#[trigger] a1[j]).0,
            ) && !same_path(a1[i].1, a1[j].1) by {
                assert(a1[i] == a0[i]);
                if j < a0.len() {
                    assert(a1[j] == a0[j]);
                } else {
                    assert(has_first(s0, a0[i].0));
                }
            }
        }
        Ok(())
    }
}

/// Paths separated by a comma and a space.
pub open spec fn listed(ps: Seq<Seq<char>>) -> Seq<char>
    decreases ps.len(),
{
    if ps.len() == 0 {
        seq![]
    } else if ps.len() == 1 {
        ps[0]
    } else {
        listed(ps.drop_last()) + ", "@ + ps.last()
    }
}

/// The message for duplicate sources `srcs` and duplicate destinations `dsts`.
pub open spec fn duplicates_text(srcs: Seq<Seq<char>>, dsts: Seq<Seq<char>>) -> Seq<char> {
    let s_part = if srcs.len() > 0 {
        "The paths ["@ + listed(srcs) + "] were listed as sources multiple times"@
    } else {
        seq![]
    };
    let d_part = if dsts.len() > 0 {
        (if srcs.len() > 0 {
            " and the paths ["@
        } else {
            "The paths ["@
        }) + listed(dsts) + "] were listed as destinations multiple times"@
    } else {
        seq![]
    };
    s_part + d_part
}

/// Appends the paths `ps`, separated by a comma and a space.
fn append_listed(out: &mut String, ps: &Vec<String>)
    ensures
        final(out)@ == old(out)@ + listed(crate::path::views(ps@)),
{
    let ghost o0 = out@;
    let ghost pv = crate::path::views(ps@);
    let mut i: usize = 0;
    assert(pv.subrange(0, 0) =~= Seq::<Seq<char>>::empty());
    assert(o0 + Seq::<char>::empty() =~= o0);
    while i < ps.len()
        invariant
            i <= ps.len(),
            pv == crate::path::views(ps@),
            out@ == o0 + listed(pv.subrange(0, i as int)),
        decreases ps.len() - i,
    {
        let ghost before = out@;
        if i > 0 {
            out.append(", ");
        }
        out.append(ps[i].as_str());
        proof {
            let next = pv.subrange(0, i + 1);
            assert(next.drop_last() =~= pv.subrange(0, i as int));
            assert(next.last() == ps@[i as int]@);
            if i == 0 {
                assert(out@ =~= o0 + listed(next));
            } else {
                assert(out@ =~= o0 + listed(next));
            }
        }
        i = i + 1;
    }
    assert(pv.subrange(0, ps.len() as int) =~= pv);
}

impl ConsError<String> {
    /// The message that names every duplicate source and destination.
    pub fn describe(&self) -> (r: String)
        ensures
            r@ == duplicates_text(
                crate::path::views(self.sources()),
                crate::path::views(self.destinations()),
            ),
    {
        let mut out = String::new();
        let has_srcs = !self.dup_srcs.is_empty();
        if has_srcs {
            out.append("The paths [");
            append_listed(&mut out, &self.dup_srcs);
            out.append("] were listed as sources multiple times");
        }
        let ghost mid = out@;
        if !self.dup_dsts.is_empty() {
            if has_srcs {
                out.append(" and the paths [");
            } else {
                out.append("The paths [");
            }
            append_listed(&mut out, &self.dup_dsts);
            out.append("] were listed as destinations multiple times");
        }
        proof {
            let sv = crate::path::views(self.sources());
            let dv = crate::path::views(self.destinations());
            assert(sv.len() == self.dup_srcs@.len());
            assert(dv.len() == self.dup_dsts@.len());
            if has_srcs {
                assert(mid =~= "The paths ["@ + listed(sv) + "] were listed as sources multiple times"@);
            } else {
                assert(mid =~= Seq::<char>::empty());
            }
            assert(out@ =~= duplicates_text(sv, dv));
        }
        out
    }
}

} // verus!
