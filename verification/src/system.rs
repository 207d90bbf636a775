//! The `System` collaborator interface.
//!
//! A system stores atoms and computes neighbor lists; the calculators consume
//! it through the small capability set below. Implementations live outside
//! the library (they own the floating-point geometry); the trait contract
//! pins down everything the calculators rely on: the neighbor list a system
//! reports for a cutoff is a function of the system alone, `pairs` returns
//! exactly that list, and `pairs_containing` returns exactly its restriction
//! to pairs touching one center, in list order.

use vstd::prelude::*;

use crate::bits::{cutoff_is_valid, Vector3Bits};
use crate::Error;

verus! {

/// One entry of a neighbor list: a pair of atoms within the cutoff, with the
/// minimum-image displacement vector from `first` to `second` and the
/// distance between them, both as binary64 bit patterns.
#[derive(Clone, Copy, Debug, PartialEq, Eq, Structural)]
pub struct Pair {
    /// Index of the first atom of the pair.
    pub first: usize,
    /// Index of the second atom of the pair.
    pub second: usize,
    /// Displacement from the first to the second atom, wrapped through
    /// periodic boundaries.
    pub vector: Vector3Bits,
    /// Length of `vector`.
    pub distance: u64,
}

/// Both atom indices of every pair point into a system of `n` atoms.
pub open spec fn pairs_wf(pairs: Seq<Pair>, n: nat) -> bool {
    forall|k: int| 0 <= k < pairs.len() ==> (#[trigger] pairs[k]).first < n && pairs[k].second < n
}

/// Does `pair` touch the atom `center`?
pub open spec fn pair_touches(pair: Pair, center: usize) -> bool {
    pair.first == center || pair.second == center
}

/// The pairs of `pairs` touching `center`, in list order.
pub open spec fn spec_pairs_containing(pairs: Seq<Pair>, center: usize) -> Seq<Pair>
    decreases pairs.len(),
{
    if pairs.len() == 0 {
        Seq::empty()
    } else {
        let prefix = spec_pairs_containing(pairs.drop_last(), center);
        if pair_touches(pairs.last(), center) {
            prefix.push(pairs.last())
        } else {
            prefix
        }
    }
}

/// Everything the label builders read of one system: its species codes and
/// the neighbor list computed at the calculator's cutoff.
pub struct SysView {
    /// Species code of each atom.
    pub species: Seq<i32>,
    /// Neighbor list at the cutoff of interest.
    pub pairs: Seq<Pair>,
}

impl SysView {
    /// Pair indices point into the species list.
    pub open spec fn wf(&self) -> bool {
        pairs_wf(self.pairs, self.species.len())
    }

    /// Atom and pair counts fit in a label entry.
    pub open spec fn bounded(&self) -> bool {
        self.species.len() <= i32::MAX && self.pairs.len() <= i32::MAX
    }
}

/// All views are well-formed.
pub open spec fn views_wf(views: Seq<SysView>) -> bool {
    forall|i: int| 0 <= i < views.len() ==> (#[trigger] views[i]).wf()
}

/// All counts fit in a label entry (a machine limit: label rows hold `i32`).
pub open spec fn views_bounded(views: Seq<SysView>) -> bool {
    views.len() <= i32::MAX && forall|i: int|
        0 <= i < views.len() ==> (#[trigger] views[i]).bounded()
}

/// Access to atoms, species, cell and neighbor lists of one structure.
///
/// Implementations may cache neighbor lists by cutoff but must report, for a
/// given cutoff, a list that is a function of the structure alone — this is
/// what makes every label sequence the library emits reproducible.
pub trait System {
    /// Species code of each atom. Implementations say what it is; nothing
    /// is known of it here.
    open spec fn spec_species(&self) -> Seq<i32> {
        vstd::pervasive::arbitrary()
    }

    /// The neighbor list this system reports for a cutoff: a function of the
    /// structure and the cutoff alone, never of earlier calls.
    open spec fn spec_neighbors(&self, cutoff: u64) -> Seq<Pair> {
        vstd::pervasive::arbitrary()
    }

    /// The cutoff of the last successful `compute_neighbors` call, if any.
    open spec fn spec_current_cutoff(&self) -> Option<u64> {
        vstd::pervasive::arbitrary()
    }

    /// Number of atoms.
    fn size(&self) -> (n: usize)
        ensures
            n == self.spec_species().len(),
    ;

    /// Species code of each atom, one per atom.
    fn species(&self) -> (r: Vec<i32>)
        ensures
            r@ == self.spec_species(),
    ;

    /// Cartesian position of each atom, as binary64 bit patterns.
    fn positions(&self) -> (r: Vec<Vector3Bits>)
        ensures
            r@.len() == self.spec_species().len(),
    ;

    /// Unit cell matrix, row-major, as binary64 bit patterns; the zero
    /// matrix means the system is not periodic.
    fn cell(&self) -> [[u64; 3]; 3];

    /// Compute (or recall) the neighbor list for `cutoff`, to be served by
    /// `pairs` and `pairs_containing`. Idempotent for one cutoff; never
    /// changes what any cutoff's list would hold.
    fn compute_neighbors(&mut self, cutoff: u64) -> (r: Result<(), Error>)
        requires
            cutoff_is_valid(cutoff),
        ensures
            final(self).spec_species() == old(self).spec_species(),
            forall|c: u64|
                #[trigger] final(self).spec_neighbors(c) == old(self).spec_neighbors(c),
            r is Ok ==> final(self).spec_current_cutoff() == Some(cutoff),
            r matches Err(e) ==> (e matches Error::NeighborList(_)),
    ;

    /// All pairs of the current neighbor list. Each unordered pair appears at
    /// most once; self-pairs only at non-zero distance (a periodic image).
    fn pairs(&self) -> (r: Result<Vec<Pair>, Error>)
        requires
            self.spec_current_cutoff() is Some,
        ensures
            r matches Ok(p) ==> p@ == self.spec_neighbors(self.spec_current_cutoff().unwrap())
                && pairs_wf(p@, self.spec_species().len()),
            r matches Err(e) ==> (e matches Error::NeighborList(_)),
    ;

    /// The pairs of the current neighbor list touching `center`, in list
    /// order; a pair `i`–`j` is reported both for center `i` and center `j`.
    fn pairs_containing(&self, center: usize) -> (r: Result<Vec<Pair>, Error>)
        requires
            self.spec_current_cutoff() is Some,
            center < self.spec_species().len(),
        ensures
            r matches Ok(p) ==> p@ == spec_pairs_containing(
                self.spec_neighbors(self.spec_current_cutoff().unwrap()),
                center,
            ),
            r matches Err(e) ==> (e matches Error::NeighborList(_)),
    ;
}

/// Species codes and neighbor list of one system, captured as plain values.
/// The label builders work on these snapshots, so their results are functions
/// of the captured data alone.
pub struct SystemData {
    /// Species code of each atom.
    pub species: Vec<i32>,
    /// Neighbor list at the cutoff the snapshot was taken with.
    pub pairs: Vec<Pair>,
}

impl SystemData {
    /// The mathematical content of the snapshot.
    pub open spec fn as_view(&self) -> SysView {
        SysView { species: self.species@, pairs: self.pairs@ }
    }

    /// Pair indices point into the species list.
    pub open spec fn wf(&self) -> bool {
        self.as_view().wf()
    }

    /// The pairs of this snapshot touching `center`, in list order.
    pub fn pairs_containing(&self, center: usize) -> (r: Vec<Pair>)
        ensures
            r@ == spec_pairs_containing(self.pairs@, center),
    {
        let mut out: Vec<Pair> = Vec::new();
        let n = self.pairs.len();
        let mut i: usize = 0;
        while i < n
            invariant
                i <= n,
                n == self.pairs@.len(),
                out@ == spec_pairs_containing(self.pairs@.take(i as int), center),
            decreases n - i,
        {
            let p = self.pairs[i];
            proof {
                assert(self.pairs@.take(i + 1).drop_last() =~= self.pairs@.take(i as int));
                assert(self.pairs@.take(i + 1).last() == self.pairs@[i as int]);
            }
            if p.first == center || p.second == center {
                out.push(p);
            }
            i += 1;
        }
        proof {
            assert(self.pairs@.take(n as int) =~= self.pairs@);
        }
        out
    }
}

/// The views of a sequence of snapshots.
pub open spec fn data_views(data: Seq<SystemData>) -> Seq<SysView> {
    data.map_values(|d: SystemData| d.as_view())
}

/// Well-formed snapshots have well-formed views.
pub proof fn lemma_views_wf_of_data(data: Seq<SystemData>)
    requires
        forall|i: int| 0 <= i < data.len() ==> (#[trigger] data[i]).wf(),
    ensures
        views_wf(data_views(data)),
{
    assert forall|i: int| 0 <= i < data_views(data).len() implies (#[trigger] data_views(
        data,
    )[i]).wf() by {
        assert(data_views(data)[i] == data[i].as_view());
    }
}

/// What a batch of systems looks like at a given cutoff.
pub open spec fn views_of<S: System>(systems: Seq<S>, cutoff: u64) -> Seq<SysView> {
    systems.map_values(
        |s: S| (SysView { species: s.spec_species(), pairs: s.spec_neighbors(cutoff) }),
    )
}

/// A batch of systems kept its species and neighbor-list functions: computing
/// neighbor lists caches, it never changes what a system would report.
pub open spec fn systems_preserved<S: System>(before: Seq<S>, after: Seq<S>) -> bool {
    &&& after.len() == before.len()
    &&& forall|i: int|
        0 <= i < before.len() ==> (#[trigger] after[i]).spec_species()
            == before[i].spec_species()
    &&& forall|i: int, c: u64|
        0 <= i < before.len() ==> (#[trigger] after[i].spec_neighbors(c))
            == before[i].spec_neighbors(c)
}

/// Pairs touching a center are pairs of the list, so their atom indices
/// stay in range.
pub proof fn lemma_pairs_containing_wf(pairs: Seq<Pair>, center: usize, n: nat)
    requires
        pairs_wf(pairs, n),
    ensures
        forall|t: int|
            0 <= t < spec_pairs_containing(pairs, center).len()
                ==> (#[trigger] spec_pairs_containing(pairs, center)[t]).first < n
                && spec_pairs_containing(pairs, center)[t].second < n,
    decreases pairs.len(),
{
    if pairs.len() > 0 {
        assert(pairs_wf(pairs.drop_last(), n)) by {
            assert(forall|k: int|
                0 <= k < pairs.drop_last().len() ==> (#[trigger] pairs.drop_last()[k]) == pairs[k]);
        }
        lemma_pairs_containing_wf(pairs.drop_last(), center, n);
        let prefix = spec_pairs_containing(pairs.drop_last(), center);
        let whole = spec_pairs_containing(pairs, center);
        assert forall|t: int| 0 <= t < whole.len() implies (#[trigger] whole[t]).first < n
            && whole[t].second < n by {
            if t < prefix.len() {
                assert(whole[t] == prefix[t]);
            } else {
                assert(whole[t] == pairs.last());
                assert(pairs[pairs.len() - 1] == pairs.last());
            }
        }
    }
}

/// Preserved systems report the same views at every cutoff.
pub proof fn lemma_views_preserved<S: System>(before: Seq<S>, after: Seq<S>, cutoff: u64)
    requires
        systems_preserved(before, after),
    ensures
        views_of(after, cutoff) == views_of(before, cutoff),
{
    assert forall|i: int| 0 <= i < before.len() implies #[trigger] views_of(after, cutoff)[i]
        == views_of(before, cutoff)[i] by {
        assert(after[i].spec_species() == before[i].spec_species());
        assert(after[i].spec_neighbors(cutoff) == before[i].spec_neighbors(cutoff));
    }
    assert(views_of(after, cutoff) =~= views_of(before, cutoff));
}

/// Ask every system for its neighbor list at `cutoff` and capture species and
/// pairs as plain data. On success the snapshots are exactly the batch's
/// views at `cutoff`; an error is a `NeighborList` error of some system,
/// propagated unchanged.
pub fn gather<S: System>(systems: &mut Vec<S>, cutoff: u64) -> (r: Result<Vec<SystemData>, Error>)
    requires
        cutoff_is_valid(cutoff),
    ensures
        systems_preserved(old(systems)@, final(systems)@),
        r matches Ok(d) ==> data_views(d@) == views_of(old(systems)@, cutoff) && forall|i: int|
            0 <= i < d@.len() ==> (#[trigger] d@[i]).wf(),
        r matches Err(e) ==> (e matches Error::NeighborList(_)),
{
    let ghost orig = systems@;
    let n = systems.len();
    let mut out: Vec<SystemData> = Vec::new();
    let mut i: usize = 0;
    while i < n
        invariant
            n == systems@.len(),
            i <= n,
            i == out@.len(),
            cutoff_is_valid(cutoff),
            orig == old(systems)@,
            systems_preserved(orig, systems@),
            forall|k: int|
                0 <= k < i ==> (#[trigger] out@[k]).as_view() == views_of(orig, cutoff)[k],
            forall|k: int| 0 <= k < i ==> (#[trigger] out@[k]).wf(),
        decreases n - i,
    {
        let ghost prev = systems@;
        let res = systems[i].compute_neighbors(cutoff);
        proof {
            assert(systems_preserved(prev, systems@)) by {
                assert(forall|k: int|
                    0 <= k < prev.len() && k != i ==> (#[trigger] systems@[k]) == prev[k]);
            }
            assert(systems_preserved(orig, systems@)) by {
                assert forall|k: int|
                    0 <= k < orig.len() implies (#[trigger] systems@[k]).spec_species()
                    == orig[k].spec_species() by {
                    assert(systems@[k].spec_species() == prev[k].spec_species());
                }
                assert forall|k: int, c: u64|
                    0 <= k < orig.len() implies (#[trigger] systems@[k].spec_neighbors(c))
                    == orig[k].spec_neighbors(c) by {
                    assert(systems@[k].spec_neighbors(c) == prev[k].spec_neighbors(c));
                }
            }
        }
        match res {
            Ok(()) => (),
            Err(e) => {
                return Err(e);
            },
        }
        let species = systems[i].species();
        let pairs = match systems[i].pairs() {
            Ok(p) => p,
            Err(e) => {
                return Err(e);
            },
        };
        proof {
            assert(views_of(orig, cutoff)[i as int] == (SysView {
                species: orig[i as int].spec_species(),
                pairs: orig[i as int].spec_neighbors(cutoff),
            }));
            assert(systems@[i as int].spec_species() == orig[i as int].spec_species());
            assert(systems@[i as int].spec_neighbors(cutoff) == orig[i as int].spec_neighbors(
                cutoff,
            ));
        }
        let entry = SystemData { species, pairs };
        out.push(entry);
        i += 1;
    }
    proof {
        assert(data_views(out@) =~= views_of(orig, cutoff)) by {
            assert(forall|k: int|
                0 <= k < out@.len() ==> (#[trigger] data_views(out@)[k]) == out@[k].as_view());
        }
    }
    Ok(out)
}

/// Capture the species lists of a batch of systems. This touches no neighbor
/// list and cannot fail.
pub fn gather_species<S: System>(systems: &Vec<S>) -> (r: Vec<Vec<i32>>)
    ensures
        r@.len() == systems@.len(),
        forall|i: int| 0 <= i < r@.len() ==> (#[trigger] r@[i])@ == systems@[i].spec_species(),
{
    let n = systems.len();
    let mut out: Vec<Vec<i32>> = Vec::new();
    let mut i: usize = 0;
    while i < n
        invariant
            i <= n,
            n == systems@.len(),
            i == out@.len(),
            forall|k: int| 0 <= k < i ==> (#[trigger] out@[k])@ == systems@[k].spec_species(),
        decreases n - i,
    {
        let species = systems[i].species();
        out.push(species);
        i += 1;
    }
    out
}

} // verus!
