//! Voice clusters: each cluster packs `STEREO_VOICES_PER_VECTOR` stereo voices into the lanes
//! of one vector, and a voice's state can be exchanged with that of any other voice.
use vstd::prelude::*;
use crate::util::STEREO_VOICES_PER_VECTOR;

verus! {

/// The state of one cluster: `L` per lane (lanes `2v` and `2v+1` belong to voice `v`), and `S`
/// per voice.
#[derive(Clone, Copy, Debug)]
pub struct Cluster<L, S> {
    pub lanes: [L; 4],
    pub voices: [S; 2],
}

/// A voice's place: (cluster, voice within the cluster).
pub type VoiceIndex = (usize, usize);

/// The state of a stack of clusters.
pub struct ClusterStack<L, S> {
    clusters: Vec<Cluster<L, S>>,
}

/// A cluster as its lanes and its voices.
pub open spec fn cluster_view<L, S>(c: Cluster<L, S>) -> (Seq<L>, Seq<S>) {
    (c.lanes@, c.voices@)
}

/// `cs` with the state of voice `v` of cluster `c` set to lanes `l0`, `l1` and voice state `s`.
pub open spec fn set_voice<L, S>(cs: Seq<(Seq<L>, Seq<S>)>, at: (int, int), l0: L, l1: L, s: S) -> Seq<(Seq<L>, Seq<S>)> {
    let (c, v) = at;
    cs.update(c, (cs[c].0.update(2 * v, l0).update(2 * v + 1, l1), cs[c].1.update(v, s)))
}

/// `cs` with the states of voices `x` and `y` exchanged.
pub open spec fn moved<L, S>(cs: Seq<(Seq<L>, Seq<S>)>, x: (int, int), y: (int, int)) -> Seq<(Seq<L>, Seq<S>)> {
    let a = cs[x.0];
    let b = cs[y.0];
    let cs1 = set_voice(cs, x, b.0[2 * y.1], b.0[2 * y.1 + 1], b.1[y.1]);
    set_voice(cs1, y, a.0[2 * x.1], a.0[2 * x.1 + 1], a.1[x.1])
}

/// `x` names a voice of a stack of `n` clusters.
pub open spec fn voice_in_range(x: VoiceIndex, n: nat) -> bool {
    x.0 < n && x.1 < STEREO_VOICES_PER_VECTOR
}

/// Every cluster of `cs` has four lanes and two voices.
pub open spec fn well_shaped<L, S>(cs: Seq<(Seq<L>, Seq<S>)>) -> bool {
    forall|i: int| 0 <= i < cs.len() ==> (#[trigger] cs[i]).0.len() == 4 && cs[i].1.len() == 2
}

impl<L: Copy, S: Copy> ClusterStack<L, S> {
    pub closed spec fn view(&self) -> Seq<(Seq<L>, Seq<S>)> {
        self.clusters@.map_values(|c: Cluster<L, S>| cluster_view(c))
    }

    /// `num_clusters` clusters, every lane `lane` and every voice `voice`.
    pub fn new(num_clusters: usize, lane: L, voice: S) -> (r: Self)
        ensures
            r.view().len() == num_clusters,
            well_shaped(r.view()),
            forall|i: int| 0 <= i < num_clusters ==> (#[trigger] r.view()[i]).0 == seq![lane, lane, lane, lane] && r.view()[i].1 == seq![voice, voice],
    {
        let mut clusters: Vec<Cluster<L, S>> = Vec::new();
        let mut i: usize = 0;
        while i < num_clusters
            invariant
                i <= num_clusters,
                clusters@.len() == i,
                forall|j: int| 0 <= j < i ==> (#[trigger] clusters@[j]).lanes@ == seq![lane, lane, lane, lane] && clusters@[j].voices@ == seq![voice, voice],
            decreases num_clusters - i,
        {
            let c = Cluster { lanes: [lane, lane, lane, lane], voices: [voice, voice] };
            assert(c.lanes@ =~= seq![lane, lane, lane, lane]);
            assert(c.voices@ =~= seq![voice, voice]);
            clusters.push(c);
            i = i + 1;
        }
        let r = ClusterStack { clusters };
        proof {
            assert forall|i: int| 0 <= i < r.view().len() implies (#[trigger] r.view()[i]).0.len() == 4 && r.view()[i].1.len() == 2 by {
                assert(r.view()[i] == cluster_view(r.clusters@[i]));
            }
            assert forall|i: int| 0 <= i < num_clusters implies (#[trigger] r.view()[i]).0 == seq![lane, lane, lane, lane] && r.view()[i].1 == seq![voice, voice] by {
                assert(r.view()[i] == cluster_view(r.clusters@[i]));
            }
        }
        r
    }

    /// A stack holding `clusters`, in order.
    pub fn from_clusters(clusters: Vec<Cluster<L, S>>) -> (r: Self)
        ensures
            r.view() == clusters@.map_values(|c: Cluster<L, S>| cluster_view(c)),
            well_shaped(r.view()),
    {
        let r = ClusterStack { clusters };
        proof {
            assert forall|i: int| 0 <= i < r.view().len() implies (#[trigger] r.view()[i]).0.len() == 4 && r.view()[i].1.len() == 2 by {
                assert(r.view()[i] == cluster_view(r.clusters@[i]));
            }
        }
        r
    }

    /// Every cluster of a stack has four lanes and two voices.
    pub proof fn lemma_well_shaped(&self)
        ensures
            well_shaped(self.view()),
    {
        assert forall|i: int| 0 <= i < self.view().len() implies (#[trigger] self.view()[i]).0.len() == 4 && self.view()[i].1.len() == 2 by {
            assert(self.view()[i] == cluster_view(self.clusters@[i]));
        }
    }

    /// Cluster `index`, if there is one.
    pub fn get(&self, index: usize) -> (r: Option<Cluster<L, S>>)
        ensures
            r.is_some() == (index < self.view().len()),
            r.is_some() ==> cluster_view(r.unwrap()) == self.view()[index as int],
    {
        if index < self.clusters.len() {
            Some(self.clusters[index])
        } else {
            None
        }
    }

    /// Replaces cluster `index` with `cluster`, if there is such a cluster; returns whether
    /// there was.
    pub fn set(&mut self, index: usize, cluster: Cluster<L, S>) -> (r: bool)
        ensures
            r == (index < old(self).view().len()),
            r ==> final(self).view() == old(self).view().update(index as int, cluster_view(cluster)),
            !r ==> final(self).view() == old(self).view(),
    {
        if index < self.clusters.len() {
            self.clusters.set(index, cluster);
            proof {
                assert(self.view() =~= old(self).view().update(index as int, cluster_view(cluster)));
            }
            true
        } else {
            false
        }
    }

    /// Exchanges the state of voice `from` with that of voice `to`: their lanes and their voice
    /// state. Does nothing if either names no voice.
    pub fn move_state(&mut self, from: VoiceIndex, to: VoiceIndex)
        ensures
            voice_in_range(from, old(self).view().len()) && voice_in_range(to, old(self).view().len())
                ==> final(self).view() == moved(old(self).view(), (from.0 as int, from.1 as int), (to.0 as int, to.1 as int)),
            !(voice_in_range(from, old(self).view().len()) && voice_in_range(to, old(self).view().len()))
                ==> final(self).view() == old(self).view(),
    {
        if from.0 < self.clusters.len() && to.0 < self.clusters.len() && from.1 < STEREO_VOICES_PER_VECTOR
            && to.1 < STEREO_VOICES_PER_VECTOR {
            self.move_state_unchecked(from, to);
        }
    }

    /// Exchanges the state of voice `from` with that of voice `to`.
    pub fn move_state_unchecked(&mut self, from: VoiceIndex, to: VoiceIndex)
        requires
            voice_in_range(from, old(self).view().len()),
            voice_in_range(to, old(self).view().len()),
        ensures
            final(self).view() == moved(old(self).view(), (from.0 as int, from.1 as int), (to.0 as int, to.1 as int)),
    {
        let ghost v0 = self.view();
        let a = self.clusters[from.0];
        let b = self.clusters[to.0];
        let mut a2 = self.clusters[from.0];
        a2.lanes[2 * from.1] = b.lanes[2 * to.1];
        a2.lanes[2 * from.1 + 1] = b.lanes[2 * to.1 + 1];
        a2.voices[from.1] = b.voices[to.1];
        self.clusters.set(from.0, a2);
        let ghost v1 = self.view();
        proof {
            assert(cluster_view(a2).0 =~= v0[from.0 as int].0.update(2 * from.1, b.lanes[2 * to.1 as int]).update(2 * from.1 + 1, b.lanes[2 * to.1 + 1]));
            assert(cluster_view(a2).1 =~= v0[from.0 as int].1.update(from.1 as int, b.voices[to.1 as int]));
            assert(v1 =~= set_voice(v0, (from.0 as int, from.1 as int), v0[to.0 as int].0[2 * to.1], v0[to.0 as int].0[2 * to.1 + 1], v0[to.0 as int].1[to.1 as int]));
        }
        let mut b2 = self.clusters[to.0];
        b2.lanes[2 * to.1] = a.lanes[2 * from.1];
        b2.lanes[2 * to.1 + 1] = a.lanes[2 * from.1 + 1];
        b2.voices[to.1] = a.voices[from.1];
        self.clusters.set(to.0, b2);
        proof {
            assert(cluster_view(b2).0 =~= v1[to.0 as int].0.update(2 * to.1, a.lanes[2 * from.1 as int]).update(2 * to.1 + 1, a.lanes[2 * from.1 + 1]));
            assert(cluster_view(b2).1 =~= v1[to.0 as int].1.update(to.1 as int, a.voices[from.1 as int]));
            assert(self.view() =~= set_voice(v1, (to.0 as int, to.1 as int), v0[from.0 as int].0[2 * from.1], v0[from.0 as int].0[2 * from.1 + 1], v0[from.0 as int].1[from.1 as int]));
        }
    }
}

/// Moving a voice's state to another voice and back leaves every cluster as it was: the
/// exchange is its own inverse.
pub proof fn lemma_move_state_involution<L, S>(cs: Seq<(Seq<L>, Seq<S>)>, x: (int, int), y: (int, int))
    requires
        well_shaped(cs),
        0 <= x.0 < cs.len(),
        0 <= y.0 < cs.len(),
        0 <= x.1 < 2,
        0 <= y.1 < 2,
    ensures
        moved(moved(cs, x, y), y, x) == cs,
{
    let m = moved(cs, x, y);
    let r = moved(m, y, x);
    assert forall|i: int| 0 <= i < cs.len() implies #[trigger] r[i] == cs[i] by {
        assert(r[i].0 =~= cs[i].0);
        assert(r[i].1 =~= cs[i].1);
    }
    assert(r =~= cs);
}

} // verus!
