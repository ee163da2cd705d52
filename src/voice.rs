//! Voice allocation: maps note-on, note-off and note-free requests to (cluster, lane)
//! assignment events, filling the gaps that freed voices leave.
use vstd::prelude::*;
use crate::util::{MaskAny, STEREO_VOICES_PER_VECTOR};

verus! {

/// A change of voice state for one cluster, or the move of a voice's state between lanes.
/// `V` is the type of one lane's velocity.
#[derive(Debug, PartialEq)]
pub enum VoiceEvent<V> {
    /// The voices whose lanes are set in `mask` start playing `note` at `velocity`.
    Activate { note: [u32; 4], velocity: [V; 4], cluster_idx: usize, mask: [bool; 4] },
    /// The voices whose lanes are set in `mask` are released at `velocity`.
    Deactivate { velocity: [V; 4], cluster_idx: usize, mask: [bool; 4] },
    /// The voice at `(cluster, voice)` `from` now lives at `to`.
    Move { from: (usize, usize), to: (usize, usize) },
}

/// The position of the first `x` in `s` (meaningful where `s` holds `x`).
pub open spec fn first_index(s: Seq<u8>, x: u8) -> int {
    choose|i: int| 0 <= i < s.len() && s[i] == x && forall|j: int| 0 <= j < i ==> s[j] != x
}

proof fn lemma_first_index(s: Seq<u8>, x: u8, i: int)
    requires
        0 <= i < s.len(),
        s[i] == x,
        forall|j: int| 0 <= j < i ==> s[j] != x,
    ensures
        first_index(s, x) == i,
        s.contains(x),
{
    let f = first_index(s, x);
    assert(0 <= f < s.len() && s[f] == x && forall|j: int| 0 <= j < f ==> s[j] != x);
    if f < i {
        assert(s[f] != x);
    } else if f > i {
        assert(s[i] != x);
    }
}

/// A move of a voice's state from one (cluster, voice) place to another.
pub type VoiceMove = ((usize, usize), (usize, usize));

/// The (cluster, voice) place of voice `i` of the stack.
pub open spec fn place(i: int) -> (usize, usize) {
    ((i / STEREO_VOICES_PER_VECTOR as int) as usize, (i % STEREO_VOICES_PER_VECTOR as int) as usize)
}

/// Freeing the voice playing `note`, if any: a queued note takes its place (and that voice is
/// marked for activation), or else the top voice moves there (a move is recorded). Returns the
/// voice stack, the queued notes, the moves and the marked voices.
pub open spec fn free_one<V>(voices: Seq<u8>, adds: Seq<(u8, V)>, moves: Seq<VoiceMove>, marks: Set<int>, note: u8) -> (Seq<u8>, Seq<(u8, V)>, Seq<VoiceMove>, Set<int>) {
    if !voices.contains(note) {
        (voices, adds, moves, marks)
    } else {
        let i = first_index(voices, note);
        if adds.len() > 0 {
            (voices.update(i, adds.last().0), adds.drop_last(), moves, marks.insert(i))
        } else if i < voices.len() - 1 {
            (voices.drop_last().update(i, voices.last()), adds, moves.push((place(voices.len() - 1), place(i))), marks)
        } else {
            (voices.drop_last(), adds, moves, marks)
        }
    }
}

/// [`free_one`] for each of `frees` in turn.
pub open spec fn free_all<V>(voices: Seq<u8>, adds: Seq<(u8, V)>, moves: Seq<VoiceMove>, marks: Set<int>, frees: Seq<u8>) -> (Seq<u8>, Seq<(u8, V)>, Seq<VoiceMove>, Set<int>)
    decreases frees.len(),
{
    if frees.len() == 0 {
        (voices, adds, moves, marks)
    } else {
        let (v, a, m, k) = free_all(voices, adds, moves, marks, frees.drop_last());
        free_one(v, a, m, k, frees.last())
    }
}

/// The voice stack after pushing each queued note in turn while there is room for it, and the
/// voices marked for activation.
pub open spec fn push_all<V>(voices: Seq<u8>, adds: Seq<(u8, V)>, cap: nat, marks: Set<int>) -> (Seq<u8>, Set<int>)
    decreases adds.len(),
{
    if adds.len() == 0 {
        (voices, marks)
    } else {
        let (v, m) = push_all(voices, adds.drop_last(), cap, marks);
        if v.len() < cap {
            (v.push(adds.last().0), m.insert(v.len() as int))
        } else {
            (v, m)
        }
    }
}

/// The voices of `voices` whose notes are released by `releases`.
pub open spec fn released<V>(voices: Seq<u8>, releases: Seq<(u8, V)>) -> Set<int> {
    Set::new(|p: int| exists|k: int| 0 <= k < releases.len() && voices.contains(releases[k].0) && p == first_index(voices, releases[k].0))
}

/// The cluster an activation or release concerns.
pub open spec fn event_cluster<V>(e: VoiceEvent<V>) -> int {
    match e {
        VoiceEvent::Activate { cluster_idx, .. } => cluster_idx as int,
        VoiceEvent::Deactivate { cluster_idx, .. } => cluster_idx as int,
        VoiceEvent::Move { .. } => -1,
    }
}

/// Cluster `c` has a voice among `marks`.
pub open spec fn cluster_marked(marks: Set<int>, c: int) -> bool {
    marks.contains(2 * c) || marks.contains(2 * c + 1)
}

/// `e` is an activation (or a release) of a marked cluster whose mask sets exactly the lanes
/// of the voices among `marks`.
pub open spec fn event_marks<V>(e: VoiceEvent<V>, marks: Set<int>, activate: bool) -> bool {
    match e {
        VoiceEvent::Activate { cluster_idx, mask, .. } => activate && cluster_marked(marks, cluster_idx as int)
            && forall|l: int| 0 <= l < 4 ==> #[trigger] mask[l] == marks.contains(2 * cluster_idx + l / 2),
        VoiceEvent::Deactivate { cluster_idx, mask, .. } => !activate && cluster_marked(marks, cluster_idx as int)
            && forall|l: int| 0 <= l < 4 ==> #[trigger] mask[l] == marks.contains(2 * cluster_idx + l / 2),
        VoiceEvent::Move { .. } => false,
    }
}

/// `evs` holds one activation (or release) for each cluster below `nc` with a voice among
/// `marks`, in increasing order of cluster, each with the mask of those voices.
pub open spec fn cluster_events<V>(evs: Seq<VoiceEvent<V>>, marks: Set<int>, nc: nat, activate: bool) -> bool {
    &&& forall|k: int| 0 <= k < evs.len() ==> event_marks(#[trigger] evs[k], marks, activate) && event_cluster(evs[k]) < nc
    &&& forall|k1: int, k2: int| 0 <= k1 < k2 < evs.len() ==> event_cluster(#[trigger] evs[k1]) < event_cluster(#[trigger] evs[k2])
    &&& forall|c: int| 0 <= c < nc && cluster_marked(marks, c) ==> exists|k: int| 0 <= k < evs.len() && event_cluster(#[trigger] evs[k]) == c
}

/// The voice stack after a flush with queues `pending` (notes to add, to free, to release) and
/// `clusters` clusters, the moves it makes, and the voices it marks for activation.
pub open spec fn flushed<V>(voices: Seq<u8>, pending: (Seq<(u8, V)>, Seq<u8>, Seq<(u8, V)>), clusters: nat) -> (Seq<u8>, Seq<VoiceMove>, Set<int>) {
    let f = free_all(voices, pending.0, Seq::empty(), Set::empty(), pending.1);
    let p = push_all(f.0, f.1, (clusters * STEREO_VOICES_PER_VECTOR) as nat, f.3);
    (p.0, f.2, p.1)
}

/// The moves as events.
pub open spec fn move_events<V>(moves: Seq<VoiceMove>) -> Seq<VoiceEvent<V>> {
    moves.map_values(|m: VoiceMove| VoiceEvent::Move { from: m.0, to: m.1 })
}

/// Pushes `val` if `vec` holds fewer than `cap` items; returns whether it did.
pub fn push_within_capacity_stable<T>(vec: &mut Vec<T>, cap: usize, val: T) -> (r: bool)
    ensures
        r == (old(vec)@.len() < cap),
        r ==> final(vec)@ == old(vec)@.push(val),
        !r ==> final(vec)@ == old(vec)@,
{
    if vec.len() < cap {
        vec.push(val);
        true
    } else {
        false
    }
}

/// Per-cluster lane masks, velocities and notes of the events being gathered.
struct VoiceEventCache<V> {
    mask_cache: Vec<[bool; 4]>,
    vel_cache: Vec<[V; 4]>,
    note_cache: Vec<[u32; 4]>,
}

impl<V: Copy + Default> VoiceEventCache<V> {
    spec fn wf(&self, num_clusters: nat) -> bool {
        &&& self.mask_cache@.len() == num_clusters
        &&& self.vel_cache@.len() == num_clusters
        &&& self.note_cache@.len() == num_clusters
        &&& forall|c: int| 0 <= c < num_clusters ==> (#[trigger] self.mask_cache@[c])[0] == self.mask_cache@[c][1] && self.mask_cache@[c][2] == self.mask_cache@[c][3]
    }

    /// The voices marked so far, by their place in the stack.
    spec fn marks(&self) -> Set<int> {
        Set::new(|p: int| 0 <= p < 2 * self.mask_cache@.len() && self.mask_cache@[p / 2][2 * (p % 2)])
    }

    fn with_clusters(num_clusters: usize) -> (r: Self)
        ensures
            r.wf(num_clusters as nat),
            r.marks() == Set::<int>::empty(),
    {
        let mut mask_cache: Vec<[bool; 4]> = Vec::new();
        let mut vel_cache: Vec<[V; 4]> = Vec::new();
        let mut note_cache: Vec<[u32; 4]> = Vec::new();
        let mut i: usize = 0;
        while i < num_clusters
            invariant
                i <= num_clusters,
                mask_cache@.len() == i,
                vel_cache@.len() == i,
                note_cache@.len() == i,
                forall|c: int| 0 <= c < i ==> (#[trigger] mask_cache@[c])@ == seq![false, false, false, false],
            decreases num_clusters - i,
        {
            let ghost m0 = mask_cache@;
            mask_cache.push([false; 4]);
            proof {
                assert(mask_cache@[i as int]@ =~= seq![false, false, false, false]);
                assert forall|c: int| 0 <= c < i + 1 implies (#[trigger] mask_cache@[c])@ == seq![false, false, false, false] by {
                    if c < i {
                        assert(mask_cache@[c] == m0[c]);
                    }
                }
            }
            let z = V::default();
            vel_cache.push([z, z, z, z]);
            note_cache.push([0u32; 4]);
            i = i + 1;
        }
        let r = VoiceEventCache { mask_cache, vel_cache, note_cache };
        proof {
            assert forall|c: int| 0 <= c < num_clusters implies (#[trigger] r.mask_cache@[c])[0] == r.mask_cache@[c][1] && r.mask_cache@[c][2] == r.mask_cache@[c][3] by {
                assert(r.mask_cache@[c]@ == seq![false, false, false, false]);
                assert(r.mask_cache@[c]@[0] == r.mask_cache@[c][0]);
            }
            assert forall|p: int| !#[trigger] r.marks().contains(p) by {
                if 0 <= p < 2 * r.mask_cache@.len() {
                    assert(r.mask_cache@[p / 2]@ == seq![false, false, false, false]);
                    assert(r.mask_cache@[p / 2]@[2 * (p % 2)] == r.mask_cache@[p / 2][2 * (p % 2)]);
                }
            }
            assert(r.marks() =~= Set::<int>::empty());
        }
        r
    }

    /// Marks both lanes of voice `index` with `vel`, and with `note` if given.
    fn activate_index(&mut self, index: usize, vel: V, note: Option<u8>)
        requires
            old(self).wf(old(self).mask_cache@.len()),
            index / STEREO_VOICES_PER_VECTOR < old(self).mask_cache@.len(),
        ensures
            final(self).wf(old(self).mask_cache@.len()),
            final(self).marks() == old(self).marks().insert(index as int),
    {
        let i = index / STEREO_VOICES_PER_VECTOR;
        let j1 = 2 * (index % STEREO_VOICES_PER_VECTOR);
        let j2 = j1 + 1;
        let mut mask = self.mask_cache[i];
        mask[j1] = true;
        mask[j2] = true;
        self.mask_cache.set(i, mask);
        let mut vels = self.vel_cache[i];
        vels[j1] = vel;
        vels[j2] = vel;
        self.vel_cache.set(i, vels);
        match note {
            Some(n) => {
                let mut notes = self.note_cache[i];
                notes[j1] = n as u32;
                notes[j2] = n as u32;
                self.note_cache.set(i, notes);
            },
            None => {},
        }
        proof {
            assert forall|p: int| #[trigger] self.marks().contains(p) == old(self).marks().insert(index as int).contains(p) by {
                if 0 <= p < 2 * self.mask_cache@.len() && p / 2 == i {
                    assert(self.mask_cache@[p / 2] == mask);
                } else if 0 <= p < 2 * self.mask_cache@.len() {
                    assert(self.mask_cache@[p / 2] == old(self).mask_cache@[p / 2]);
                }
            }
            assert(self.marks() =~= old(self).marks().insert(index as int));
        }
    }

    /// The clusters that have a lane marked, each with its masks, velocities and notes, which
    /// are reset.
    fn take_data(&mut self) -> (r: Vec<(usize, [bool; 4], [V; 4], [u32; 4])>)
        requires
            old(self).wf(old(self).mask_cache@.len()),
        ensures
            final(self).wf(old(self).mask_cache@.len()),
            final(self).marks() == Set::<int>::empty(),
            forall|k: int| 0 <= k < r@.len() ==> (#[trigger] r@[k]).0 < old(self).mask_cache@.len() && cluster_marked(old(self).marks(), r@[k].0 as int)
                && forall|l: int| 0 <= l < 4 ==> #[trigger] r@[k].1[l] == old(self).marks().contains(2 * r@[k].0 + l / 2),
            forall|k1: int, k2: int| 0 <= k1 < k2 < r@.len() ==> (#[trigger] r@[k1]).0 < (#[trigger] r@[k2]).0,
            forall|c: int| 0 <= c < old(self).mask_cache@.len() && cluster_marked(old(self).marks(), c) ==> exists|k: int| 0 <= k < r@.len() && (#[trigger] r@[k]).0 == c,
    {
        let mut r: Vec<(usize, [bool; 4], [V; 4], [u32; 4])> = Vec::new();
        let n = self.mask_cache.len();
        let mut i: usize = 0;
        while i < n
            invariant
                n == old(self).mask_cache@.len(),
                self.wf(n as nat),
                i <= n,
                old(self).wf(n as nat),
                forall|c: int| 0 <= c < i ==> (#[trigger] self.mask_cache@[c])@ == seq![false, false, false, false],
                forall|c: int| i <= c < n ==> #[trigger] self.mask_cache@[c] == old(self).mask_cache@[c],
                forall|k: int| 0 <= k < r@.len() ==> (#[trigger] r@[k]).0 < i && cluster_marked(old(self).marks(), r@[k].0 as int)
                    && forall|l: int| 0 <= l < 4 ==> #[trigger] r@[k].1[l] == old(self).marks().contains(2 * r@[k].0 + l / 2),
                forall|k1: int, k2: int| 0 <= k1 < k2 < r@.len() ==> (#[trigger] r@[k1]).0 < (#[trigger] r@[k2]).0,
                forall|c: int| 0 <= c < i && cluster_marked(old(self).marks(), c) ==> exists|k: int| 0 <= k < r@.len() && (#[trigger] r@[k]).0 == c,
            decreases n - i,
        {
            let mask = self.mask_cache[i];
            let ghost r0 = r@;
            proof {
                let m = old(self).mask_cache@[i as int];
                assert(m == mask);
                assert forall|l: int| 0 <= l < 4 implies #[trigger] mask[l] == old(self).marks().contains(2 * i + l / 2) by {
                    assert((2 * i + l / 2) / 2 == i);
                    assert((2 * i + l / 2) % 2 == l / 2);
                }
                assert(cluster_marked(old(self).marks(), i as int) == (mask[0] || mask[1] || mask[2] || mask[3])) by {
                    assert(mask[0] == old(self).marks().contains(2 * i + 0int / 2));
                    assert(mask[2] == old(self).marks().contains(2 * i + 2int / 2));
                }
            }
            if mask.any() {
                let z = V::default();
                r.push((i, mask, self.vel_cache[i], self.note_cache[i]));
                self.mask_cache.set(i, [false; 4]);
                self.vel_cache.set(i, [z, z, z, z]);
                self.note_cache.set(i, [0u32; 4]);
                proof {
                    assert(self.mask_cache@[i as int]@ =~= seq![false, false, false, false]);
                    assert forall|k1: int, k2: int| 0 <= k1 < k2 < r@.len() implies (#[trigger] r@[k1]).0 < (#[trigger] r@[k2]).0 by {
                        if k2 < r0.len() {
                            assert(r@[k1] == r0[k1] && r@[k2] == r0[k2]);
                        } else {
                            assert(r@[k1] == r0[k1]);
                        }
                    }
                    assert forall|k: int| 0 <= k < r@.len() implies (#[trigger] r@[k]).0 < i + 1 && cluster_marked(old(self).marks(), r@[k].0 as int)
                        && forall|l: int| 0 <= l < 4 ==> #[trigger] r@[k].1[l] == old(self).marks().contains(2 * r@[k].0 + l / 2) by {
                        if k < r0.len() {
                            assert(r@[k] == r0[k]);
                        }
                    }
                    assert forall|c: int| 0 <= c < i + 1 && cluster_marked(old(self).marks(), c) implies exists|k: int| 0 <= k < r@.len() && (#[trigger] r@[k]).0 == c by {
                        if c < i {
                            let k = choose|k: int| 0 <= k < r0.len() && (#[trigger] r0[k]).0 == c;
                            assert(r@[k] == r0[k]);
                        } else {
                            assert(r@[r0.len() as int].0 == c);
                        }
                    }
                }
            } else {
                proof {
                    assert(mask@ =~= seq![false, false, false, false]) by {
                        assert(!mask[0] && !mask[1] && !mask[2] && !mask[3]);
                    }
                }
            }
            i = i + 1;
        }
        proof {
            assert forall|p: int| !#[trigger] self.marks().contains(p) by {
                if 0 <= p < 2 * self.mask_cache@.len() {
                    assert(self.mask_cache@[p / 2]@ == seq![false, false, false, false]);
                    assert(self.mask_cache@[p / 2]@[2 * (p % 2)] == self.mask_cache@[p / 2][2 * (p % 2)]);
                }
            }
            assert(self.marks() =~= Set::<int>::empty());
        }
        r
    }
}

/// Keeps the sounding notes as a stack of voices, voice `i` at cluster `i / 2`, voice `i % 2`
/// of that cluster, and turns queued requests into events.
pub struct StackVoiceManager<V> {
    voices: Vec<u8>,
    event_cache: VoiceEventCache<V>,
    add_pending: Vec<(u8, V)>,
    free_pending: Vec<u8>,
    deactivate_pending: Vec<(u8, V)>,
    num_clusters: usize,
    queue_cap: usize,
}

impl<V: Copy + Default> StackVoiceManager<V> {
    /// The notes of the sounding voices, voice by voice.
    pub closed spec fn voices(&self) -> Seq<u8> {
        self.voices@
    }

    pub closed spec fn clusters(&self) -> nat {
        self.num_clusters as nat
    }

    /// How many requests of each kind may wait for the next flush.
    pub closed spec fn queue_cap(&self) -> nat {
        self.queue_cap as nat
    }

    pub closed spec fn pending(&self) -> (Seq<(u8, V)>, Seq<u8>, Seq<(u8, V)>) {
        (self.add_pending@, self.free_pending@, self.deactivate_pending@)
    }

    spec fn wf_except_marks(&self) -> bool {
        &&& self.event_cache.wf(self.num_clusters as nat)
        &&& self.voices@.len() <= self.num_clusters * STEREO_VOICES_PER_VECTOR
        &&& self.num_clusters * STEREO_VOICES_PER_VECTOR <= usize::MAX
    }

    pub closed spec fn wf(&self) -> bool {
        &&& self.event_cache.wf(self.num_clusters as nat)
        &&& self.voices@.len() <= self.num_clusters * STEREO_VOICES_PER_VECTOR
        &&& self.num_clusters * STEREO_VOICES_PER_VECTOR <= usize::MAX
        &&& self.event_cache.marks() == Set::<int>::empty()
    }

    /// A manager with room for no voice; see [`Self::set_max_polyphony`].
    pub fn new() -> (r: Self)
        ensures
            r.wf(),
            r.clusters() == 0,
            r.voices().len() == 0,
            r.pending() == (Seq::<(u8, V)>::empty(), Seq::<u8>::empty(), Seq::<(u8, V)>::empty()),
    {
        StackVoiceManager {
            voices: Vec::new(),
            event_cache: VoiceEventCache::with_clusters(0),
            add_pending: Vec::new(),
            free_pending: Vec::new(),
            deactivate_pending: Vec::new(),
            num_clusters: 0,
            queue_cap: 0,
        }
    }

    /// Queues the start of `note`; dropped when the queue is full.
    pub fn note_on(&mut self, note: u8, vel: V)
        ensures
            final(self).pending().0 == if old(self).pending().0.len() < old(self).queue_cap() {
                old(self).pending().0.push((note, vel))
            } else {
                old(self).pending().0
            },
            final(self).pending().1 == old(self).pending().1,
            final(self).pending().2 == old(self).pending().2,
            final(self).voices() == old(self).voices(),
            final(self).clusters() == old(self).clusters(),
            final(self).queue_cap() == old(self).queue_cap(),
            old(self).wf() ==> final(self).wf(),
    {
        push_within_capacity_stable(&mut self.add_pending, self.queue_cap, (note, vel));
    }

    /// Queues the release of `note`; dropped when the queue is full.
    pub fn note_off(&mut self, note: u8, vel: V)
        ensures
            final(self).pending().2 == if old(self).pending().2.len() < old(self).queue_cap() {
                old(self).pending().2.push((note, vel))
            } else {
                old(self).pending().2
            },
            final(self).pending().0 == old(self).pending().0,
            final(self).pending().1 == old(self).pending().1,
            final(self).voices() == old(self).voices(),
            final(self).clusters() == old(self).clusters(),
            final(self).queue_cap() == old(self).queue_cap(),
            old(self).wf() ==> final(self).wf(),
    {
        push_within_capacity_stable(&mut self.deactivate_pending, self.queue_cap, (note, vel));
    }

    /// Queues the freeing of the voice playing `note`; dropped when the queue is full.
    pub fn note_free(&mut self, note: u8)
        ensures
            final(self).pending().1 == if old(self).pending().1.len() < old(self).queue_cap() {
                old(self).pending().1.push(note)
            } else {
                old(self).pending().1
            },
            final(self).pending().0 == old(self).pending().0,
            final(self).pending().2 == old(self).pending().2,
            final(self).voices() == old(self).voices(),
            final(self).clusters() == old(self).clusters(),
            final(self).queue_cap() == old(self).queue_cap(),
            old(self).wf() ==> final(self).wf(),
    {
        push_within_capacity_stable(&mut self.free_pending, self.queue_cap, note);
    }

    /// Makes room for `max_num_clusters` clusters of voices, dropping every voice and request.
    pub fn set_max_polyphony(&mut self, max_num_clusters: usize)
        requires
            max_num_clusters * STEREO_VOICES_PER_VECTOR * 4 <= usize::MAX,
        ensures
            final(self).wf(),
            final(self).clusters() == max_num_clusters,
            final(self).queue_cap() == max_num_clusters * STEREO_VOICES_PER_VECTOR * 4,
            final(self).voices().len() == 0,
            final(self).pending() == (Seq::<(u8, V)>::empty(), Seq::<u8>::empty(), Seq::<(u8, V)>::empty()),
    {
        let total_num_voices = max_num_clusters * STEREO_VOICES_PER_VECTOR;
        self.voices = Vec::new();
        self.add_pending = Vec::new();
        self.free_pending = Vec::new();
        self.deactivate_pending = Vec::new();
        self.event_cache = VoiceEventCache::with_clusters(max_num_clusters);
        self.num_clusters = max_num_clusters;
        self.queue_cap = total_num_voices * 4;
    }

    /// The lanes of cluster `cluster_idx` that hold a sounding voice.
    pub fn get_voice_mask(&self, cluster_idx: usize) -> (r: [bool; 4])
        ensures
            forall|i: int| 0 <= i < 4 ==> #[trigger] r[i] == (cluster_idx * STEREO_VOICES_PER_VECTOR + i / 2 < self.voices().len()),
    {
        let n = self.voices.len();
        let base: u128 = cluster_idx as u128 * 2;
        assert(base <= 2 * 0xFFFF_FFFF_FFFF_FFFFu128);
        [base < n as u128, base < n as u128, base + 1 < n as u128, base + 1 < n as u128]
    }

    fn position_of(voices: &Vec<u8>, note: u8) -> (r: Option<usize>)
        ensures
            r.is_some() ==> r.unwrap() < voices@.len() && voices@[r.unwrap() as int] == note,
            r.is_some() ==> voices@.contains(note) && r.unwrap() == first_index(voices@, note),
            r.is_none() ==> !voices@.contains(note),
    {
        let mut i: usize = 0;
        while i < voices.len()
            invariant
                i <= voices@.len(),
                forall|j: int| 0 <= j < i ==> voices@[j] != note,
            decreases voices@.len() - i,
        {
            if voices[i] == note {
                proof {
                    lemma_first_index(voices@, note, i as int);
                }
                return Some(i);
            }
            i = i + 1;
        }
        None
    }

    /// Appends one event per entry of `data` (what [`VoiceEventCache::take_data`] returned for
    /// `marks`): activations or releases.
    fn push_cluster_events(events: &mut Vec<VoiceEvent<V>>, data: &Vec<(usize, [bool; 4], [V; 4], [u32; 4])>, activate: bool, Ghost(marks): Ghost<Set<int>>, Ghost(nc): Ghost<nat>)
        requires
            forall|k: int| 0 <= k < data@.len() ==> (#[trigger] data@[k]).0 < nc && cluster_marked(marks, data@[k].0 as int)
                && forall|l: int| 0 <= l < 4 ==> #[trigger] data@[k].1[l] == marks.contains(2 * data@[k].0 + l / 2),
            forall|k1: int, k2: int| 0 <= k1 < k2 < data@.len() ==> (#[trigger] data@[k1]).0 < (#[trigger] data@[k2]).0,
            forall|c: int| 0 <= c < nc && cluster_marked(marks, c) ==> exists|k: int| 0 <= k < data@.len() && (#[trigger] data@[k]).0 == c,
        ensures
            final(events)@.len() == old(events)@.len() + data@.len(),
            final(events)@.subrange(0, old(events)@.len() as int) == old(events)@,
            cluster_events(final(events)@.subrange(old(events)@.len() as int, final(events)@.len() as int), marks, nc, activate),
    {
        let ghost e0 = events@;
        let mut k: usize = 0;
        while k < data.len()
            invariant
                k <= data@.len(),
                forall|k2: int| 0 <= k2 < data@.len() ==> (#[trigger] data@[k2]).0 < nc && cluster_marked(marks, data@[k2].0 as int)
                    && forall|l: int| 0 <= l < 4 ==> #[trigger] data@[k2].1[l] == marks.contains(2 * data@[k2].0 + l / 2),
                forall|k1: int, k2: int| 0 <= k1 < k2 < data@.len() ==> (#[trigger] data@[k1]).0 < (#[trigger] data@[k2]).0,
                forall|c: int| 0 <= c < nc && cluster_marked(marks, c) ==> exists|j: int| 0 <= j < data@.len() && (#[trigger] data@[j]).0 == c,
                events@.len() == e0.len() + k,
                events@.subrange(0, e0.len() as int) == e0,
                forall|j: int| 0 <= j < k ==> #[trigger] event_cluster(events@[e0.len() + j]) == data@[j].0 as int
                    && event_marks(events@[e0.len() + j], marks, activate),
            decreases data@.len() - k,
        {
            let (cluster_idx, mask, velocity, note) = data[k];
            let ghost ev0 = events@;
            assert(data@[k as int].0 < nc && cluster_marked(marks, data@[k as int].0 as int));
            assert(forall|l: int| 0 <= l < 4 ==> #[trigger] mask[l] == marks.contains(2 * cluster_idx + l / 2));
            if activate {
                events.push(VoiceEvent::Activate { note, velocity, cluster_idx, mask });
            } else {
                events.push(VoiceEvent::Deactivate { velocity, cluster_idx, mask });
            }
            proof {
                assert(events@.subrange(0, e0.len() as int) =~= ev0.subrange(0, e0.len() as int));
                assert forall|j: int| 0 <= j < k + 1 implies #[trigger] event_cluster(events@[e0.len() + j]) == data@[j].0 as int
                    && event_marks(events@[e0.len() + j], marks, activate) by {
                    if j < k {
                        assert(events@[e0.len() + j] == ev0[e0.len() + j]);
                        assert(event_cluster(ev0[e0.len() + j]) == data@[j].0 as int);
                    } else {
                        assert(events@[e0.len() + j] == events@.last());
                    }
                }
            }
            k = k + 1;
        }
        proof {
            let blk = events@.subrange(e0.len() as int, events@.len() as int);
            assert forall|j: int| 0 <= j < blk.len() implies event_marks(#[trigger] blk[j], marks, activate) && event_cluster(blk[j]) < nc by {
                assert(blk[j] == events@[e0.len() + j]);
                assert(event_cluster(events@[e0.len() + j]) == data@[j].0 as int);
                assert(data@[j].0 < nc);
            }
            assert forall|k1: int, k2: int| 0 <= k1 < k2 < blk.len() implies event_cluster(#[trigger] blk[k1]) < event_cluster(#[trigger] blk[k2]) by {
                assert(blk[k1] == events@[e0.len() + k1]);
                assert(blk[k2] == events@[e0.len() + k2]);
                assert(event_cluster(events@[e0.len() + k1]) == data@[k1].0 as int);
                assert(event_cluster(events@[e0.len() + k2]) == data@[k2].0 as int);
                assert(data@[k1].0 < data@[k2].0);
            }
            assert forall|c: int| 0 <= c < nc && cluster_marked(marks, c) implies exists|j: int| 0 <= j < blk.len() && event_cluster(#[trigger] blk[j]) == c by {
                let j = choose|j: int| 0 <= j < data@.len() && (#[trigger] data@[j]).0 == c;
                assert(blk[j] == events@[e0.len() + j]);
                assert(event_cluster(events@[e0.len() + j]) == data@[j].0 as int);
            }
        }
    }

    /// Frees the voice playing `note`, if any, filling its place with a queued note (marked for
    /// activation) or else with the top voice of the stack, which `events` records as a `Move`.
    fn free_voice(&mut self, note: u8, events: &mut Vec<VoiceEvent<V>>)
        requires
            old(self).wf_except_marks(),
        ensures
            final(self).wf_except_marks(),
            final(self).num_clusters == old(self).num_clusters,
            final(self).queue_cap == old(self).queue_cap,
            final(self).deactivate_pending@ == old(self).deactivate_pending@,
            final(self).free_pending@ == old(self).free_pending@,
            ({
                let (v, a, mv, mk) = free_one(old(self).voices@, old(self).add_pending@, Seq::empty(), old(self).event_cache.marks(), note);
                &&& final(self).voices@ == v
                &&& final(self).add_pending@ == a
                &&& final(self).event_cache.marks() == mk
                &&& final(events)@ == old(events)@ + move_events::<V>(mv)
            }),
    {
        let ghost v0 = self.voices@;
        let ghost a0 = self.add_pending@;
        let ghost e0 = events@;
        match Self::position_of(&self.voices, note) {
            Some(i) => {
                match self.add_pending.pop() {
                    Some((added_note, vel)) => {
                        assert(a0.last() == (added_note, vel));
                        assert(self.add_pending@ == a0.drop_last());
                        self.voices.set(i, added_note);
                        self.event_cache.activate_index(i, vel, Some(added_note));
                        assert(events@ =~= e0 + move_events::<V>(Seq::empty()));
                    },
                    None => {
                        match self.voices.pop() {
                            Some(replacement_note) => {
                                assert(self.voices@ == v0.drop_last());
                                assert(replacement_note == v0.last());
                                if i < self.voices.len() {
                                    self.voices.set(i, replacement_note);
                                    let from = self.voices.len();
                                    events.push(VoiceEvent::Move {
                                        from: (from / STEREO_VOICES_PER_VECTOR, from % STEREO_VOICES_PER_VECTOR),
                                        to: (i / STEREO_VOICES_PER_VECTOR, i % STEREO_VOICES_PER_VECTOR),
                                    });
                                    proof {
                                        let mv = Seq::<VoiceMove>::empty().push((place(v0.len() - 1), place(i as int)));
                                        assert(move_events::<V>(mv) =~= seq![VoiceEvent::Move { from: place(v0.len() - 1), to: place(i as int) }]);
                                        assert(events@ =~= e0 + move_events::<V>(mv));
                                    }
                                } else {
                                    assert(events@ =~= e0 + move_events::<V>(Seq::empty()));
                                }
                            },
                            None => {
                                assert(events@ =~= e0 + move_events::<V>(Seq::empty()));
                            },
                        }
                    },
                }
            },
            None => {
                assert(events@ =~= e0 + move_events::<V>(Seq::empty()));
            },
        }
    }

    /// Turns the queued requests into `events`: first the releases (one `Deactivate` per
    /// cluster), then the freed voices, whose gaps are filled by a queued note or by the top
    /// voice of the stack (a `Move`), then the remaining queued notes on top of the stack, and
    /// last one `Activate` per cluster. Every queue is empty afterwards.
    #[verifier::rlimit(60)]
    pub fn flush_events(&mut self, events: &mut Vec<VoiceEvent<V>>)
        requires
            old(self).wf(),
        ensures
            final(self).wf(),
            final(self).clusters() == old(self).clusters(),
            final(self).queue_cap() == old(self).queue_cap(),
            final(self).pending() == (Seq::<(u8, V)>::empty(), Seq::<u8>::empty(), Seq::<(u8, V)>::empty()),
            final(self).voices() == flushed(old(self).voices(), old(self).pending(), old(self).clusters()).0,
            exists|d: Seq<VoiceEvent<V>>, act: Seq<VoiceEvent<V>>| {
                &&& final(events)@ == old(events)@ + d + move_events::<V>(flushed(old(self).voices(), old(self).pending(), old(self).clusters()).1) + act
                &&& cluster_events(d, released(old(self).voices(), old(self).pending().2), old(self).clusters(), false)
                &&& cluster_events(act, flushed(old(self).voices(), old(self).pending(), old(self).clusters()).2, old(self).clusters(), true)
            },
    {
        let ghost e0 = events@;
        let nc = self.num_clusters;
        let voice_cap = nc * STEREO_VOICES_PER_VECTOR;
        // Releases.
        let mut k: usize = 0;
        proof {
            assert(released(self.voices@, self.deactivate_pending@.subrange(0, 0)) =~= Set::<int>::empty());
        }
        while k < self.deactivate_pending.len()
            invariant
                self.wf_except_marks(),
                self.num_clusters == nc,
                self.queue_cap == old(self).queue_cap,
                k <= self.deactivate_pending@.len(),
                self.voices@ == old(self).voices@,
                self.free_pending@ == old(self).free_pending@,
                self.add_pending@ == old(self).add_pending@,
                self.deactivate_pending@ == old(self).deactivate_pending@,
                self.event_cache.marks() == released(self.voices@, self.deactivate_pending@.subrange(0, k as int)),
            decreases self.deactivate_pending@.len() - k,
        {
            let (note, vel) = self.deactivate_pending[k];
            let ghost m0 = self.event_cache.marks();
            match Self::position_of(&self.voices, note) {
                Some(i) => {
                    self.event_cache.activate_index(i, vel, None);
                },
                None => {},
            }
            proof {
                let rs = self.deactivate_pending@;
                assert(rs.subrange(0, k + 1) =~= rs.subrange(0, k as int).push((note, vel)));
                assert forall|p: int| #[trigger] released(self.voices@, rs.subrange(0, k + 1)).contains(p) == self.event_cache.marks().contains(p) by {
                    let a = rs.subrange(0, k as int);
                    let b = rs.subrange(0, k + 1);
                    if released(self.voices@, b).contains(p) {
                        let j = choose|j: int| 0 <= j < b.len() && self.voices@.contains(b[j].0) && p == first_index(self.voices@, b[j].0);
                        if j < k {
                            assert(a[j] == b[j]);
                            assert(released(self.voices@, a).contains(p));
                        }
                    }
                    if released(self.voices@, a).contains(p) {
                        let j = choose|j: int| 0 <= j < a.len() && self.voices@.contains(a[j].0) && p == first_index(self.voices@, a[j].0);
                        assert(b[j] == a[j]);
                    }
                    if self.voices@.contains(note) && p == first_index(self.voices@, note) {
                        assert(b[k as int] == (note, vel));
                    }
                }
                assert(self.event_cache.marks() =~= released(self.voices@, rs.subrange(0, k + 1)));
            }
            k = k + 1;
        }
        proof {
            assert(self.deactivate_pending@.subrange(0, k as int) =~= self.deactivate_pending@);
        }
        let ghost rel = self.event_cache.marks();
        self.deactivate_pending = Vec::new();
        let data = self.event_cache.take_data();
        Self::push_cluster_events(events, &data, false, Ghost(rel), Ghost(nc as nat));
        let ghost e1 = events@;
        let ghost d = events@.subrange(e0.len() as int, events@.len() as int);
        proof {
            assert(e1 =~= e0 + d);
        }
        // Freed voices.
        let ghost mut moves: Seq<VoiceMove> = Seq::empty();
        let mut k: usize = 0;
        proof {
            assert(self.free_pending@.subrange(0, 0) =~= Seq::<u8>::empty());
            assert(events@ =~= e1 + move_events::<V>(moves));
        }
        while k < self.free_pending.len()
            invariant
                self.wf_except_marks(),
                self.num_clusters == nc,
                self.queue_cap == old(self).queue_cap,
                voice_cap == nc * STEREO_VOICES_PER_VECTOR,
                k <= self.free_pending@.len(),
                self.deactivate_pending@.len() == 0,
                self.free_pending@ == old(self).free_pending@,
                (self.voices@, self.add_pending@, moves, self.event_cache.marks()) == free_all(old(self).voices@, old(self).add_pending@, Seq::empty(), Set::empty(), self.free_pending@.subrange(0, k as int)),
                events@ == e1 + move_events::<V>(moves),
            decreases self.free_pending@.len() - k,
        {
            let freed_note = self.free_pending[k];
            let ghost st = (self.voices@, self.add_pending@, moves, self.event_cache.marks());
            let ghost ev = events@;
            proof {
                let fr = self.free_pending@.subrange(0, k + 1);
                assert(fr.drop_last() =~= self.free_pending@.subrange(0, k as int));
                assert(fr.last() == freed_note);
            }
            self.free_voice(freed_note, events);
            proof {
                let one = free_one(st.0, st.1, Seq::empty(), st.3, freed_note);
                let full = free_one(st.0, st.1, st.2, st.3, freed_note);
                assert(full.2 =~= st.2 + one.2);
                assert(move_events::<V>(st.2 + one.2) =~= move_events::<V>(st.2) + move_events::<V>(one.2));
                moves = full.2;
                assert(events@ =~= e1 + move_events::<V>(moves));
            }
            k = k + 1;
        }
        proof {
            assert(self.free_pending@.subrange(0, self.free_pending@.len() as int) =~= self.free_pending@);
        }
        self.free_pending = Vec::new();
        let ghost v1 = self.voices@;
        let ghost a1 = self.add_pending@;
        let ghost mk1 = self.event_cache.marks();
        proof {
            assert(a1.subrange(0, 0) =~= Seq::<(u8, V)>::empty());
        }
        // New notes on top of the stack.
        let mut k: usize = 0;
        while k < self.add_pending.len()
            invariant
                self.wf_except_marks(),
                self.num_clusters == nc,
                self.queue_cap == old(self).queue_cap,
                voice_cap == nc * STEREO_VOICES_PER_VECTOR,
                k <= self.add_pending@.len(),
                self.deactivate_pending@.len() == 0,
                self.free_pending@.len() == 0,
                self.add_pending@ == a1,
                (self.voices@, self.event_cache.marks()) == push_all(v1, a1.subrange(0, k as int), voice_cap as nat, mk1),
                events@ == e1 + move_events::<V>(moves),
            decreases self.add_pending@.len() - k,
        {
            let (added_note, vel) = self.add_pending[k];
            let i = self.voices.len();
            proof {
                let ad = a1.subrange(0, k + 1);
                assert(ad.drop_last() =~= a1.subrange(0, k as int));
                assert(ad.last() == (added_note, vel));
            }
            if push_within_capacity_stable(&mut self.voices, voice_cap, added_note) {
                self.event_cache.activate_index(i, vel, Some(added_note));
            }
            k = k + 1;
        }
        proof {
            assert(a1.subrange(0, a1.len() as int) =~= a1);
        }
        self.add_pending = Vec::new();
        let ghost marks = self.event_cache.marks();
        let data = self.event_cache.take_data();
        let ghost e2 = events@;
        Self::push_cluster_events(events, &data, true, Ghost(marks), Ghost(nc as nat));
        proof {
            let act = events@.subrange(e2.len() as int, events@.len() as int);
            assert(events@ =~= e2 + act);
            assert(events@ =~= e0 + d + move_events::<V>(moves) + act);
            assert(rel == released(old(self).voices(), old(self).pending().2));
            assert(cluster_events(d, released(old(self).voices(), old(self).pending().2), old(self).clusters(), false));
            assert(cluster_events(act, marks, old(self).clusters(), true));
            let fa = free_all(old(self).voices(), old(self).pending().0, Seq::empty(), Set::empty(), old(self).pending().1);
            assert(fa == (v1, a1, moves, mk1));
            assert(push_all(v1, a1, (old(self).clusters() * STEREO_VOICES_PER_VECTOR) as nat, mk1) == (self.voices@, marks));
            assert(flushed(old(self).voices(), old(self).pending(), old(self).clusters()) == (self.voices@, moves, marks));
            assert(events@ == old(events)@ + d + move_events::<V>(moves) + act
                && cluster_events(d, released(old(self).voices(), old(self).pending().2), old(self).clusters(), false)
                && cluster_events(act, marks, old(self).clusters(), true));
            let fl = flushed(old(self).voices(), old(self).pending(), old(self).clusters());
            assert(fl.1 == moves && fl.2 == marks);
            assert(events@ == old(events)@ + d + move_events::<V>(fl.1) + act
                && cluster_events(d, released(old(self).voices(), old(self).pending().2), old(self).clusters(), false)
                && cluster_events(act, fl.2, old(self).clusters(), true));
        }
    }
}

} // verus!
