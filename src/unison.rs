//! The integer layout of a unison stack: how many vector-wide oscillators a voice needs, which
//! of their lanes sound, and where each lane sits in the symmetric detune fan.
use vstd::prelude::*;
use crate::util::FLOATS_PER_VECTOR;

verus! {

/// The largest number of unison voices of one voice.
pub const MAX_UNISON: u32 = 16;

/// The number of unison lanes a voice uses: its voice count rounded up to a pair, so that left
/// and right stay adjacent.
pub open spec fn paired(num_voices: u32) -> int {
    num_voices + num_voices % 2
}

/// How many vector-wide oscillators a voice of `num_voices` unison voices needs.
pub fn num_oscs_stereo(num_voices: u32) -> (r: u32)
    requires
        1 <= num_voices <= MAX_UNISON,
    ensures
        r == (paired(num_voices) + FLOATS_PER_VECTOR - 1) / FLOATS_PER_VECTOR as int,
        1 <= r <= 4,
{
    let odd = num_voices & 1;
    assert(num_voices & 1 == num_voices % 2) by (bit_vector);
    let n = num_voices + odd;
    let fpv: u32 = 4;
    (n + fpv - 1) / fpv
}

/// The unison lane of lane `lane` of oscillator `osc`.
pub open spec fn lane_index(osc: int, lane: int) -> int {
    osc * FLOATS_PER_VECTOR + lane
}

/// The lanes of oscillator `osc` that carry one of the voice's unison lanes.
pub fn gather_mask(num_voices: u32, osc: u32) -> (r: [bool; 4])
    requires
        1 <= num_voices <= MAX_UNISON,
        osc < MAX_UNISON,
    ensures
        forall|k: int| 0 <= k < 4 ==> #[trigger] r[k] == (lane_index(osc as int, k) < paired(num_voices)),
{
    let odd = num_voices & 1;
    assert(num_voices & 1 == num_voices % 2) by (bit_vector);
    let n = num_voices + odd;
    let base = osc * 4;
    [base < n, base + 1 < n, base + 2 < n, base + 3 < n]
}

/// The position in the detune fan of lane `lane` of oscillator `osc`: its pair of lanes.
pub open spec fn pair_index(osc: int, lane: int) -> int {
    lane_index(osc, lane) / 2
}

/// Whether lane `lane` of oscillator `osc` is detuned downwards: bit 0 of its unison lane
/// index XOR its pair index.
pub open spec fn detunes_down(osc: int, lane: int) -> bool {
    ((lane_index(osc, lane) as u32) ^ (pair_index(osc, lane) as u32)) & 1 == 1
}

/// For each lane of oscillator `osc`: whether it is detuned downwards, and its distance from the
/// centre of the fan as a fraction `(numerator, denominator)` of the full detune.
pub fn detune_fan(num_voices: u32, osc: u32) -> (r: [(bool, u32, u32); 4])
    requires
        1 <= num_voices <= MAX_UNISON,
        osc < MAX_UNISON,
    ensures
        forall|k: int| 0 <= k < 4 ==> {
            &&& (#[trigger] r[k]).0 == detunes_down(osc as int, k)
            &&& r[k].1 == pair_index(osc as int, k) * 2 + (num_voices + 1) % 2
            &&& r[k].2 == if num_voices < 2 { 1 } else { num_voices - 1 }
        },
{
    let next = num_voices + 1;
    let start = next & 1;
    assert(next & 1 == next % 2) by (bit_vector);
    let denominator = if num_voices < 2 { 1 } else { num_voices - 1 };
    let mut r = [(false, 0u32, 0u32); 4];
    let mut k: u32 = 0;
    while k < 4
        invariant
            k <= 4,
            osc < MAX_UNISON,
            start == (num_voices + 1) % 2,
            denominator == if num_voices < 2 { 1 } else { num_voices - 1 },
            forall|j: int| 0 <= j < k ==> {
                &&& (#[trigger] r[j]).0 == detunes_down(osc as int, j)
                &&& r[j].1 == pair_index(osc as int, j) * 2 + (num_voices + 1) % 2
                &&& r[j].2 == denominator
            },
        decreases 4 - k,
    {
        let lane = osc * 4 + k;
        let pair = lane / 2;
        assert(lane as int == lane_index(osc as int, k as int));
        assert(pair as int == pair_index(osc as int, k as int));
        r[k as usize] = (((lane ^ pair) & 1) == 1, pair * 2 + start, denominator);
        k = k + 1;
    }
    r
}

} // verus!
