//! Index arithmetic of band-limited wavetable reads: which mipmap survives Nyquist at a given
//! phase increment, and which two samples of it a phase falls between.
use vstd::prelude::*;
use vstd::std_specs::bits::u32_leading_zeros;

verus! {

/// How many octaves of frequency content the tables hold; also log2 of the frame length.
pub const NUM_OCTAVES: u32 = 11;

/// The number of samples of each mipmap of a frame.
pub const FRAME_LEN: u32 = 2048;

/// The number of mipmaps of each frame.
pub const NUM_MIPMAPS: u32 = 12;

/// The mipmap read at phase increment `phase_delta`: its number of leading zero bits, at most
/// `NUM_OCTAVES`.
pub open spec fn octaves_of(phase_delta: u32) -> u32 {
    if u32_leading_zeros(phase_delta) < NUM_OCTAVES {
        u32_leading_zeros(phase_delta)
    } else {
        NUM_OCTAVES
    }
}

/// The mipmap to read at phase increment `phase_delta`.
pub fn mipmap_octaves(phase_delta: u32) -> (r: u32)
    ensures
        r == octaves_of(phase_delta),
        r <= NUM_OCTAVES,
        phase_delta == 0 ==> r == NUM_OCTAVES,
{
    proof {
        vstd::std_specs::bits::axiom_u32_leading_zeros(phase_delta);
    }
    let z = phase_delta.leading_zeros();
    if z < NUM_OCTAVES {
        z
    } else {
        NUM_OCTAVES
    }
}

/// The offset in a table of `[frame][mipmap][sample]` of the first sample of `mipmap` of `frame`.
pub open spec fn table_start(octaves: u32, frame: u32) -> int {
    (octaves + frame * NUM_MIPMAPS) * FRAME_LEN
}

/// Where a read at `phase` of `frame` with increment `phase_delta` goes: the fractional part
/// of the phase as the high bits of a `u32`, and the offsets of the two samples it falls
/// between, the second wrapping around to the start of the mipmap.
pub fn get_resample_data(phase: u32, frame: u32, phase_delta: u32) -> (r: (u32, u32, u32))
    requires
        (frame + 1) * NUM_MIPMAPS * FRAME_LEN <= u32::MAX + 1,
    ensures
        r.0 == phase << NUM_OCTAVES,
        r.1 == table_start(octaves_of(phase_delta), frame) + (phase >> 21u32),
        r.2 == table_start(octaves_of(phase_delta), frame) + ((phase >> 21u32) + 1) % (FRAME_LEN as int),
        r.1 < (frame + 1) * NUM_MIPMAPS * FRAME_LEN,
        r.2 < (frame + 1) * NUM_MIPMAPS * FRAME_LEN,
{
    let octaves = mipmap_octaves(phase_delta);
    let fract = phase << NUM_OCTAVES;
    let phase_a = phase >> 21u32;
    assert(phase >> 21u32 < 2048u32) by (bit_vector);
    let next = phase_a + 1;
    let phase_b = next & (FRAME_LEN - 1);
    assert(next <= 2048u32 ==> next & 2047u32 == next % 2048u32) by (bit_vector);
    assert((frame + 1) * NUM_MIPMAPS * FRAME_LEN == frame * NUM_MIPMAPS * FRAME_LEN + NUM_MIPMAPS * FRAME_LEN) by (nonlinear_arith);
    assert(table_start(octaves, frame) == octaves * FRAME_LEN + frame * NUM_MIPMAPS * FRAME_LEN) by (nonlinear_arith);
    let start = (octaves + frame * NUM_MIPMAPS) * FRAME_LEN;
    (fract, start + phase_a, start + phase_b)
}

/// [`get_resample_data`] on every lane where `mask` is set; the other lanes read offset 0.
pub fn get_resample_data_select(phase: [u32; 4], frame: [u32; 4], phase_delta: [u32; 4], mask: [bool; 4], num_frames: u32) -> (r: [(u32, u32, u32); 4])
    requires
        num_frames * NUM_MIPMAPS * FRAME_LEN <= u32::MAX + 1,
        forall|i: int| 0 <= i < 4 && mask[i] ==> #[trigger] frame[i] < num_frames,
    ensures
        forall|i: int| 0 <= i < 4 ==> {
            &&& mask[i] ==> #[trigger] r[i].1 < num_frames * NUM_MIPMAPS * FRAME_LEN
            &&& mask[i] ==> r[i].2 < num_frames * NUM_MIPMAPS * FRAME_LEN
            &&& mask[i] ==> r[i].1 == table_start(octaves_of(phase_delta[i]), frame[i]) + (phase[i] >> 21u32)
            &&& mask[i] ==> r[i].0 == phase[i] << NUM_OCTAVES
            &&& mask[i] ==> r[i].2 == table_start(octaves_of(phase_delta[i]), frame[i]) + ((phase[i] >> 21u32) + 1) % (FRAME_LEN as int)
            &&& !mask[i] ==> r[i] == (0u32, 0u32, 0u32)
        },
{
    let mut r = [(0u32, 0u32, 0u32); 4];
    let mut i: usize = 0;
    while i < 4
        invariant
            i <= 4,
            num_frames * NUM_MIPMAPS * FRAME_LEN <= u32::MAX + 1,
            forall|j: int| 0 <= j < 4 && mask[j] ==> #[trigger] frame[j] < num_frames,
            forall|j: int| 0 <= j < 4 ==> {
                &&& j < i && mask[j] ==> #[trigger] r[j].1 < num_frames * NUM_MIPMAPS * FRAME_LEN
                &&& j < i && mask[j] ==> r[j].2 < num_frames * NUM_MIPMAPS * FRAME_LEN
                &&& j < i && mask[j] ==> r[j].1 == table_start(octaves_of(phase_delta[j]), frame[j]) + (phase[j] >> 21u32)
                &&& j < i && mask[j] ==> r[j].0 == phase[j] << NUM_OCTAVES
                &&& j < i && mask[j] ==> r[j].2 == table_start(octaves_of(phase_delta[j]), frame[j]) + ((phase[j] >> 21u32) + 1) % (FRAME_LEN as int)
                &&& !(j < i && mask[j]) ==> r[j] == (0u32, 0u32, 0u32)
            },
        decreases 4 - i,
    {
        if mask[i] {
            let f = frame[i];
            assert((f + 1) * NUM_MIPMAPS * FRAME_LEN <= num_frames * NUM_MIPMAPS * FRAME_LEN) by (nonlinear_arith)
                requires f + 1 <= num_frames;
            r[i] = get_resample_data(phase[i], f, phase_delta[i]);
        }
        i = i + 1;
    }
    r
}

} // verus!
