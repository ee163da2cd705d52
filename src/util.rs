//! Lane-level helpers on vectors of `FLOATS_PER_VECTOR` lanes, where lanes `2i` and `2i+1` hold
//! the left and right channel of stereo voice `i`.
use vstd::prelude::*;

verus! {

/// The number of lanes of a vector.
pub const FLOATS_PER_VECTOR: usize = 4;

/// The number of stereo voices a vector holds.
pub const STEREO_VOICES_PER_VECTOR: usize = 2;

/// Number of `d`-sized chunks needed to cover `n` items, that is `n / d` rounded up.
pub fn enclosing_div(n: usize, d: usize) -> (r: usize)
    requires
        d > 0,
        n + d - 1 <= usize::MAX,
    ensures
        r as int == (n as int + d as int - 1) / d as int,
{
    (n + (d - 1)) / d
}

/// Applies `f` to every lane.
pub fn map<T: Copy, U, F: Fn(T) -> U>(v: [T; 4], f: F) -> (r: [U; 4])
    requires
        forall|i: int| 0 <= i < 4 ==> f.requires((#[trigger] v[i],)),
    ensures
        forall|i: int| 0 <= i < 4 ==> f.ensures((#[trigger] v[i],), r[i]),
{
    let a = f(v[0]);
    let b = f(v[1]);
    let c = f(v[2]);
    let d = f(v[3]);
    [a, b, c, d]
}

/// A vector with `item` in every lane.
pub fn splat<T: Copy>(item: T) -> (r: [T; 4])
    ensures
        forall|i: int| 0 <= i < 4 ==> #[trigger] r[i] == item,
{
    [item, item, item, item]
}

/// A vector with the stereo `pair` in every voice.
pub fn splat_stereo<T: Copy>(pair: [T; 2]) -> (r: [T; 4])
    ensures
        forall|i: int| 0 <= i < 4 ==> #[trigger] r[i] == pair[i % 2],
{
    [pair[0], pair[1], pair[0], pair[1]]
}

/// The vector with the two channels of every voice exchanged: lane `i` gets lane `i ^ 1`.
pub fn swap_stereo<T: Copy>(v: [T; 4]) -> (r: [T; 4])
    ensures
        forall|i: int| 0 <= i < 4 ==> #[trigger] r[i] == v[if i % 2 == 0 { i + 1 } else { i - 1 }],
{
    [v[1], v[0], v[3], v[2]]
}

/// The stereo pair of voice `index` in every voice, if there is such a voice.
pub fn splat_slot<T: Copy>(vector: &[T; 4], index: usize) -> (r: Option<[T; 4]>)
    ensures
        r.is_some() == (index < STEREO_VOICES_PER_VECTOR),
        r.is_some() ==> forall|i: int| 0 <= i < 4 ==> #[trigger] r.unwrap()[i] == vector[2 * index + i % 2],
{
    if index < STEREO_VOICES_PER_VECTOR {
        Some(splat_stereo([vector[2 * index], vector[2 * index + 1]]))
    } else {
        None
    }
}

/// Whether any lane of a mask is set.
pub trait MaskAny {
    spec fn any_spec(&self) -> bool;

    fn any(self) -> (r: bool)
        ensures
            r == self.any_spec(),
    ;
}

impl MaskAny for [bool; 4] {
    open spec fn any_spec(&self) -> bool {
        exists|i: int| 0 <= i < 4 && self[i]
    }

    fn any(self) -> (r: bool) {
        self[0] || self[1] || self[2] || self[3]
    }
}

/// A mask with every lane set to one value.
pub trait MaskSplat: Sized {
    spec fn lane(&self, i: int) -> bool;

    fn splat(val: bool) -> (r: Self)
        ensures
            forall|i: int| 0 <= i < 4 ==> r.lane(i) == val,
    ;
}

impl MaskSplat for [bool; 4] {
    open spec fn lane(&self, i: int) -> bool {
        self[i]
    }

    fn splat(val: bool) -> (r: Self) {
        [val, val, val, val]
    }
}

/// Lane-wise choice between two vectors.
pub trait MaskSelect: Sized {
    /// `r` holds each lane of `self` where `mask` is set, else that lane of `or`.
    spec fn is_selection(&self, mask: [bool; 4], or: Self, r: Self) -> bool;

    /// Each lane of `self` where `mask` is set, else that lane of `or`.
    fn select_or(self, mask: [bool; 4], or: Self) -> (r: Self)
        ensures
            self.is_selection(mask, or, r),
    ;
}

impl<T: Copy> MaskSelect for [T; 4] {
    open spec fn is_selection(&self, mask: [bool; 4], or: Self, r: Self) -> bool {
        forall|i: int| 0 <= i < 4 ==> #[trigger] r[i] == if mask[i] { self[i] } else { or[i] }
    }

    fn select_or(self, mask: [bool; 4], or: Self) -> (r: Self) {
        [
            if mask[0] { self[0] } else { or[0] },
            if mask[1] { self[1] } else { or[1] },
            if mask[2] { self[2] } else { or[2] },
            if mask[3] { self[3] } else { or[3] },
        ]
    }
}

} // verus!
