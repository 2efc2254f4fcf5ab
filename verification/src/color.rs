//! A three-channel colour value, generic over the channel type.
//!
//! The renderer uses `Color<f64>` for linear colour during light transport
//! and `Color<u8>` for quantized 8-bit output; this library's verified image
//! writer consumes the 8-bit form.

use vstd::prelude::*;

verus! {

/// An RGB colour triple. Channel values range over `[0, 1]` for linear
/// colour types and over `[0, 255]` for 8-bit output types.
#[derive(Clone, Copy, Debug)]
pub struct Color<T> {
    pub r: T,
    pub g: T,
    pub b: T,
}

impl<T> Color<T> {
    pub fn new(r: T, g: T, b: T) -> (c: Self)
        ensures
            c.r == r,
            c.g == g,
            c.b == b,
    {
        Self { r, g, b }
    }
}

} // verus!
