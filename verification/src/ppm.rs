//! The plain-text RGB raster format that the renderer writes: a `P3`
//! header with the image size and maximum channel value, then one
//! `r g b` triple per pixel, row-major. This module builds the exact
//! bytes; writing them to a sink is the caller's concern.

use vstd::prelude::*;
use crate::color::Color;

verus! {

/// The decimal digits of `n` in ASCII, most significant first, without
/// leading zeros.
pub open spec fn dec_rep(n: int) -> Seq<u8>
    decreases n,
{
    if n < 0 {
        seq![]
    } else if n < 10 {
        seq![(48 + n) as u8]
    } else {
        dec_rep(n / 10) + seq![(48 + n % 10) as u8]
    }
}

/// Appends the decimal digits of `n` to `out`.
fn push_dec(n: u32, out: &mut Vec<u8>)
    ensures
        final(out)@ == old(out)@ + dec_rep(n as int),
    decreases n,
{
    if n < 10 {
        out.push((48 + n) as u8);
        proof {
            assert(old(out)@.push((48 + n) as u8) =~= old(out)@ + dec_rep(n as int));
        }
    } else {
        push_dec(n / 10, out);
        let ghost mid = out@;
        out.push((48 + n % 10) as u8);
        proof {
            assert(mid.push((48 + n as int % 10) as u8) =~= old(out)@ + (dec_rep(n as int / 10)
                + seq![(48 + n as int % 10) as u8]));
        }
    }
}

/// The header of an image: `P3`, the width and height, and the maximum
/// channel value `255`, each on its own line.
pub open spec fn header_bytes(w: int, h: int) -> Seq<u8> {
    seq![80u8, 51u8, 10u8] + dec_rep(w) + seq![32u8] + dec_rep(h) + seq![10u8, 50u8, 53u8, 53u8, 10u8]
}

/// One pixel's line: the three channel values in decimal, separated by
/// spaces.
pub open spec fn pixel_bytes(c: Color<u8>) -> Seq<u8> {
    dec_rep(c.r as int) + seq![32u8] + dec_rep(c.g as int) + seq![32u8] + dec_rep(c.b as int)
        + seq![10u8]
}

/// The pixel lines of an image, in order.
pub open spec fn pixels_bytes(s: Seq<Color<u8>>) -> Seq<u8>
    decreases s.len(),
{
    if s.len() == 0 {
        seq![]
    } else {
        pixels_bytes(s.drop_last()) + pixel_bytes(s.last())
    }
}

/// Builds the header line of an image of the given size.
pub fn ppm_header(width: u16, height: u16) -> (v: Vec<u8>)
    ensures
        v@ == header_bytes(width as int, height as int),
{
    let mut v: Vec<u8> = Vec::new();
    v.push(80);
    v.push(51);
    v.push(10);
    let ghost a = v@;
    push_dec(width as u32, &mut v);
    v.push(32);
    let ghost b = v@;
    push_dec(height as u32, &mut v);
    v.push(10);
    v.push(50);
    v.push(53);
    v.push(53);
    v.push(10);
    proof {
        assert(a =~= seq![80u8, 51u8, 10u8]);
        assert(v@ =~= header_bytes(width as int, height as int));
    }
    v
}

/// Builds one pixel's `r g b` line.
pub fn ppm_pixel(color: &Color<u8>) -> (v: Vec<u8>)
    ensures
        v@ == pixel_bytes(*color),
{
    let mut v: Vec<u8> = Vec::new();
    push_dec(color.r as u32, &mut v);
    v.push(32);
    push_dec(color.g as u32, &mut v);
    v.push(32);
    push_dec(color.b as u32, &mut v);
    v.push(10);
    proof {
        assert(v@ =~= pixel_bytes(*color));
    }
    v
}

/// Builds a whole image: the header, then one line per pixel, top row
/// first, left to right.
pub fn ppm_image(width: u16, height: u16, pixels: &Vec<Color<u8>>) -> (v: Vec<u8>)
    requires
        pixels@.len() == width * height,
    ensures
        v@ == header_bytes(width as int, height as int) + pixels_bytes(pixels@),
{
    let mut v = ppm_header(width, height);
    let ghost head = v@;
    let mut i: usize = 0;
    while i < pixels.len()
        invariant
            i <= pixels@.len(),
            v@ == head + pixels_bytes(pixels@.subrange(0, i as int)),
        decreases pixels@.len() - i,
    {
        let line = ppm_pixel(&pixels[i]);
        let ghost v0 = v@;
        let mut j: usize = 0;
        while j < line.len()
            invariant
                j <= line@.len(),
                v@ == v0 + line@.subrange(0, j as int),
            decreases line@.len() - j,
        {
            let ghost vj = v@;
            v.push(line[j]);
            proof {
                assert(vj.push(line@[j as int]) =~= v0 + line@.subrange(0, j + 1));
            }
            j = j + 1;
        }
        proof {
            assert(line@.subrange(0, line@.len() as int) =~= line@);
            assert(pixels@.subrange(0, i + 1).drop_last() =~= pixels@.subrange(0, i as int));
            assert(pixels@.subrange(0, i + 1).last() == pixels@[i as int]);
            assert(v@ =~= head + pixels_bytes(pixels@.subrange(0, i + 1)));
        }
        i = i + 1;
    }
    proof {
        assert(pixels@.subrange(0, pixels@.len() as int) =~= pixels@);
    }
    v
}

} // verus!
