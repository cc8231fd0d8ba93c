//! Quantised pixels and the plain-text raster (ASCII PPM) they are written
//! in: the format's magic line, the width and height, the top level 255, then
//! one `R G B` line per pixel, top row first.
use vstd::prelude::*;

verus! {

/// A quantised pixel: three channel levels in `0..=255`.
#[derive(Clone, Copy, Debug, PartialEq, Eq, Structural)]
pub struct Pixel {
    pub r: u8,
    pub g: u8,
    pub b: u8,
}

/// The level of a channel whose tone-mapped value `c` gives `scaled`, the
/// floor of `256 * c`: levels below 0 become 0 and those above 255 become 255,
/// so values under 0 go to black and values from 0.999 up to the top level.
pub open spec fn spec_level(scaled: i64) -> u8 {
    if scaled < 0 {
        0
    } else if scaled > 255 {
        255
    } else {
        scaled as u8
    }
}

/// The ASCII decimal digits of `n`, most significant first.
pub open spec fn decimal(n: nat) -> Seq<u8>
    decreases n,
{
    if n < 10 {
        seq![(48 + n) as u8]
    } else {
        decimal(n / 10).push((48 + n % 10) as u8)
    }
}

/// The text of one pixel: its levels in decimal, separated by single spaces.
pub open spec fn pixel_line(p: Pixel) -> Seq<u8> {
    decimal(p.r as nat) + seq![32u8] + decimal(p.g as nat) + seq![32u8] + decimal(p.b as nat)
}

/// The raster's header for an image of `width` by `height` pixels.
pub open spec fn header(width: nat, height: nat) -> Seq<u8> {
    seq![80u8, 51u8, 10u8] + decimal(width) + seq![32u8] + decimal(height) + seq![10u8]
        + decimal(255) + seq![10u8]
}

/// The lines of `pixels`, each followed by a newline.
pub open spec fn pixel_lines(pixels: Seq<Pixel>) -> Seq<u8>
    decreases pixels.len(),
{
    if pixels.len() == 0 {
        Seq::empty()
    } else {
        pixel_lines(pixels.drop_last()) + pixel_line(pixels.last()) + seq![10u8]
    }
}

/// The channel level for `scaled`, the floor of 256 times the tone-mapped
/// channel value, clamped into `0..=255`.
pub fn channel_level(scaled: i64) -> (r: u8)
    ensures
        r == spec_level(scaled),
{
    if scaled < 0 {
        0
    } else if scaled > 255 {
        255
    } else {
        scaled as u8
    }
}

/// The pixel whose channels give `r`, `g` and `b` as floors of 256 times
/// their tone-mapped values.
pub fn pixel_from_levels(r: i64, g: i64, b: i64) -> (p: Pixel)
    ensures
        p == (Pixel { r: spec_level(r), g: spec_level(g), b: spec_level(b) }),
{
    Pixel { r: channel_level(r), g: channel_level(g), b: channel_level(b) }
}

fn push_decimal(out: &mut Vec<u8>, n: u32)
    ensures
        final(out)@ == old(out)@ + decimal(n as nat),
    decreases n,
{
    if n >= 10 {
        push_decimal(out, n / 10);
    }
    let digit = (n % 10) as u8;
    out.push(48 + digit);
    proof {
        if n >= 10 {
            assert(decimal(n as nat) == decimal((n / 10) as nat).push((48 + n % 10) as u8));
        }
    }
    assert(out@ =~= old(out)@ + decimal(n as nat));
}

fn push_pixel(out: &mut Vec<u8>, p: Pixel)
    ensures
        final(out)@ == old(out)@ + pixel_line(p),
{
    push_decimal(out, p.r as u32);
    out.push(32);
    push_decimal(out, p.g as u32);
    out.push(32);
    push_decimal(out, p.b as u32);
    assert(out@ =~= old(out)@ + pixel_line(p));
}

/// The text of one pixel, `R G B`.
pub fn pixel_text(p: Pixel) -> (r: Vec<u8>)
    ensures
        r@ == pixel_line(p),
{
    let mut out: Vec<u8> = Vec::new();
    push_pixel(&mut out, p);
    assert(out@ =~= pixel_line(p));
    out
}

/// The raster of an image of `width` by `height` pixels given row by row, top
/// row first; `None` when `pixels` does not hold `width * height` pixels.
pub fn encode_raster(width: u32, height: u32, pixels: &Vec<Pixel>) -> (r: Option<Vec<u8>>)
    ensures
        r is Some <==> pixels@.len() == width * height,
        r matches Some(text) ==> text@ == header(width as nat, height as nat) + pixel_lines(
            pixels@,
        ),
{
    assert(width as u64 * height as u64 <= u32::MAX as u64 * u32::MAX as u64) by (nonlinear_arith);
    if pixels.len() as u64 != width as u64 * height as u64 {
        return None;
    }
    let mut out: Vec<u8> = Vec::new();
    out.push(80);
    out.push(51);
    out.push(10);
    push_decimal(&mut out, width);
    out.push(32);
    push_decimal(&mut out, height);
    out.push(10);
    push_decimal(&mut out, 255);
    out.push(10);
    assert(out@ =~= header(width as nat, height as nat));
    let mut i: usize = 0;
    while i < pixels.len()
        invariant
            i <= pixels@.len(),
            out@ == header(width as nat, height as nat) + pixel_lines(pixels@.take(i as int)),
        decreases pixels@.len() - i,
    {
        let ghost before = out@;
        push_pixel(&mut out, pixels[i]);
        out.push(10);
        assert(pixels@.take(i + 1).drop_last() =~= pixels@.take(i as int));
        assert(out@ =~= header(width as nat, height as nat) + pixel_lines(pixels@.take(i + 1)));
        i += 1;
    }
    assert(pixels@.take(pixels@.len() as int) =~= pixels@);
    Some(out)
}

} // verus!
