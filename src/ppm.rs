//! Plain-text (ASCII) PPM encoding of an 8-bit RGB raster.
use vstd::prelude::*;

verus! {

/// ASCII `0`.
pub const DIGIT_ZERO: u8 = 48;

/// ASCII `P`.
pub const LETTER_P: u8 = 80;

/// ASCII `3`.
pub const DIGIT_THREE: u8 = 51;

/// ASCII space.
pub const SPACE: u8 = 32;

/// ASCII line feed.
pub const NEWLINE: u8 = 10;

/// The decimal digits of `n`, most significant first, as ASCII.
pub open spec fn decimal(n: nat) -> Seq<u8>
    decreases n,
{
    if n < 10 {
        seq![(DIGIT_ZERO + n) as u8]
    } else {
        decimal(n / 10).push((DIGIT_ZERO + n % 10) as u8)
    }
}

/// The ASCII PPM magic number, the width and height, and the largest channel value 255, each on
/// its own line.
pub open spec fn header(width: nat, height: nat) -> Seq<u8> {
    seq![LETTER_P, DIGIT_THREE, NEWLINE] + decimal(width) + seq![SPACE] + decimal(height) + seq![NEWLINE] + decimal(
        255,
    ) + seq![NEWLINE]
}

/// One pixel: its three channels separated by spaces, on a line of its own.
pub open spec fn pixel_line(px: [u8; 3]) -> Seq<u8> {
    decimal(px[0] as nat) + seq![SPACE] + decimal(px[1] as nat) + seq![SPACE] + decimal(
        px[2] as nat,
    ) + seq![NEWLINE]
}

/// The lines of all pixels, in order.
pub open spec fn pixel_lines(pixels: Seq<[u8; 3]>) -> Seq<u8>
    decreases pixels.len(),
{
    if pixels.len() == 0 {
        seq![]
    } else {
        pixel_lines(pixels.drop_last()) + pixel_line(pixels.last())
    }
}

/// A whole PPM document.
pub open spec fn ppm(width: nat, height: nat, pixels: Seq<[u8; 3]>) -> Seq<u8> {
    header(width, height) + pixel_lines(pixels)
}

/// Appends the decimal digits of `n`.
fn push_decimal(out: &mut Vec<u8>, n: u32)
    ensures
        final(out)@ == old(out)@ + decimal(n as nat),
    decreases n,
{
    if n >= 10 {
        push_decimal(out, n / 10);
    }
    out.push(DIGIT_ZERO + (n % 10) as u8);
    proof {
        if n < 10 {
            assert(decimal(n as nat) == seq![(DIGIT_ZERO + n) as u8]);
        } else {
            assert(decimal(n as nat) == decimal((n / 10) as nat).push((DIGIT_ZERO + n % 10) as u8));
        }
    }
    assert(out@ =~= old(out)@ + decimal(n as nat));
}

/// Encodes a row-major raster of `width` by `height` pixels.
pub fn encode_ppm(width: u16, height: u16, pixels: &Vec<[u8; 3]>) -> (r: Vec<u8>)
    ensures
        r@ == ppm(width as nat, height as nat, pixels@),
{
    let mut out: Vec<u8> = Vec::new();
    out.push(LETTER_P);
    out.push(DIGIT_THREE);
    out.push(NEWLINE);
    push_decimal(&mut out, width as u32);
    out.push(SPACE);
    push_decimal(&mut out, height as u32);
    out.push(NEWLINE);
    push_decimal(&mut out, 255);
    out.push(NEWLINE);
    assert(out@ =~= header(width as nat, height as nat));
    let mut i: usize = 0;
    while i < pixels.len()
        invariant
            i <= pixels.len(),
            out@ == header(width as nat, height as nat) + pixel_lines(pixels@.subrange(0, i as int)),
        decreases pixels.len() - i,
    {
        let px = pixels[i];
        let ghost before = out@;
        push_decimal(&mut out, px[0] as u32);
        out.push(SPACE);
        push_decimal(&mut out, px[1] as u32);
        out.push(SPACE);
        push_decimal(&mut out, px[2] as u32);
        out.push(NEWLINE);
        assert(out@ =~= before + pixel_line(px));
        assert(pixels@.subrange(0, i + 1).drop_last() =~= pixels@.subrange(0, i as int));
        i += 1;
        assert(out@ =~= header(width as nat, height as nat) + pixel_lines(
            pixels@.subrange(0, i as int),
        ));
    }
    assert(pixels@.subrange(0, i as int) =~= pixels@);
    out
}

} // verus!
