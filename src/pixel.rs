use vstd::prelude::*;

verus! {

/// A pixel value: red, green, blue and alpha channels.
#[derive(Clone, Copy, PartialEq, Eq, Structural, Debug)]
pub struct Pixel {
    pub r: u8,
    pub g: u8,
    pub b: u8,
    pub a: u8,
}

/// The ordering key of a pixel: the floor average of all four channels,
/// alpha included.
pub open spec fn brightness_of(p: Pixel) -> u32 {
    ((p.r as int + p.g as int + p.b as int + p.a as int) / 4) as u32
}

impl Pixel {
    pub fn new(r: u8, g: u8, b: u8, a: u8) -> (p: Pixel)
        ensures
            p == (Pixel { r, g, b, a }),
    {
        Pixel { r, g, b, a }
    }
}

/// Computes the brightness of a pixel.
pub fn brightness(p: &Pixel) -> (r: u32)
    ensures
        r == brightness_of(*p),
        r <= 255,
{
    let sum: u32 = (p.r as u32) + (p.g as u32) + (p.b as u32) + (p.a as u32);
    sum / 4
}

} // verus!
