//! Conversion of colour levels to the bytes of the output image.
use crate::math::Clamp;
use vstd::prelude::*;

verus! {

/// The byte for a colour channel whose level, scaled by 255 and rounded, is
/// `level`: levels below 0 give 0 and levels above 255 give 255.
pub open spec fn channel_byte(level: int) -> u8 {
    if level < 0 {
        0u8
    } else if level > 255 {
        255u8
    } else {
        level as u8
    }
}

/// The output byte of one colour channel from its scaled, rounded level.
pub fn channel(level: i64) -> (byte: u8)
    ensures
        byte == channel_byte(level as int),
{
    let bounded: i64 = Clamp::clamp(level, 0, 255);
    bounded as u8
}

/// The output pixel for the scaled, rounded levels of red, green and blue.
pub fn rgb(red: i64, green: i64, blue: i64) -> (pixel: (u8, u8, u8))
    ensures
        pixel == (
            channel_byte(red as int),
            channel_byte(green as int),
            channel_byte(blue as int),
        ),
{
    (channel(red), channel(green), channel(blue))
}

} // verus!
