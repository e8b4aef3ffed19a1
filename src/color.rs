use vstd::prelude::*;

verus! {

/// An RGB color with one byte per channel.
#[derive(Clone, Copy, Debug, PartialEq, Eq, Structural)]
pub struct Color {
    pub r: u8,
    pub g: u8,
    pub b: u8,
}

/// Sum of two channel values, capped at the largest channel value.
pub open spec fn sat_add(a: u8, b: u8) -> u8 {
    if a + b > 255 { 255 } else { (a + b) as u8 }
}

impl Color {
    /// Black, the value every pixel starts from.
    pub fn new() -> (c: Color)
        ensures
            c == (Color { r: 0, g: 0, b: 0 }),
    {
        Color { r: 0, g: 0, b: 0 }
    }

    pub fn new_color(r: u8, g: u8, b: u8) -> (c: Color)
        ensures
            c == (Color { r, g, b }),
    {
        Color { r, g, b }
    }

    /// Overwrites every channel with those of `new_color`.
    pub fn plot_color(&mut self, new_color: &Color)
        ensures
            *final(self) == *new_color,
    {
        self.r = new_color.r;
        self.g = new_color.g;
        self.b = new_color.b;
    }

    /// Resets the color to black.
    pub fn reset_color(&mut self)
        ensures
            *final(self) == (Color { r: 0, g: 0, b: 0 }),
    {
        self.r = 0;
        self.b = 0;
        self.g = 0;
    }

    /// Channel-wise sum that saturates at 255.
    pub fn add(self, other: Color) -> (c: Color)
        ensures
            c.r == sat_add(self.r, other.r),
            c.g == sat_add(self.g, other.g),
            c.b == sat_add(self.b, other.b),
    {
        Color {
            r: if self.r as u16 + other.r as u16 > 255 { 255 } else { self.r + other.r },
            g: if self.g as u16 + other.g as u16 > 255 { 255 } else { self.g + other.g },
            b: if self.b as u16 + other.b as u16 > 255 { 255 } else { self.b + other.b },
        }
    }
}

} // verus!
