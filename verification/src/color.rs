use vstd::prelude::*;

verus! {

/// An RGB colour whose channels are stored as plain unsigned integers.
#[derive(Clone, Copy, Debug, PartialEq, Eq, Structural)]
pub struct Color {
    pub red: u32,
    pub green: u32,
    pub blue: u32,
}

impl Color {
    /// Builds a colour from its three channels.
    pub fn new(red: u32, green: u32, blue: u32) -> (c: Color)
        ensures
            c.red == red,
            c.green == green,
            c.blue == blue,
    {
        Color { red, blue, green }
    }

    /// Black: every channel is zero.
    pub fn black() -> (c: Color)
        ensures
            c == Color::spec_new(0, 0, 0),
    {
        Color::new(0, 0, 0)
    }

    /// White: every channel is 255.
    pub fn white() -> (c: Color)
        ensures
            c == Color::spec_new(255, 255, 255),
    {
        Color::new(255, 255, 255)
    }

    pub open spec fn spec_new(red: u32, green: u32, blue: u32) -> Color {
        Color { red, green, blue }
    }
}

} // verus!
