use vstd::prelude::*;

verus! {

/// One RGB color sample, a channel per byte as decoded from a photograph.
#[derive(Clone, Copy, Debug, PartialEq, Eq, Structural)]
pub struct Rgb {
    pub r: u8,
    pub g: u8,
    pub b: u8,
}

impl Rgb {
    /// A pure-black pixel marks background: no foreground surface was
    /// photographed there.
    pub open spec fn spec_is_black(self) -> bool {
        self.r == 0 && self.g == 0 && self.b == 0
    }

    pub fn is_black(&self) -> (black: bool)
        ensures
            black == self.spec_is_black(),
    {
        self.r == 0 && self.g == 0 && self.b == 0
    }
}

} // verus!
