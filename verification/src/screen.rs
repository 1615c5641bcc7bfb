//! Units a screen measurement can be given in. Converting between them
//! needs the display's dot density, which is not integer work; only the
//! unit tag itself lives here.
use vstd::prelude::*;

verus! {

#[derive(Copy, Clone, Eq, PartialEq, Structural)]
pub enum Measurement {
    PX,
    MM,
    CM,
    DM,
    M,
    IN,
    FT,
}

impl Measurement {
    /// The default unit is raw pixels.
    pub fn default_unit() -> (r: Measurement)
        ensures
            r == Measurement::PX,
    {
        Measurement::PX
    }
}

} // verus!
