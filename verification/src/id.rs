//! Things that carry a numeric identity.
use vstd::prelude::*;

verus! {

pub trait Id {
    fn get_id(&self) -> u64;
}

} // verus!
