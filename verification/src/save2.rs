//! The in-place flavour of the save contract: instead of constructing a
//! fresh value, loading overwrites an existing one. Every savable type gets
//! it for free, and types with a default get a one-call static loader.
use crate::buffer::ByteBuffer;
use crate::save::Savable;
use vstd::prelude::*;

verus! {

/// Saving as usual; loading by overwriting `self`.
pub trait Savable2: Savable {
    /// Appends this value's canonical encoding, exactly as `Savable::save`.
    fn save(&self, saver: &mut ByteBuffer)
        requires
            Self::encodable(self.model()),
        ensures
            final(saver)@.data == old(saver)@.data + Self::encoding(
                self.model(),
                old(saver)@.le,
            ),
            final(saver)@.rpos == old(saver)@.rpos,
            final(saver)@.le == old(saver)@.le,
    ;

    /// Reads one value and stores it in `self`; on failure `self` is left
    /// as it was.
    fn load_into(&mut self, loader: &mut ByteBuffer) -> (r: Result<(), String>)
        ensures
            final(loader)@.data == old(loader)@.data,
            final(loader)@.le == old(loader)@.le,
            final(loader)@.rpos >= old(loader)@.rpos,
            final(loader)@.rpos <= old(loader)@.data.len(),
            match r {
                Ok(_) => {
                    &&& Self::encodable(final(self).model())
                    &&& Self::accepts(
                        final(self).model(),
                        old(loader)@.le,
                        old(loader)@.data.subrange(
                            old(loader)@.rpos as int,
                            final(loader)@.rpos as int,
                        ),
                    )
                },
                Err(_) => *final(self) == *old(self) && !(exists|m: Self::Model, b: Seq<u8>|
                    Self::encodable(m) && Self::accepts(m, old(loader)@.le, b) && old(
                        loader,
                    )@.starts_with(b)),
            },
    ;
}

impl<T: Savable> Savable2 for T {
    fn save(&self, saver: &mut ByteBuffer) {
        Savable::save(self, saver);
    }

    fn load_into(&mut self, loader: &mut ByteBuffer) -> (r: Result<(), String>) {
        match T::load(loader) {
            Ok(v) => {
                *self = v;
                Ok(())
            },
            Err(e) => Err(e),
        }
    }
}

/// A static loader for types that can start from a default value.
pub trait Savable2Convenience: Savable + Sized {
    /// Builds a default value and loads into it.
    fn load_static(loader: &mut ByteBuffer) -> (r: Result<Self, String>)
        ensures
            final(loader)@.data == old(loader)@.data,
            final(loader)@.le == old(loader)@.le,
            final(loader)@.rpos >= old(loader)@.rpos,
            final(loader)@.rpos <= old(loader)@.data.len(),
            match r {
                Ok(v) => {
                    &&& Self::encodable(v.model())
                    &&& Self::accepts(
                        v.model(),
                        old(loader)@.le,
                        old(loader)@.data.subrange(
                            old(loader)@.rpos as int,
                            final(loader)@.rpos as int,
                        ),
                    )
                },
                Err(_) => !(exists|m: Self::Model, b: Seq<u8>|
                    Self::encodable(m) && Self::accepts(m, old(loader)@.le, b) && old(
                        loader,
                    )@.starts_with(b)),
            },
    ;
}

impl<T: Savable2 + Default> Savable2Convenience for T {
    fn load_static(loader: &mut ByteBuffer) -> (r: Result<Self, String>) {
        let mut d = T::default();
        match d.load_into(loader) {
            Ok(_) => Ok(d),
            Err(e) => Err(e),
        }
    }
}

} // verus!
