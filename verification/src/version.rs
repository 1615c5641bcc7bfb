//! A four-part version number and its packed 32-bit form: three bits of
//! variant, seven of major, ten of minor and twelve of patch.
use crate::buffer::ByteBuffer;
use crate::save::{lemma_chop, lemma_fixed_prefix, Savable};
use crate::wire::bytes2;
use vstd::prelude::*;
use vstd::string::StringExecFns;

verus! {

#[derive(Eq, PartialEq, Copy, Clone, Debug, Structural)]
pub struct Version {
    pub variant: u16,
    pub major: u16,
    pub minor: u16,
    pub patch: u16,
}

impl Version {
    pub fn new(variant: u16, major: u16, minor: u16, patch: u16) -> (r: Version)
        ensures
            r == (Version { variant, major, minor, patch }),
    {
        Version { variant, major, minor, patch }
    }

    /// Unpacks a 32-bit packed version into its four parts.
    pub fn parse_vulkan(version: u32) -> (r: Version)
        ensures
            r.variant == (version >> 29) as u16,
            r.major == ((version >> 22) & 0x7f) as u16,
            r.minor == ((version >> 12) & 0x3FF) as u16,
            r.patch == (version & 0xFFF) as u16,
    {
        proof {
            assert((version >> 29) < 0x10000 && ((version >> 22) & 0x7f) < 0x10000 && ((version
                >> 12) & 0x3FF) < 0x10000 && (version & 0xFFF) < 0x10000) by (bit_vector);
        }
        Version {
            variant: (version >> 29) as u16,
            major: ((version >> 22) & 0x7f) as u16,
            minor: ((version >> 12) & 0x3FF) as u16,
            patch: (version & 0xFFF) as u16,
        }
    }

    /// Packs the four parts back into 32 bits.
    pub fn as_vulkan_version(&self) -> (r: u32)
        ensures
            r == ((self.variant as u32) << 29 | (self.major as u32) << 22) | ((self.minor as u32)
                << 12) | (self.patch as u32),
    {
        ((self.variant as u32) << 29 | (self.major as u32) << 22) | ((self.minor as u32) << 12) | (
        self.patch as u32)
    }

    /// The directive line a shader expects: "#version " followed by the
    /// major, minor and patch digits run together.
    pub fn to_glsl_string(&self) -> (r: String)
        ensures
            r@ == "#version "@ + crate::utils::dec_digits(self.major as nat)
                + crate::utils::dec_digits(self.minor as nat) + crate::utils::dec_digits(
                self.patch as nat,
            ),
    {
        let mut out = "#version ".to_owned();
        out.append(crate::utils::dec_string(self.major as u32).as_str());
        out.append(crate::utils::dec_string(self.minor as u32).as_str());
        out.append(crate::utils::dec_string(self.patch as u32).as_str());
        out
    }

    pub fn variant(&self) -> (r: u16)
        ensures
            r == self.variant,
    {
        self.variant
    }

    pub fn major(&self) -> (r: u16)
        ensures
            r == self.major,
    {
        self.major
    }

    pub fn minor(&self) -> (r: u16)
        ensures
            r == self.minor,
    {
        self.minor
    }

    pub fn patch(&self) -> (r: u16)
        ensures
            r == self.patch,
    {
        self.patch
    }

    pub fn set_variant(&mut self, variant: u16)
        ensures
            *final(self) == (Version { variant, ..*old(self) }),
    {
        self.variant = variant;
    }

    pub fn set_major(&mut self, major: u16)
        ensures
            *final(self) == (Version { major, ..*old(self) }),
    {
        self.major = major;
    }

    pub fn set_minor(&mut self, minor: u16)
        ensures
            *final(self) == (Version { minor, ..*old(self) }),
    {
        self.minor = minor;
    }

    pub fn set_patch(&mut self, patch: u16)
        ensures
            *final(self) == (Version { patch, ..*old(self) }),
    {
        self.patch = patch;
    }
}

impl Savable for Version {
    type Model = Version;

    open spec fn model(&self) -> Version {
        *self
    }

    open spec fn encodable(m: Version) -> bool {
        true
    }

    open spec fn encoding(m: Version, le: bool) -> Seq<u8> {
        bytes2(m.variant, le) + bytes2(m.major, le) + bytes2(m.minor, le) + bytes2(m.patch, le)
    }

    open spec fn accepts(m: Version, le: bool, b: Seq<u8>) -> bool {
        b == Self::encoding(m, le)
    }

    proof fn lemma_encoding_accepted(m: Version, le: bool) {
    }

    proof fn lemma_accepts_unambiguous(
        m1: Version,
        m2: Version,
        le: bool,
        b1: Seq<u8>,
        b2: Seq<u8>,
        t1: Seq<u8>,
        t2: Seq<u8>,
    ) {
        lemma_fixed_prefix(b1, b2, t1, t2);
        assert forall|i: int| 0 <= i < 8 implies b1[i] == b2[i] by {}
        assert(bytes2(m1.variant, le) =~= b1.subrange(0, 2)) by {
            assert(forall|i: int| 0 <= i < 2 ==> b1[i] == bytes2(m1.variant, le)[i]);
        }
        assert(bytes2(m2.variant, le) =~= b2.subrange(0, 2)) by {
            assert(forall|i: int| 0 <= i < 2 ==> b2[i] == bytes2(m2.variant, le)[i]);
        }
        assert(bytes2(m1.major, le) =~= b1.subrange(2, 4)) by {
            assert(forall|i: int| 0 <= i < 2 ==> b1[i + 2] == bytes2(m1.major, le)[i]);
        }
        assert(bytes2(m2.major, le) =~= b2.subrange(2, 4)) by {
            assert(forall|i: int| 0 <= i < 2 ==> b2[i + 2] == bytes2(m2.major, le)[i]);
        }
        assert(bytes2(m1.minor, le) =~= b1.subrange(4, 6)) by {
            assert(forall|i: int| 0 <= i < 2 ==> b1[i + 4] == bytes2(m1.minor, le)[i]);
        }
        assert(bytes2(m2.minor, le) =~= b2.subrange(4, 6)) by {
            assert(forall|i: int| 0 <= i < 2 ==> b2[i + 4] == bytes2(m2.minor, le)[i]);
        }
        assert(bytes2(m1.patch, le) =~= b1.subrange(6, 8)) by {
            assert(forall|i: int| 0 <= i < 2 ==> b1[i + 6] == bytes2(m1.patch, le)[i]);
        }
        assert(bytes2(m2.patch, le) =~= b2.subrange(6, 8)) by {
            assert(forall|i: int| 0 <= i < 2 ==> b2[i + 6] == bytes2(m2.patch, le)[i]);
        }
        crate::wire::lemma_bytes2_injective(m1.variant, m2.variant, le);
        crate::wire::lemma_bytes2_injective(m1.major, m2.major, le);
        crate::wire::lemma_bytes2_injective(m1.minor, m2.minor, le);
        crate::wire::lemma_bytes2_injective(m1.patch, m2.patch, le);
    }

    fn save(&self, saver: &mut ByteBuffer) {
        saver.push_u16(self.variant);
        saver.push_u16(self.major);
        saver.push_u16(self.minor);
        saver.push_u16(self.patch);
        proof {
            assert(final(saver)@.data =~= old(saver)@.data + Self::encoding(
                *self,
                old(saver)@.le,
            ));
        }
    }

    fn load(loader: &mut ByteBuffer) -> (r: Result<Self, String>) {
        proof {
            loader.lemma_rpos_bound();
        }
        let ghost m0 = old(loader)@;
        let variant = match loader.pop_u16() {
            Some(v) => v,
            None => {
                proof {
                    assert forall|m: Version, b: Seq<u8>|
                        Self::accepts(m, m0.le, b) && m0.starts_with(b) implies false by {
                        assert(b.len() == 8);
                    }
                }
                return Err("Failed to load Version from Loader!".to_string());
            },
        };
        let major = match loader.pop_u16() {
            Some(v) => v,
            None => {
                proof {
                    assert forall|m: Version, b: Seq<u8>|
                        Self::accepts(m, m0.le, b) && m0.starts_with(b) implies false by {
                        assert(b.len() == 8);
                    }
                }
                return Err("Failed to load Version from Loader!".to_string());
            },
        };
        let minor = match loader.pop_u16() {
            Some(v) => v,
            None => {
                proof {
                    assert forall|m: Version, b: Seq<u8>|
                        Self::accepts(m, m0.le, b) && m0.starts_with(b) implies false by {
                        assert(b.len() == 8);
                    }
                }
                return Err("Failed to load Version from Loader!".to_string());
            },
        };
        let patch = match loader.pop_u16() {
            Some(v) => v,
            None => {
                proof {
                    assert forall|m: Version, b: Seq<u8>|
                        Self::accepts(m, m0.le, b) && m0.starts_with(b) implies false by {
                        assert(b.len() == 8);
                    }
                }
                return Err("Failed to load Version from Loader!".to_string());
            },
        };
        let v = Version { variant, major, minor, patch };
        proof {
            assert(m0.data.subrange(m0.rpos as int, m0.rpos as int + 8) =~= Self::encoding(
                v,
                m0.le,
            ));
        }
        Ok(v)
    }
}

} // verus!
