//! A verified binary serialization library built around a byte buffer with
//! a read cursor. Every savable type names the exact bytes a save writes
//! and the bytes a load accepts, and the round trip — load after save
//! returns the value unchanged — is proved once for all of them. On top of
//! the value codecs sit the structural rules for records and tagged
//! unions: field ordering, unsaved and custom fields, and discriminant
//! width selection, all driven by one schema on both sides. A handful of
//! small verified utilities ride along.
pub mod buffer;
pub mod bytebuffer;
pub mod clock;
pub mod custom;
pub mod hashers;
pub mod id;
pub mod ordefault;
pub mod print;
pub mod remake;
pub mod save;
pub mod save2;
pub mod screen;
pub mod static_vec;
pub mod structural;
pub mod thread;
pub mod utils;
pub mod varint;
pub mod version;
pub mod wire;
