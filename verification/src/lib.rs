//! Reading and writing GOB archives: a fixed binary container that packs
//! named files behind a header and a file table.
//!
//! - [`archive`]: the archive, [`archive::Gob`], read from bytes and
//!   written to bytes.
//! - [`record`]: one packed file, and the rule on the length of its path.
//! - [`layout`]: the byte layout as mathematics, which the contracts of
//!   reading and writing speak of.
//! - [`roundtrip`]: what is written is read back unchanged.
//! - [`byte`]: little-endian integers, fixed-width text fields, exact
//!   reads.
//! - [`import`]: a directory tree taken in as an archive, one request to
//!   the file system at a time.
//! - [`walk`]: what an import makes of a whole tree.
//! - [`error`]: what can go wrong.

pub mod archive;
pub mod byte;
pub mod error;
pub mod import;
pub mod layout;
pub mod record;
pub mod roundtrip;
pub mod walk;
