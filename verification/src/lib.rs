//! A read-only longest-prefix-match engine over a compiled, byte-addressed
//! poptrie of IPv4 and IPv6 prefixes.
//!
//! An index is one region of octets: an optional header, node records of two
//! 256-bit bitmaps and two offsets each, and a table of 16-bit values. A
//! query walks one node per octet of the address and answers whether a stored
//! prefix contains the address, and with which value.
//!
//! - `bitmap`: bit test and rank over a 256-bit bitmap.
//! - `format`: sizes, field offsets and little-endian integers of the layout.
//! - `walker`: the walk from node to node.
//! - `index`: validation of a region and the single-address queries.
//! - `text`: addresses in dotted-quad and colon-hex text.
//! - `batch`: queries over packed buffers and lists of texts, in parallel.
//! - `laws`: what holds of every index and every batch.
//! - `spelling`: which texts spell which addresses.

pub mod batch;
pub mod bitmap;
pub mod format;
pub mod index;
pub mod laws;
pub mod spelling;
pub mod text;
pub mod walker;
