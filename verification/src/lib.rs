//! Reader for a compressed, optionally encrypted dictionary container
//! format: header and section parsing, checksum verification, a stream
//! cipher for the protected key-info section, offset reconciliation that
//! maps every key to the byte span of its definition, and the lookup
//! routine that slices a definition out of one decompressed block.

pub mod checksum;
pub mod cipher;
pub mod compress;
pub mod error;
pub mod header;
pub mod keyblock;
pub mod mdx;
pub mod record;
pub mod text;
pub mod util;
