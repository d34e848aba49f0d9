//! Masked-byte pattern matching: patterns mix concrete bytes with wildcard
//! bits, and are found in a haystack by searching for their most selective
//! concrete run first and verifying the whole pattern at each candidate.

pub mod atom;
pub mod backend;
pub mod ida;
pub mod masked;
pub mod search;

pub use atom::{find_best_atom, AtomQuality, ATOM_QUALITY_THRESHOLD};
pub use ida::{parse_ida_pattern, IdaConvertionError};
pub use masked::{match_at, MaskedByte, Pattern};
pub use search::{find_multiple_overlapping, find_one, find_overlapping};
