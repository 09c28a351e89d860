//! 32-bit ARM code: instructions, the relocations that they call for, and the
//! addends in relocated fields.

pub mod addend;
pub mod decode;
pub mod runs;
pub mod recover;
pub mod meaning;
