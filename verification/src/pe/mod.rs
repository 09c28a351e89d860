//! Windows PE images with the symbols of their PDB: sections, base relocations,
//! imports, and the COFF objects they are split into.

pub mod cu;
pub mod emit;
pub mod image;
pub mod placed;
pub mod pointers;
pub mod rebased;
pub mod split;
pub mod symbols;
