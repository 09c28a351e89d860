//! Mach-O images: symbol tables, compilation units, and the objects they are
//! split into.

pub mod cu;
pub mod described;
pub mod dwarf;
pub mod emit;
pub mod image;
pub mod load;
pub mod named;
pub mod split;
pub mod starts;
pub mod stabs;
pub mod strtab;
pub mod stubs;
pub mod placed;
pub mod symbols;
pub mod symtab_json;
pub mod symtab_split;
