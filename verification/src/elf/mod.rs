//! ELF shared objects: loading, the symbols and compilation units in them, and
//! the objects that they split into.

pub mod binary;
pub mod code;
pub mod cu;
pub mod dynrel;
pub mod emit;
pub mod encoded;
pub mod fields;
pub mod inspect;
pub mod installed;
pub mod placed;
pub mod pointers;
pub mod readobj;
pub mod reltypes;
pub mod shared;
pub mod split;
pub mod symbols;
pub mod symtab;
pub mod tables;
