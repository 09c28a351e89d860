//! Splits linked ELF, Mach-O and PE images back into relocatable object files.

pub mod arch;
pub mod arm;
pub mod bytes;
pub mod cstr;
pub mod elf;
pub mod growth;
pub mod ida;
pub mod image;
pub mod linkage;
pub mod listing;
pub mod macho;
pub mod naming;
pub mod objfile;
pub mod ordered;
pub mod pe;
pub mod placing;
pub mod ranges;
pub mod table;
pub mod text;
pub mod x86;
pub mod x86_64;
pub mod x86_decode;
