//! Relocation types of AArch64 and ARM, as their ELF supplements number them.
use vstd::prelude::*;

verus! {

pub const R_ARM_NONE: u32 = 0;

pub const R_ARM_ABS32: u32 = 2;

pub const R_ARM_REL32: u32 = 3;

pub const R_ARM_THM_PC22: u32 = 10;

pub const R_ARM_GLOB_DAT: u32 = 21;

pub const R_ARM_JUMP_SLOT: u32 = 22;

pub const R_ARM_RELATIVE: u32 = 23;

pub const R_ARM_GOTOFF: u32 = 24;

pub const R_ARM_GOTPC: u32 = 25;

pub const R_ARM_GOT32: u32 = 26;

pub const R_ARM_PLT32: u32 = 27;

pub const R_ARM_CALL: u32 = 28;

pub const R_ARM_JUMP24: u32 = 29;

pub const R_ARM_THM_JUMP24: u32 = 30;

pub const R_ARM_TARGET1: u32 = 38;

pub const R_ARM_PREL31: u32 = 42;

pub const R_ARM_MOVW_ABS_NC: u32 = 43;

pub const R_ARM_MOVT_ABS: u32 = 44;

pub const R_ARM_GOT_PREL: u32 = 96;

pub const R_ARM_COPY: u32 = 20;

pub const R_ARM_IRELATIVE: u32 = 160;

pub const R_ARM_TLS_DTPMOD32: u32 = 17;

pub const R_ARM_TLS_DTPOFF32: u32 = 18;

pub const R_ARM_TLS_TPOFF32: u32 = 19;

pub const R_AARCH64_NONE: u32 = 0;

pub const R_AARCH64_ABS64: u32 = 257;

pub const R_AARCH64_ABS32: u32 = 258;

pub const R_AARCH64_ABS16: u32 = 259;

pub const R_AARCH64_PREL64: u32 = 260;

pub const R_AARCH64_PREL32: u32 = 261;

pub const R_AARCH64_PREL16: u32 = 262;

pub const R_AARCH64_ADR_PREL_PG_HI21: u32 = 275;

pub const R_AARCH64_ADD_ABS_LO12_NC: u32 = 277;

pub const R_AARCH64_CALL26: u32 = 283;

pub const R_AARCH64_JUMP26: u32 = 282;

pub const R_AARCH64_ADR_GOT_PAGE: u32 = 311;

pub const R_AARCH64_LD64_GOT_LO12_NC: u32 = 312;

pub const R_AARCH64_COPY: u32 = 1024;

pub const R_AARCH64_GLOB_DAT: u32 = 1025;

pub const R_AARCH64_JUMP_SLOT: u32 = 1026;

pub const R_AARCH64_RELATIVE: u32 = 1027;

pub const R_AARCH64_TLS_DTPMOD: u32 = 1028;

pub const R_AARCH64_TLS_DTPREL: u32 = 1029;

pub const R_AARCH64_TLS_TPREL: u32 = 1030;

pub const R_AARCH64_TLSDESC: u32 = 1031;

pub const R_AARCH64_IRELATIVE: u32 = 1032;

pub const R_AARCH64_LDST8_ABS_LO12_NC: u32 = 278;

pub const R_AARCH64_LDST16_ABS_LO12_NC: u32 = 284;

pub const R_AARCH64_LDST32_ABS_LO12_NC: u32 = 285;

pub const R_AARCH64_LDST64_ABS_LO12_NC: u32 = 286;

pub const R_AARCH64_LDST128_ABS_LO12_NC: u32 = 299;

} // verus!
