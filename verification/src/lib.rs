//! Host-side assembly of abl-exorcist payloads and the shim's own parsers,
//! with their contracts proved by Verus.

pub mod align;
pub mod arm64;
pub mod assembler;
pub mod boot_cmdline;
pub mod boot_header;
pub mod bootimg;
pub mod cli;
pub mod codecs;
pub mod cmdline;
pub mod fdt;
pub mod fdt_rewrite;
pub mod handoff;
pub mod kernel_image;
pub mod lz4;
pub mod messages;
pub mod mmu;
pub mod package;
pub mod serial;
pub mod shim;
