//! Verified core of Project Luna: boot-time parsers and policy, the LBP1
//! bundle container, ELF dependency planning and application lifecycle.

pub mod text;
pub mod bytes;
pub mod digest;
pub mod compress;
pub mod common;
pub mod path;
pub mod lbp;
pub mod manifest;
pub mod tarball;
pub mod bundle;
pub mod runtime;
pub mod services;
pub mod order;
pub mod device;
pub mod session;
pub mod graphics;
pub mod elf;
pub mod boot_target;
pub mod attempt;
pub mod linux_boot;
pub mod kernel_image;
pub mod gpt;
pub mod handoff;
pub mod config_text;
pub mod discovery;
pub mod catalog;
pub mod boot_plan;
pub mod data_partition;
pub mod launch;
pub mod elf_search;
pub mod user_auth;
pub mod ext4;
pub mod paging;
pub mod payload;
