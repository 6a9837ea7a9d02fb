//! Boot selector and Linux kernel launcher logic: boot entry parsing and
//! discovery, the interactive menu, and the direct-boot path that builds the
//! kernel's boot parameter block and E820 memory map.

pub mod abi;
pub mod boot_params;
pub mod catalog;
pub mod direct_boot;
pub mod entry;
pub mod loader;
pub mod memory_map;
pub mod selector;
pub mod text;
