//! Fixed addresses and byte offsets of the x86 Linux boot protocol.

use vstd::prelude::*;

verus! {

/// Size of one firmware page.
pub const PAGE_SIZE: u64 = 4096;

/// Physical address the kernel image is loaded at (never relocated).
pub const KERNEL_LOAD_ADDR: u64 = 0x100000;

/// Offset of the 64-bit entry point from the kernel's load address.
pub const KERNEL_ENTRY_OFFSET: u64 = 0x200;

/// Physical address of the boot parameter block ("zero page").
pub const BOOT_PARAMS_ADDR: u64 = 0x90000;

/// Size in bytes of the boot parameter block.
pub const BOOT_PARAMS_SIZE: usize = 4096;

/// Offset of the setup header inside both the kernel image and the block.
pub const SETUP_HEADER_OFFSET: usize = 0x1F1;

/// Offset of the 4-byte header magic inside the kernel image.
pub const HEADER_MAGIC_OFFSET: usize = 0x202;

/// The header magic, "HdrS" read as a little-endian 32-bit value.
pub const HEADER_MAGIC: u32 = 0x53726448;

/// Offset of the setup header's `ramdisk_image` field in the block.
pub const RAMDISK_IMAGE_OFFSET: usize = 0x218;

/// Offset of the setup header's `ramdisk_size` field in the block.
pub const RAMDISK_SIZE_OFFSET: usize = 0x21C;

/// Offset of the setup header's `cmd_line_ptr` field in the block.
pub const CMD_LINE_PTR_OFFSET: usize = 0x228;

/// Offset of the one-byte E820 entry count in the block.
pub const E820_COUNT_OFFSET: usize = 0x1E8;

/// Offset of the E820 entry array in the block.
pub const E820_TABLE_OFFSET: usize = 0x2D0;

/// Size in bytes of one E820 entry: address, size, type.
pub const E820_ENTRY_SIZE: usize = 20;

/// The most E820 entries the block has room for.
pub const E820_MAX_ENTRIES: usize = 128;

/// Number of pages needed to hold `len` bytes.
pub open spec fn pages_spec(len: int) -> int {
    (len + PAGE_SIZE - 1) / PAGE_SIZE as int
}

/// Pages needed to hold `len` bytes, rounding up.
pub fn pages_for(len: usize) -> (r: usize)
    ensures
        r as int == pages_spec(len as int),
        r as int * PAGE_SIZE >= len,
        len > 0 ==> r > 0,
{
    let whole = len / 4096;
    let r = if len % 4096 == 0 { whole } else { whole + 1 };
    assert(r as int == pages_spec(len as int) && r as int * PAGE_SIZE >= len) by (nonlinear_arith)
        requires
            whole == len / 4096,
            r == if len % 4096 == 0 { whole } else { (whole + 1) as usize },
            whole + 1 <= usize::MAX,
    ;
    r
}

} // verus!
