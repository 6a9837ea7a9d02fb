//! The kernel image header check and the boot parameter block, a 4 KiB byte
//! buffer with named fields at the fixed offsets of the boot protocol.

use vstd::prelude::*;
use vstd::string::{StrSliceExecFns, StringSliceAdditionalSpecFns};

use crate::abi::{
    BOOT_PARAMS_SIZE, CMD_LINE_PTR_OFFSET, E820_COUNT_OFFSET, E820_ENTRY_SIZE, E820_MAX_ENTRIES,
    E820_TABLE_OFFSET, HEADER_MAGIC, HEADER_MAGIC_OFFSET, RAMDISK_IMAGE_OFFSET,
    RAMDISK_SIZE_OFFSET, SETUP_HEADER_OFFSET,
};
use crate::memory_map::E820Entry;

verus! {

/// Why a kernel image cannot be booted directly.
#[derive(Clone, Copy, Debug, PartialEq, Eq, Structural)]
pub enum HeaderError {
    /// The image ends before the header magic.
    TooShort,
    /// The header magic is not "HdrS".
    BadMagic,
}

/// The little-endian 32-bit value stored at `off`.
pub open spec fn le_u32_at(s: Seq<u8>, off: int) -> int {
    s[off] + 256 * s[off + 1] + 65536 * s[off + 2] + 16777216 * s[off + 3]
}

/// Outcome of checking a kernel image's header.
pub open spec fn header_check(image: Seq<u8>) -> Result<(), HeaderError> {
    if image.len() < HEADER_MAGIC_OFFSET + 4 {
        Err(HeaderError::TooShort)
    } else if le_u32_at(image, HEADER_MAGIC_OFFSET as int) != HEADER_MAGIC {
        Err(HeaderError::BadMagic)
    } else {
        Ok(())
    }
}

/// Checks that the image is long enough to hold the header magic and that
/// the magic matches.
pub fn validate_kernel_header(image: &[u8]) -> (r: Result<(), HeaderError>)
    ensures
        r == header_check(image@),
{
    if image.len() < HEADER_MAGIC_OFFSET + 4 {
        return Err(HeaderError::TooShort);
    }
    let magic: u32 = image[HEADER_MAGIC_OFFSET] as u32 + 256 * (image[HEADER_MAGIC_OFFSET
        + 1] as u32) + 65536 * (image[HEADER_MAGIC_OFFSET + 2] as u32) + 16777216 * (
    image[HEADER_MAGIC_OFFSET + 3] as u32);
    if magic != HEADER_MAGIC {
        Err(HeaderError::BadMagic)
    } else {
        Ok(())
    }
}

/// Little-endian bytes of a 32-bit value.
pub open spec fn u32_le(v: u32) -> Seq<u8> {
    seq![v as u8, (v >> 8u32) as u8, (v >> 16u32) as u8, (v >> 24u32) as u8]
}

/// Little-endian bytes of a 64-bit value.
pub open spec fn u64_le(v: u64) -> Seq<u8> {
    seq![
        v as u8,
        (v >> 8u64) as u8,
        (v >> 16u64) as u8,
        (v >> 24u64) as u8,
        (v >> 32u64) as u8,
        (v >> 40u64) as u8,
        (v >> 48u64) as u8,
        (v >> 56u64) as u8,
    ]
}

/// `s` with `bytes` written over it from `off` on.
pub open spec fn overwrite(s: Seq<u8>, off: int, bytes: Seq<u8>) -> Seq<u8> {
    s.take(off) + bytes + s.skip(off + bytes.len())
}

fn put_bytes(buf: &mut Vec<u8>, off: usize, bytes: &[u8])
    requires
        off + bytes@.len() <= old(buf)@.len(),
    ensures
        final(buf)@ == overwrite(old(buf)@, off as int, bytes@),
{
    let ghost start = buf@;
    let len = buf.len();
    let mut k: usize = 0;
    while k < bytes.len()
        invariant
            len == start.len(),
            off + bytes@.len() <= start.len(),
            k <= bytes@.len(),
            buf@.len() == start.len(),
            forall|j: int|
                0 <= j < start.len() ==> #[trigger] buf@[j] == if off <= j < off + k {
                    bytes@[j - off]
                } else {
                    start[j]
                },
        decreases bytes@.len() - k,
    {
        buf.set(off + k, bytes[k]);
        k = k + 1;
    }
    assert(buf@ =~= overwrite(start, off as int, bytes@));
}

fn u32_le_vec(v: u32) -> (r: Vec<u8>)
    ensures
        r@ == u32_le(v),
{
    let r = vec![v as u8, (v >> 8u32) as u8, (v >> 16u32) as u8, (v >> 24u32) as u8];
    assert(r@ =~= u32_le(v));
    r
}

fn u64_le_vec(v: u64) -> (r: Vec<u8>)
    ensures
        r@ == u64_le(v),
{
    let r = vec![
        v as u8,
        (v >> 8u64) as u8,
        (v >> 16u64) as u8,
        (v >> 24u64) as u8,
        (v >> 32u64) as u8,
        (v >> 40u64) as u8,
        (v >> 48u64) as u8,
        (v >> 56u64) as u8,
    ];
    assert(r@ =~= u64_le(v));
    r
}

/// The block as first set up: zeros, with the image's leading bytes (up to
/// the setup header) copied in.
pub open spec fn initial_block(image: Seq<u8>) -> Seq<u8> {
    Seq::new(
        BOOT_PARAMS_SIZE as nat,
        |k: int|
            if k < SETUP_HEADER_OFFSET && k < image.len() {
                image[k]
            } else {
                0u8
            },
    )
}

/// A zeroed boot parameter block holding the first 0x1F1 bytes of the
/// kernel image, or the whole image if it is shorter.
pub fn new_boot_params(image: &[u8]) -> (r: Vec<u8>)
    ensures
        r@ == initial_block(image@),
        r@.len() == BOOT_PARAMS_SIZE,
{
    let mut block: Vec<u8> = vec![0u8; BOOT_PARAMS_SIZE];
    let n = if image.len() < SETUP_HEADER_OFFSET {
        image.len()
    } else {
        SETUP_HEADER_OFFSET
    };
    let mut k: usize = 0;
    while k < n
        invariant
            n <= image@.len(),
            n <= SETUP_HEADER_OFFSET,
            n == image@.len() || n == SETUP_HEADER_OFFSET,
            k <= n,
            block@.len() == BOOT_PARAMS_SIZE,
            forall|j: int|
                0 <= j < BOOT_PARAMS_SIZE ==> #[trigger] block@[j] == if j < k {
                    image@[j]
                } else {
                    0u8
                },
        decreases n - k,
    {
        block.set(k, image[k]);
        k = k + 1;
    }
    assert(block@ =~= initial_block(image@));
    block
}

/// The block with the setup header's ramdisk fields set to the low 32 bits
/// of `addr` and `size`.
pub open spec fn with_ramdisk(block: Seq<u8>, addr: u64, size: u64) -> Seq<u8> {
    overwrite(
        overwrite(block, RAMDISK_IMAGE_OFFSET as int, u32_le(addr as u32)),
        RAMDISK_SIZE_OFFSET as int,
        u32_le(size as u32),
    )
}

/// Records where the initial ramdisk was placed and how long it is.
pub fn set_ramdisk(block: &mut Vec<u8>, addr: u64, size: u64)
    requires
        old(block)@.len() == BOOT_PARAMS_SIZE,
    ensures
        final(block)@ == with_ramdisk(old(block)@, addr, size),
        final(block)@.len() == BOOT_PARAMS_SIZE,
{
    let a = u32_le_vec(addr as u32);
    put_bytes(block, RAMDISK_IMAGE_OFFSET, a.as_slice());
    let s = u32_le_vec(size as u32);
    put_bytes(block, RAMDISK_SIZE_OFFSET, s.as_slice());
}

/// The block with the setup header's command line pointer set to the low
/// 32 bits of `addr`.
pub open spec fn with_cmd_line(block: Seq<u8>, addr: u64) -> Seq<u8> {
    overwrite(block, CMD_LINE_PTR_OFFSET as int, u32_le(addr as u32))
}

/// Records where the kernel command line was placed.
pub fn set_cmd_line_ptr(block: &mut Vec<u8>, addr: u64)
    requires
        old(block)@.len() == BOOT_PARAMS_SIZE,
    ensures
        final(block)@ == with_cmd_line(old(block)@, addr),
        final(block)@.len() == BOOT_PARAMS_SIZE,
{
    let a = u32_le_vec(addr as u32);
    put_bytes(block, CMD_LINE_PTR_OFFSET, a.as_slice());
}

/// The 20 bytes of one E820 entry as the kernel reads them.
pub open spec fn entry_bytes(e: E820Entry) -> Seq<u8> {
    u64_le(e.addr) + u64_le(e.size) + u32_le(e.kind.spec_code())
}

/// The bytes of an E820 table, entry after entry.
pub open spec fn table_bytes(t: Seq<E820Entry>) -> Seq<u8>
    decreases t.len(),
{
    if t.len() == 0 {
        Seq::empty()
    } else {
        table_bytes(t.drop_last()) + entry_bytes(t.last())
    }
}

/// The block with the table's length in the count byte and its entries in
/// the table area.
pub open spec fn with_e820(block: Seq<u8>, t: Seq<E820Entry>) -> Seq<u8> {
    overwrite(
        block.update(E820_COUNT_OFFSET as int, t.len() as u8),
        E820_TABLE_OFFSET as int,
        table_bytes(t),
    )
}

proof fn lemma_table_bytes_len(t: Seq<E820Entry>)
    ensures
        table_bytes(t).len() == E820_ENTRY_SIZE * t.len(),
    decreases t.len(),
{
    if t.len() > 0 {
        lemma_table_bytes_len(t.drop_last());
    }
}

/// Writes the E820 table into the block: the entry count as one byte, then
/// the entries.
pub fn install_e820(block: &mut Vec<u8>, t: &Vec<E820Entry>)
    requires
        old(block)@.len() == BOOT_PARAMS_SIZE,
        t@.len() <= E820_MAX_ENTRIES,
    ensures
        final(block)@ == with_e820(old(block)@, t@),
        final(block)@.len() == BOOT_PARAMS_SIZE,
{
    let ghost start = block@;
    block.set(E820_COUNT_OFFSET, t.len() as u8);
    let ghost counted = block@;
    let mut i: usize = 0;
    while i < t.len()
        invariant
            t@.len() <= E820_MAX_ENTRIES,
            i <= t@.len(),
            counted.len() == BOOT_PARAMS_SIZE,
            block@ == overwrite(counted, E820_TABLE_OFFSET as int, table_bytes(t@.take(i as int))),
        decreases t@.len() - i,
    {
        let e = t[i];
        let off = E820_TABLE_OFFSET + E820_ENTRY_SIZE * i;
        proof {
            lemma_table_bytes_len(t@.take(i as int));
            assert(t@.take(i as int + 1).drop_last() == t@.take(i as int));
        }
        let a = u64_le_vec(e.addr);
        let s = u64_le_vec(e.size);
        let k = u32_le_vec(e.kind.code());
        let ghost before = block@;
        put_bytes(block, off, a.as_slice());
        put_bytes(block, off + 8, s.as_slice());
        put_bytes(block, off + 16, k.as_slice());
        assert(block@ =~= overwrite(before, off as int, entry_bytes(e)));
        assert(block@ =~= overwrite(counted, E820_TABLE_OFFSET as int, table_bytes(t@.take(i as int + 1))));
        i = i + 1;
    }
    assert(t@.take(t@.len() as int) == t@);
    proof {
        lemma_table_bytes_len(t@);
    }
}

/// The command line as the kernel reads it: its UTF-8 bytes and a zero.
pub fn command_line_bytes(s: &str) -> (r: Vec<u8>)
    ensures
        r@ == s.spec_bytes().push(0u8),
{
    let mut r = s.as_bytes_vec();
    r.push(0u8);
    r
}

} // verus!
