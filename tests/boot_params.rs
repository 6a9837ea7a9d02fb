use efiboot::abi::{
    pages_for, BOOT_PARAMS_SIZE, CMD_LINE_PTR_OFFSET, E820_COUNT_OFFSET, E820_TABLE_OFFSET,
    RAMDISK_IMAGE_OFFSET, RAMDISK_SIZE_OFFSET,
};
use efiboot::boot_params::{
    command_line_bytes, install_e820, new_boot_params, set_cmd_line_ptr, set_ramdisk,
    validate_kernel_header, HeaderError,
};
use efiboot::memory_map::{E820Entry, E820Kind};

fn kernel_image(len: usize) -> Vec<u8> {
    let mut v: Vec<u8> = (0..len).map(|i| (i % 251) as u8 + 1).collect();
    v[0x202..0x206].copy_from_slice(b"HdrS");
    v
}

fn u32_at(b: &[u8], off: usize) -> u32 {
    u32::from_le_bytes([b[off], b[off + 1], b[off + 2], b[off + 3]])
}

fn u64_at(b: &[u8], off: usize) -> u64 {
    let mut a = [0u8; 8];
    a.copy_from_slice(&b[off..off + 8]);
    u64::from_le_bytes(a)
}

#[test]
fn header_with_magic_is_accepted() {
    assert_eq!(validate_kernel_header(&kernel_image(0x206)), Ok(()));
    assert_eq!(validate_kernel_header(&kernel_image(0x4000)), Ok(()));
}

#[test]
fn short_image_is_rejected() {
    assert_eq!(validate_kernel_header(&[]), Err(HeaderError::TooShort));
    let img = kernel_image(0x206);
    assert_eq!(validate_kernel_header(&img[..0x205]), Err(HeaderError::TooShort));
}

#[test]
fn wrong_magic_is_rejected() {
    let mut img = kernel_image(0x1000);
    img[0x205] = b'T';
    assert_eq!(validate_kernel_header(&img), Err(HeaderError::BadMagic));
    let mut swapped = kernel_image(0x1000);
    swapped[0x202..0x206].copy_from_slice(b"SrdH");
    assert_eq!(validate_kernel_header(&swapped), Err(HeaderError::BadMagic));
}

#[test]
fn block_copies_the_legacy_header() {
    let img = kernel_image(0x3000);
    let b = new_boot_params(&img);
    assert_eq!(b.len(), BOOT_PARAMS_SIZE);
    assert_eq!(&b[..0x1F1], &img[..0x1F1]);
    assert!(b[0x1F1..].iter().all(|&x| x == 0));
}

#[test]
fn block_copies_a_short_image_whole() {
    let img = vec![7u8; 0x20];
    let b = new_boot_params(&img);
    assert_eq!(&b[..0x20], &img[..]);
    assert!(b[0x20..].iter().all(|&x| x == 0));
}

#[test]
fn ramdisk_fields_are_little_endian() {
    let mut b = new_boot_params(&kernel_image(0x1000));
    set_ramdisk(&mut b, 0x3F00_0000, 0x0123_4567);
    assert_eq!(RAMDISK_IMAGE_OFFSET, 0x218);
    assert_eq!(RAMDISK_SIZE_OFFSET, 0x21C);
    assert_eq!(u32_at(&b, 0x218), 0x3F00_0000);
    assert_eq!(u32_at(&b, 0x21C), 0x0123_4567);
    assert_eq!(b[0x217], 0);
    assert_eq!(b[0x220], 0);
}

#[test]
fn ramdisk_fields_keep_low_32_bits() {
    let mut b = vec![0u8; BOOT_PARAMS_SIZE];
    set_ramdisk(&mut b, 0x1_2345_6789, 0x2_0000_0010);
    assert_eq!(u32_at(&b, 0x218), 0x2345_6789);
    assert_eq!(u32_at(&b, 0x21C), 0x10);
}

#[test]
fn command_line_pointer_is_written() {
    let mut b = vec![0u8; BOOT_PARAMS_SIZE];
    set_cmd_line_ptr(&mut b, 0x0009_A000);
    assert_eq!(CMD_LINE_PTR_OFFSET, 0x228);
    assert_eq!(u32_at(&b, 0x228), 0x0009_A000);
    assert_eq!(b.iter().filter(|&&x| x != 0).count(), 2);
}

#[test]
fn command_line_is_zero_terminated_utf8() {
    assert_eq!(command_line_bytes("quiet"), b"quiet\0".to_vec());
    assert_eq!(command_line_bytes(""), vec![0u8]);
    assert_eq!(command_line_bytes("é"), vec![0xC3, 0xA9, 0]);
}

#[test]
fn e820_table_is_installed_at_its_offsets() {
    let mut b = vec![0xAAu8; BOOT_PARAMS_SIZE];
    let t = vec![
        E820Entry::new(0, 0x9F000, E820Kind::Ram),
        E820Entry::new(0x100000, 0x7FF0_0000, E820Kind::Ram),
        E820Entry::new(0xFEE0_0000, 0x1000, E820Kind::Reserved),
    ];
    install_e820(&mut b, &t);
    assert_eq!(E820_COUNT_OFFSET, 0x1E8);
    assert_eq!(E820_TABLE_OFFSET, 0x2D0);
    assert_eq!(b[0x1E8], 3);
    for (i, e) in t.iter().enumerate() {
        let off = 0x2D0 + 20 * i;
        assert_eq!(u64_at(&b, off), e.addr);
        assert_eq!(u64_at(&b, off + 8), e.size);
        assert_eq!(u32_at(&b, off + 16), e.kind.code());
    }
    assert_eq!(b[0x1E7], 0xAA);
    assert_eq!(b[0x2CF], 0xAA);
    assert_eq!(b[0x2D0 + 60], 0xAA);
}

#[test]
fn empty_table_writes_only_the_count() {
    let mut b = vec![0x55u8; BOOT_PARAMS_SIZE];
    install_e820(&mut b, &vec![]);
    assert_eq!(b[0x1E8], 0);
    assert_eq!(b.iter().filter(|&&x| x != 0x55).count(), 1);
}

#[test]
fn pages_round_up() {
    assert_eq!(pages_for(0), 0);
    assert_eq!(pages_for(1), 1);
    assert_eq!(pages_for(4096), 1);
    assert_eq!(pages_for(4097), 2);
    assert_eq!(pages_for(usize::MAX), usize::MAX / 4096 + 1);
}
