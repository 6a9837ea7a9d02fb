use uefi::boot::MemoryType;
use efiboot::abi::E820_MAX_ENTRIES;
use efiboot::memory_map::{
    kind_of, merge_adjacent, sort_by_addr, translate_memory_map, validate_table, E820Entry,
    E820Kind, FirmwareDescriptor, MemoryMapError, EFI_ACPI_MEMORY_NVS, EFI_ACPI_RECLAIM_MEMORY,
    EFI_BOOT_SERVICES_CODE, EFI_BOOT_SERVICES_DATA, EFI_CONVENTIONAL_MEMORY, EFI_LOADER_CODE,
    EFI_LOADER_DATA, EFI_MEMORY_MAPPED_IO, EFI_PERSISTENT_MEMORY, EFI_RUNTIME_SERVICES_CODE,
    EFI_RUNTIME_SERVICES_DATA, EFI_UNUSABLE_MEMORY,
};

fn desc(phys_start: u64, page_count: u64, ty: u32) -> FirmwareDescriptor {
    FirmwareDescriptor { phys_start, page_count, ty }
}

#[test]
fn adjacent_same_kind_descriptors_merge() {
    let map = vec![
        desc(0x1000, 1, EFI_CONVENTIONAL_MEMORY),
        desc(0x2000, 1, EFI_CONVENTIONAL_MEMORY),
    ];
    let t = translate_memory_map(&map).unwrap();
    assert_eq!(t.len(), 1);
    assert_eq!(t[0].addr, 0x1000);
    assert_eq!(t[0].size, 0x2000);
    assert_eq!(t[0].kind, E820Kind::Ram);
}

#[test]
fn test_merge_adjacent_entries() {
    let entries = vec![
        E820Entry::new(0x1000, 0x1000, E820Kind::Ram),
        E820Entry::new(0x2000, 0x1000, E820Kind::Ram),
        E820Entry::new(0x4000, 0x1000, E820Kind::Reserved),
    ];
    let merged = merge_adjacent(&entries);
    assert_eq!(merged.len(), 2);
    assert_eq!(merged[0].addr, 0x1000);
    assert_eq!(merged[0].size, 0x2000);
    assert_eq!(merged[1].addr, 0x4000);
}

#[test]
fn test_e820_entry_end() {
    let entry = E820Entry::new(0x1000, 0x2000, E820Kind::Ram);
    assert_eq!(entry.end(), 0x3000);
}

#[test]
fn adjacent_different_kinds_stay_apart() {
    let map = vec![
        desc(0x1000, 1, EFI_CONVENTIONAL_MEMORY),
        desc(0x2000, 1, EFI_ACPI_RECLAIM_MEMORY),
    ];
    let t = translate_memory_map(&map).unwrap();
    assert_eq!(t.len(), 2);
    assert_eq!(t[1].kind, E820Kind::Acpi);
}

#[test]
fn unsorted_map_is_sorted_then_merged() {
    let map = vec![
        desc(0x3000, 2, EFI_BOOT_SERVICES_DATA),
        desc(0x0, 1, EFI_CONVENTIONAL_MEMORY),
        desc(0x1000, 2, EFI_BOOT_SERVICES_CODE),
        desc(0x10000, 1, EFI_LOADER_DATA),
    ];
    let t = translate_memory_map(&map).unwrap();
    assert_eq!(t.len(), 2);
    assert_eq!((t[0].addr, t[0].size, t[0].kind), (0x0, 0x5000, E820Kind::Ram));
    assert_eq!((t[1].addr, t[1].size, t[1].kind), (0x10000, 0x1000, E820Kind::Reserved));
}

#[test]
fn zero_length_descriptors_are_skipped() {
    let map = vec![
        desc(0x1000, 1, EFI_CONVENTIONAL_MEMORY),
        desc(0x1800, 0, EFI_ACPI_MEMORY_NVS),
        desc(0x2000, 1, EFI_CONVENTIONAL_MEMORY),
    ];
    let t = translate_memory_map(&map).unwrap();
    assert_eq!(t.len(), 1);
    assert_eq!(t[0].size, 0x2000);
}

#[test]
fn too_many_regions_are_rejected() {
    let mut map = Vec::new();
    for i in 0..(E820_MAX_ENTRIES as u64 + 1) {
        map.push(desc(i * 0x2000, 1, EFI_CONVENTIONAL_MEMORY));
    }
    assert_eq!(translate_memory_map(&map).unwrap_err(), MemoryMapError::TooManyEntries);
}

#[test]
fn exactly_the_limit_is_accepted() {
    let mut map = Vec::new();
    for i in 0..(E820_MAX_ENTRIES as u64) {
        map.push(desc(i * 0x2000, 1, EFI_CONVENTIONAL_MEMORY));
    }
    assert_eq!(translate_memory_map(&map).unwrap().len(), 128);
}

#[test]
fn many_descriptors_that_merge_below_the_limit_are_accepted() {
    let mut map = Vec::new();
    for i in 0..300u64 {
        map.push(desc(i * 0x1000, 1, EFI_CONVENTIONAL_MEMORY));
    }
    let t = translate_memory_map(&map).unwrap();
    assert_eq!(t.len(), 1);
    assert_eq!(t[0].size, 300 * 0x1000);
}

#[test]
fn overlapping_regions_are_rejected_whatever_their_kind() {
    let map = vec![
        desc(0x1000, 4, EFI_CONVENTIONAL_MEMORY),
        desc(0x3000, 1, EFI_MEMORY_MAPPED_IO),
    ];
    assert_eq!(translate_memory_map(&map).unwrap_err(), MemoryMapError::Overlap);
    let same_kind = vec![
        desc(0x1000, 4, EFI_CONVENTIONAL_MEMORY),
        desc(0x1000, 1, EFI_CONVENTIONAL_MEMORY),
    ];
    assert_eq!(translate_memory_map(&same_kind).unwrap_err(), MemoryMapError::Overlap);
}

#[test]
fn map_without_ram_is_rejected() {
    let map = vec![
        desc(0x1000, 1, EFI_LOADER_CODE),
        desc(0x8000, 1, EFI_ACPI_RECLAIM_MEMORY),
        desc(0x9000, 0, EFI_CONVENTIONAL_MEMORY),
    ];
    assert_eq!(translate_memory_map(&map).unwrap_err(), MemoryMapError::NoRam);
}

#[test]
fn empty_map_is_rejected() {
    assert_eq!(translate_memory_map(&[]).unwrap_err(), MemoryMapError::Empty);
    let only_empty = vec![desc(0x1000, 0, EFI_CONVENTIONAL_MEMORY)];
    assert_eq!(translate_memory_map(&only_empty).unwrap_err(), MemoryMapError::Empty);
}

#[test]
fn region_past_the_address_space_is_rejected() {
    let map = vec![
        desc(0x1000, 1, EFI_CONVENTIONAL_MEMORY),
        desc(u64::MAX - 0xFFF, 2, EFI_RUNTIME_SERVICES_DATA),
    ];
    assert_eq!(translate_memory_map(&map).unwrap_err(), MemoryMapError::RegionOutOfRange);
}

#[test]
fn firmware_types_map_to_kinds() {
    assert_eq!(kind_of(EFI_CONVENTIONAL_MEMORY), E820Kind::Ram);
    assert_eq!(kind_of(EFI_BOOT_SERVICES_CODE), E820Kind::Ram);
    assert_eq!(kind_of(EFI_BOOT_SERVICES_DATA), E820Kind::Ram);
    assert_eq!(kind_of(EFI_ACPI_RECLAIM_MEMORY), E820Kind::Acpi);
    assert_eq!(kind_of(EFI_ACPI_MEMORY_NVS), E820Kind::Nvs);
    assert_eq!(kind_of(EFI_UNUSABLE_MEMORY), E820Kind::Unusable);
    assert_eq!(kind_of(EFI_PERSISTENT_MEMORY), E820Kind::Pmem);
    assert_eq!(kind_of(EFI_LOADER_CODE), E820Kind::Reserved);
    assert_eq!(kind_of(EFI_LOADER_DATA), E820Kind::Reserved);
    assert_eq!(kind_of(EFI_RUNTIME_SERVICES_CODE), E820Kind::Reserved);
    assert_eq!(kind_of(EFI_RUNTIME_SERVICES_DATA), E820Kind::Reserved);
    assert_eq!(kind_of(EFI_MEMORY_MAPPED_IO), E820Kind::Reserved);
    assert_eq!(kind_of(0x7000_0000), E820Kind::Reserved);
}

#[test]
fn firmware_type_codes_match_the_uefi_crate() {
    assert_eq!(MemoryType::LOADER_CODE.0, EFI_LOADER_CODE);
    assert_eq!(MemoryType::LOADER_DATA.0, EFI_LOADER_DATA);
    assert_eq!(MemoryType::BOOT_SERVICES_CODE.0, EFI_BOOT_SERVICES_CODE);
    assert_eq!(MemoryType::BOOT_SERVICES_DATA.0, EFI_BOOT_SERVICES_DATA);
    assert_eq!(MemoryType::RUNTIME_SERVICES_CODE.0, EFI_RUNTIME_SERVICES_CODE);
    assert_eq!(MemoryType::RUNTIME_SERVICES_DATA.0, EFI_RUNTIME_SERVICES_DATA);
    assert_eq!(MemoryType::CONVENTIONAL.0, EFI_CONVENTIONAL_MEMORY);
    assert_eq!(MemoryType::UNUSABLE.0, EFI_UNUSABLE_MEMORY);
    assert_eq!(MemoryType::ACPI_RECLAIM.0, EFI_ACPI_RECLAIM_MEMORY);
    assert_eq!(MemoryType::ACPI_NON_VOLATILE.0, EFI_ACPI_MEMORY_NVS);
    assert_eq!(MemoryType::MMIO.0, EFI_MEMORY_MAPPED_IO);
    assert_eq!(MemoryType::PERSISTENT_MEMORY.0, EFI_PERSISTENT_MEMORY);
}

#[test]
fn kind_codes_follow_the_kernel_abi() {
    let kinds = [
        (E820Kind::Ram, 1),
        (E820Kind::Reserved, 2),
        (E820Kind::Acpi, 3),
        (E820Kind::Nvs, 4),
        (E820Kind::Unusable, 5),
        (E820Kind::Disabled, 6),
        (E820Kind::Pmem, 7),
        (E820Kind::Pram, 12),
    ];
    for (k, code) in kinds {
        assert_eq!(k.code(), code);
    }
}

#[test]
fn sort_keeps_equal_addresses_in_input_order() {
    let v = vec![
        E820Entry::new(0x5000, 1, E820Kind::Ram),
        E820Entry::new(0x1000, 2, E820Kind::Acpi),
        E820Entry::new(0x1000, 3, E820Kind::Nvs),
    ];
    let s = sort_by_addr(&v);
    assert_eq!(s[0], E820Entry::new(0x1000, 2, E820Kind::Acpi));
    assert_eq!(s[1], E820Entry::new(0x1000, 3, E820Kind::Nvs));
    assert_eq!(s[2], E820Entry::new(0x5000, 1, E820Kind::Ram));
}

#[test]
fn validation_checks_in_order() {
    assert_eq!(validate_table(&vec![]), Err(MemoryMapError::Empty));
    let ok = vec![E820Entry::new(0, 0x1000, E820Kind::Ram)];
    assert_eq!(validate_table(&ok), Ok(()));
    let no_ram = vec![E820Entry::new(0, 0x1000, E820Kind::Reserved)];
    assert_eq!(validate_table(&no_ram), Err(MemoryMapError::NoRam));
}
