use efiboot::abi::{BOOT_PARAMS_ADDR, KERNEL_LOAD_ADDR};
use efiboot::boot_params::HeaderError;
use efiboot::direct_boot::{Action, DirectBoot, LoadError, Stage};
use efiboot::memory_map::{FirmwareDescriptor, MemoryMapError, EFI_CONVENTIONAL_MEMORY, EFI_LOADER_DATA};

fn kernel_image(len: usize) -> Vec<u8> {
    let mut v: Vec<u8> = (0..len).map(|i| (i % 251) as u8 + 1).collect();
    v[0x202..0x206].copy_from_slice(b"HdrS");
    v
}

fn u32_at(b: &[u8], off: usize) -> u32 {
    u32::from_le_bytes([b[off], b[off + 1], b[off + 2], b[off + 3]])
}

fn good_map() -> Vec<FirmwareDescriptor> {
    vec![
        FirmwareDescriptor { phys_start: 0, page_count: 0x90, ty: EFI_CONVENTIONAL_MEMORY },
        FirmwareDescriptor { phys_start: 0x90000, page_count: 1, ty: EFI_LOADER_DATA },
        FirmwareDescriptor { phys_start: 0x100000, page_count: 0x100, ty: EFI_CONVENTIONAL_MEMORY },
    ]
}

#[test]
fn full_sequence_with_initrd_and_command_line() {
    let (mut m, a) = DirectBoot::start(
        "\\vmlinuz".to_string(),
        Some("\\initrd.img".to_string()),
        Some("quiet".to_string()),
    );
    assert!(matches!(a, Action::ReadFile(ref p) if p == "\\vmlinuz"));
    let image = kernel_image(0x2001);
    let a = m.on_file_read(&image);
    assert!(matches!(a, Action::AllocateAt { address, pages: 3 } if address == KERNEL_LOAD_ADDR));
    let a = m.on_allocated(KERNEL_LOAD_ADDR);
    assert!(matches!(a, Action::CopyFile { address } if address == KERNEL_LOAD_ADDR));
    let a = m.on_copied();
    assert!(matches!(a, Action::ReadFile(ref p) if p == "\\initrd.img"));
    let a = m.on_file_read(&vec![9u8; 5000]);
    assert!(matches!(a, Action::AllocateAnywhere { pages: 2 }));
    let a = m.on_allocated(0x3000_0000);
    assert!(matches!(a, Action::CopyFile { address: 0x3000_0000 }));
    let a = m.on_copied();
    assert!(matches!(a, Action::AllocateAt { address, pages: 1 } if address == BOOT_PARAMS_ADDR));
    let a = m.on_allocated(BOOT_PARAMS_ADDR);
    assert!(matches!(a, Action::AllocateAnywhere { pages: 1 }));
    let a = m.on_allocated(0x4000_0000);
    match a {
        Action::CopyBytes { address, bytes } => {
            assert_eq!(address, 0x4000_0000);
            assert_eq!(bytes, b"quiet\0".to_vec());
        }
        other => panic!("unexpected {:?}", other),
    }
    let a = m.on_copied();
    assert!(matches!(a, Action::ExitFirmware));
    let a = m.on_memory_map(&good_map());
    match a {
        Action::Launch { entry, params } => {
            assert_eq!(entry, 0x100200);
            assert_eq!(params.len(), 4096);
            assert_eq!(&params[..0x1E8], &image[..0x1E8]);
            assert_eq!(&params[0x1E9..0x1F1], &image[0x1E9..0x1F1]);
            assert!(params[0x1F1..0x218].iter().all(|&x| x == 0));
            assert_eq!(u32_at(&params, 0x218), 0x3000_0000);
            assert_eq!(u32_at(&params, 0x21C), 5000);
            assert_eq!(u32_at(&params, 0x228), 0x4000_0000);
            assert_eq!(params[0x1E8], 3);
            assert_eq!(u32_at(&params, 0x2D0 + 16), 1);
            assert_eq!(u32_at(&params, 0x2D0 + 20 + 16), 2);
        }
        other => panic!("unexpected {:?}", other),
    }
    assert_eq!(m.stage, Stage::Launched);
}

#[test]
fn sequence_without_initrd_or_command_line() {
    let (mut m, _) = DirectBoot::start("k".to_string(), None, None);
    let a = m.on_file_read(&kernel_image(0x1000));
    assert!(matches!(a, Action::AllocateAt { pages: 1, .. }));
    m.on_allocated(KERNEL_LOAD_ADDR);
    let a = m.on_copied();
    assert!(matches!(a, Action::AllocateAt { address, pages: 1 } if address == BOOT_PARAMS_ADDR));
    let a = m.on_allocated(BOOT_PARAMS_ADDR);
    assert!(matches!(a, Action::ExitFirmware));
    match m.on_memory_map(&good_map()) {
        Action::Launch { params, .. } => {
            assert_eq!(u32_at(&params, 0x218), 0);
            assert_eq!(u32_at(&params, 0x21C), 0);
            assert_eq!(u32_at(&params, 0x228), 0);
        }
        other => panic!("unexpected {:?}", other),
    }
}

#[test]
fn bad_header_fails_before_any_allocation() {
    let (mut m, _) = DirectBoot::start("k".to_string(), None, None);
    let a = m.on_file_read(&vec![0u8; 0x100]);
    assert!(matches!(a, Action::Fail(LoadError::HeaderInvalid(HeaderError::TooShort))));
    assert_eq!(m.stage, Stage::Failed);
    let a = m.on_allocated(KERNEL_LOAD_ADDR);
    assert!(matches!(a, Action::Fail(LoadError::OutOfOrder)));

    let (mut m, _) = DirectBoot::start("k".to_string(), None, None);
    let a = m.on_file_read(&vec![0u8; 0x1000]);
    assert!(matches!(a, Action::Fail(LoadError::HeaderInvalid(HeaderError::BadMagic))));
    assert!(matches!(m.on_copied(), Action::Fail(LoadError::OutOfOrder)));
}

#[test]
fn kernel_address_mismatch_is_fatal() {
    let (mut m, _) = DirectBoot::start("k".to_string(), None, None);
    m.on_file_read(&kernel_image(0x1000));
    let a = m.on_allocated(0x200000);
    assert!(matches!(
        a,
        Action::Fail(LoadError::FixedAllocationMismatch { requested: 0x100000, got: 0x200000 })
    ));
    assert_eq!(m.stage, Stage::Failed);
    assert!(matches!(m.on_allocated(KERNEL_LOAD_ADDR), Action::Fail(LoadError::OutOfOrder)));
}

#[test]
fn boot_params_address_mismatch_is_fatal() {
    let (mut m, _) = DirectBoot::start("k".to_string(), None, Some("x".to_string()));
    m.on_file_read(&kernel_image(0x1000));
    m.on_allocated(KERNEL_LOAD_ADDR);
    m.on_copied();
    let a = m.on_allocated(0x80000);
    assert!(matches!(
        a,
        Action::Fail(LoadError::FixedAllocationMismatch { requested: 0x90000, got: 0x80000 })
    ));
    assert_eq!(m.stage, Stage::Failed);
}

#[test]
fn invalid_final_map_stops_the_launch() {
    let (mut m, _) = DirectBoot::start("k".to_string(), None, None);
    m.on_file_read(&kernel_image(0x1000));
    m.on_allocated(KERNEL_LOAD_ADDR);
    m.on_copied();
    m.on_allocated(BOOT_PARAMS_ADDR);
    let only_loader = vec![FirmwareDescriptor { phys_start: 0x90000, page_count: 1, ty: EFI_LOADER_DATA }];
    let a = m.on_memory_map(&only_loader);
    assert!(matches!(a, Action::Fail(LoadError::MemoryMapInvalid(MemoryMapError::NoRam))));
    assert_eq!(m.stage, Stage::Failed);
}

#[test]
fn outcome_out_of_order_fails() {
    let (mut m, _) = DirectBoot::start("k".to_string(), None, None);
    assert!(matches!(m.on_memory_map(&good_map()), Action::Fail(LoadError::OutOfOrder)));
    assert_eq!(m.stage, Stage::Failed);
}
