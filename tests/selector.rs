use uefi::proto::console::text::ScanCode;
use efiboot::entry::{parse_conf, BootEntry};
use efiboot::selector::{
    menu_key, menu_lines, menu_start, menu_step, run_menu, MenuKey, MenuOutcome, MenuStep,
};

fn titled(t: &str) -> BootEntry {
    let mut e = BootEntry::new();
    e.title = t.to_string();
    e
}

#[test]
fn up_is_ignored_at_top_then_down_and_enter_confirm() {
    assert_eq!(menu_start(3), Some(0));
    assert_eq!(menu_step(3, 0, MenuKey::Up), MenuStep::Browse(0));
    assert_eq!(menu_step(3, 0, MenuKey::Down), MenuStep::Browse(1));
    assert_eq!(menu_step(3, 1, MenuKey::Enter), MenuStep::Confirm(1));
    let keys = [MenuKey::Up, MenuKey::Down, MenuKey::Enter, MenuKey::Down];
    assert_eq!(run_menu(3, &keys), (MenuOutcome::Confirmed(1), 3));
}

#[test]
fn empty_list_reads_no_key() {
    assert_eq!(menu_start(0), None);
    assert_eq!(run_menu(0, &[MenuKey::Enter, MenuKey::Down]), (MenuOutcome::NoEntries, 0));
    assert_eq!(run_menu(0, &[]), (MenuOutcome::NoEntries, 0));
}

#[test]
fn down_stops_at_the_last_entry() {
    assert_eq!(menu_step(3, 2, MenuKey::Down), MenuStep::Browse(2));
    let keys = [MenuKey::Down, MenuKey::Down, MenuKey::Down, MenuKey::Down, MenuKey::Enter];
    assert_eq!(run_menu(3, &keys), (MenuOutcome::Confirmed(2), 5));
}

#[test]
fn escape_cancels_and_other_keys_do_nothing() {
    assert_eq!(menu_step(2, 1, MenuKey::Other), MenuStep::Browse(1));
    assert_eq!(menu_step(2, 1, MenuKey::Escape), MenuStep::Cancel);
    let keys = [MenuKey::Down, MenuKey::Other, MenuKey::Escape, MenuKey::Enter];
    assert_eq!(run_menu(2, &keys), (MenuOutcome::Cancelled, 3));
}

#[test]
fn keys_running_out_leave_the_menu_waiting() {
    assert_eq!(run_menu(4, &[MenuKey::Down, MenuKey::Down]), (MenuOutcome::Waiting(2), 2));
    assert_eq!(run_menu(1, &[]), (MenuOutcome::Waiting(0), 0));
}

#[test]
fn firmware_keys_are_classified() {
    assert_eq!(menu_key(0x01, 0), MenuKey::Up);
    assert_eq!(menu_key(0x02, 0), MenuKey::Down);
    assert_eq!(menu_key(0x17, 0), MenuKey::Escape);
    assert_eq!(menu_key(0, 0x0D), MenuKey::Enter);
    assert_eq!(menu_key(0, u16::from(b'a')), MenuKey::Other);
    assert_eq!(menu_key(0x03, 0), MenuKey::Other);
}

#[test]
fn scan_codes_match_the_uefi_crate() {
    assert_eq!(menu_key(ScanCode::UP.0, 0), MenuKey::Up);
    assert_eq!(menu_key(ScanCode::DOWN.0, 0), MenuKey::Down);
    assert_eq!(menu_key(ScanCode::ESCAPE.0, 0), MenuKey::Escape);
}

#[test]
fn menu_marks_the_selected_entry() {
    let a = parse_conf("title Arch\nversion 6.13\noptions quiet\n");
    let b = titled("Windows");
    let c = parse_conf("title Plain\noptions ro\n");
    let entries = vec![a, b, c];
    assert_eq!(menu_lines(&entries, 0), vec!["> Arch (6.13)", "    quiet", "  Windows", "  Plain"]);
    assert_eq!(menu_lines(&entries, 1), vec!["  Arch", "> Windows", "  Plain"]);
    assert_eq!(menu_lines(&entries, 2), vec!["  Arch", "  Windows", "> Plain", "    ro"]);
    assert!(menu_lines(&vec![], 0).is_empty());
}
