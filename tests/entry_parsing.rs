use efiboot::entry::{parse_conf, BootEntry};

#[test]
fn parse_title_linux_options() {
    let e = parse_conf("title Hello\nlinux /vmlinuz\noptions quiet\n");
    assert_eq!(e.title, "Hello");
    assert_eq!(e.linux.as_deref(), Some("/vmlinuz"));
    assert_eq!(e.options.as_deref(), Some("quiet"));
    assert_eq!(e.version, None);
    assert_eq!(e.machine_id, None);
    assert_eq!(e.sort_key, None);
    assert_eq!(e.initrd, None);
    assert_eq!(e.efi, None);
}

#[test]
fn new_entry_is_empty() {
    let e = BootEntry::new();
    assert_eq!(e.title, "");
    assert!(e.version.is_none() && e.machine_id.is_none() && e.sort_key.is_none());
    assert!(e.linux.is_none() && e.initrd.is_none() && e.efi.is_none() && e.options.is_none());
}

#[test]
fn every_recognized_key_is_read() {
    let text = "title Arch Linux\nversion 6.13.7\nmachine-id 163b44d2\nsort-key arch\n\
                linux /arch/vmlinuz-linux\ninitrd /arch/initramfs-linux.img\n\
                options root=/dev/sda2 rw quiet\n";
    let e = parse_conf(text);
    assert_eq!(e.title, "Arch Linux");
    assert_eq!(e.version.as_deref(), Some("6.13.7"));
    assert_eq!(e.machine_id.as_deref(), Some("163b44d2"));
    assert_eq!(e.sort_key.as_deref(), Some("arch"));
    assert_eq!(e.linux.as_deref(), Some("/arch/vmlinuz-linux"));
    assert_eq!(e.initrd.as_deref(), Some("/arch/initramfs-linux.img"));
    assert_eq!(e.options.as_deref(), Some("root=/dev/sda2 rw quiet"));
    assert_eq!(e.efi, None);
}

#[test]
fn unrecognized_keys_change_nothing() {
    let plain = parse_conf("title A\nlinux /k\n");
    let noisy = parse_conf("architecture x64\ntitle A\nefi /ignored.efi\nlinux /k\ndevicetree x\n");
    assert_eq!(noisy.title, plain.title);
    assert_eq!(noisy.linux, plain.linux);
    assert_eq!(noisy.efi, None);
    assert_eq!(noisy.version, None);
    assert_eq!(noisy.options, None);
}

#[test]
fn comments_and_blank_lines_are_skipped() {
    let e = parse_conf("# title Commented\n\n   \n#linux /no\ntitle Real\n");
    assert_eq!(e.title, "Real");
    assert_eq!(e.linux, None);
}

#[test]
fn line_without_space_is_ignored() {
    let e = parse_conf("title\nlinux\n");
    assert_eq!(e.title, "");
    assert_eq!(e.linux, None);
}

#[test]
fn surrounding_whitespace_is_trimmed() {
    let e = parse_conf("  title    Spaced Out  \r\n\toptions   a b  \n");
    assert_eq!(e.title, "Spaced Out");
    assert_eq!(e.options.as_deref(), Some("a b"));
}

#[test]
fn later_line_replaces_earlier() {
    let e = parse_conf("title One\ntitle Two\nversion 1\nversion 2");
    assert_eq!(e.title, "Two");
    assert_eq!(e.version.as_deref(), Some("2"));
}

#[test]
fn empty_descriptor_gives_empty_entry() {
    let e = parse_conf("");
    assert_eq!(e.title, "");
    assert!(e.linux.is_none() && e.options.is_none());
}

#[test]
fn key_must_match_exactly() {
    let e = parse_conf("Title Upper\ntitles Plural\nlinux-path /x\n");
    assert_eq!(e.title, "");
    assert_eq!(e.linux, None);
}

#[test]
fn non_ascii_values_are_kept() {
    let e = parse_conf("title Débian — stable\n");
    assert_eq!(e.title, "Débian — stable");
}
