//! Boot entry discovery: which directory entries are descriptors, the
//! entries synthesized for well-known executables and for kernels found in
//! the kernel directory, and the order of the final list.

use vstd::prelude::*;
use vstd::string::StringExecFns;

use crate::entry::{BootEntry, EntryView};

verus! {

/// One item of a directory listing.
pub struct DirEntry {
    pub name: String,
    pub is_dir: bool,
}

/// Directory, relative to the volume root, that holds the descriptors.
pub fn config_dir() -> (r: &'static str)
    ensures
        r@ == "loader\\entries"@,
{
    "loader\\entries"
}

/// Directory, relative to the volume root, searched for kernel images.
pub fn kernel_dir() -> (r: &'static str)
    ensures
        r@ == "EFI\\Linux"@,
{
    "EFI\\Linux"
}

/// The well-known executables of other systems, in priority order.
pub open spec fn well_known_path(i: int) -> Seq<char> {
    if i == 0 {
        "EFI\\Microsoft\\Boot\\bootmgfw.efi"@
    } else if i == 1 {
        "EFI\\Apple\\Boot\\boot.efi"@
    } else {
        "shellx64.efi"@
    }
}

/// Number of well-known executables probed.
pub const WELL_KNOWN_COUNT: usize = 3;

pub fn well_known_paths() -> (r: Vec<&'static str>)
    ensures
        r@.len() == WELL_KNOWN_COUNT,
        forall|i: int| 0 <= i < WELL_KNOWN_COUNT ==> (#[trigger] r@[i])@ == well_known_path(i),
{
    let r = vec!["EFI\\Microsoft\\Boot\\bootmgfw.efi", "EFI\\Apple\\Boot\\boot.efi", "shellx64.efi"];
    assert forall|i: int| 0 <= i < WELL_KNOWN_COUNT implies (#[trigger] r@[i])@
        == well_known_path(i) by {
        if i == 0 {
        } else if i == 1 {
        } else {
        }
    }
    r
}

/// The name ends in `.conf`.
pub open spec fn is_conf_name(name: Seq<char>) -> bool {
    name.len() >= 5 && name.skip(name.len() - 5) == seq!['.', 'c', 'o', 'n', 'f']
}

/// A listing item is read as a descriptor: a file whose name ends in `.conf`.
pub open spec fn is_descriptor(e: DirEntry) -> bool {
    !e.is_dir && is_conf_name(e.name@)
}

pub fn is_descriptor_entry(e: &DirEntry) -> (r: bool)
    ensures
        r == is_descriptor(*e),
{
    if e.is_dir {
        return false;
    }
    let cs = crate::text::chars_of(e.name.as_str());
    let n = cs.len();
    if n < 5 {
        return false;
    }
    let r = cs[n - 5] == '.' && cs[n - 4] == 'c' && cs[n - 3] == 'o' && cs[n - 2] == 'n' && cs[n
        - 1] == 'f';
    assert(r == (cs@.skip(n - 5) =~= seq!['.', 'c', 'o', 'n', 'f']));
    r
}

/// Names of the listing's descriptors, in order.
pub open spec fn descriptor_names_spec(listing: Seq<DirEntry>) -> Seq<Seq<char>>
    decreases listing.len(),
{
    if listing.len() == 0 {
        Seq::empty()
    } else {
        let rest = descriptor_names_spec(listing.drop_last());
        if is_descriptor(listing.last()) {
            rest.push(listing.last().name@)
        } else {
            rest
        }
    }
}

/// The names of the listing's descriptors, in listing order.
pub fn descriptor_names(listing: &Vec<DirEntry>) -> (r: Vec<String>)
    ensures
        r@.map_values(|s: String| s@) == descriptor_names_spec(listing@),
{
    let mut out: Vec<String> = Vec::new();
    let mut i: usize = 0;
    while i < listing.len()
        invariant
            i <= listing@.len(),
            out@.map_values(|s: String| s@) == descriptor_names_spec(listing@.take(i as int)),
        decreases listing@.len() - i,
    {
        assert(listing@.take(i as int + 1).drop_last() =~= listing@.take(i as int));
        let ghost before = out@;
        if is_descriptor_entry(&listing[i]) {
            out.push(listing[i].name.clone());
            assert(out@.map_values(|s: String| s@) =~= before.map_values(|s: String| s@).push(
                listing@[i as int].name@,
            ));
        }
        i = i + 1;
    }
    assert(listing@.take(listing@.len() as int) =~= listing@);
    out
}

/// Names of the listing's files (not directories), in order.
pub open spec fn file_names_spec(listing: Seq<DirEntry>) -> Seq<Seq<char>>
    decreases listing.len(),
{
    if listing.len() == 0 {
        Seq::empty()
    } else {
        let rest = file_names_spec(listing.drop_last());
        if !listing.last().is_dir {
            rest.push(listing.last().name@)
        } else {
            rest
        }
    }
}

/// The names of the listing's files, in listing order.
pub fn file_names(listing: &Vec<DirEntry>) -> (r: Vec<String>)
    ensures
        r@.map_values(|s: String| s@) == file_names_spec(listing@),
{
    let mut out: Vec<String> = Vec::new();
    let mut i: usize = 0;
    while i < listing.len()
        invariant
            i <= listing@.len(),
            out@.map_values(|s: String| s@) == file_names_spec(listing@.take(i as int)),
        decreases listing@.len() - i,
    {
        assert(listing@.take(i as int + 1).drop_last() =~= listing@.take(i as int));
        let ghost before = out@;
        if !listing[i].is_dir {
            out.push(listing[i].name.clone());
            assert(out@.map_values(|s: String| s@) =~= before.map_values(|s: String| s@).push(
                listing@[i as int].name@,
            ));
        }
        i = i + 1;
    }
    assert(listing@.take(listing@.len() as int) =~= listing@);
    out
}

/// An entry with this title and firmware-executable path, nothing else set.
pub open spec fn efi_entry(title: Seq<char>, efi: Seq<char>) -> EntryView {
    EntryView {
        title,
        version: None,
        machine_id: None,
        sort_key: None,
        linux: None,
        initrd: None,
        efi: Some(efi),
        options: None,
    }
}

pub open spec fn detected_view(path: Seq<char>) -> EntryView {
    efi_entry("Detected Boot Entry: "@ + path, path)
}

pub open spec fn kernel_view(name: Seq<char>) -> EntryView {
    efi_entry("Linux EFI Kernel: "@ + name, "EFI\\Linux\\"@ + name)
}

fn efi_boot_entry(title: String, efi: String) -> (r: BootEntry)
    ensures
        r@ == efi_entry(title@, efi@),
{
    BootEntry {
        title,
        version: None,
        machine_id: None,
        sort_key: None,
        linux: None,
        initrd: None,
        efi: Some(efi),
        options: None,
    }
}

/// The entry for a well-known executable found at `path`.
pub fn detected_entry(path: &str) -> (r: BootEntry)
    ensures
        r@ == detected_view(path@),
{
    let mut title = String::from_str("Detected Boot Entry: ");
    title.append(path);
    efi_boot_entry(title, String::from_str(path))
}

/// The entry for a file `name` found in the kernel directory: it is booted
/// as a firmware executable.
pub fn kernel_dir_entry(name: &str) -> (r: BootEntry)
    ensures
        r@ == kernel_view(name@),
{
    let mut title = String::from_str("Linux EFI Kernel: ");
    title.append(name);
    let mut path = String::from_str("EFI\\Linux\\");
    path.append(name);
    efi_boot_entry(title, path)
}

/// Entries for the well-known executables among the first `n` that are present.
pub open spec fn detected_views(present: Seq<bool>, n: int) -> Seq<EntryView>
    decreases n,
{
    if n <= 0 {
        Seq::empty()
    } else if present[n - 1] {
        detected_views(present, n - 1).push(detected_view(well_known_path(n - 1)))
    } else {
        detected_views(present, n - 1)
    }
}

pub open spec fn views(entries: Seq<BootEntry>) -> Seq<EntryView> {
    entries.map_values(|e: BootEntry| e@)
}

/// The discovery order: descriptor entries, then the present well-known
/// executables in priority order, then the kernel directory's files.
pub open spec fn catalog_spec(
    described: Seq<EntryView>,
    present: Seq<bool>,
    kernel_files: Seq<Seq<char>>,
) -> Seq<EntryView> {
    described + detected_views(present, WELL_KNOWN_COUNT as int) + kernel_files.map_values(
        |n: Seq<char>| kernel_view(n),
    )
}

/// Puts the discovered entries together in discovery order. `present[i]`
/// says whether the `i`-th well-known executable was found.
pub fn assemble_catalog(
    described: Vec<BootEntry>,
    present: &Vec<bool>,
    kernel_files: &Vec<String>,
) -> (r: Vec<BootEntry>)
    requires
        present@.len() == WELL_KNOWN_COUNT,
    ensures
        views(r@) == catalog_spec(
            views(described@),
            present@,
            kernel_files@.map_values(|s: String| s@),
        ),
{
    let mut out = described;
    let ghost base = views(out@);
    let paths = well_known_paths();
    let mut i: usize = 0;
    while i < WELL_KNOWN_COUNT
        invariant
            i <= WELL_KNOWN_COUNT,
            present@.len() == WELL_KNOWN_COUNT,
            paths@.len() == WELL_KNOWN_COUNT,
            forall|j: int| 0 <= j < WELL_KNOWN_COUNT ==> (#[trigger] paths@[j])@ == well_known_path(j),
            views(out@) == base + detected_views(present@, i as int),
        decreases WELL_KNOWN_COUNT - i,
    {
        let ghost before = out@;
        if present[i] {
            out.push(detected_entry(paths[i]));
            assert(views(out@) =~= views(before).push(detected_view(well_known_path(i as int))));
        } else {
            assert(views(out@) =~= views(before));
        }
        i = i + 1;
    }
    let ghost mid = views(out@);
    let ghost names = kernel_files@.map_values(|s: String| s@);
    let mut k: usize = 0;
    while k < kernel_files.len()
        invariant
            k <= kernel_files@.len(),
            names == kernel_files@.map_values(|s: String| s@),
            views(out@) == mid + names.take(k as int).map_values(|n: Seq<char>| kernel_view(n)),
        decreases kernel_files@.len() - k,
    {
        let ghost before = out@;
        out.push(kernel_dir_entry(kernel_files[k].as_str()));
        assert(names.take(k as int + 1).map_values(|n: Seq<char>| kernel_view(n)) =~= names.take(
            k as int,
        ).map_values(|n: Seq<char>| kernel_view(n)).push(kernel_view(names[k as int])));
        assert(views(out@) =~= views(before).push(kernel_view(names[k as int])));
        k = k + 1;
    }
    assert(names.take(names.len() as int) =~= names);
    out
}

} // verus!
