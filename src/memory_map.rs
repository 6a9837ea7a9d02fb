//! Translation of the firmware's physical memory map into the kernel's E820
//! table: classify, sort by address, merge neighbours, validate, install.

use vstd::prelude::*;

use crate::abi::{E820_MAX_ENTRIES, PAGE_SIZE};

verus! {

/// Kind of an E820 region, as the kernel classifies memory.
#[derive(Clone, Copy, Debug, PartialEq, Eq, Structural)]
pub enum E820Kind {
    Ram,
    Reserved,
    Acpi,
    Nvs,
    Unusable,
    Disabled,
    Pmem,
    Pram,
}

impl E820Kind {
    /// The numeric type the kernel expects for this kind.
    pub open spec fn spec_code(self) -> u32 {
        match self {
            E820Kind::Ram => 1,
            E820Kind::Reserved => 2,
            E820Kind::Acpi => 3,
            E820Kind::Nvs => 4,
            E820Kind::Unusable => 5,
            E820Kind::Disabled => 6,
            E820Kind::Pmem => 7,
            E820Kind::Pram => 12,
        }
    }

    pub fn code(&self) -> (r: u32)
        ensures
            r == self.spec_code(),
    {
        match self {
            E820Kind::Ram => 1,
            E820Kind::Reserved => 2,
            E820Kind::Acpi => 3,
            E820Kind::Nvs => 4,
            E820Kind::Unusable => 5,
            E820Kind::Disabled => 6,
            E820Kind::Pmem => 7,
            E820Kind::Pram => 12,
        }
    }
}

/// Firmware memory type codes (`EFI_MEMORY_TYPE`) that the lookup table names.
pub const EFI_LOADER_CODE: u32 = 1;
pub const EFI_LOADER_DATA: u32 = 2;
pub const EFI_BOOT_SERVICES_CODE: u32 = 3;
pub const EFI_BOOT_SERVICES_DATA: u32 = 4;
pub const EFI_RUNTIME_SERVICES_CODE: u32 = 5;
pub const EFI_RUNTIME_SERVICES_DATA: u32 = 6;
pub const EFI_CONVENTIONAL_MEMORY: u32 = 7;
pub const EFI_UNUSABLE_MEMORY: u32 = 8;
pub const EFI_ACPI_RECLAIM_MEMORY: u32 = 9;
pub const EFI_ACPI_MEMORY_NVS: u32 = 10;
pub const EFI_MEMORY_MAPPED_IO: u32 = 11;
pub const EFI_PERSISTENT_MEMORY: u32 = 14;

/// The fixed lookup from firmware memory type to E820 kind. Loader and
/// runtime-service memory, MMIO and unknown types are all reserved.
pub open spec fn kind_of_spec(ty: u32) -> E820Kind {
    if ty == EFI_CONVENTIONAL_MEMORY || ty == EFI_BOOT_SERVICES_CODE || ty
        == EFI_BOOT_SERVICES_DATA {
        E820Kind::Ram
    } else if ty == EFI_ACPI_RECLAIM_MEMORY {
        E820Kind::Acpi
    } else if ty == EFI_ACPI_MEMORY_NVS {
        E820Kind::Nvs
    } else if ty == EFI_UNUSABLE_MEMORY {
        E820Kind::Unusable
    } else if ty == EFI_PERSISTENT_MEMORY {
        E820Kind::Pmem
    } else {
        E820Kind::Reserved
    }
}

pub fn kind_of(ty: u32) -> (r: E820Kind)
    ensures
        r == kind_of_spec(ty),
{
    if ty == EFI_CONVENTIONAL_MEMORY || ty == EFI_BOOT_SERVICES_CODE || ty
        == EFI_BOOT_SERVICES_DATA {
        E820Kind::Ram
    } else if ty == EFI_ACPI_RECLAIM_MEMORY {
        E820Kind::Acpi
    } else if ty == EFI_ACPI_MEMORY_NVS {
        E820Kind::Nvs
    } else if ty == EFI_UNUSABLE_MEMORY {
        E820Kind::Unusable
    } else if ty == EFI_PERSISTENT_MEMORY {
        E820Kind::Pmem
    } else {
        E820Kind::Reserved
    }
}

/// One entry of the firmware's memory map, reduced to what translation reads.
#[derive(Clone, Copy, Debug, PartialEq, Eq, Structural)]
pub struct FirmwareDescriptor {
    pub phys_start: u64,
    pub page_count: u64,
    pub ty: u32,
}

/// One E820 region: start address, length in bytes, kind.
#[derive(Clone, Copy, Debug, PartialEq, Eq, Structural)]
pub struct E820Entry {
    pub addr: u64,
    pub size: u64,
    pub kind: E820Kind,
}

impl E820Entry {
    /// First address past the region.
    pub open spec fn spec_end(self) -> int {
        self.addr + self.size
    }

    pub fn new(addr: u64, size: u64, kind: E820Kind) -> (r: E820Entry)
        ensures
            r.addr == addr,
            r.size == size,
            r.kind == kind,
    {
        E820Entry { addr, size, kind }
    }

    /// First address past the region.
    pub fn end(&self) -> (r: u64)
        requires
            self.spec_end() <= u64::MAX,
        ensures
            r == self.spec_end(),
    {
        self.addr + self.size
    }
}

/// Why a memory map cannot be handed to the kernel.
#[derive(Clone, Copy, Debug, PartialEq, Eq, Structural)]
pub enum MemoryMapError {
    /// A descriptor reaches past the end of the 64-bit address space.
    RegionOutOfRange,
    /// More regions remain after merging than the table can hold.
    TooManyEntries,
    /// No region at all.
    Empty,
    /// Two regions share an address.
    Overlap,
    /// No region is usable RAM.
    NoRam,
}

/// Length in bytes that a descriptor covers.
pub open spec fn descriptor_len(d: FirmwareDescriptor) -> int {
    d.page_count * PAGE_SIZE
}

/// The descriptor's last byte lies inside the 64-bit address space.
pub open spec fn descriptor_in_range(d: FirmwareDescriptor) -> bool {
    d.phys_start + descriptor_len(d) <= u64::MAX
}

/// The E820 entry a descriptor becomes.
pub open spec fn entry_of(d: FirmwareDescriptor) -> E820Entry {
    E820Entry { addr: d.phys_start, size: descriptor_len(d) as u64, kind: kind_of_spec(d.ty) }
}

/// Entries for the descriptors in order, zero-length descriptors skipped.
pub open spec fn converted(d: Seq<FirmwareDescriptor>) -> Seq<E820Entry>
    decreases d.len(),
{
    if d.len() == 0 {
        Seq::empty()
    } else {
        let rest = converted(d.drop_last());
        if d.last().page_count == 0 {
            rest
        } else {
            rest.push(entry_of(d.last()))
        }
    }
}

/// Where a region starting at `addr` goes: after every leading entry that
/// does not start above it.
pub open spec fn insert_index(t: Seq<E820Entry>, addr: u64) -> nat
    decreases t.len(),
{
    if t.len() == 0 || addr < t[0].addr {
        0
    } else {
        1 + insert_index(t.drop_first(), addr)
    }
}

pub open spec fn sorted_insert(t: Seq<E820Entry>, e: E820Entry) -> Seq<E820Entry> {
    t.insert(insert_index(t, e.addr) as int, e)
}

/// Stable sort by start address (insertion sort).
pub open spec fn sorted_by_addr(s: Seq<E820Entry>) -> Seq<E820Entry>
    decreases s.len(),
{
    if s.len() == 0 {
        s
    } else {
        sorted_insert(sorted_by_addr(s.drop_last()), s.last())
    }
}

/// `b` starts exactly where `a` ends and has the same kind.
pub open spec fn mergeable(a: E820Entry, b: E820Entry) -> bool {
    a.spec_end() == b.addr && a.kind == b.kind
}

pub open spec fn merge_step(m: Seq<E820Entry>, e: E820Entry) -> Seq<E820Entry> {
    if m.len() > 0 && mergeable(m.last(), e) {
        m.update(
            m.len() - 1,
            E820Entry { addr: m.last().addr, size: (m.last().size + e.size) as u64, kind: e.kind },
        )
    } else {
        m.push(e)
    }
}

/// Left to right, each entry is folded into its predecessor when adjacent
/// and of the same kind.
pub open spec fn merged(s: Seq<E820Entry>) -> Seq<E820Entry>
    decreases s.len(),
{
    if s.len() == 0 {
        s
    } else {
        merge_step(merged(s.drop_last()), s.last())
    }
}

pub open spec fn overlap(a: E820Entry, b: E820Entry) -> bool {
    a.addr < b.spec_end() && b.addr < a.spec_end()
}

pub open spec fn has_overlap(t: Seq<E820Entry>) -> bool {
    exists|i: int, j: int| 0 <= i < j < t.len() && #[trigger] overlap(t[i], t[j])
}

pub open spec fn has_ram(t: Seq<E820Entry>) -> bool {
    exists|i: int| 0 <= i < t.len() && (#[trigger] t[i]).kind == E820Kind::Ram
}

pub open spec fn all_in_range(t: Seq<E820Entry>) -> bool {
    forall|i: int| 0 <= i < t.len() ==> (#[trigger] t[i]).spec_end() <= u64::MAX
}

/// The table the kernel receives for a firmware map, or why there is none.
pub open spec fn translation(d: Seq<FirmwareDescriptor>) -> Result<
    Seq<E820Entry>,
    MemoryMapError,
> {
    if exists|i: int| 0 <= i < d.len() && !descriptor_in_range(#[trigger] d[i]) {
        Err(MemoryMapError::RegionOutOfRange)
    } else {
        let t = merged(sorted_by_addr(converted(d)));
        if t.len() > E820_MAX_ENTRIES {
            Err(MemoryMapError::TooManyEntries)
        } else if t.len() == 0 {
            Err(MemoryMapError::Empty)
        } else if has_overlap(t) {
            Err(MemoryMapError::Overlap)
        } else if !has_ram(t) {
            Err(MemoryMapError::NoRam)
        } else {
            Ok(t)
        }
    }
}

/// The entries for the descriptors, in order, skipping zero-length ones; an
/// error when a descriptor reaches past the address space.
pub fn convert_descriptors(d: &[FirmwareDescriptor]) -> (r: Result<Vec<E820Entry>, MemoryMapError>)
    ensures
        match r {
            Ok(v) => (forall|i: int| 0 <= i < d@.len() ==> descriptor_in_range(#[trigger] d@[i]))
                && v@ == converted(d@),
            Err(e) => e == MemoryMapError::RegionOutOfRange && exists|i: int|
                0 <= i < d@.len() && !descriptor_in_range(#[trigger] d@[i]),
        },
{
    let mut out: Vec<E820Entry> = Vec::new();
    let mut i: usize = 0;
    while i < d.len()
        invariant
            i <= d@.len(),
            forall|k: int| 0 <= k < i ==> descriptor_in_range(#[trigger] d@[k]),
            out@ == converted(d@.take(i as int)),
        decreases d@.len() - i,
    {
        let desc = d[i];
        if desc.page_count > (u64::MAX - desc.phys_start) / 4096 {
            assert(!descriptor_in_range(d@[i as int])) by (nonlinear_arith)
                requires
                    desc == d@[i as int],
                    desc.page_count > (u64::MAX - desc.phys_start) / 4096,
            ;
            return Err(MemoryMapError::RegionOutOfRange);
        }
        assert(descriptor_in_range(desc) && desc.page_count * 4096 <= u64::MAX) by (nonlinear_arith)
            requires
                desc.page_count <= (u64::MAX - desc.phys_start) / 4096,
        ;
        assert(d@.take(i as int + 1).drop_last() == d@.take(i as int));
        if desc.page_count != 0 {
            let size = desc.page_count * 4096;
            out.push(E820Entry { addr: desc.phys_start, size, kind: kind_of(desc.ty) });
        }
        i = i + 1;
    }
    assert(d@.take(d@.len() as int) == d@);
    Ok(out)
}

proof fn lemma_insert_index(t: Seq<E820Entry>, addr: u64, p: int)
    requires
        0 <= p <= t.len(),
        forall|j: int| 0 <= j < p ==> (#[trigger] t[j]).addr <= addr,
        p == t.len() || addr < t[p].addr,
    ensures
        insert_index(t, addr) == p,
    decreases p,
{
    if p > 0 {
        let r = t.drop_first();
        assert forall|j: int| 0 <= j < p - 1 implies (#[trigger] r[j]).addr <= addr by {
            assert(r[j] == t[j + 1]);
        }
        lemma_insert_index(r, addr, p - 1);
    }
}

fn insert_by_addr(v: &mut Vec<E820Entry>, e: E820Entry)
    ensures
        final(v)@ == sorted_insert(old(v)@, e),
{
    let mut p: usize = 0;
    while p < v.len() && v[p].addr <= e.addr
        invariant
            p <= v@.len(),
            forall|j: int| 0 <= j < p ==> (#[trigger] v@[j]).addr <= e.addr,
        decreases v@.len() - p,
    {
        p = p + 1;
    }
    proof {
        lemma_insert_index(v@, e.addr, p as int);
    }
    v.insert(p, e);
}

/// Stable sort of the entries by start address.
pub fn sort_by_addr(v: &Vec<E820Entry>) -> (r: Vec<E820Entry>)
    ensures
        r@ == sorted_by_addr(v@),
{
    let mut out: Vec<E820Entry> = Vec::new();
    let mut i: usize = 0;
    while i < v.len()
        invariant
            i <= v@.len(),
            out@ == sorted_by_addr(v@.take(i as int)),
        decreases v@.len() - i,
    {
        assert(v@.take(i as int + 1).drop_last() == v@.take(i as int));
        insert_by_addr(&mut out, v[i]);
        i = i + 1;
    }
    assert(v@.take(v@.len() as int) == v@);
    out
}

proof fn lemma_sorted_insert_in_range(t: Seq<E820Entry>, e: E820Entry)
    requires
        all_in_range(t),
        e.spec_end() <= u64::MAX,
    ensures
        all_in_range(sorted_insert(t, e)),
        sorted_insert(t, e).len() == t.len() + 1,
{
    let p = insert_index(t, e.addr) as int;
    lemma_insert_index_bound(t, e.addr);
    let r = sorted_insert(t, e);
    assert forall|k: int| 0 <= k < r.len() implies (#[trigger] r[k]).spec_end() <= u64::MAX by {
        if k < p {
            assert(r[k] == t[k]);
        } else if k > p {
            assert(r[k] == t[k - 1]);
        }
    }
}

proof fn lemma_insert_index_bound(t: Seq<E820Entry>, addr: u64)
    ensures
        insert_index(t, addr) <= t.len(),
    decreases t.len(),
{
    if t.len() > 0 && addr >= t[0].addr {
        lemma_insert_index_bound(t.drop_first(), addr);
    }
}

proof fn lemma_sorted_in_range(s: Seq<E820Entry>)
    requires
        all_in_range(s),
    ensures
        all_in_range(sorted_by_addr(s)),
        sorted_by_addr(s).len() == s.len(),
    decreases s.len(),
{
    if s.len() > 0 {
        lemma_sorted_in_range(s.drop_last());
        lemma_sorted_insert_in_range(sorted_by_addr(s.drop_last()), s.last());
    }
}

/// Folds each entry into its predecessor when the two are adjacent and of
/// the same kind.
pub fn merge_adjacent(v: &Vec<E820Entry>) -> (r: Vec<E820Entry>)
    requires
        all_in_range(v@),
    ensures
        r@ == merged(v@),
        all_in_range(r@),
{
    let mut out: Vec<E820Entry> = Vec::new();
    let mut i: usize = 0;
    while i < v.len()
        invariant
            i <= v@.len(),
            all_in_range(v@),
            all_in_range(out@),
            out@ == merged(v@.take(i as int)),
        decreases v@.len() - i,
    {
        assert(v@.take(i as int + 1).drop_last() == v@.take(i as int));
        let e = v[i];
        assert(e.spec_end() <= u64::MAX);
        let n = out.len();
        if n > 0 && out[n - 1].addr + out[n - 1].size == e.addr && out[n - 1].kind == e.kind {
            let last = out[n - 1];
            let grown = E820Entry { addr: last.addr, size: last.size + e.size, kind: e.kind };
            let ghost before = out@;
            out.set(n - 1, grown);
            assert forall|k: int| 0 <= k < out@.len() implies (#[trigger] out@[k]).spec_end()
                <= u64::MAX by {
                if k < n - 1 {
                    assert(out@[k] == before[k]);
                }
            }
        } else {
            out.push(e);
        }
        i = i + 1;
    }
    assert(v@.take(v@.len() as int) == v@);
    out
}

/// Checks a merged table: not empty, no two regions sharing an address, and
/// some usable RAM.
pub fn validate_table(t: &Vec<E820Entry>) -> (r: Result<(), MemoryMapError>)
    requires
        all_in_range(t@),
    ensures
        r == (if t@.len() == 0 {
            Err(MemoryMapError::Empty)
        } else if has_overlap(t@) {
            Err(MemoryMapError::Overlap)
        } else if !has_ram(t@) {
            Err(MemoryMapError::NoRam)
        } else {
            Ok(())
        }),
{
    let n = t.len();
    if n == 0 {
        return Err(MemoryMapError::Empty);
    }
    let mut i: usize = 0;
    while i < n
        invariant
            n == t@.len(),
            i <= n,
            all_in_range(t@),
            forall|a: int, b: int| 0 <= a < i && a < b < n ==> !#[trigger] overlap(t@[a], t@[b]),
        decreases n - i,
    {
        let mut j: usize = i + 1;
        while j < n
            invariant
                n == t@.len(),
                i < n,
                i + 1 <= j <= n,
                all_in_range(t@),
                forall|a: int, b: int| 0 <= a < i && a < b < n ==> !#[trigger] overlap(t@[a], t@[b]),
                forall|b: int| i < b < j ==> !#[trigger] overlap(t@[i as int], t@[b]),
            decreases n - j,
        {
            let a = t[i];
            let b = t[j];
            assert(a.spec_end() <= u64::MAX && b.spec_end() <= u64::MAX);
            if a.addr < b.addr + b.size && b.addr < a.addr + a.size {
                assert(overlap(t@[i as int], t@[j as int]));
                return Err(MemoryMapError::Overlap);
            }
            j = j + 1;
        }
        i = i + 1;
    }
    assert(!has_overlap(t@));
    let mut k: usize = 0;
    while k < n
        invariant
            n == t@.len(),
            k <= n,
            n > 0,
            !has_overlap(t@),
            forall|m: int| 0 <= m < k ==> (#[trigger] t@[m]).kind != E820Kind::Ram,
        decreases n - k,
    {
        if t[k].kind == E820Kind::Ram {
            assert(t@[k as int].kind == E820Kind::Ram);
            return Ok(());
        }
        k = k + 1;
    }
    Err(MemoryMapError::NoRam)
}

/// Regions in ascending order of start address.
pub open spec fn sorted_table(t: Seq<E820Entry>) -> bool {
    forall|i: int, j: int| 0 <= i < j < t.len() ==> (#[trigger] t[i]).addr <= (#[trigger] t[j]).addr
}

/// What the kernel is promised of a table: sorted, disjoint, small enough,
/// with some usable RAM.
pub open spec fn valid_table(t: Seq<E820Entry>) -> bool {
    &&& sorted_table(t)
    &&& !has_overlap(t)
    &&& t.len() <= E820_MAX_ENTRIES
    &&& has_ram(t)
}

proof fn lemma_insert_index_split(t: Seq<E820Entry>, addr: u64)
    ensures
        insert_index(t, addr) <= t.len(),
        forall|j: int| 0 <= j < insert_index(t, addr) ==> (#[trigger] t[j]).addr <= addr,
        insert_index(t, addr) < t.len() ==> addr < t[insert_index(t, addr) as int].addr,
    decreases t.len(),
{
    if t.len() > 0 && addr >= t[0].addr {
        let r = t.drop_first();
        lemma_insert_index_split(r, addr);
        assert forall|j: int| 0 <= j < insert_index(t, addr) implies (#[trigger] t[j]).addr
            <= addr by {
            if j > 0 {
                assert(t[j] == r[j - 1]);
            }
        }
    }
}

proof fn lemma_sorted_sorted(s: Seq<E820Entry>)
    ensures
        sorted_table(sorted_by_addr(s)),
        sorted_by_addr(s).len() == s.len(),
    decreases s.len(),
{
    lemma_sorted_len(s);
    if s.len() > 0 {
        let p = s.drop_last();
        lemma_sorted_sorted(p);
        let t = sorted_by_addr(p);
        let x = s.last();
        lemma_insert_index_split(t, x.addr);
        let pos = insert_index(t, x.addr) as int;
        let r = sorted_by_addr(s);
        assert forall|i: int, j: int| 0 <= i < j < r.len() implies (#[trigger] r[i]).addr <= (
        #[trigger] r[j]).addr by {
            if j < pos {
                assert(r[i] == t[i] && r[j] == t[j]);
            } else if j == pos {
                assert(r[i] == t[i]);
            } else if i < pos {
                assert(r[i] == t[i] && r[j] == t[j - 1]);
            } else if i == pos {
                assert(r[j] == t[j - 1]);
                assert(t[pos].addr <= t[j - 1].addr);
            } else {
                assert(r[i] == t[i - 1] && r[j] == t[j - 1]);
            }
        }
    }
}

proof fn lemma_merged_sorted(s: Seq<E820Entry>)
    requires
        sorted_table(s),
    ensures
        sorted_table(merged(s)),
        s.len() > 0 ==> merged(s).len() > 0 && merged(s).last().addr <= s.last().addr,
    decreases s.len(),
{
    if s.len() > 0 {
        let p = s.drop_last();
        lemma_merged_sorted(p);
        let m = merged(p);
        let x = s.last();
        let r = merged(s);
        if p.len() > 0 {
            assert(p.last() == s[s.len() - 2]);
        }
        assert forall|k: int| 0 <= k < m.len() implies (#[trigger] m[k]).addr <= x.addr by {
            assert(m[k].addr <= m.last().addr);
        }
        let joined = m.len() > 0 && mergeable(m.last(), x);
        assert forall|i: int, j: int| 0 <= i < j < r.len() implies (#[trigger] r[i]).addr <= (
        #[trigger] r[j]).addr by {
            if joined {
                assert(r[i] == m[i]);
                assert(r[j].addr == m[j].addr);
            } else {
                assert(r[i] == m[i]);
                if j < m.len() {
                    assert(r[j] == m[j]);
                }
            }
        }
    }
}

/// Every table that translation produces is one the kernel accepts.
pub proof fn translation_valid(d: Seq<FirmwareDescriptor>)
    requires
        translation(d) is Ok,
    ensures
        valid_table(translation(d)->Ok_0),
{
    let c = converted(d);
    lemma_sorted_sorted(c);
    lemma_merged_sorted(sorted_by_addr(c));
}

proof fn lemma_converted_in_range(d: Seq<FirmwareDescriptor>)
    requires
        forall|i: int| 0 <= i < d.len() ==> descriptor_in_range(#[trigger] d[i]),
    ensures
        all_in_range(converted(d)),
    decreases d.len(),
{
    if d.len() > 0 {
        let p = d.drop_last();
        assert forall|i: int| 0 <= i < p.len() implies descriptor_in_range(#[trigger] p[i]) by {
            assert(p[i] == d[i]);
        }
        lemma_converted_in_range(p);
        assert(descriptor_in_range(d[d.len() - 1]));
    }
}

/// Turns the firmware's memory map into the table the kernel receives.
pub fn translate_memory_map(d: &[FirmwareDescriptor]) -> (r: Result<Vec<E820Entry>, MemoryMapError>)
    ensures
        match r {
            Ok(t) => translation(d@) == Ok::<Seq<E820Entry>, MemoryMapError>(t@),
            Err(e) => translation(d@) == Err::<Seq<E820Entry>, MemoryMapError>(e),
        },
        merged(sorted_by_addr(converted(d@))).len() > E820_MAX_ENTRIES ==> r is Err,
        r matches Ok(t) ==> valid_table(t@),
{
    let entries = convert_descriptors(d)?;
    proof {
        lemma_converted_in_range(d@);
        lemma_sorted_in_range(entries@);
    }
    let sorted = sort_by_addr(&entries);
    let table = merge_adjacent(&sorted);
    if table.len() > E820_MAX_ENTRIES {
        return Err(MemoryMapError::TooManyEntries);
    }
    match validate_table(&table) {
        Ok(()) => {
            proof {
                translation_valid(d@);
            }
            Ok(table)
        },
        Err(e) => Err(e),
    }
}

/// Two distinct positions of `s` hold regions that share an address.
pub open spec fn overlapping_pair(s: Seq<E820Entry>) -> bool {
    exists|a: int, b: int|
        0 <= a < s.len() && 0 <= b < s.len() && a != b && #[trigger] overlap(s[a], s[b])
}

/// Region `o` contains region `y`.
pub open spec fn covers(o: E820Entry, y: E820Entry) -> bool {
    o.addr <= y.addr && y.spec_end() <= o.spec_end()
}

proof fn lemma_converted_has(d: Seq<FirmwareDescriptor>, i: int)
    requires
        0 <= i < d.len(),
        d[i].page_count > 0,
    ensures
        exists|k: int|
            0 <= k < converted(d).len() && #[trigger] converted(d)[k] == entry_of(d[i]),
    decreases d.len(),
{
    let c = converted(d.drop_last());
    if i == d.len() - 1 {
        assert(converted(d)[c.len() as int] == entry_of(d[i]));
    } else {
        lemma_converted_has(d.drop_last(), i);
        let k = choose|k: int| 0 <= k < c.len() && #[trigger] c[k] == entry_of(d.drop_last()[i]);
        assert(converted(d)[k] == entry_of(d[i]));
    }
}

proof fn lemma_converted_pair(d: Seq<FirmwareDescriptor>, i: int, j: int)
    requires
        0 <= i < d.len(),
        0 <= j < d.len(),
        i != j,
        d[i].page_count > 0,
        d[j].page_count > 0,
        overlap(entry_of(d[i]), entry_of(d[j])),
    ensures
        overlapping_pair(converted(d)),
    decreases d.len(),
{
    let p = d.drop_last();
    let c = converted(p);
    let last = d.len() - 1;
    if i == last || j == last {
        let o = if i == last { j } else { i };
        lemma_converted_has(p, o);
        let k = choose|k: int| 0 <= k < c.len() && #[trigger] c[k] == entry_of(p[o]);
        let r = converted(d);
        assert(r[k] == entry_of(d[o]));
        assert(r[c.len() as int] == entry_of(d[last]));
        assert(overlap(r[k], r[c.len() as int]));
    } else {
        lemma_converted_pair(p, i, j);
        let (a, b) = choose|a: int, b: int|
            0 <= a < c.len() && 0 <= b < c.len() && a != b && #[trigger] overlap(c[a], c[b]);
        let r = converted(d);
        assert(r[a] == c[a] && r[b] == c[b]);
        assert(overlap(r[a], r[b]));
    }
}

proof fn lemma_sorted_has(s: Seq<E820Entry>, i: int)
    requires
        0 <= i < s.len(),
    ensures
        sorted_by_addr(s).len() == s.len(),
        exists|k: int| 0 <= k < s.len() && #[trigger] sorted_by_addr(s)[k] == s[i],
    decreases s.len(),
{
    let t = sorted_by_addr(s.drop_last());
    let pos = insert_index(t, s.last().addr) as int;
    lemma_sorted_len(s.drop_last());
    lemma_insert_index_bound(t, s.last().addr);
    let r = sorted_by_addr(s);
    if i == s.len() - 1 {
        assert(r[pos] == s[i]);
    } else {
        lemma_sorted_has(s.drop_last(), i);
        let k = choose|k: int| 0 <= k < t.len() && #[trigger] t[k] == s.drop_last()[i];
        if k < pos {
            assert(r[k] == s[i]);
        } else {
            assert(r[k + 1] == s[i]);
        }
    }
}

proof fn lemma_sorted_len(s: Seq<E820Entry>)
    ensures
        sorted_by_addr(s).len() == s.len(),
    decreases s.len(),
{
    if s.len() > 0 {
        lemma_sorted_len(s.drop_last());
        lemma_insert_index_bound(sorted_by_addr(s.drop_last()), s.last().addr);
    }
}

proof fn lemma_sorted_pair(s: Seq<E820Entry>)
    requires
        overlapping_pair(s),
    ensures
        overlapping_pair(sorted_by_addr(s)),
    decreases s.len(),
{
    let (a, b) = choose|a: int, b: int|
        0 <= a < s.len() && 0 <= b < s.len() && a != b && #[trigger] overlap(s[a], s[b]);
    let p = s.drop_last();
    let t = sorted_by_addr(p);
    let x = s.last();
    let pos = insert_index(t, x.addr) as int;
    lemma_sorted_len(p);
    lemma_insert_index_bound(t, x.addr);
    let r = sorted_by_addr(s);
    let last = s.len() - 1;
    if a == last || b == last {
        let o = if a == last { b } else { a };
        lemma_sorted_has(p, o);
        let k = choose|k: int| 0 <= k < p.len() && #[trigger] t[k] == p[o];
        let k2 = if k < pos { k } else { k + 1 };
        assert(r[k2] == s[o]);
        assert(r[pos] == x);
        assert(overlap(r[k2], r[pos]));
    } else {
        assert(overlap(p[a], p[b]));
        lemma_sorted_pair(p);
        let (c, e) = choose|c: int, e: int|
            0 <= c < t.len() && 0 <= e < t.len() && c != e && #[trigger] overlap(t[c], t[e]);
        let c2 = if c < pos { c } else { c + 1 };
        let e2 = if e < pos { e } else { e + 1 };
        assert(r[c2] == t[c] && r[e2] == t[e]);
        assert(overlap(r[c2], r[e2]));
    }
}

proof fn lemma_merged_in_range(s: Seq<E820Entry>)
    requires
        all_in_range(s),
    ensures
        all_in_range(merged(s)),
        merged(s).len() <= s.len(),
    decreases s.len(),
{
    if s.len() > 0 {
        let p = s.drop_last();
        assert forall|i: int| 0 <= i < p.len() implies (#[trigger] p[i]).spec_end() <= u64::MAX by {
            assert(p[i] == s[i]);
        }
        lemma_merged_in_range(p);
        let m = merged(p);
        let x = s.last();
        assert(x.spec_end() <= u64::MAX);
        let r = merged(s);
        assert forall|i: int| 0 <= i < r.len() implies (#[trigger] r[i]).spec_end() <= u64::MAX by {
            if i < m.len() && !(m.len() > 0 && mergeable(m.last(), x) && i == m.len() - 1) {
                assert(r[i] == m[i]);
            }
        }
    }
}

proof fn lemma_merged_covers(s: Seq<E820Entry>, i: int)
    requires
        all_in_range(s),
        0 <= i < s.len(),
    ensures
        exists|k: int| 0 <= k < merged(s).len() && #[trigger] covers(merged(s)[k], s[i]),
    decreases s.len(),
{
    let p = s.drop_last();
    assert forall|j: int| 0 <= j < p.len() implies (#[trigger] p[j]).spec_end() <= u64::MAX by {
        assert(p[j] == s[j]);
    }
    lemma_merged_in_range(p);
    let m = merged(p);
    let x = s.last();
    assert(x.spec_end() <= u64::MAX);
    let r = merged(s);
    let joined = m.len() > 0 && mergeable(m.last(), x);
    if i == s.len() - 1 {
        let k = if joined { m.len() - 1 } else { m.len() as int };
        assert(covers(r[k], s[i]));
    } else {
        lemma_merged_covers(p, i);
        let k = choose|k: int| 0 <= k < m.len() && #[trigger] covers(m[k], p[i]);
        if joined && k == m.len() - 1 {
            assert(covers(r[k], s[i]));
        } else {
            assert(r[k] == m[k]);
            assert(covers(r[k], s[i]));
        }
    }
}

proof fn lemma_merged_pair(s: Seq<E820Entry>)
    requires
        all_in_range(s),
        overlapping_pair(s),
    ensures
        overlapping_pair(merged(s)),
    decreases s.len(),
{
    let (a, b) = choose|a: int, b: int|
        0 <= a < s.len() && 0 <= b < s.len() && a != b && #[trigger] overlap(s[a], s[b]);
    let p = s.drop_last();
    assert forall|j: int| 0 <= j < p.len() implies (#[trigger] p[j]).spec_end() <= u64::MAX by {
        assert(p[j] == s[j]);
    }
    lemma_merged_in_range(p);
    let m = merged(p);
    let x = s.last();
    assert(x.spec_end() <= u64::MAX);
    let r = merged(s);
    let joined = m.len() > 0 && mergeable(m.last(), x);
    let last = s.len() - 1;
    if a == last || b == last {
        let o = if a == last { b } else { a };
        assert(overlap(s[o], x));
        lemma_merged_covers(p, o);
        let k = choose|k: int| 0 <= k < m.len() && #[trigger] covers(m[k], p[o]);
        let top = if joined { m.len() - 1 } else { m.len() as int };
        assert(covers(r[top], x));
        assert(k != top);
        assert(r[k] == m[k]);
        assert(overlap(r[k], r[top]));
    } else {
        assert(overlap(p[a], p[b]));
        lemma_merged_pair(p);
        let (c, e) = choose|c: int, e: int|
            0 <= c < m.len() && 0 <= e < m.len() && c != e && #[trigger] overlap(m[c], m[e]);
        if joined {
            let top = m.len() - 1;
            assert(covers(r[top], m[top]));
            assert(covers(r[c], m[c]));
            assert(covers(r[e], m[e]));
        } else {
            assert(r[c] == m[c] && r[e] == m[e]);
        }
        assert(overlap(r[c], r[e]));
    }
}

/// Whenever two non-empty firmware descriptors share an address, whatever
/// their kinds, translation fails.
pub proof fn overlapping_descriptors_rejected(d: Seq<FirmwareDescriptor>, i: int, j: int)
    requires
        0 <= i < d.len(),
        0 <= j < d.len(),
        i != j,
        d[i].page_count > 0,
        d[j].page_count > 0,
        overlap(entry_of(d[i]), entry_of(d[j])),
    ensures
        translation(d) is Err,
{
    if forall|k: int| 0 <= k < d.len() ==> descriptor_in_range(#[trigger] d[k]) {
        lemma_converted_in_range(d);
        lemma_converted_pair(d, i, j);
        let c = converted(d);
        lemma_sorted_in_range(c);
        lemma_sorted_pair(c);
        let t = sorted_by_addr(c);
        lemma_merged_pair(t);
        let m = merged(t);
        let (a, b) = choose|a: int, b: int|
            0 <= a < m.len() && 0 <= b < m.len() && a != b && #[trigger] overlap(m[a], m[b]);
        if a < b {
            assert(overlap(m[a], m[b]));
        } else {
            assert(overlap(m[b], m[a]));
        }
        assert(has_overlap(m));
    }
}

proof fn lemma_converted_no_ram(d: Seq<FirmwareDescriptor>)
    requires
        forall|i: int|
            0 <= i < d.len() ==> (#[trigger] d[i]).page_count == 0 || kind_of_spec(d[i].ty)
                != E820Kind::Ram,
    ensures
        !has_ram(converted(d)),
    decreases d.len(),
{
    if d.len() > 0 {
        let p = d.drop_last();
        assert forall|i: int| 0 <= i < p.len() implies (#[trigger] p[i]).page_count == 0
            || kind_of_spec(p[i].ty) != E820Kind::Ram by {
            assert(p[i] == d[i]);
        }
        lemma_converted_no_ram(p);
        let c = converted(p);
        let r = converted(d);
        assert forall|k: int| 0 <= k < r.len() implies (#[trigger] r[k]).kind != E820Kind::Ram by {
            if k < c.len() {
                assert(r[k] == c[k]);
            }
        }
    }
}

proof fn lemma_sorted_no_ram(s: Seq<E820Entry>)
    requires
        !has_ram(s),
    ensures
        !has_ram(sorted_by_addr(s)),
    decreases s.len(),
{
    if s.len() > 0 {
        let p = s.drop_last();
        assert forall|i: int| 0 <= i < p.len() implies (#[trigger] p[i]).kind != E820Kind::Ram by {
            assert(p[i] == s[i]);
        }
        lemma_sorted_no_ram(p);
        let t = sorted_by_addr(p);
        let pos = insert_index(t, s.last().addr) as int;
        lemma_insert_index_bound(t, s.last().addr);
        let r = sorted_by_addr(s);
        assert forall|k: int| 0 <= k < r.len() implies (#[trigger] r[k]).kind != E820Kind::Ram by {
            if k < pos {
                assert(r[k] == t[k]);
            } else if k > pos {
                assert(r[k] == t[k - 1]);
            } else {
                assert(r[k] == s[s.len() - 1]);
            }
        }
    }
}

proof fn lemma_merged_no_ram(s: Seq<E820Entry>)
    requires
        !has_ram(s),
    ensures
        !has_ram(merged(s)),
    decreases s.len(),
{
    if s.len() > 0 {
        let p = s.drop_last();
        assert forall|i: int| 0 <= i < p.len() implies (#[trigger] p[i]).kind != E820Kind::Ram by {
            assert(p[i] == s[i]);
        }
        lemma_merged_no_ram(p);
        let m = merged(p);
        let x = s.last();
        assert(x.kind != E820Kind::Ram);
        let r = merged(s);
        assert forall|k: int| 0 <= k < r.len() implies (#[trigger] r[k]).kind != E820Kind::Ram by {
            if k < m.len() && !(m.len() > 0 && mergeable(m.last(), x) && k == m.len() - 1) {
                assert(r[k] == m[k]);
            }
        }
    }
}

/// A firmware map with no non-empty descriptor of a RAM type is rejected.
pub proof fn map_without_ram_rejected(d: Seq<FirmwareDescriptor>)
    requires
        forall|i: int|
            0 <= i < d.len() ==> (#[trigger] d[i]).page_count == 0 || kind_of_spec(d[i].ty)
                != E820Kind::Ram,
    ensures
        translation(d) is Err,
{
    lemma_converted_no_ram(d);
    lemma_sorted_no_ram(converted(d));
    lemma_merged_no_ram(sorted_by_addr(converted(d)));
}

/// A firmware map that leaves more regions after merging than the table
/// holds is rejected.
pub proof fn oversized_map_rejected(d: Seq<FirmwareDescriptor>)
    requires
        merged(sorted_by_addr(converted(d))).len() > E820_MAX_ENTRIES,
    ensures
        translation(d) is Err,
{
}

} // verus!
