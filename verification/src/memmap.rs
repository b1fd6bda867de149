//! Memory-map translation and sorting.
//!
//! Converts the raw UEFI memory-descriptor buffer into the boot
//! protocol's [`MemoryMapEntry`] form, walking the descriptors by the
//! firmware-reported stride (which may exceed the defined struct size),
//! and sorts the result ascending by physical base with a stable
//! insertion sort. The sort's contract is the exact functional insertion
//! sort, so order among equal bases is pinned, and sortedness together
//! with preservation of disjointness are proved as laws below.

use vstd::prelude::*;
use vstd::multiset::Multiset;
use vstd::seq_lib::group_to_multiset_ensures;

use crate::elf::{read_u32, read_u64, spec_u32_le, spec_u64_le};
use crate::protocol::{MemoryMapEntry, MemoryType};

verus! {

/// UEFI memory type: loader code.
pub const EFI_LOADER_CODE: u32 = 1;
/// UEFI memory type: loader data.
pub const EFI_LOADER_DATA: u32 = 2;
/// UEFI memory type: boot services code.
pub const EFI_BOOT_SERVICES_CODE: u32 = 3;
/// UEFI memory type: boot services data.
pub const EFI_BOOT_SERVICES_DATA: u32 = 4;
/// UEFI memory type: runtime services code.
pub const EFI_RUNTIME_SERVICES_CODE: u32 = 5;
/// UEFI memory type: runtime services data.
pub const EFI_RUNTIME_SERVICES_DATA: u32 = 6;
/// UEFI memory type: conventional (free) memory.
pub const EFI_CONVENTIONAL_MEMORY: u32 = 7;
/// UEFI memory type: ACPI reclaimable memory.
pub const EFI_ACPI_RECLAIM_MEMORY: u32 = 9;
/// UEFI memory type: ACPI non-volatile storage.
pub const EFI_ACPI_MEMORY_NVS: u32 = 10;
/// UEFI memory type: memory-mapped I/O.
pub const EFI_MEMORY_MAPPED_IO: u32 = 11;
/// UEFI memory type: memory-mapped I/O port space.
pub const EFI_MEMORY_MAPPED_IO_PORT_SPACE: u32 = 12;
/// UEFI memory type: persistent memory.
pub const EFI_PERSISTENT_MEMORY: u32 = 14;
/// Size in bytes of the defined descriptor record; the firmware stride
/// is at least this.
pub const DESCRIPTOR_MIN_SIZE: usize = 40;

/// UEFI descriptor for a single physical memory region, as
/// `GetMemoryMap` reports it.
#[derive(Clone, Copy, Debug, PartialEq, Eq, Structural)]
pub struct EfiMemoryDescriptor {
    /// UEFI memory type of the region.
    pub memory_type: u32,
    /// Physical start address.
    pub physical_start: u64,
    /// Virtual start address (unused by the loader).
    pub virtual_start: u64,
    /// Number of 4 KiB pages in the region.
    pub number_of_pages: u64,
    /// UEFI attribute bits.
    pub attribute: u64,
}

/// Bundle describing the raw map a `GetMemoryMap` call produced: where
/// the firmware wrote it, how large it is, the key that validates it,
/// and the descriptor stride to walk it with.
#[derive(Clone, Copy, Debug, PartialEq, Eq, Structural)]
pub struct MemoryMapResult {
    /// Physical address of the raw map buffer.
    pub buffer_phys: u64,
    /// Total size of the map in bytes.
    pub map_size: usize,
    /// Map key for `ExitBootServices`.
    pub map_key: usize,
    /// Stride between descriptors; may exceed the defined record size.
    pub descriptor_size: usize,
}

// ── Type translation ─────────────────────────────────────────────────────

/// The boot protocol classification of a UEFI memory type: conventional
/// and boot-services memory is usable, loader memory holds the loaded
/// images, ACPI reclaimable and persistent memory keep their kind, and
/// everything else is reserved.
pub open spec fn translate_memory_type_spec(uefi_type: u32) -> MemoryType {
    if uefi_type == EFI_CONVENTIONAL_MEMORY || uefi_type == EFI_BOOT_SERVICES_CODE
        || uefi_type == EFI_BOOT_SERVICES_DATA {
        MemoryType::Usable
    } else if uefi_type == EFI_LOADER_CODE || uefi_type == EFI_LOADER_DATA {
        MemoryType::Loaded
    } else if uefi_type == EFI_ACPI_RECLAIM_MEMORY {
        MemoryType::AcpiReclaimable
    } else if uefi_type == EFI_PERSISTENT_MEMORY {
        MemoryType::Persistent
    } else {
        MemoryType::Reserved
    }
}

/// Translate a UEFI memory type to the boot protocol's [`MemoryType`].
pub fn translate_memory_type(uefi_type: u32) -> (r: MemoryType)
    ensures
        r == translate_memory_type_spec(uefi_type),
{
    match uefi_type {
        EFI_CONVENTIONAL_MEMORY | EFI_BOOT_SERVICES_CODE | EFI_BOOT_SERVICES_DATA => {
            MemoryType::Usable
        },
        EFI_LOADER_CODE | EFI_LOADER_DATA => MemoryType::Loaded,
        EFI_ACPI_RECLAIM_MEMORY => MemoryType::AcpiReclaimable,
        EFI_PERSISTENT_MEMORY => MemoryType::Persistent,
        _ => MemoryType::Reserved,
    }
}

/// The representative UEFI encoding of a boot protocol memory type.
pub open spec fn canonical_uefi_type_spec(t: MemoryType) -> u32 {
    match t {
        MemoryType::Usable => EFI_CONVENTIONAL_MEMORY,
        MemoryType::Loaded => EFI_LOADER_DATA,
        MemoryType::Reserved => 0,
        MemoryType::AcpiReclaimable => EFI_ACPI_RECLAIM_MEMORY,
        MemoryType::Persistent => EFI_PERSISTENT_MEMORY,
    }
}

/// Map a boot protocol memory type back to a representative UEFI
/// encoding: the inverse direction of [`translate_memory_type`].
pub fn canonical_uefi_type(t: MemoryType) -> (r: u32)
    ensures
        r == canonical_uefi_type_spec(t),
{
    match t {
        MemoryType::Usable => EFI_CONVENTIONAL_MEMORY,
        MemoryType::Loaded => EFI_LOADER_DATA,
        MemoryType::Reserved => 0,
        MemoryType::AcpiReclaimable => EFI_ACPI_RECLAIM_MEMORY,
        MemoryType::Persistent => EFI_PERSISTENT_MEMORY,
    }
}

/// Round trip: translating any UEFI encoding, re-encoding it, and
/// translating again yields the same memory type.
pub proof fn lemma_memory_type_round_trip(uefi_type: u32)
    ensures
        translate_memory_type_spec(canonical_uefi_type_spec(translate_memory_type_spec(uefi_type)))
            == translate_memory_type_spec(uefi_type),
{
}

// ── Raw map translation ──────────────────────────────────────────────────

/// The translated entry of the descriptor at byte offset `off` of the
/// raw buffer: type word at the start, physical start eight bytes in,
/// page count twenty-four bytes in; the byte size is the page count
/// times 4096, truncated as the loader's multiplication is.
pub open spec fn spec_entry_at(raw: Seq<u8>, off: int) -> MemoryMapEntry {
    MemoryMapEntry {
        physical_base: spec_u64_le(raw, off + 8),
        size: (spec_u64_le(raw, off + 24) * 4096) as u64,
        memory_type: translate_memory_type_spec(spec_u32_le(raw, off)),
    }
}

/// How many descriptors the translation yields: one per full stride in
/// the buffer, capped at `max_entries`.
pub open spec fn spec_entry_count(raw_len: int, descriptor_size: int, max_entries: int) -> int {
    let full = raw_len / descriptor_size;
    if full <= max_entries {
        full
    } else {
        max_entries
    }
}

/// Translate a raw UEFI memory map into boot protocol entries.
///
/// Walks `raw` by `descriptor_size` strides — the firmware-reported
/// stride, never the defined struct size — translating each descriptor,
/// and writes at most `max_entries` entries.
pub fn translate_memory_map(raw: &Vec<u8>, descriptor_size: usize, max_entries: usize) -> (r: Vec<
    MemoryMapEntry,
>)
    requires
        descriptor_size >= DESCRIPTOR_MIN_SIZE,
    ensures
        r@.len() == spec_entry_count(raw@.len() as int, descriptor_size as int, max_entries as int),
        forall|k: int| 0 <= k < r@.len() ==> r@[k] == spec_entry_at(
            raw@,
            k * descriptor_size,
        ),
{
    let rl = raw.len();
    let ghost full = raw@.len() as int / descriptor_size as int;
    let nfull = rl / descriptor_size;
    let mut out: Vec<MemoryMapEntry> = Vec::new();
    let mut offset: usize = 0;
    let mut count: usize = 0;
    proof {
        vstd::arithmetic::div_mod::lemma_fundamental_div_mod(rl as int, descriptor_size as int);
        vstd::arithmetic::div_mod::lemma_mod_bound(rl as int, descriptor_size as int);
    }
    while count < nfull && count < max_entries
        invariant
            descriptor_size >= DESCRIPTOR_MIN_SIZE,
            rl == raw@.len(),
            full == raw@.len() as int / descriptor_size as int,
            nfull == full,
            offset == count * descriptor_size,
            count <= max_entries,
            count <= full,
            out@.len() == count,
            rl as int == descriptor_size * full + (rl as int) % (descriptor_size as int),
            (rl as int) % (descriptor_size as int) >= 0,
            forall|k: int| 0 <= k < count ==> out@[k] == spec_entry_at(
                raw@,
                k * descriptor_size,
            ),
        decreases nfull - count,
    {
        proof {
            assert((count + 1) * descriptor_size <= full * descriptor_size
                && (count + 1) * descriptor_size == count * descriptor_size + descriptor_size)
                by (nonlinear_arith)
                requires
                    count + 1 <= full,
                    descriptor_size >= 0,
            ;
            assert(full * descriptor_size == descriptor_size * full) by (nonlinear_arith);
            assert(offset + descriptor_size <= rl);
        }
        let memory_type = read_u32(raw, offset);
        let physical_base = read_u64(raw, offset + 8);
        let pages = read_u64(raw, offset + 24);
        let size = pages << 12u64;
        proof {
            assert((pages << 12u64) == (pages * 4096) as u64) by (bit_vector);
        }
        out.push(MemoryMapEntry {
            physical_base,
            size,
            memory_type: translate_memory_type(memory_type),
        });
        count += 1;
        offset += descriptor_size;
    }
        out
}

// ── Sorting ──────────────────────────────────────────────────────────────

/// Stable insertion of `x` into `s`: after every element whose base does
/// not exceed `x`'s.
pub open spec fn insert_sorted(s: Seq<MemoryMapEntry>, x: MemoryMapEntry) -> Seq<MemoryMapEntry>
    decreases s.len(),
{
    if s.len() == 0 {
        seq![x]
    } else if s.last().physical_base <= x.physical_base {
        s.push(x)
    } else {
        insert_sorted(s.drop_last(), x).push(s.last())
    }
}

/// The stable insertion sort of `s` by physical base, ascending.
pub open spec fn isort(s: Seq<MemoryMapEntry>) -> Seq<MemoryMapEntry>
    decreases s.len(),
{
    if s.len() == 0 {
        s
    } else {
        insert_sorted(isort(s.drop_last()), s.last())
    }
}

/// The entries are sorted ascending by physical base.
pub open spec fn map_sorted(s: Seq<MemoryMapEntry>) -> bool {
    forall|i: int, j: int| 0 <= i < j < s.len()
        ==> (#[trigger] s[i]).physical_base <= (#[trigger] s[j]).physical_base
}

/// Inserting into a sequence whose tail from `j` exceeds the key and
/// whose element before `j` does not places the key exactly at `j`.
proof fn lemma_insert_at(s: Seq<MemoryMapEntry>, x: MemoryMapEntry, j: int)
    requires
        0 <= j <= s.len(),
        forall|k: int| j <= k < s.len() ==> (#[trigger] s[k]).physical_base > x.physical_base,
        j > 0 ==> s[j - 1].physical_base <= x.physical_base,
    ensures
        insert_sorted(s, x) == s.take(j) + seq![x] + s.skip(j),
    decreases s.len() - j,
{
    if j == s.len() {
        if s.len() == 0 {
            assert(insert_sorted(s, x) =~= s.take(j) + seq![x] + s.skip(j));
        } else {
            assert(insert_sorted(s, x) == s.push(x));
            assert(s.push(x) =~= s.take(j) + seq![x] + s.skip(j));
        }
    } else {
        assert(s.last().physical_base > x.physical_base);
        lemma_insert_at(s.drop_last(), x, j);
        assert(insert_sorted(s, x) == insert_sorted(s.drop_last(), x).push(s.last()));
        assert(s.drop_last().take(j) =~= s.take(j));
        assert((s.drop_last().take(j) + seq![x] + s.drop_last().skip(j)).push(s.last())
            =~= s.take(j) + seq![x] + s.skip(j));
    }
}

/// Sort the memory map ascending by physical base.
///
/// The result is exactly the stable insertion sort of the input: the
/// order among entries with equal bases is preserved, and an input of
/// zero or one entries comes back unchanged.
pub fn insertion_sort_memory_map(entries: &mut Vec<MemoryMapEntry>)
    ensures
        final(entries)@ == isort(old(entries)@),
{
    let ghost orig = entries@;
    let count = entries.len();
    let mut i: usize = 1;
    proof {
        if count > 0 {
            assert(orig.take(1).drop_last() =~= Seq::<MemoryMapEntry>::empty());
            assert(orig.take(1).last() == orig[0]);
            assert(isort(Seq::<MemoryMapEntry>::empty()) =~= Seq::<MemoryMapEntry>::empty());
            assert(insert_sorted(Seq::<MemoryMapEntry>::empty(), orig[0]) =~= seq![orig[0]]);
            assert(isort(orig.take(1)) =~= seq![orig[0]]);
            assert(entries@ =~= isort(orig.take(1)) + orig.skip(1));
        } else {
            assert(isort(orig) == orig);
        }
    }
    if count <= 1 {
        proof {
            if count == 1 {
                assert(orig.take(1) =~= orig);
                lemma_isort_small(orig);
            }
        }
        return ;
    }
    while i < count
        invariant
            1 <= i <= count,
            count == entries@.len(),
            orig.len() == count,
            entries@ == isort(orig.take(i as int)) + orig.skip(i as int),
            isort(orig.take(i as int)).len() == i,
        decreases count - i,
    {
        let ghost sp = isort(orig.take(i as int));
        let key = entries[i];
        proof {
            assert(entries@[i as int] == orig[i as int]);
            assert(orig.take(i as int + 1).drop_last() =~= orig.take(i as int));
            assert(orig.take(i as int + 1).last() == orig[i as int]);
        }
        let mut j: usize = i;
        while j > 0
            invariant_except_break
                0 <= j <= i < count,
                count == entries@.len(),
                orig.len() == count,
                sp == isort(orig.take(i as int)),
                sp.len() == i,
                key == orig[i as int],
                forall|k: int| 0 <= k < j ==> entries@[k] == sp[k],
                forall|k: int| j <= k < i ==> entries@[k + 1] == sp[k],
                forall|k: int| j <= k < i ==> (#[trigger] sp[k]).physical_base
                    > key.physical_base,
                forall|k: int| i < k < count ==> entries@[k] == orig[k],
                entries@[j as int] == (if j == i { orig[i as int] } else { sp[j as int] }),
            ensures
                0 <= j <= i,
                count == entries@.len(),
                forall|k: int| 0 <= k < j ==> entries@[k] == sp[k],
                forall|k: int| j <= k < i ==> entries@[k + 1] == sp[k],
                forall|k: int| j <= k < i ==> (#[trigger] sp[k]).physical_base
                    > key.physical_base,
                forall|k: int| i < k < count ==> entries@[k] == orig[k],
                j > 0 ==> sp[j - 1].physical_base <= key.physical_base,
            decreases j,
        {
            let prev = entries[j - 1];
            if prev.physical_base <= key.physical_base {
                break ;
            }
            let moved = entries[j - 1];
            entries.set(j, moved);
            j -= 1;
        }
        entries.set(j, key);
        proof {
            lemma_insert_at(sp, key, j as int);
            assert(entries@.take(i as int + 1) =~= sp.take(j as int) + seq![key] + sp.skip(
                j as int,
            ));
            assert(entries@ =~= isort(orig.take(i as int + 1)) + orig.skip(i as int + 1));
            assert(isort(orig.take(i as int + 1)).len() == i + 1) by {
                lemma_insert_len(sp, key);
            }
        }
        i += 1;
    }
    proof {
        assert(orig.take(count as int) =~= orig);
        assert(entries@ =~= isort(orig));
    }
}

/// Insertion grows the sequence by one.
proof fn lemma_insert_len(s: Seq<MemoryMapEntry>, x: MemoryMapEntry)
    ensures
        insert_sorted(s, x).len() == s.len() + 1,
    decreases s.len(),
{
    if s.len() > 0 && !(s.last().physical_base <= x.physical_base) {
        lemma_insert_len(s.drop_last(), x);
    }
}

/// Everything in an insertion is the key or came from the sequence.
proof fn lemma_insert_multiset(s: Seq<MemoryMapEntry>, x: MemoryMapEntry)
    ensures
        insert_sorted(s, x).to_multiset() == s.to_multiset().insert(x),
    decreases s.len(),
{
    broadcast use group_to_multiset_ensures;

    if s.len() == 0 {
        assert(insert_sorted(s, x) =~= Seq::empty().push(x));
        assert(Seq::<MemoryMapEntry>::empty().push(x).to_multiset()
            =~= s.to_multiset().insert(x));
    } else if s.last().physical_base <= x.physical_base {
    } else {
        lemma_insert_multiset(s.drop_last(), x);
        assert(s.drop_last().push(s.last()) =~= s);
        assert(insert_sorted(s, x).to_multiset() =~= s.to_multiset().insert(x));
    }
}

/// The sort is a permutation: same entries, same count.
pub proof fn lemma_isort_multiset(s: Seq<MemoryMapEntry>)
    ensures
        isort(s).to_multiset() == s.to_multiset(),
        isort(s).len() == s.len(),
    decreases s.len(),
{
    broadcast use group_to_multiset_ensures;

    if s.len() > 0 {
        lemma_isort_multiset(s.drop_last());
        lemma_insert_multiset(isort(s.drop_last()), s.last());
        lemma_insert_len(isort(s.drop_last()), s.last());
        assert(s.drop_last().push(s.last()) =~= s);
        assert(isort(s).to_multiset() =~= s.to_multiset());
    }
}

/// Inserting into a sorted sequence keeps it sorted.
proof fn lemma_insert_sorted_keeps(s: Seq<MemoryMapEntry>, x: MemoryMapEntry)
    requires
        map_sorted(s),
    ensures
        map_sorted(insert_sorted(s, x)),
    decreases s.len(),
{
    if s.len() == 0 {
    } else if s.last().physical_base <= x.physical_base {
        assert forall|i: int, j: int| 0 <= i < j < s.push(x).len()
            implies (#[trigger] s.push(x)[i]).physical_base
                <= (#[trigger] s.push(x)[j]).physical_base by {
            if j < s.len() {
            } else {
                assert(s.push(x)[j] == x);
                if i < s.len() - 1 {
                    assert(s[i].physical_base <= s[s.len() - 1].physical_base);
                }
            }
        }
    } else {
        assert(map_sorted(s.drop_last())) by {
            assert forall|i: int, j: int| 0 <= i < j < s.drop_last().len()
                implies (#[trigger] s.drop_last()[i]).physical_base
                    <= (#[trigger] s.drop_last()[j]).physical_base by {
                assert(s[i] == s.drop_last()[i] && s[j] == s.drop_last()[j]);
            }
        }
        lemma_insert_sorted_keeps(s.drop_last(), x);
        let t = insert_sorted(s.drop_last(), x);
        lemma_insert_len(s.drop_last(), x);
        lemma_insert_multiset(s.drop_last(), x);
        // every element of t is x or an element of s.drop_last(), so the
        // appended former last element still dominates
        assert forall|i: int, j: int| 0 <= i < j < t.push(s.last()).len()
            implies (#[trigger] t.push(s.last())[i]).physical_base
                <= (#[trigger] t.push(s.last())[j]).physical_base by {
            if j < t.len() {
            } else {
                let e = t[i];
                assert(t.to_multiset().count(e) > 0) by {
                    broadcast use group_to_multiset_ensures;

                    assert(t.to_multiset().count(e) >= 1);
                }
                lemma_member_bound(s.drop_last(), x, e);
                if e == x {
                } else {
                    let w = choose|w: int| 0 <= w < s.drop_last().len() && s.drop_last()[w] == e;
                    assert(s[w].physical_base <= s.last().physical_base);
                }
            }
        }
    }
}

/// An entry counted by the multiset of `s` plus `x` is `x` or occurs in
/// `s`.
proof fn lemma_member_bound(s: Seq<MemoryMapEntry>, x: MemoryMapEntry, e: MemoryMapEntry)
    requires
        s.to_multiset().insert(x).count(e) > 0,
    ensures
        e == x || exists|w: int| 0 <= w < s.len() && s[w] == e,
    decreases s.len(),
{
    broadcast use group_to_multiset_ensures;

    if e != x {
        assert(s.to_multiset().count(e) > 0);
        lemma_count_member(s, e);
    }
}

/// A positive multiset count means the entry occurs at some index.
proof fn lemma_count_member(s: Seq<MemoryMapEntry>, e: MemoryMapEntry)
    requires
        s.to_multiset().count(e) > 0,
    ensures
        exists|w: int| 0 <= w < s.len() && s[w] == e,
    decreases s.len(),
{
    broadcast use group_to_multiset_ensures;

    if s.len() > 0 {
        if s.last() == e {
            assert(s[s.len() - 1] == e);
        } else {
            assert(s.drop_last().push(s.last()) =~= s);
            assert(s.drop_last().to_multiset().count(e) > 0);
            lemma_count_member(s.drop_last(), e);
            let w = choose|w: int| 0 <= w < s.drop_last().len() && s.drop_last()[w] == e;
            assert(s[w] == e);
        }
    }
}

/// The sort leaves the entries sorted ascending by physical base.
pub proof fn lemma_isort_sorted(s: Seq<MemoryMapEntry>)
    ensures
        map_sorted(isort(s)),
    decreases s.len(),
{
    if s.len() > 0 {
        lemma_isort_sorted(s.drop_last());
        lemma_insert_sorted_keeps(isort(s.drop_last()), s.last());
    }
}

/// Sorting zero or one entries is a no-op.
pub proof fn lemma_isort_small(s: Seq<MemoryMapEntry>)
    requires
        s.len() <= 1,
    ensures
        isort(s) == s,
{
    if s.len() == 1 {
        assert(isort(s.drop_last()) =~= s.drop_last());
        assert(insert_sorted(isort(s.drop_last()), s.last()) =~= s);
    }
}

/// Two memory regions do not overlap.
pub open spec fn entries_disjoint(a: MemoryMapEntry, b: MemoryMapEntry) -> bool {
    a.physical_base + a.size <= b.physical_base || b.physical_base + b.size <= a.physical_base
}

/// No two entries of the map overlap.
pub open spec fn map_nonoverlapping(s: Seq<MemoryMapEntry>) -> bool {
    forall|i: int, j: int| 0 <= i < j < s.len() ==> entries_disjoint(
        #[trigger] s[i],
        #[trigger] s[j],
    )
}

/// The map handed to the kernel is sorted and non-overlapping: sorting a
/// set of pairwise disjoint regions yields a sorted map whose regions
/// are still pairwise disjoint.
pub proof fn lemma_sorted_map_nonoverlapping(s: Seq<MemoryMapEntry>)
    requires
        map_nonoverlapping(s),
    ensures
        map_sorted(isort(s)),
        map_nonoverlapping(isort(s)),
        isort(s).len() == s.len(),
{
    lemma_isort_sorted(s);
    lemma_isort_multiset(s);
    let t = isort(s);
    assert forall|i: int, j: int| 0 <= i < j < t.len() implies entries_disjoint(
        #[trigger] t[i],
        #[trigger] t[j],
    ) by {
        lemma_disjoint_pair(s, t, i, j);
    }
}

/// Any two positions of a permutation of a pairwise disjoint map hold
/// disjoint regions.
proof fn lemma_disjoint_pair(s: Seq<MemoryMapEntry>, t: Seq<MemoryMapEntry>, i: int, j: int)
    requires
        map_nonoverlapping(s),
        t.to_multiset() == s.to_multiset(),
        0 <= i < j < t.len(),
    ensures
        entries_disjoint(t[i], t[j]),
{
    broadcast use group_to_multiset_ensures;

    let a = t[i];
    let b = t[j];
    if a == b {
        lemma_count_two(t, i, j);
        lemma_two_members(s, a);
        let (w1, w2) = choose|w1: int, w2: int| 0 <= w1 < w2 < s.len() && s[w1] == a && s[w2]
            == a;
        assert(entries_disjoint(s[w1], s[w2]));
    } else {
        assert(t.to_multiset().count(a) > 0) by {
            assert(t[i] == a);
        }
        assert(t.to_multiset().count(b) > 0) by {
            assert(t[j] == b);
        }
        lemma_count_member(s, a);
        lemma_count_member(s, b);
        let wa = choose|w: int| 0 <= w < s.len() && s[w] == a;
        let wb = choose|w: int| 0 <= w < s.len() && s[w] == b;
        if wa < wb {
            assert(entries_disjoint(s[wa], s[wb]));
        } else {
            assert(wb < wa);
            assert(entries_disjoint(s[wb], s[wa]));
        }
    }
}

/// A value at two positions counts at least twice.
proof fn lemma_count_two(t: Seq<MemoryMapEntry>, i: int, j: int)
    requires
        0 <= i < j < t.len(),
        t[i] == t[j],
    ensures
        t.to_multiset().count(t[i]) >= 2,
{
    broadcast use group_to_multiset_ensures;

    let e = t[i];
    let rest = t.remove(j);
    assert(t =~= rest.insert(j, e));
    assert(t.to_multiset() == rest.to_multiset().insert(e)) by {
        lemma_remove_insert_multiset(rest, j, e);
    }
    assert(rest[i] == e);
    assert(rest.to_multiset().count(e) > 0) by {
        assert(rest[i] == e);
    }
}

/// Inserting an element adds one to its count.
proof fn lemma_remove_insert_multiset(rest: Seq<MemoryMapEntry>, j: int, e: MemoryMapEntry)
    requires
        0 <= j <= rest.len(),
    ensures
        rest.insert(j, e).to_multiset() == rest.to_multiset().insert(e),
{
    broadcast use group_to_multiset_ensures;

    assert(rest.insert(j, e) =~= rest.take(j) + seq![e] + rest.skip(j));
    assert(rest =~= rest.take(j) + rest.skip(j));
    lemma_concat_multiset(rest.take(j), seq![e] + rest.skip(j));
    lemma_concat_multiset(seq![e], rest.skip(j));
    lemma_concat_multiset(rest.take(j), rest.skip(j));
    assert(seq![e] + rest.skip(j) =~= (seq![e] + rest.skip(j)));
    assert(seq![e].to_multiset() =~= Multiset::empty().insert(e)) by {
        assert(seq![e] =~= Seq::empty().push(e));
    }
    assert(rest.take(j) + seq![e] + rest.skip(j) =~= rest.take(j) + (seq![e] + rest.skip(j)));
    assert(rest.insert(j, e).to_multiset() =~= rest.to_multiset().insert(e));
}

/// The multiset of a concatenation is the sum of the multisets.
proof fn lemma_concat_multiset(a: Seq<MemoryMapEntry>, b: Seq<MemoryMapEntry>)
    ensures
        (a + b).to_multiset() == a.to_multiset().add(b.to_multiset()),
    decreases b.len(),
{
    broadcast use group_to_multiset_ensures;

    if b.len() == 0 {
        assert(a + b =~= a);
        assert((a + b).to_multiset() =~= a.to_multiset().add(b.to_multiset()));
    } else {
        lemma_concat_multiset(a, b.drop_last());
        assert(a + b =~= (a + b.drop_last()).push(b.last()));
        assert(b.drop_last().push(b.last()) =~= b);
        assert((a + b).to_multiset() =~= a.to_multiset().add(b.to_multiset()));
    }
}

/// A value counted at least twice occurs at two distinct positions.
proof fn lemma_two_members(s: Seq<MemoryMapEntry>, e: MemoryMapEntry)
    requires
        s.to_multiset().count(e) >= 2,
    ensures
        exists|w1: int, w2: int| 0 <= w1 < w2 < s.len() && s[w1] == e && s[w2] == e,
    decreases s.len(),
{
    broadcast use group_to_multiset_ensures;

    assert(s.len() > 0) by {
        if s.len() == 0 {
            assert(s.to_multiset().count(e) == 0);
        }
    }
    if s.last() == e {
        assert(s.drop_last().push(s.last()) =~= s);
        assert(s.drop_last().to_multiset().count(e) >= 1);
        lemma_count_member(s.drop_last(), e);
        let w = choose|w: int| 0 <= w < s.drop_last().len() && s.drop_last()[w] == e;
        assert(s[w] == e && s[s.len() - 1] == e && w < s.len() - 1);
    } else {
        assert(s.drop_last().push(s.last()) =~= s);
        assert(s.drop_last().to_multiset().count(e) >= 2);
        lemma_two_members(s.drop_last(), e);
        let (w1, w2) = choose|w1: int, w2: int| 0 <= w1 < w2 < s.drop_last().len()
            && s.drop_last()[w1] == e && s.drop_last()[w2] == e;
        assert(s[w1] == e && s[w2] == e);
    }
}

/// The predicate selecting entries at physical base `b`.
pub open spec fn same_base(b: u64) -> spec_fn(MemoryMapEntry) -> bool {
    |e: MemoryMapEntry| e.physical_base == b
}

/// Inserting appends to the run of equal bases: entries at the key's
/// own base gain the key at the end, every other base is untouched.
proof fn lemma_insert_filter(s: Seq<MemoryMapEntry>, x: MemoryMapEntry, b: u64)
    ensures
        insert_sorted(s, x).filter(same_base(b)) == (if x.physical_base == b {
            s.filter(same_base(b)).push(x)
        } else {
            s.filter(same_base(b))
        }),
    decreases s.len(),
{
    let p = same_base(b);
    reveal(Seq::filter);
    if s.len() == 0 {
        let t = insert_sorted(s, x);
        assert(t.drop_last() =~= s);
        assert(t.last() == x);
        assert(t.filter(p) == (if p(t.last()) {
            t.drop_last().filter(p).push(t.last())
        } else {
            t.drop_last().filter(p)
        }));
    } else if s.last().physical_base <= x.physical_base {
        let t = s.push(x);
        assert(t.drop_last() =~= s);
        assert(t.last() == x);
        assert(t.filter(p) == (if p(t.last()) {
            t.drop_last().filter(p).push(t.last())
        } else {
            t.drop_last().filter(p)
        }));
    } else {
        lemma_insert_filter(s.drop_last(), x, b);
        let t = insert_sorted(s.drop_last(), x).push(s.last());
        assert(insert_sorted(s, x) == t);
        assert(t.drop_last() =~= insert_sorted(s.drop_last(), x));
        assert(t.last() == s.last());
        assert(t.filter(p) == (if p(t.last()) {
            t.drop_last().filter(p).push(t.last())
        } else {
            t.drop_last().filter(p)
        }));
        assert(s.filter(p) == (if p(s.last()) {
            s.drop_last().filter(p).push(s.last())
        } else {
            s.drop_last().filter(p)
        }));
        if x.physical_base == b {
            // the displaced last entry sits above the key's base, so it
            // never matches the key's base
            assert(s.last().physical_base != b);
            assert(!p(s.last()));
            assert(t.filter(p) == s.drop_last().filter(p).push(x));
            assert(s.filter(p) == s.drop_last().filter(p));
        } else {
            if p(s.last()) {
                assert(t.filter(p) == s.drop_last().filter(p).push(s.last()));
            } else {
                assert(t.filter(p) == s.drop_last().filter(p));
            }
        }
    }
}

/// Stability: the sort keeps entries with equal physical bases in the
/// order they arrived, for every base.
pub proof fn lemma_isort_stable(s: Seq<MemoryMapEntry>, b: u64)
    ensures
        isort(s).filter(same_base(b)) == s.filter(same_base(b)),
    decreases s.len(),
{
    let p = same_base(b);
    reveal(Seq::filter);
    if s.len() > 0 {
        lemma_isort_stable(s.drop_last(), b);
        lemma_insert_filter(isort(s.drop_last()), s.last(), b);
        assert(s.filter(p) == (if p(s.last()) {
            s.drop_last().filter(p).push(s.last())
        } else {
            s.drop_last().filter(p)
        }));
    }
}

} // verus!
