//! ARMv7 virtual memory: the short-descriptor page tables, the window of temporary
//! mappings through which second-level tables are edited, and the address queries
//! built on them. The tables, the physical frames reachable through temporary
//! mappings, the spare frames of the physical allocator and the TLB maintenance
//! operations issued are held in a `PageTables` value.
use vstd::prelude::*;
use std::collections::HashMap;

verus! {

/// A physical address.
pub type PAddr = u32;

/// First address of the kernel half of the address space.
pub const KERNEL_BASE: usize = 0x8000_0000;

/// Start of the window of temporary mappings (the last 4 MiB, mapped by the
/// exception map table).
pub const KERNEL_TEMP_BASE: usize = 0xFFC0_0000;

/// Where the current user first-level table is mapped (2 GiB - 0x2000).
pub const USER_BASE_TABLE: usize = 0x7FFF_E000;

/// The page before the user first-level table.
pub const USER_TEMP_TABLE: usize = 0x7FFF_D000;

/// One page table's worth of user temporary mappings.
pub const USER_TEMP_BASE: usize = 0x7FC0_0000;

/// How a page is mapped.
#[derive(PartialEq, Eq, Structural, Clone, Copy, Debug)]
pub enum ProtectionMode {
    Unmapped,
    KernelRO,
    KernelRW,
    KernelRX,
    UserRO,
    UserRW,
    UserRX,
    UserRWX,
    UserCOW,
}

/// The low descriptor bits written for each mode (AP[2] is bit 9, AP[1:0] bits 5:4,
/// XN bit 0, small page bit 1).
pub open spec fn mode_flags(mode: ProtectionMode) -> u32 {
    match mode {
        ProtectionMode::Unmapped => 0x000,
        ProtectionMode::KernelRO => 0x213,
        ProtectionMode::KernelRW => 0x013,
        ProtectionMode::KernelRX => 0x052,
        ProtectionMode::UserRO => 0x233,
        ProtectionMode::UserRW => 0x033,
        ProtectionMode::UserRX => 0x232,
        ProtectionMode::UserRWX => 0x032,
        ProtectionMode::UserCOW => 0x223,
    }
}

/// The descriptor flag values that are read back as a mode: exactly those that
/// some mode is written with.
pub open spec fn known_flags(flags: u32) -> bool {
    flags == 0x000 || flags == 0x213 || flags == 0x013 || flags == 0x052 || flags == 0x233
        || flags == 0x033 || flags == 0x232 || flags == 0x032 || flags == 0x223
}

/// The mode that a second-level descriptor's flag bits are read back as, by the
/// same layout they are written with (AP[2] bit 9, AP[1:0] bits 5:4, XN bit 0).
pub open spec fn flags_mode(flags: u32) -> ProtectionMode {
    if flags == 0x213 {
        ProtectionMode::KernelRO
    } else if flags == 0x013 {
        ProtectionMode::KernelRW
    } else if flags == 0x052 {
        ProtectionMode::KernelRX
    } else if flags == 0x233 {
        ProtectionMode::UserRO
    } else if flags == 0x033 {
        ProtectionMode::UserRW
    } else if flags == 0x232 {
        ProtectionMode::UserRX
    } else if flags == 0x032 {
        ProtectionMode::UserRWX
    } else if flags == 0x223 {
        ProtectionMode::UserCOW
    } else {
        ProtectionMode::Unmapped
    }
}

/// The descriptor flag bits for `mode`.
pub fn prot_mode_to_flags(mode: ProtectionMode) -> (r: u32)
    ensures
        r == mode_flags(mode),
{
    match mode {
        ProtectionMode::Unmapped => 0x000,
        ProtectionMode::KernelRO => 0x213,
        ProtectionMode::KernelRW => 0x013,
        ProtectionMode::KernelRX => 0x052,
        ProtectionMode::UserRO => 0x233,
        ProtectionMode::UserRW => 0x033,
        ProtectionMode::UserRX => 0x232,
        ProtectionMode::UserRWX => 0x032,
        ProtectionMode::UserCOW => 0x223,
    }
}

/// The mode that descriptor flag bits are read back as; only the known values are
/// accepted.
pub fn flags_to_prot_mode(flags: u32) -> (r: ProtectionMode)
    requires
        known_flags(flags),
    ensures
        r == flags_mode(flags),
{
    match flags {
        0x000 => ProtectionMode::Unmapped,
        0x213 => ProtectionMode::KernelRO,
        0x013 => ProtectionMode::KernelRW,
        0x052 => ProtectionMode::KernelRX,
        0x233 => ProtectionMode::UserRO,
        0x033 => ProtectionMode::UserRW,
        0x232 => ProtectionMode::UserRX,
        0x032 => ProtectionMode::UserRWX,
        _ => ProtectionMode::UserCOW,
    }
}

/// Every mode but `Unmapped` gives flags that mark the descriptor as in use (its
/// two low bits are not both clear), and distinct modes give distinct flags.
pub proof fn lemma_mode_flags_mark_in_use(m1: ProtectionMode, m2: ProtectionMode)
    ensures
        m1 != ProtectionMode::Unmapped ==> mode_flags(m1) & 3 != 0,
        m1 == ProtectionMode::Unmapped ==> mode_flags(m1) == 0,
        mode_flags(m1) < 0x1000,
        mode_flags(m1) == mode_flags(m2) ==> m1 == m2,
{
    assert(0x213u32 & 3 != 0 && 0x013u32 & 3 != 0 && 0x052u32 & 3 != 0 && 0x233u32 & 3 != 0
        && 0x033u32 & 3 != 0 && 0x232u32 & 3 != 0 && 0x032u32 & 3 != 0 && 0x223u32 & 3 != 0)
        by (bit_vector);
}

/// Reading back the flags that a mode is written with gives the mode again, and
/// only flags that some mode is written with are read back.
pub proof fn lemma_flags_round_trip(mode: ProtectionMode, flags: u32)
    ensures
        known_flags(mode_flags(mode)),
        flags_mode(mode_flags(mode)) == mode,
        known_flags(flags) ==> mode_flags(flags_mode(flags)) == flags,
{
}

/// Whether `[addr, addr + size)` lies within the kernel image's fixed 4 MiB
/// allocation area at `KERNEL_BASE`.
pub open spec fn fixed_alloc_range(addr: int, size: int) -> bool {
    &&& KERNEL_BASE <= addr < KERNEL_BASE + 4 * 0x10_0000
    &&& addr + size <= KERNEL_BASE + 4 * 0x10_0000
}

/// Whether `size` bytes at `addr` lie in the fixed allocation area.
pub fn is_fixed_alloc(addr: usize, size: usize) -> (r: bool)
    requires
        KERNEL_BASE <= addr < KERNEL_BASE + 4 * 0x10_0000 ==> addr + size <= usize::MAX,
    ensures
        r == fixed_alloc_range(addr as int, size as int),
{
    let base: usize = KERNEL_BASE;
    let onemeg: usize = 1024 * 1024;
    let limit: usize = KERNEL_BASE + 4 * onemeg;
    if base <= addr && addr < limit {
        if addr + size <= limit {
            true
        } else {
            false
        }
    } else {
        false
    }
}

/// No physical range is served by a fixed mapping on this platform.
pub fn fixed_alloc(_p: PAddr, _count: usize) -> (r: Option<usize>)
    ensures
        r is None,
{
    None
}

/// An address space, named by the physical address of its first-level table (the
/// TTBR0 value).
#[derive(Debug)]
pub struct AddressSpace(u32);

impl AddressSpace {
    /// The TTBR0 value.
    pub closed spec fn ttbr0(&self) -> u32 {
        self.0
    }

    /// The kernel's own address space, whose first-level table is `kernel_table0`:
    /// its virtual address `table0_vaddr` lies in the kernel half, which maps the
    /// kernel image from `kernel_phys_start` on.
    pub fn pid0(kernel_phys_start: u32, table0_vaddr: u32) -> (r: AddressSpace)
        requires
            table0_vaddr >= 0x8000_0000,
            kernel_phys_start + (table0_vaddr - 0x8000_0000) <= u32::MAX,
        ensures
            r.ttbr0() == kernel_phys_start + (table0_vaddr - 0x8000_0000),
    {
        let tab0_addr = kernel_phys_start + (table0_vaddr - 0x80000000);
        AddressSpace(tab0_addr)
    }

    /// The TTBR0 value.
    pub fn get_ttbr0(&self) -> (r: u32)
        ensures
            r == self.ttbr0(),
    {
        self.0
    }
}

/// The operand of a TLB invalidation by virtual address for `a`: its page, with
/// ASID 1.
pub open spec fn tlb_operand(a: usize) -> u32 {
    ((a & !0xFFFusize) | 1usize) as u32
}

/// `i` is the first free slot of the temporary-mapping window (slot 1023 is kept
/// for the last page).
pub open spec fn is_first_free_slot(temp: Seq<u32>, i: int) -> bool {
    &&& 0 <= i < 1023
    &&& temp[i] == 0
    &&& forall|j: int| 0 <= j < i ==> temp[j] != 0
}

/// Whether the temporary-mapping window has a free slot.
pub open spec fn has_free_slot(temp: Seq<u32>) -> bool {
    exists|i: int| 0 <= i < 1023 && temp[i] == 0
}

/// The first free slot of the temporary-mapping window.
pub open spec fn first_free_slot(temp: Seq<u32>) -> int {
    choose|i: int| is_first_free_slot(temp, i)
}

proof fn lemma_first_free_slot(temp: Seq<u32>, i: int)
    requires
        is_first_free_slot(temp, i),
    ensures
        first_free_slot(temp) == i,
{
    let k = first_free_slot(temp);
    if k < i {
        assert(temp[k] == 0);
    } else if i < k {
        assert(temp[i] == 0);
    }
}

/// Virtual address of temporary-mapping slot `i`.
pub open spec fn temp_slot_addr(i: int) -> int {
    KERNEL_TEMP_BASE + i * 0x1000
}

/// The kernel's first-level table, the current user first-level table, the
/// temporary-mapping window, the physical frames reachable through it, the spare
/// frames of the physical allocator, and the TLB invalidations issued so far.
pub struct PageTables {
    kernel_table0: Vec<u32>,
    user_table: Vec<u32>,
    exception_map: Vec<u32>,
    frames: HashMap<u32, Vec<u32>>,
    spare: Vec<u32>,
    tlb: Vec<u32>,
}

impl PageTables {
    /// `kernel_table0`: 4096 first-level descriptors, one per megabyte.
    pub closed spec fn kernel(&self) -> Seq<u32> {
        self.kernel_table0@
    }

    /// The user first-level table mapped at `USER_BASE_TABLE`: 2048 descriptors.
    pub closed spec fn user(&self) -> Seq<u32> {
        self.user_table@
    }

    /// `kernel_exception_map`: the second-level table of the temporary-mapping
    /// window, 1024 descriptors.
    pub closed spec fn temp(&self) -> Seq<u32> {
        self.exception_map@
    }

    /// Physical frames by base address, each 1024 words.
    pub closed spec fn phys(&self) -> Map<u32, Seq<u32>> {
        self.frames@.map_values(|v: Vec<u32>| v@)
    }

    /// Frames the physical allocator hands out next, the last first.
    pub closed spec fn spare(&self) -> Seq<u32> {
        self.spare@
    }

    /// Operands of the TLB invalidations issued, oldest first.
    pub closed spec fn tlb(&self) -> Seq<u32> {
        self.tlb@
    }

    /// The tables have their sizes, every frame holds 1024 words, and the spare
    /// frames are distinct, page-aligned, reachable, and not referred to by any
    /// first-level descriptor in use.
    pub open spec fn wf(&self) -> bool {
        &&& self.kernel().len() == 4096
        &&& self.user().len() == 0x800
        &&& self.temp().len() == 1024
        &&& forall|b: u32| #[trigger] self.phys().contains_key(b) ==> self.frame(b).len() == 1024
        &&& forall|k: int|
            0 <= k < self.spare().len() ==> self.phys().contains_key(#[trigger] self.spare()[k])
                && self.spare()[k] & 0xFFF == 0
        &&& self.spare().no_duplicates()
        &&& forall|i: int|
            0 <= i < self.kernel().len() && #[trigger] self.kernel()[i] != 0 ==> !self.spare().contains(
                table_frame(self.kernel()[i]),
            )
        &&& forall|i: int|
            0 <= i < self.user().len() && #[trigger] self.user()[i] != 0 ==> !self.spare().contains(
                table_frame(self.user()[i]),
            )
    }

    /// The words of frame `base`.
    pub open spec fn frame(&self, base: u32) -> Seq<u32> {
        self.phys()[base]
    }

    proof fn lemma_phys(&self)
        ensures
            forall|b: u32| #[trigger] self.phys().contains_key(b) == self.frames@.contains_key(b),
            forall|b: u32| self.frames@.contains_key(b) ==> #[trigger] self.phys()[b] == self.frames@[b]@,
    {
    }

    /// Empty tables, an empty window, no frames.
    pub fn new() -> (t: PageTables)
        ensures
            t.wf(),
            t.kernel() == Seq::new(4096, |i: int| 0u32),
            t.user() == Seq::new(0x800, |i: int| 0u32),
            t.temp() == Seq::new(1024, |i: int| 0u32),
            t.phys() == Map::<u32, Seq<u32>>::empty(),
            t.spare() == Seq::<u32>::empty(),
            t.tlb() == Seq::<u32>::empty(),
    {
        let t = PageTables {
            kernel_table0: zeroed(4096),
            user_table: zeroed(0x800),
            exception_map: zeroed(1024),
            frames: HashMap::new(),
            spare: Vec::new(),
            tlb: Vec::new(),
        };
        proof {
            assert(t.phys() =~= Map::<u32, Seq<u32>>::empty());
        }
        t
    }

    /// Makes the frame at `base` reachable, with the given contents, and hands it
    /// to the physical allocator as a spare frame if `spare` is set.
    pub fn add_frame(&mut self, base: u32, words: Vec<u32>, spare: bool)
        requires
            old(self).wf(),
            words@.len() == 1024,
            base & 0xFFF == 0,
            spare ==> !old(self).spare().contains(base),
            spare ==> forall|i: int|
                0 <= i < 4096 && #[trigger] old(self).kernel()[i] != 0 ==> table_frame(old(self).kernel()[i]) != base,
            spare ==> forall|i: int|
                0 <= i < 0x800 && #[trigger] old(self).user()[i] != 0 ==> table_frame(old(self).user()[i]) != base,
        ensures
            final(self).wf(),
            final(self).phys() == old(self).phys().insert(base, words@),
            final(self).spare() == (if spare { old(self).spare().push(base) } else { old(self).spare() }),
            final(self).kernel() == old(self).kernel(),
            final(self).user() == old(self).user(),
            final(self).temp() == old(self).temp(),
            final(self).tlb() == old(self).tlb(),
    {
        let ghost w = words@;
        self.frames.insert(base, words);
        if spare {
            self.spare.push(base);
        }
        proof {
            assert(self.phys() =~= old(self).phys().insert(base, w));
            assert forall|k: int| 0 <= k < self.spare().len() implies self.phys().contains_key(
                #[trigger] self.spare()[k],
            ) && self.spare()[k] & 0xFFF == 0 by {
                if k < old(self).spare().len() {
                    assert(self.spare()[k] == old(self).spare()[k]);
                }
            }
            assert forall|i: int| 0 <= i < self.kernel().len() && #[trigger] self.kernel()[i] != 0
                implies !self.spare().contains(table_frame(self.kernel()[i])) by {
                if spare {
                    assert(!old(self).spare().contains(table_frame(self.kernel()[i])));
                }
            }
            assert forall|i: int| 0 <= i < self.user().len() && #[trigger] self.user()[i] != 0
                implies !self.spare().contains(table_frame(self.user()[i])) by {
                if spare {
                    assert(!old(self).spare().contains(table_frame(self.user()[i])));
                }
            }
        }
    }

    /// Descriptor `i` of `kernel_table0`.
    pub fn kernel_entry(&self, i: usize) -> (r: u32)
        requires
            self.wf(),
            i < 4096,
        ensures
            r == self.kernel()[i as int],
    {
        self.kernel_table0[i]
    }

    /// Sets descriptor `i` of `kernel_table0`.
    pub fn set_kernel_entry(&mut self, i: usize, v: u32)
        requires
            old(self).wf(),
            i < 4096,
            v != 0 ==> !old(self).spare().contains(table_frame(v)),
        ensures
            final(self).wf(),
            final(self).kernel() == old(self).kernel().update(i as int, v),
            final(self).user() == old(self).user(),
            final(self).temp() == old(self).temp(),
            final(self).phys() == old(self).phys(),
            final(self).spare() == old(self).spare(),
            final(self).tlb() == old(self).tlb(),
    {
        self.kernel_table0.set(i, v);
        proof {
            assert forall|k: int| 0 <= k < self.kernel().len() && #[trigger] self.kernel()[k] != 0
                implies !self.spare().contains(table_frame(self.kernel()[k])) by {
                if k != i {
                    assert(self.kernel()[k] == old(self).kernel()[k]);
                }
            }
            assert(self.phys() == old(self).phys());
        }
    }

    /// Descriptor `i` of the user first-level table.
    pub fn user_entry(&self, i: usize) -> (r: u32)
        requires
            self.wf(),
            i < 0x800,
        ensures
            r == self.user()[i as int],
    {
        self.user_table[i]
    }

    /// Sets descriptor `i` of the user first-level table.
    pub fn set_user_entry(&mut self, i: usize, v: u32)
        requires
            old(self).wf(),
            i < 0x800,
            v != 0 ==> !old(self).spare().contains(table_frame(v)),
        ensures
            final(self).wf(),
            final(self).user() == old(self).user().update(i as int, v),
            final(self).kernel() == old(self).kernel(),
            final(self).temp() == old(self).temp(),
            final(self).phys() == old(self).phys(),
            final(self).spare() == old(self).spare(),
            final(self).tlb() == old(self).tlb(),
    {
        self.user_table.set(i, v);
        proof {
            assert forall|k: int| 0 <= k < self.user().len() && #[trigger] self.user()[k] != 0
                implies !self.spare().contains(table_frame(self.user()[k])) by {
                if k != i {
                    assert(self.user()[k] == old(self).user()[k]);
                }
            }
            assert(self.phys() == old(self).phys());
        }
    }

    /// Descriptor `i` of the temporary-mapping window.
    pub fn temp_entry(&self, i: usize) -> (r: u32)
        requires
            self.wf(),
            i < 1024,
        ensures
            r == self.temp()[i as int],
    {
        self.exception_map[i]
    }

    /// Word `i` of the frame at `base`, if that frame is reachable.
    pub fn frame_word(&self, base: u32, i: usize) -> (r: Option<u32>)
        requires
            self.wf(),
            i < 1024,
        ensures
            self.phys().contains_key(base) ==> r == Some(self.frame(base)[i as int]),
            !self.phys().contains_key(base) ==> r is None,
    {
        proof {
            self.lemma_phys();
            if self.frames@.contains_key(base) {
                assert(self.phys().contains_key(base));
                assert(self.frame(base) == self.frames@[base]@);
            }
        }
        match self.frames.get(&base) {
            Some(words) => Some(words[i]),
            None => None,
        }
    }

    /// How many spare frames the physical allocator holds.
    pub fn spare_count(&self) -> (r: usize)
        ensures
            r == self.spare().len(),
    {
        self.spare.len()
    }

    /// The TLB invalidations issued so far, oldest first.
    pub fn tlb_log(&self) -> (r: &[u32])
        ensures
            r@ == self.tlb(),
    {
        self.tlb.as_slice()
    }

    /// Word `i` of the frame at `base`.
    fn load_word(&self, base: u32, i: usize) -> (r: u32)
        requires
            self.wf(),
            self.phys().contains_key(base),
            i < 1024,
        ensures
            r == self.frame(base)[i as int],
    {
        let words = self.frames.get(&base).unwrap();
        words[i]
    }

    /// Sets word `i` of the frame at `base`.
    fn store_word(&mut self, base: u32, i: usize, v: u32)
        requires
            old(self).wf(),
            old(self).phys().contains_key(base),
            i < 1024,
        ensures
            final(self).wf(),
            final(self).phys() == old(self).phys().insert(base, old(self).frame(base).update(i as int, v)),
            final(self).kernel() == old(self).kernel(),
            final(self).user() == old(self).user(),
            final(self).temp() == old(self).temp(),
            final(self).spare() == old(self).spare(),
            final(self).tlb() == old(self).tlb(),
    {
        let mut words = self.frames.remove(&base).unwrap();
        words.set(i, v);
        let ghost w = words@;
        self.frames.insert(base, words);
        proof {
            assert(self.phys() =~= old(self).phys().insert(base, w));
        }
    }
}

impl PageTables {
    /// Descriptor `i` of the user first-level table (`user`) or of `kernel_table0`.
    fn l1_load(&self, user: bool, i: usize) -> (r: u32)
        requires
            self.wf(),
            user ==> i < 0x800,
            !user ==> i < 4096,
        ensures
            r == (if user { self.user()[i as int] } else { self.kernel()[i as int] }),
    {
        if user {
            self.user_table[i]
        } else {
            self.kernel_table0[i]
        }
    }

    /// Sets descriptor `i` of the user first-level table (`user`) or of `kernel_table0`.
    fn l1_store(&mut self, user: bool, i: usize, v: u32)
        requires
            old(self).wf(),
            v != 0 ==> !old(self).spare().contains(table_frame(v)),
            user ==> i < 0x800,
            !user ==> i < 4096,
        ensures
            final(self).wf(),
            final(self).user() == (if user { old(self).user().update(i as int, v) } else { old(self).user() }),
            final(self).kernel() == (if user { old(self).kernel() } else { old(self).kernel().update(i as int, v) }),
            final(self).temp() == old(self).temp(),
            final(self).phys() == old(self).phys(),
            final(self).spare() == old(self).spare(),
            final(self).tlb() == old(self).tlb(),
    {
        if user {
            self.set_user_entry(i, v);
        } else {
            self.set_kernel_entry(i, v);
        }
    }

    /// Compare-and-exchange on a first-level descriptor: writes `new` if it equals
    /// `val`, and returns it as it was.
    fn l1_cxchg(&mut self, user: bool, i: usize, val: u32, new: u32) -> (r: u32)
        requires
            old(self).wf(),
            new != 0 ==> !old(self).spare().contains(table_frame(new)),
            user ==> i < 0x800,
            !user ==> i < 4096,
        ensures
            r == (if user { old(self).user()[i as int] } else { old(self).kernel()[i as int] }),
            final(self).wf(),
            final(self).user() == (if user && r == val { old(self).user().update(i as int, new) } else { old(self).user() }),
            final(self).kernel() == (if !user && r == val { old(self).kernel().update(i as int, new) } else { old(self).kernel() }),
            final(self).temp() == old(self).temp(),
            final(self).phys() == old(self).phys(),
            final(self).spare() == old(self).spare(),
            final(self).tlb() == old(self).tlb(),
    {
        let cur = self.l1_load(user, i);
        if cur == val {
            self.l1_store(user, i, new);
        }
        cur
    }

    /// Takes a frame from the physical allocator: the last spare one.
    fn allocate_bare(&mut self) -> (r: Option<PAddr>)
        requires
            old(self).wf(),
        ensures
            final(self).wf(),
            old(self).spare().len() > 0 ==> r == Some(old(self).spare().last())
                && final(self).spare() == old(self).spare().drop_last(),
            old(self).spare().len() == 0 ==> r is None && final(self).spare() == old(self).spare(),
            final(self).kernel() == old(self).kernel(),
            final(self).user() == old(self).user(),
            final(self).temp() == old(self).temp(),
            final(self).phys() == old(self).phys(),
            final(self).tlb() == old(self).tlb(),
    {
        let r = self.spare.pop();
        proof {
            assert(self.phys() == old(self).phys());
            if old(self).spare().len() > 0 {
                assert(self.spare@ == old(self).spare().drop_last());
                assert forall|x: u32| self.spare().contains(x) implies old(self).spare().contains(x) by {
                    let k = choose|k: int| 0 <= k < self.spare().len() && self.spare()[k] == x;
                    assert(old(self).spare()[k] == x);
                }
                assert(self.spare().no_duplicates()) by {
                    assert forall|a: int, b: int| 0 <= a < self.spare().len() && 0 <= b < self.spare().len() && a != b
                        implies self.spare()[a] != self.spare()[b] by {
                        assert(self.spare()[a] == old(self).spare()[a]);
                        assert(self.spare()[b] == old(self).spare()[b]);
                    }
                }
                assert forall|k: int| 0 <= k < self.spare@.len() implies self.frames@.contains_key(
                    #[trigger] self.spare@[k],
                ) && self.spare@[k] & 0xFFF == 0 by {
                    assert(self.spare@[k] == old(self).spare()[k]);
                }
            }
        }
        r
    }

    /// Hands a frame back to the physical allocator.
    fn deref_frame(&mut self, f: PAddr)
        requires
            old(self).wf(),
            old(self).phys().contains_key(f),
            f & 0xFFF == 0,
            !old(self).spare().contains(f),
            forall|i: int|
                0 <= i < 4096 && #[trigger] old(self).kernel()[i] != 0 ==> table_frame(old(self).kernel()[i]) != f,
            forall|i: int|
                0 <= i < 0x800 && #[trigger] old(self).user()[i] != 0 ==> table_frame(old(self).user()[i]) != f,
        ensures
            final(self).wf(),
            final(self).spare() == old(self).spare().push(f),
            final(self).kernel() == old(self).kernel(),
            final(self).user() == old(self).user(),
            final(self).temp() == old(self).temp(),
            final(self).phys() == old(self).phys(),
            final(self).tlb() == old(self).tlb(),
    {
        self.spare.push(f);
        proof {
            assert(self.phys() == old(self).phys());
            assert forall|k: int| 0 <= k < self.spare().len() implies self.phys().contains_key(
                #[trigger] self.spare()[k],
            ) && self.spare()[k] & 0xFFF == 0 by {
                if k < old(self).spare().len() {
                    assert(self.spare()[k] == old(self).spare()[k]);
                }
            }
            assert forall|x: u32| self.spare().contains(x) implies old(self).spare().contains(x) || x == f by {
                let k = choose|k: int| 0 <= k < self.spare().len() && self.spare()[k] == x;
                if k < old(self).spare().len() {
                    assert(old(self).spare()[k] == x);
                }
            }
            assert(self.spare().no_duplicates()) by {
                assert forall|a: int, b: int| 0 <= a < self.spare().len() && 0 <= b < self.spare().len() && a != b
                    implies self.spare()[a] != self.spare()[b] by {
                    if a < old(self).spare().len() && b < old(self).spare().len() {
                        assert(self.spare()[a] == old(self).spare()[a]);
                        assert(self.spare()[b] == old(self).spare()[b]);
                    } else if a < old(self).spare().len() {
                        assert(old(self).spare().contains(self.spare()[a]));
                    } else if b < old(self).spare().len() {
                        assert(old(self).spare().contains(self.spare()[b]));
                    }
                }
            }
        }
    }
}

/// `n` zero words.
fn zeroed(n: usize) -> (v: Vec<u32>)
    ensures
        v@ == Seq::new(n as nat, |i: int| 0u32),
{
    let mut v: Vec<u32> = Vec::new();
    let mut k: usize = 0;
    while k < n
        invariant
            k <= n,
            v@ == Seq::new(k as nat, |i: int| 0u32),
        decreases n - k,
    {
        v.push(0);
        k += 1;
        proof {
            assert(v@ =~= Seq::new(k as nat, |i: int| 0u32));
        }
    }
    v
}

/// TLB invalidate by modified virtual address: drops the cached mapping of `a`'s page.
fn tlbimva(t: &mut PageTables, a: usize)
    requires
        old(t).wf(),
    ensures
        final(t).tlb() == old(t).tlb().push(tlb_operand(a)),
        final(t).kernel() == old(t).kernel(),
        final(t).user() == old(t).user(),
        final(t).temp() == old(t).temp(),
        final(t).phys() == old(t).phys(),
        final(t).spare() == old(t).spare(),
        final(t).wf(),
{
    t.tlb.push(((a & !0xFFF) | 1) as u32);
    proof {
        assert(t.phys() == old(t).phys());
    }
}

/// A frame mapped into a slot of the temporary-mapping window; its words are
/// reached through it until it is released.
pub struct TempHandle {
    addr: usize,
}

impl TempHandle {
    /// The window slot it occupies.
    pub open spec fn slot(&self) -> int {
        (self.address() - KERNEL_TEMP_BASE) / 0x1000
    }

    /// Its address is that of a slot of the window other than the last.
    pub open spec fn wf(&self) -> bool {
        &&& KERNEL_TEMP_BASE <= self.address()
        &&& (self.address() - KERNEL_TEMP_BASE) % 0x1000 == 0
        &&& self.slot() < 1023
    }

    /// The frame it maps, as recorded in its slot.
    pub open spec fn frame_base(&self, t: &PageTables) -> u32 {
        t.temp()[self.slot()] & !0xFFFu32
    }

    /// Maps the frame at `phys` into the first free slot of the window and drops
    /// that slot's stale TLB entry.
    pub fn new(t: &mut PageTables, phys: PAddr) -> (h: TempHandle)
        requires
            old(t).wf(),
            phys + 0x13 <= u32::MAX,
            has_free_slot(old(t).temp()),
        ensures
            final(t).wf(),
            h.wf(),
            h.slot() == first_free_slot(old(t).temp()),
            is_first_free_slot(old(t).temp(), h.slot()),
            h.address() == temp_slot_addr(h.slot()),
            final(t).temp() == old(t).temp().update(h.slot(), (phys + 0x13) as u32),
            final(t).tlb() == old(t).tlb().push(tlb_operand(temp_slot_addr(h.slot()) as usize)),
            final(t).kernel() == old(t).kernel(),
            final(t).user() == old(t).user(),
            final(t).phys() == old(t).phys(),
            final(t).spare() == old(t).spare(),
    {
        let val = phys + 0x13;
        let mut i: usize = 0;
        while i < 1023
            invariant
                t.wf(),
                *t == *old(t),
                has_free_slot(t.temp()),
                phys + 0x13 <= u32::MAX,
                val == phys + 0x13,
                i <= 1023,
                forall|j: int| 0 <= j < i ==> t.temp()[j] != 0,
            decreases 1023 - i,
        {
            if t.exception_map[i] == 0 {
                t.exception_map.set(i, val);
                let addr = KERNEL_TEMP_BASE + i * 0x1000;
                proof {
                    assert(t.phys() == old(t).phys());
                    lemma_first_free_slot(old(t).temp(), i as int);
                }
                tlbimva(t, addr);
                let h = TempHandle { addr };
                proof {
                    assert(h.slot() == i);
                }
                return h;
            }
            i += 1;
        }
        proof {
            assert(false);
        }
        TempHandle { addr: KERNEL_TEMP_BASE }
    }

    /// The virtual address at which the frame is mapped.
    pub fn addr(&self) -> (r: usize)
        ensures
            r == self.address(),
    {
        self.addr
    }

    /// The virtual address at which the frame is mapped.
    pub closed spec fn address(&self) -> usize {
        self.addr
    }

    /// Word `i` of the mapped frame.
    pub fn load(&self, t: &PageTables, i: usize) -> (r: u32)
        requires
            t.wf(),
            self.wf(),
            t.phys().contains_key(self.frame_base(t)),
            i < 1024,
        ensures
            r == t.frame(self.frame_base(t))[i as int],
    {
        let slot = (self.addr - KERNEL_TEMP_BASE) / 0x1000;
        let base = t.exception_map[slot] & !0xFFF;
        t.load_word(base, i)
    }

    /// Sets word `i` of the mapped frame.
    pub fn store(&self, t: &mut PageTables, i: usize, v: u32)
        requires
            old(t).wf(),
            self.wf(),
            old(t).phys().contains_key(self.frame_base(old(t))),
            i < 1024,
        ensures
            final(t).wf(),
            final(t).phys() == old(t).phys().insert(
                self.frame_base(old(t)),
                old(t).frame(self.frame_base(old(t))).update(i as int, v),
            ),
            final(t).kernel() == old(t).kernel(),
            final(t).user() == old(t).user(),
            final(t).temp() == old(t).temp(),
            final(t).spare() == old(t).spare(),
            final(t).tlb() == old(t).tlb(),
    {
        let slot = (self.addr - KERNEL_TEMP_BASE) / 0x1000;
        let base = t.exception_map[slot] & !0xFFF;
        t.store_word(base, i, v);
    }

    /// Compare-and-exchange on word `i` of the mapped frame: writes `new` if the word
    /// equals `val`, and returns the word as it was.
    pub fn cxchg(&self, t: &mut PageTables, i: usize, val: u32, new: u32) -> (r: u32)
        requires
            old(t).wf(),
            self.wf(),
            old(t).phys().contains_key(self.frame_base(old(t))),
            i < 1024,
        ensures
            r == old(t).frame(self.frame_base(old(t)))[i as int],
            final(t).wf(),
            final(t).phys() == (if r == val {
                old(t).phys().insert(
                    self.frame_base(old(t)),
                    old(t).frame(self.frame_base(old(t))).update(i as int, new),
                )
            } else {
                old(t).phys()
            }),
            final(t).kernel() == old(t).kernel(),
            final(t).user() == old(t).user(),
            final(t).temp() == old(t).temp(),
            final(t).spare() == old(t).spare(),
            final(t).tlb() == old(t).tlb(),
    {
        let cur = self.load(t, i);
        if cur == val {
            self.store(t, i, new);
        }
        cur
    }

    /// Exchange on word `i` of the mapped frame: writes `new` and returns the word as
    /// it was.
    pub fn xchg(&self, t: &mut PageTables, i: usize, new: u32) -> (r: u32)
        requires
            old(t).wf(),
            self.wf(),
            old(t).phys().contains_key(self.frame_base(old(t))),
            i < 1024,
        ensures
            r == old(t).frame(self.frame_base(old(t)))[i as int],
            final(t).wf(),
            final(t).phys() == old(t).phys().insert(
                self.frame_base(old(t)),
                old(t).frame(self.frame_base(old(t))).update(i as int, new),
            ),
            final(t).kernel() == old(t).kernel(),
            final(t).user() == old(t).user(),
            final(t).temp() == old(t).temp(),
            final(t).spare() == old(t).spare(),
            final(t).tlb() == old(t).tlb(),
    {
        let cur = self.load(t, i);
        self.store(t, i, new);
        cur
    }

    /// Unmaps the frame: frees the slot.
    pub fn release(self, t: &mut PageTables)
        requires
            old(t).wf(),
            self.wf(),
        ensures
            final(t).wf(),
            final(t).temp() == old(t).temp().update(self.slot(), 0),
            final(t).kernel() == old(t).kernel(),
            final(t).user() == old(t).user(),
            final(t).phys() == old(t).phys(),
            final(t).spare() == old(t).spare(),
            final(t).tlb() == old(t).tlb(),
    {
        let i = (self.addr - KERNEL_TEMP_BASE) / 0x1000;
        t.exception_map.set(i, 0);
        proof {
            assert(t.phys() == old(t).phys());
        }
    }
}

/// A word stored through a temporary mapping is read back by a load of the same
/// word, and the other words of the frame keep their values.
pub proof fn lemma_store_then_load(h: &TempHandle, t: &PageTables, t2: &PageTables, i: int, j: int, v: u32)
    requires
        t.wf(),
        h.wf(),
        t.phys().contains_key(h.frame_base(t)),
        0 <= i < 1024,
        0 <= j < 1024,
        t2.phys() == t.phys().insert(h.frame_base(t), t.frame(h.frame_base(t)).update(i, v)),
        t2.temp() == t.temp(),
    ensures
        h.frame_base(t2) == h.frame_base(t),
        t2.phys().contains_key(h.frame_base(t2)),
        t2.frame(h.frame_base(t2))[i] == v,
        j != i ==> t2.frame(h.frame_base(t2))[j] == t.frame(h.frame_base(t))[j],
{
}

/// A descriptor set in a first-level table is read back as set, and the others
/// keep their values.
pub proof fn lemma_entry_store_then_load(l1: Seq<u32>, l1_2: Seq<u32>, i: int, j: int, v: u32)
    requires
        0 <= i < l1.len(),
        l1_2 == l1.update(i, v),
    ensures
        l1_2[i] == v,
        0 <= j < l1.len() && j != i ==> l1_2[j] == l1[j],
{
}

/// Mapping a frame into the window and then releasing it leaves the window as it
/// was: the slot it took is free again.
pub proof fn lemma_temp_new_then_release(t: &PageTables, t1: &PageTables, t2: &PageTables, h: &TempHandle, v: u32)
    requires
        t.wf(),
        is_first_free_slot(t.temp(), h.slot()),
        t1.temp() == t.temp().update(h.slot(), v),
        t2.temp() == t1.temp().update(h.slot(), 0),
    ensures
        t2.temp() == t.temp(),
        is_first_free_slot(t2.temp(), h.slot()),
{
    assert(t2.temp() =~= t.temp());
}

/// Clears the first kernel first-level descriptor (the identity mapping of the
/// first megabyte used during boot).
pub fn post_init(t: &mut PageTables)
    requires
        old(t).wf(),
    ensures
        final(t).wf(),
        final(t).kernel() == old(t).kernel().update(0, 0),
        final(t).user() == old(t).user(),
        final(t).temp() == old(t).temp(),
        final(t).phys() == old(t).phys(),
        final(t).spare() == old(t).spare(),
        final(t).tlb() == old(t).tlb(),
{
    t.set_kernel_entry(0, 0);
}

/// The first-level descriptor that covers `addr` in `kernel_table0`.
pub open spec fn section_entry(t: &PageTables, addr: usize) -> u32 {
    t.kernel()[(addr >> 20usize) as int]
}

/// Whether a first-level descriptor points to a second-level table.
pub open spec fn maps_page_table(e: u32) -> bool {
    e & 3 == 1
}

/// The frame holding the table (or the page) that a descriptor points to.
pub open spec fn table_frame(e: u32) -> u32 {
    e & !0xFFFu32
}

/// The descriptor that finally maps `addr` (a kernel address): the second-level
/// descriptor if its section points to a table, else the section descriptor.
pub open spec fn leaf_entry(t: &PageTables, addr: usize) -> u32 {
    let s = section_entry(t, addr);
    if maps_page_table(s) {
        t.frame(table_frame(s))[((addr >> 12usize) & 0x3FF) as int]
    } else {
        s
    }
}

/// `addr`'s offset within what its leaf descriptor maps: the page or the section.
pub open spec fn leaf_offset(t: &PageTables, addr: usize) -> usize {
    if maps_page_table(section_entry(t, addr)) {
        addr & 0xFFF
    } else {
        addr & 0xF_FFFF
    }
}

/// Whether the descriptor's mode can be read back: a second-level descriptor's
/// flags must be known ones; a section must be unmapped or kernel read-write.
pub open spec fn entry_mode_known(e: u32, page: bool) -> bool {
    if page {
        known_flags(e & 0xFFF)
    } else {
        e & 0xFFF == 0 || e & 0xFFF == 0x402
    }
}

/// The mode a descriptor is read back as.
pub open spec fn entry_mode(e: u32, page: bool) -> ProtectionMode {
    if page {
        flags_mode(e & 0xFFF)
    } else if e & 0xFFF == 0x402 {
        ProtectionMode::KernelRW
    } else {
        ProtectionMode::Unmapped
    }
}

/// What `get_info` reports for `addr`: the physical address and mode if its leaf
/// descriptor is in use, else nothing.
pub open spec fn info(t: &PageTables, addr: usize) -> Option<(PAddr, ProtectionMode)> {
    let e = leaf_entry(t, addr);
    if e & 3 != 0 {
        Some(
            (
                ((e & !0xFFFu32) + leaf_offset(t, addr)) as u32,
                entry_mode(e, maps_page_table(section_entry(t, addr))),
            ),
        )
    } else {
        None
    }
}

/// The inputs on which `get_info` completes: a kernel address whose table (if any)
/// can be mapped and read, and whose leaf descriptor, when in use, gives a physical
/// address that fits and a mode that can be read back.
pub open spec fn info_defined(t: &PageTables, addr: usize) -> bool {
    let s = section_entry(t, addr);
    let e = leaf_entry(t, addr);
    &&& KERNEL_BASE <= addr <= u32::MAX
    &&& maps_page_table(s) ==> has_free_slot(t.temp()) && t.phys().contains_key(table_frame(s))
    &&& e & 3 != 0 ==> (e & !0xFFFu32) + leaf_offset(t, addr) <= u32::MAX && entry_mode_known(
        e,
        maps_page_table(s),
    )
}

/// Facts on a descriptor's frame and type bits.
proof fn lemma_frame_bits(e: u32)
    by (bit_vector)
    ensures
        e & !0xFFFu32 <= 0xFFFF_F000,
        (e & !0xFFFu32) & 0xFFF == 0,
        ((e & !0xFFFu32) + 0x13) as u32 & !0xFFFu32 == e & !0xFFFu32,
        (e & !0xFFFu32) & !0xFFFu32 == e & !0xFFFu32,
        e & 0xFFF != 0 ==> e != 0,
        e == 0 ==> e & 0xFFF == 0,
{
}

proof fn lemma_low_bits(x: usize)
    by (bit_vector)
    ensures
        x & 0x3FF < 1024,
{
}

/// Facts on the fields of a 32-bit virtual address.
proof fn lemma_addr_bits(a: usize)
    by (bit_vector)
    requires
        a <= 0xFFFF_FFFF,
    ensures
        (a >> 12usize) >> 8usize == a >> 20usize,
        a >> 20usize < 4096,
        (a >> 12usize) >> 10usize == a >> 22usize,
        a >> 22usize < 1024,
        a >> 20usize == (a >> 22usize) * 4 + ((a >> 20usize) & 3),
        (a >> 20usize) & 3 < 4,
        a >= 0x8000_0000 ==> a >> 22usize >= 0x200,
        a & 0xFFF <= 0xFFF,
{
}

/// Which first-level table a section index is read from.
#[derive(Clone, Copy, Debug)]
pub enum PageEntryRegion {
    NonGlobal,
    Global,
}

impl PageEntryRegion {
    /// The section descriptor `idx` of the region's first-level table (only the
    /// global table, `kernel_table0`, is reachable).
    pub fn get_section_ent(&self, t: &PageTables, idx: usize) -> (r: u32)
        requires
            t.wf(),
            idx < 4096,
            *self is Global,
        ensures
            r == t.kernel()[idx as int],
    {
        t.kernel_entry(idx)
    }
}

/// The descriptor that maps an address: a section descriptor of a first-level
/// table, or a second-level descriptor reached through a temporary mapping of
/// its table.
pub enum PageEntry {
    Section { rgn: PageEntryRegion, idx: usize, ofs: usize },
    Page { mapping: TempHandle, idx: usize, ofs: usize },
}

impl PageEntry {
    /// Whether it is a second-level descriptor.
    pub open spec fn is_page(&self) -> bool {
        self is Page
    }

    /// The offset within the section or page.
    pub open spec fn offset(&self) -> usize {
        match *self {
            PageEntry::Section { ofs, .. } => ofs,
            PageEntry::Page { ofs, .. } => ofs,
        }
    }

    pub open spec fn wf(&self, t: &PageTables) -> bool {
        match *self {
            PageEntry::Section { rgn, idx, .. } => rgn is Global && idx < 4096,
            PageEntry::Page { mapping, .. } => mapping.wf() && t.phys().contains_key(
                mapping.frame_base(t),
            ),
        }
    }

    /// The descriptor's value.
    pub open spec fn value(&self, t: &PageTables) -> u32 {
        match *self {
            PageEntry::Section { idx, .. } => t.kernel()[idx as int],
            PageEntry::Page { mapping, idx, .. } => t.frame(mapping.frame_base(t))[(idx & 0x3FF) as int],
        }
    }

    /// The descriptor for the kernel address `addr`; a second-level table is mapped
    /// into the temporary window to reach it.
    pub fn get(t: &mut PageTables, addr: usize) -> (r: PageEntry)
        requires
            old(t).wf(),
            KERNEL_BASE <= addr <= u32::MAX,
            maps_page_table(section_entry(old(t), addr)) ==> has_free_slot(old(t).temp()),
        ensures
            final(t).wf(),
            r.is_page() == maps_page_table(section_entry(old(t), addr)),
            r.offset() == leaf_offset(old(t), addr),
            !r.is_page() ==> r.offset() == addr & 0xF_FFFF,
            r.is_page() ==> r.offset() == addr & 0xFFF,
            !r.is_page() ==> r->Section_rgn is Global && r->Section_idx == addr >> 20usize,
            r.is_page() ==> r->Page_idx == addr >> 12usize,
            !r.is_page() ==> *final(t) == *old(t) && r.wf(final(t)) && r.value(final(t)) == leaf_entry(old(t), addr),
            r.is_page() ==> ({
                let s = first_free_slot(old(t).temp());
                let f = table_frame(section_entry(old(t), addr));
                &&& r->mapping.wf()
                &&& r->mapping.slot() == s
                &&& is_first_free_slot(old(t).temp(), s)
                &&& r->mapping.frame_base(final(t)) == f
                &&& final(t).temp() == old(t).temp().update(s, (f + 0x13) as u32)
                &&& final(t).tlb() == old(t).tlb().push(tlb_operand(temp_slot_addr(s) as usize))
                &&& final(t).kernel() == old(t).kernel()
                &&& final(t).user() == old(t).user()
                &&& final(t).phys() == old(t).phys()
                &&& final(t).spare() == old(t).spare()
                &&& old(t).phys().contains_key(f) ==> r.wf(final(t)) && r.value(final(t)) == leaf_entry(old(t), addr)
            }),
    {
        let rgn = PageEntryRegion::Global;
        let p_idx = addr >> 12;
        proof {
            lemma_addr_bits(addr);
        }
        let sect_ent = rgn.get_section_ent(t, p_idx >> 8);
        if sect_ent & 0b11 == 0b01 {
            proof {
                lemma_frame_bits(sect_ent);
            }
            let mapping = TempHandle::new(t, sect_ent & !0xFFF);
            PageEntry::Page { mapping, idx: p_idx, ofs: addr & 0xFFF }
        } else {
            PageEntry::Section { rgn, idx: p_idx >> 8, ofs: addr & 0xF_FFFF }
        }
    }

    /// Whether the descriptor is in use (its two low bits are not both clear).
    pub fn is_reserved(&self, t: &PageTables) -> (r: bool)
        requires
            t.wf(),
            self.wf(t),
        ensures
            r == (self.value(t) & 3 != 0),
    {
        match self {
            PageEntry::Section { rgn, idx, .. } => rgn.get_section_ent(t, *idx) & 3 != 0,
            PageEntry::Page { mapping, idx, .. } => {
                proof {
                    lemma_low_bits(*idx);
                }
                mapping.load(t, *idx & 0x3FF) & 3 != 0
            },
        }
    }

    /// The physical address: the descriptor's frame plus the offset.
    pub fn phys_addr(&self, t: &PageTables) -> (r: PAddr)
        requires
            t.wf(),
            self.wf(t),
            (self.value(t) & !0xFFFu32) + self.offset() <= u32::MAX,
        ensures
            r == (self.value(t) & !0xFFFu32) + self.offset(),
    {
        match self {
            PageEntry::Section { rgn, idx, ofs } => (rgn.get_section_ent(t, *idx) & !0xFFF) + *ofs as u32,
            PageEntry::Page { mapping, idx, ofs } => {
                proof {
                    lemma_low_bits(*idx);
                }
                (mapping.load(t, *idx & 0x3FF) & !0xFFF) + *ofs as u32
            },
        }
    }

    /// The mode the descriptor is read back as.
    pub fn mode(&self, t: &PageTables) -> (r: ProtectionMode)
        requires
            t.wf(),
            self.wf(t),
            entry_mode_known(self.value(t), self.is_page()),
        ensures
            r == entry_mode(self.value(t), self.is_page()),
    {
        match self {
            PageEntry::Section { rgn, idx, .. } => {
                let v = rgn.get_section_ent(t, *idx) & 0xFFF;
                if v == 0x402 {
                    ProtectionMode::KernelRW
                } else {
                    ProtectionMode::Unmapped
                }
            },
            PageEntry::Page { mapping, idx, .. } => {
                proof {
                    lemma_low_bits(*idx);
                }
                flags_to_prot_mode(mapping.load(t, *idx & 0x3FF) & 0xFFF)
            },
        }
    }

    /// Gives up the descriptor, unmapping its table from the temporary window.
    pub fn release(self, t: &mut PageTables)
        requires
            old(t).wf(),
            self.wf(old(t)),
        ensures
            final(t).wf(),
            !self.is_page() ==> *final(t) == *old(t),
            self.is_page() ==> final(t).temp() == old(t).temp().update(self->mapping.slot(), 0),
            final(t).kernel() == old(t).kernel(),
            final(t).user() == old(t).user(),
            final(t).phys() == old(t).phys(),
            final(t).spare() == old(t).spare(),
            final(t).tlb() == old(t).tlb(),
    {
        match self {
            PageEntry::Section { .. } => {},
            PageEntry::Page { mapping, .. } => mapping.release(t),
        }
    }
}

/// The physical address and mode through which the kernel address `addr` is
/// mapped, or `None` if its descriptor is not in use.
pub fn get_info(t: &mut PageTables, addr: usize) -> (r: Option<(PAddr, ProtectionMode)>)
    requires
        old(t).wf(),
        info_defined(old(t), addr),
    ensures
        r == info(old(t), addr),
        final(t).wf(),
        final(t).tlb() == (if maps_page_table(section_entry(old(t), addr)) {
            old(t).tlb().push(tlb_operand(temp_slot_addr(first_free_slot(old(t).temp())) as usize))
        } else {
            old(t).tlb()
        }),
        final(t).kernel() == old(t).kernel(),
        final(t).user() == old(t).user(),
        final(t).temp() == old(t).temp(),
        final(t).phys() == old(t).phys(),
        final(t).spare() == old(t).spare(),
{
    let ghost t0 = *t;
    let pe = PageEntry::get(t, addr);
    let res = if pe.is_reserved(t) {
        Some((pe.phys_addr(t), pe.mode(t)))
    } else {
        None
    };
    pe.release(t);
    proof {
        if maps_page_table(section_entry(&t0, addr)) {
            assert(t.temp() =~= t0.temp());
        }
    }
    res
}

/// Which group of four first-level descriptors (4 MiB) covers `a`.
pub open spec fn l1_group(a: usize) -> int {
    (a >> 22usize) as int
}

/// Whether `a` is mapped through the user first-level table (the lower 2 GiB).
pub open spec fn l1_user(a: usize) -> bool {
    l1_group(a) < 0x200
}

/// Index of the first descriptor of `a`'s group.
pub open spec fn l1_base(a: usize) -> int {
    l1_group(a) * 4
}

/// The first descriptor of `a`'s group.
pub open spec fn l1_entry(t: &PageTables, a: usize) -> u32 {
    if l1_user(a) {
        t.user()[l1_base(a)]
    } else {
        t.kernel()[l1_base(a)]
    }
}

/// Index of `a`'s descriptor within its 4 KiB second-level table frame.
pub open spec fn table_index(a: usize) -> usize {
    (a >> 12usize) & 0x3FF
}

/// Whether the lookup of `a`'s table allocates a frame: the group's first
/// descriptor has no type bits.
pub open spec fn allocates(t: &PageTables, a: usize) -> bool {
    l1_entry(t, a) & 0xFFF == 0
}

/// Whether the lookup installs the new frame: the group's first descriptor is zero.
pub open spec fn installs(t: &PageTables, a: usize) -> bool {
    l1_entry(t, a) == 0
}

/// The frame the physical allocator hands out next.
pub open spec fn new_table(t: &PageTables) -> u32 {
    t.spare().last()
}

/// The second-level table frame that the lookup of `a` yields.
pub open spec fn table_of(t: &PageTables, a: usize) -> u32 {
    if installs(t, a) {
        new_table(t)
    } else {
        table_frame(l1_entry(t, a))
    }
}

/// A first-level table with the four descriptors of the group at `base` pointing
/// to the four 1 KiB tables of frame `f`.
pub open spec fn installed(l1: Seq<u32>, base: int, f: u32) -> Seq<u32> {
    l1.update(base, (f + 1) as u32).update(base + 1, (f + 0x401) as u32).update(
        base + 2,
        (f + 0x801) as u32,
    ).update(base + 3, (f + 0xC01) as u32)
}

/// A frame of zeros.
pub open spec fn zero_frame() -> Seq<u32> {
    Seq::new(1024, |i: int| 0u32)
}

/// `kernel_table0` after the lookup of `a` (with allocation).
pub open spec fn kernel_after(t: &PageTables, a: usize) -> Seq<u32> {
    if installs(t, a) && !l1_user(a) {
        installed(t.kernel(), l1_base(a), new_table(t))
    } else {
        t.kernel()
    }
}

/// The user first-level table after the lookup of `a` (with allocation).
pub open spec fn user_after(t: &PageTables, a: usize) -> Seq<u32> {
    if installs(t, a) && l1_user(a) {
        installed(t.user(), l1_base(a), new_table(t))
    } else {
        t.user()
    }
}

/// Physical memory after the lookup of `a` (with allocation): an allocated frame is
/// zeroed, whether or not it is then installed.
pub open spec fn phys_after(t: &PageTables, a: usize) -> Map<u32, Seq<u32>> {
    if allocates(t, a) {
        t.phys().insert(new_table(t), zero_frame())
    } else {
        t.phys()
    }
}

/// The spare frames after the lookup of `a` (with allocation).
pub open spec fn spare_after(t: &PageTables, a: usize) -> Seq<u32> {
    if installs(t, a) {
        t.spare().drop_last()
    } else {
        t.spare()
    }
}

/// The TLB invalidations after the lookup of `a` (with allocation): zeroing a frame
/// maps it into the first free window slot.
pub open spec fn tlb_after(t: &PageTables, a: usize) -> Seq<u32> {
    if allocates(t, a) {
        t.tlb().push(tlb_operand(temp_slot_addr(first_free_slot(t.temp())) as usize))
    } else {
        t.tlb()
    }
}

/// The inputs on which the lookup of `a`'s table completes: a 32-bit address whose
/// group descriptor is a table or has no type bits, and, if a frame is to be
/// allocated, a spare frame and a free window slot.
pub open spec fn lookup_defined(t: &PageTables, a: usize, alloc: bool) -> bool {
    &&& a <= u32::MAX
    &&& l1_entry(t, a) & 0xFFF == 0 || l1_entry(t, a) & 0xFFF == 1
    &&& alloc && allocates(t, a) ==> t.spare().len() > 0 && has_free_slot(t.temp())
}

proof fn lemma_aligned_frame(f: u32)
    by (bit_vector)
    requires
        f & 0xFFF == 0,
    ensures
        f & !0xFFFu32 == f,
        ((f + 0x13) as u32) & !0xFFFu32 == f,
        f <= 0xFFFF_F000,
        f + 0xC01 <= u32::MAX,
        ((f + 1) as u32) & 0xFFF == 1,
        ((f + 1) as u32) & !0xFFFu32 == f,
        ((f + 1) as u32) & 3 == 1,
        ((f + 0x401) as u32) & 3 == 1,
        ((f + 0x401) as u32) & !0xFFFu32 == f,
        ((f + 0x801) as u32) & 3 == 1,
        ((f + 0x801) as u32) & !0xFFFu32 == f,
        ((f + 0xC01) as u32) & 3 == 1,
        ((f + 0xC01) as u32) & !0xFFFu32 == f,
{
}

/// The physical address of the second-level table that maps `vaddr`, and the
/// descriptor's index in it. With `alloc`, a group without a table gets a freshly
/// zeroed frame; if its first descriptor is not zero, the frame goes back to the
/// allocator and the descriptor's frame is used. Without `alloc`, such a group
/// gives `None`.
fn get_table_addr(t: &mut PageTables, vaddr: usize, alloc: bool) -> (r: Option<(PAddr, usize)>)
    requires
        old(t).wf(),
        lookup_defined(old(t), vaddr, alloc),
    ensures
        final(t).wf(),
        alloc || !allocates(old(t), vaddr) ==> r == Some((table_of(old(t), vaddr), table_index(vaddr))),
        !alloc && allocates(old(t), vaddr) ==> r is None,
        alloc ==> final(t).kernel() == kernel_after(old(t), vaddr) && final(t).user() == user_after(
            old(t),
            vaddr,
        ) && final(t).phys() == phys_after(old(t), vaddr) && final(t).spare() == spare_after(
            old(t),
            vaddr,
        ) && final(t).tlb() == tlb_after(old(t), vaddr),
        !alloc ==> *final(t) == *old(t),
        final(t).temp() == old(t).temp(),
        r matches Some(res) ==> res.0 & 0xFFF == 0,
        alloc && allocates(old(t), vaddr) ==> phys_after(old(t), vaddr).contains_key(new_table(old(t))),
{
    let addr = vaddr;
    let page = addr >> 12;
    let ttbr_ofs = page >> 10;
    let tab_idx = page & 0x3FF;
    proof {
        lemma_addr_bits(addr);
        lemma_frame_bits(l1_entry(old(t), vaddr));
        if old(t).spare().len() > 0 {
            lemma_aligned_frame(old(t).spare().last());
        }
    }
    let user = ttbr_ofs < 0x800 / 4;
    let base = ttbr_ofs * 4;
    let ent_v = t.l1_load(user, base);
    if ent_v & 0xFFF == 0 {
        if alloc {
            let frame = match t.allocate_bare() {
                Some(f) => f,
                None => {
                    proof {
                        assert(false);
                    }
                    0
                },
            };
            proof {
                lemma_aligned_frame(frame);
            }
            let ghost t1 = *t;
            let h = TempHandle::new(t, frame);
            let mut j: usize = 0;
            while j < 1024
                invariant
                    t.wf(),
                    h.wf(),
                    h.frame_base(t) == frame,
                    t.phys().contains_key(frame),
                    j <= 1024,
                    forall|k: int| 0 <= k < j ==> t.frame(frame)[k] == 0,
                    t.phys().remove(frame) == t1.phys().remove(frame),
                    t.kernel() == t1.kernel(),
                    t.user() == t1.user(),
                    t.spare() == t1.spare(),
                    t.tlb() == t1.tlb().push(tlb_operand(temp_slot_addr(h.slot()) as usize)),
                    t.temp() == t1.temp().update(h.slot(), (frame + 0x13) as u32),
                decreases 1024 - j,
            {
                h.store(t, j, 0);
                proof {
                    assert(t.phys().remove(frame) =~= t1.phys().remove(frame));
                }
                j += 1;
            }
            proof {
                assert(t.frames@.contains_key(frame));
                assert(t.frame(frame).len() == 1024);
                assert(t.frame(frame) =~= zero_frame());
                assert(t.phys() =~= t1.phys().insert(frame, zero_frame())) by {
                    assert forall|k: u32| #[trigger] t.phys().contains_key(k) == t1.phys().insert(frame, zero_frame()).contains_key(k) by {
                        if k != frame {
                            assert(t.phys().remove(frame).contains_key(k) == t.phys().contains_key(k));
                            assert(t1.phys().remove(frame).contains_key(k) == t1.phys().contains_key(k));
                        }
                    }
                    assert forall|k: u32| #[trigger] t.phys().contains_key(k) implies t.phys()[k] == t1.phys().insert(frame, zero_frame())[k] by {
                        if k != frame {
                            assert(t.phys().remove(frame)[k] == t.phys()[k]);
                            assert(t1.phys().remove(frame).contains_key(k));
                            assert(t1.phys().remove(frame)[k] == t1.phys()[k]);
                        }
                    }
                }
                assert(t1.temp()[h.slot()] == 0);
            }
            h.release(t);
            proof {
                assert(t.temp() =~= old(t).temp());
            }
            let cur = t.l1_cxchg(user, base, 0, frame + 0x1);
            if cur != 0 {
                t.deref_frame(frame);
                proof {
                    assert(t.spare() =~= old(t).spare());
                }
                Some((cur & !0xFFF, tab_idx))
            } else {
                t.l1_store(user, base + 1, frame + 0x400 + 0x1);
                t.l1_store(user, base + 2, frame + 0x800 + 0x1);
                t.l1_store(user, base + 3, frame + 0xC00 + 0x1);
                Some((frame & !0xFFF, tab_idx))
            }
        } else {
            None
        }
    } else {
        proof {
            assert(ent_v == l1_entry(old(t), vaddr));
            lemma_frame_bits(ent_v);
            assert(!installs(old(t), vaddr));
            assert(tab_idx == table_index(vaddr));
        }
        Some((ent_v & !0xFFF, tab_idx))
    }
}

/// The second-level descriptor of `a` as the lookup (with allocation) leaves it.
pub open spec fn looked_up_entry(t: &PageTables, a: usize) -> u32 {
    phys_after(t, a)[table_of(t, a)][table_index(a) as int]
}

/// The inputs on which the descriptor of `a` can be edited: its table can be
/// looked up (allocating one if needed), mapped into the window and read.
pub open spec fn edit_defined(t: &PageTables, a: usize) -> bool {
    &&& lookup_defined(t, a, true)
    &&& has_free_slot(t.temp())
    &&& phys_after(t, a).contains_key(table_of(t, a))
}

/// `t2` is `t` after the lookup of `a`'s table (with allocation) and the setting of
/// `a`'s second-level descriptor to `v` through a temporary mapping, followed by the
/// invalidation of `a`'s TLB entry.
pub open spec fn edited(t: &PageTables, t2: &PageTables, a: usize, v: u32) -> bool {
    let tab = table_of(t, a);
    &&& t2.kernel() == kernel_after(t, a)
    &&& t2.user() == user_after(t, a)
    &&& t2.spare() == spare_after(t, a)
    &&& t2.temp() == t.temp()
    &&& t2.phys() == phys_after(t, a).insert(tab, phys_after(t, a)[tab].update(table_index(a) as int, v))
    &&& t2.tlb() == tlb_after(t, a).push(tlb_operand(temp_slot_addr(first_free_slot(t.temp())) as usize)).push(
        tlb_operand(a),
    )
}

/// Whether the descriptor of `a` can be edited (by `map`, `reprotect` or `unmap`),
/// and if so the value it has once its table is looked up.
pub fn edit_ready(t: &PageTables, a: usize) -> (r: Option<u32>)
    requires
        t.wf(),
    ensures
        r is Some <==> edit_defined(t, a),
        r matches Some(e) ==> e == looked_up_entry(t, a),
{
    if (a as u64) > (u32::MAX as u64) {
        return None;
    }
    proof {
        lemma_addr_bits(a);
    }
    let page = a >> 12;
    let ttbr_ofs = page >> 10;
    let user = ttbr_ofs < 0x800 / 4;
    let base = ttbr_ofs * 4;
    let e = if user {
        t.user_entry(base)
    } else {
        t.kernel_entry(base)
    };
    assert(e == l1_entry(t, a));
    let ty = e & 0xFFF;
    if ty != 0 && ty != 1 {
        return None;
    }
    let mut i: usize = 0;
    let mut found = false;
    while i < 1023
        invariant
            t.wf(),
            i <= 1023,
            found ==> has_free_slot(t.temp()),
            !found ==> forall|j: int| 0 <= j < i ==> t.temp()[j] != 0,
        decreases 1023 - i,
    {
        if t.temp_entry(i) == 0 {
            found = true;
        }
        i += 1;
    }
    if !found {
        return None;
    }
    let idx = page & 0x3FF;
    proof {
        lemma_low_bits(page);
        lemma_frame_bits(e);
    }
    if ty == 0 && t.spare_count() == 0 {
        return None;
    }
    if e == 0 {
        proof {
            assert(zero_frame()[idx as int] == 0);
        }
        return Some(0);
    }
    proof {
        if ty == 0 {
            let nt = new_table(t);
            assert(t.spare().contains(nt)) by {
                assert(t.spare()[t.spare().len() - 1] == nt);
            }
            if user {
                assert(t.user()[base as int] != 0);
            } else {
                assert(t.kernel()[base as int] != 0);
            }
            assert(table_frame(e) != nt);
        }
    }
    t.frame_word(e & !0xFFF, idx)
}

/// Maps the page at `a` to the physical page `p` with `mode`. The descriptor must be
/// unused; a table is allocated for the address's group if it has none.
pub fn map(t: &mut PageTables, a: usize, p: PAddr, mode: ProtectionMode)
    requires
        old(t).wf(),
        edit_defined(old(t), a),
        mode != ProtectionMode::Unmapped,
        looked_up_entry(old(t), a) == 0,
        p + mode_flags(mode) <= u32::MAX,
    ensures
        final(t).wf(),
        edited(old(t), final(t), a, (p + mode_flags(mode)) as u32),
{
    map_int(t, a, p, mode)
}

fn map_int(t: &mut PageTables, a: usize, p: PAddr, mode: ProtectionMode)
    requires
        old(t).wf(),
        edit_defined(old(t), a),
        mode != ProtectionMode::Unmapped,
        looked_up_entry(old(t), a) == 0,
        p + mode_flags(mode) <= u32::MAX,
    ensures
        final(t).wf(),
        edited(old(t), final(t), a, (p + mode_flags(mode)) as u32),
{
    let ghost t0 = *t;
    let (tab_phys, idx) = match get_table_addr(t, a, true) {
        Some(res) => res,
        None => {
            proof {
                assert(false);
            }
            (0, 0)
        },
    };
    proof {
        lemma_aligned_frame(tab_phys);
        lemma_low_bits(a >> 12usize);
    }
    let mh = TempHandle::new(t, tab_phys);
    let mode_flags = prot_mode_to_flags(mode);
    let old = mh.cxchg(t, idx, 0, p + mode_flags);
    tlbimva(t, a);
    mh.release(t);
    proof {
        assert(t.temp() =~= t0.temp());
    }
}

/// Changes the mode of the mapped page at `a`, keeping its frame.
pub fn reprotect(t: &mut PageTables, a: usize, mode: ProtectionMode)
    requires
        old(t).wf(),
        edit_defined(old(t), a),
        mode != ProtectionMode::Unmapped,
        looked_up_entry(old(t), a) != 0,
    ensures
        final(t).wf(),
        edited(
            old(t),
            final(t),
            a,
            ((looked_up_entry(old(t), a) & !0xFFFu32) + mode_flags(mode)) as u32,
        ),
{
    let ghost t0 = *t;
    let (tab_phys, idx) = match get_table_addr(t, a, true) {
        Some(res) => res,
        None => {
            proof {
                assert(false);
            }
            (0, 0)
        },
    };
    proof {
        lemma_aligned_frame(tab_phys);
        lemma_low_bits(a >> 12usize);
    }
    let mh = TempHandle::new(t, tab_phys);
    proof {
        lemma_mode_flags_mark_in_use(mode, mode);
    }
    let mode_flags = prot_mode_to_flags(mode);
    let v = mh.load(t, idx);
    proof {
        lemma_frame_bits(v);
        lemma_descriptor_bits(v & !0xFFFu32, mode_flags);
    }
    let old = mh.cxchg(t, idx, v, (v & !0xFFF) + mode_flags);
    tlbimva(t, a);
    mh.release(t);
    proof {
        assert(t.temp() =~= t0.temp());
    }
}

/// What `unmap` returns for a descriptor: its frame if it was in use.
pub open spec fn unmapped_frame(e: u32) -> Option<PAddr> {
    if e & 3 == 0 {
        None
    } else {
        Some(e & !0xFFFu32)
    }
}

/// Clears the descriptor of `a` and returns the frame it mapped, if it was in use.
pub fn unmap(t: &mut PageTables, a: usize) -> (r: Option<PAddr>)
    requires
        old(t).wf(),
        edit_defined(old(t), a),
    ensures
        final(t).wf(),
        edited(old(t), final(t), a, 0),
        r == unmapped_frame(looked_up_entry(old(t), a)),
{
    let ghost t0 = *t;
    let (tab_phys, idx) = match get_table_addr(t, a, true) {
        Some(res) => res,
        None => {
            proof {
                assert(false);
            }
            (0, 0)
        },
    };
    proof {
        lemma_aligned_frame(tab_phys);
        lemma_low_bits(a >> 12usize);
    }
    let mh = TempHandle::new(t, tab_phys);
    let old_v = mh.xchg(t, idx, 0);
    tlbimva(t, a);
    mh.release(t);
    proof {
        assert(t.temp() =~= t0.temp());
    }
    if old_v & 3 == 0 {
        None
    } else {
        Some(old_v & !0xFFF)
    }
}

/// What the hardware's address lookup reports for `addr`, given the PAR value it
/// left: the physical address if it succeeded, else nothing.
pub open spec fn par_result(addr: usize, par: u32) -> Option<PAddr> {
    if par & 3 == 0 {
        Some((par & !0xFFFu32) | (addr as u32 & 0xFFFu32))
    } else {
        None
    }
}

/// The physical address `addr` is mapped to, from `par`, the PAR register after the
/// privileged-read address operation (ATS1CPR) on `addr`. A fault (bit 0) gives `None`;
/// supersection results are not handled.
fn get_phys_opt(addr: usize, par: u32) -> (r: Option<PAddr>)
    requires
        par & 3 != 2,
    ensures
        r == par_result(addr, par),
        r is Some <==> par & 3 == 0,
        r matches Some(p) ==> p & !0xFFFu32 == par & !0xFFFu32 && p & 0xFFF == addr as u32 & 0xFFF,
{
    proof {
        lemma_par_result_bits(addr, par);
    }
    let res = par;
    if res & 3 == 0 {
        Some((res & !0xFFF) | (addr as u32 & 0xFFF))
    } else {
        None
    }
}

/// A successful lookup (PAR bit 0 and 1 clear) gives the PAR's page with the
/// address's offset within its page; any other gives nothing.
pub proof fn lemma_par_result_bits(addr: usize, par: u32)
    ensures
        par_result(addr, par) is Some <==> par & 3 == 0,
        par_result(addr, par) matches Some(p) ==> p & !0xFFFu32 == par & !0xFFFu32 && p & 0xFFF == addr as u32
            & 0xFFF,
{
    let a = addr as u32;
    assert(((par & !0xFFFu32) | (a & 0xFFFu32)) & !0xFFFu32 == par & !0xFFFu32 && ((par & !0xFFFu32) | (a
        & 0xFFFu32)) & 0xFFF == a & 0xFFF) by (bit_vector);
}

/// Whether `addr` is mapped, given the PAR value after looking it up.
pub fn is_reserved(addr: usize, par: u32) -> (r: bool)
    requires
        par & 3 != 2,
    ensures
        r == par_result(addr, par) is Some,
        r == (par & 3 == 0),
{
    get_phys_opt(addr, par).is_some()
}

/// The physical address of `addr`, or 0 if it is not mapped, given the PAR value
/// after looking it up.
pub fn get_phys(addr: usize, par: u32) -> (r: PAddr)
    requires
        par & 3 != 2,
    ensures
        r == (match par_result(addr, par) {
            Some(p) => p,
            None => 0,
        }),
        par & 3 == 0 ==> r & !0xFFFu32 == par & !0xFFFu32 && r & 0xFFF == addr as u32 & 0xFFF,
        par & 3 != 0 ==> r == 0,
{
    match get_phys_opt(addr, par) {
        Some(p) => p,
        None => 0,
    }
}

proof fn lemma_descriptor_bits(p: u32, flags: u32)
    by (bit_vector)
    requires
        p & 0xFFF == 0,
        flags < 0x1000,
    ensures
        p + flags <= u32::MAX,
        ((p + flags) as u32) & !0xFFFu32 == p,
        ((p + flags) as u32) & 0xFFF == flags,
        ((p + flags) as u32) & 3 == flags & 3,
{
}

/// Installing a table for a kernel address's group points every section
/// descriptor of the group at it, so that the section covering the address
/// leads to the installed table.
pub proof fn lemma_installed_table_covers_group(t: &PageTables, t2: &PageTables, a: usize, v: u32)
    requires
        t.wf(),
        lookup_defined(t, a, true),
        installs(t, a),
        !l1_user(a),
        edited(t, t2, a, v),
    ensures
        maps_page_table(section_entry(t2, a)),
        table_frame(section_entry(t2, a)) == table_of(t, a),
{
    lemma_frame_bits(l1_entry(t, a));
    let f = new_table(t);
    assert(t.spare().len() > 0);
    assert(t.spare()[t.spare().len() - 1] & 0xFFF == 0);
    assert(f & 0xFFF == 0);
    let base = l1_base(a);
    let k = (a >> 20usize) & 3;
    lemma_addr_bits(a);
    lemma_aligned_frame(f);
    let s2 = t2.kernel();
    assert(s2 == installed(t.kernel(), base, f));
    let idx = (a >> 20usize) as int;
    if k == 0 {
        assert(s2[idx] == (f + 1) as u32);
    } else if k == 1 {
        assert(s2[idx] == (f + 0x401) as u32);
    } else if k == 2 {
        assert(s2[idx] == (f + 0x801) as u32);
    } else {
        assert(s2[idx] == (f + 0xC01) as u32);
    }
}

/// Mapping a page and then asking for the kernel address's mapping gives the page's
/// physical address (plus the offset) and the mode it was mapped with, provided
/// the section covering the address leads to the table that was edited (as it does
/// once the group's table has been installed).
pub proof fn lemma_map_then_get_info(
    t: &PageTables,
    t2: &PageTables,
    a: usize,
    p: PAddr,
    mode: ProtectionMode,
)
    requires
        t.wf(),
        t2.wf(),
        edit_defined(t, a),
        mode != ProtectionMode::Unmapped,
        looked_up_entry(t, a) == 0,
        p & 0xFFF == 0,
        KERNEL_BASE <= a,
        edited(t, t2, a, (p + mode_flags(mode)) as u32),
        installs(t, a) || (maps_page_table(section_entry(t2, a)) && table_frame(section_entry(t2, a))
            == table_of(t, a)),
    ensures
        info_defined(t2, a),
        info(t2, a) == Some(((p + (a & 0xFFF)) as u32, mode)),
{
    lemma_mode_flags_mark_in_use(mode, mode);
    lemma_flags_round_trip(mode, 0);
    lemma_descriptor_bits(p, mode_flags(mode));
    if installs(t, a) {
        lemma_addr_bits(a);
        assert(!l1_user(a));
        lemma_installed_table_covers_group(t, t2, a, (p + mode_flags(mode)) as u32);
    }
    let tab = table_of(t, a);
    let e = (p + mode_flags(mode)) as u32;
    assert(t2.phys()[tab] == phys_after(t, a)[tab].update(table_index(a) as int, e));
    lemma_low_bits(a >> 12usize);
    assert(leaf_entry(t2, a) == e);
    lemma_addr_bits(a);
    lemma_aligned_frame(p);
}

/// A kernel address covered by a kernel read-write section is reported at the
/// section's base plus the address's offset within its 1 MiB section.
pub proof fn lemma_section_get_info(t: &PageTables, addr: usize)
    requires
        t.wf(),
        KERNEL_BASE <= addr <= u32::MAX,
        section_entry(t, addr) & 0xFFF == 0x402,
        (section_entry(t, addr) & !0xFFFu32) + (addr & 0xF_FFFF) <= u32::MAX,
    ensures
        info_defined(t, addr),
        info(t, addr) == Some(
            (((section_entry(t, addr) & !0xFFFu32) + (addr & 0xF_FFFF)) as u32, ProtectionMode::KernelRW),
        ),
{
    let e = section_entry(t, addr);
    assert(e & 0xFFF == 0x402 ==> e & 3 == 2 && e & 3 != 0) by (bit_vector);
    assert(!maps_page_table(e));
    assert(leaf_entry(t, addr) == e);
    assert(leaf_offset(t, addr) == addr & 0xF_FFFF);
}

/// After the descriptor of a kernel address is cleared, asking for its mapping
/// gives nothing, provided the section covering the address leads to the edited
/// table.
pub proof fn lemma_unmap_then_get_info(t: &PageTables, t2: &PageTables, a: usize)
    requires
        t.wf(),
        t2.wf(),
        edit_defined(t, a),
        KERNEL_BASE <= a,
        edited(t, t2, a, 0),
        installs(t, a) || (maps_page_table(section_entry(t2, a)) && table_frame(section_entry(t2, a))
            == table_of(t, a)),
    ensures
        info_defined(t2, a),
        info(t2, a) is None,
{
    lemma_addr_bits(a);
    if installs(t, a) {
        assert(!l1_user(a));
        lemma_installed_table_covers_group(t, t2, a, 0);
    }
    let tab = table_of(t, a);
    assert(t2.phys()[tab] == phys_after(t, a)[tab].update(table_index(a) as int, 0));
    lemma_low_bits(a >> 12usize);
    assert(leaf_entry(t2, a) == 0);
    lemma_frame_bits(0);
    assert(0u32 & 3 == 0) by (bit_vector);
}

/// After the descriptor of `a` is edited, it can be edited again: its lookup now
/// finds the same table, and the descriptor holds the value written.
pub proof fn lemma_edit_again(t: &PageTables, t2: &PageTables, a: usize, v: u32)
    requires
        t.wf(),
        t2.wf(),
        edit_defined(t, a),
        edited(t, t2, a, v),
    ensures
        edit_defined(t2, a),
        !installs(t2, a),
        table_of(t2, a) == table_of(t, a),
        looked_up_entry(t2, a) == v,
{
    let tab = table_of(t, a);
    lemma_frame_bits(l1_entry(t, a));
    lemma_addr_bits(a);
    lemma_low_bits(a >> 12usize);
    if installs(t, a) {
        let f = new_table(t);
        assert(t.spare().len() > 0);
        assert(t.spare()[t.spare().len() - 1] & 0xFFF == 0);
        lemma_aligned_frame(f);
        if l1_user(a) {
            assert(t2.user() == installed(t.user(), l1_base(a), f));
        } else {
            assert(t2.kernel() == installed(t.kernel(), l1_base(a), f));
        }
        assert(l1_entry(t2, a) == (f + 1) as u32);
        lemma_frame_bits(l1_entry(t2, a));
        assert(table_of(t2, a) == tab);
        assert(phys_after(t2, a) == t2.phys());
    } else {
        assert(l1_entry(t2, a) == l1_entry(t, a));
        assert(table_of(t2, a) == tab);
        if allocates(t, a) {
            assert(t2.spare() == t.spare());
            let nt = new_table(t2);
            assert(t.spare().contains(nt)) by {
                assert(t.spare()[t.spare().len() - 1] == nt);
            }
            if l1_user(a) {
                assert(t.user()[l1_base(a)] != 0);
            } else {
                assert(t.kernel()[l1_base(a)] != 0);
            }
            assert(!t.spare().contains(tab));
            assert(nt != tab);
            assert(phys_after(t2, a)[tab] == t2.phys()[tab]);
        } else {
            assert(phys_after(t2, a) == t2.phys());
        }
    }
}

/// Mapping a page and then unmapping it gives the page back and leaves its
/// descriptor clear again: a second unmapping gives nothing, and the address can
/// be mapped anew.
pub proof fn lemma_map_then_unmap(
    t: &PageTables,
    t2: &PageTables,
    t3: &PageTables,
    a: usize,
    p: PAddr,
    mode: ProtectionMode,
)
    requires
        t.wf(),
        t2.wf(),
        t3.wf(),
        edit_defined(t, a),
        mode != ProtectionMode::Unmapped,
        looked_up_entry(t, a) == 0,
        p & 0xFFF == 0,
        edited(t, t2, a, (p + mode_flags(mode)) as u32),
        edited(t2, t3, a, 0),
    ensures
        edit_defined(t2, a),
        unmapped_frame(looked_up_entry(t2, a)) == Some(p),
        edit_defined(t3, a),
        looked_up_entry(t3, a) == 0,
        unmapped_frame(looked_up_entry(t3, a)) is None,
        table_of(t3, a) == table_of(t, a),
{
    lemma_mode_flags_mark_in_use(mode, mode);
    lemma_descriptor_bits(p, mode_flags(mode));
    lemma_edit_again(t, t2, a, (p + mode_flags(mode)) as u32);
    lemma_edit_again(t2, t3, a, 0);
    assert(0u32 & 3 == 0) by (bit_vector);
}

/// A second lookup of `a`'s table (with or without allocation) finds the table the
/// first one gave and changes nothing; this holds unless the group's descriptor has
/// frame bits but no type bits, in which case each lookup allocates a frame and
/// hands it back.
pub proof fn lemma_lookup_idempotent(t: &PageTables, t2: &PageTables, a: usize)
    requires
        t.wf(),
        t2.wf(),
        lookup_defined(t, a, true),
        !allocates(t, a) || installs(t, a),
        t2.kernel() == kernel_after(t, a),
        t2.user() == user_after(t, a),
        t2.phys() == phys_after(t, a),
        t2.spare() == spare_after(t, a),
        t2.tlb() == tlb_after(t, a),
        t2.temp() == t.temp(),
    ensures
        lookup_defined(t2, a, true),
        lookup_defined(t2, a, false),
        !allocates(t2, a),
        table_of(t2, a) == table_of(t, a),
        kernel_after(t2, a) == t2.kernel(),
        user_after(t2, a) == t2.user(),
        phys_after(t2, a) == t2.phys(),
        spare_after(t2, a) == t2.spare(),
        tlb_after(t2, a) == t2.tlb(),
{
    lemma_frame_bits(l1_entry(t, a));
    lemma_addr_bits(a);
    if installs(t, a) {
        let f = new_table(t);
        assert(t.spare().len() > 0);
        assert(t.spare()[t.spare().len() - 1] & 0xFFF == 0);
        lemma_aligned_frame(f);
        if l1_user(a) {
            assert(t2.user() == installed(t.user(), l1_base(a), f));
        } else {
            assert(t2.kernel() == installed(t.kernel(), l1_base(a), f));
        }
        assert(l1_entry(t2, a) == (f + 1) as u32);
        lemma_frame_bits(l1_entry(t2, a));
    } else {
        assert(l1_entry(t2, a) == l1_entry(t, a));
    }
}

/// Re-protecting a page keeps its frame and sets exactly the new mode's flags.
pub proof fn lemma_reprotect_keeps_frame(v: u32, mode: ProtectionMode)
    ensures
        table_frame(((v & !0xFFFu32) + mode_flags(mode)) as u32) == table_frame(v),
        ((v & !0xFFFu32) + mode_flags(mode)) as u32 & 0xFFF == mode_flags(mode),
{
    lemma_mode_flags_mark_in_use(mode, mode);
    lemma_frame_bits(v);
    lemma_descriptor_bits(v & !0xFFFu32, mode_flags(mode));
}

} // verus!
