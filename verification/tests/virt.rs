use tifflin::virt::{
    flags_to_prot_mode, get_info, get_phys, is_fixed_alloc, is_reserved, post_init,
    prot_mode_to_flags, reprotect, unmap, AddressSpace, PageTables, ProtectionMode, TempHandle,
    KERNEL_TEMP_BASE,
};

#[test]
fn mode_flags() {
    assert_eq!(prot_mode_to_flags(ProtectionMode::Unmapped), 0);
    assert_eq!(prot_mode_to_flags(ProtectionMode::KernelRW), 0x013);
    assert_eq!(prot_mode_to_flags(ProtectionMode::UserRX), 0x232);
    assert_eq!(prot_mode_to_flags(ProtectionMode::UserCOW), 0x223);
    assert_eq!(flags_to_prot_mode(0x213), ProtectionMode::KernelRO);
    assert_eq!(flags_to_prot_mode(0x233), ProtectionMode::UserRO);
    assert_eq!(flags_to_prot_mode(0x032), ProtectionMode::UserRWX);
    assert_eq!(flags_to_prot_mode(0x223), ProtectionMode::UserCOW);
    assert_eq!(flags_to_prot_mode(0), ProtectionMode::Unmapped);
}

#[test]
fn fixed_alloc_area() {
    assert!(is_fixed_alloc(0x8000_0000, 0x1000));
    assert!(is_fixed_alloc(0x803F_F000, 0x1000));
    assert!(!is_fixed_alloc(0x803F_F000, 0x1001));
    assert!(!is_fixed_alloc(0x7FFF_FFFF, 1));
    assert!(!is_fixed_alloc(0x8040_0000, 0));
}

#[test]
fn address_space_ttbr() {
    let a = AddressSpace::pid0(0x4000_0000, 0x8000_4000);
    assert_eq!(a.get_ttbr0(), 0x4000_4000);
}

#[test]
fn translation_results() {
    assert!(is_reserved(0x8000_1234, 0x1234_5000));
    assert_eq!(get_phys(0x8000_1234, 0x1234_5000), 0x1234_5234);
    assert!(!is_reserved(0x8000_1234, 0x1));
    assert_eq!(get_phys(0x8000_1234, 0x3), 0);
}

#[test]
fn post_init_clears_first_entry() {
    let mut t = PageTables::new();
    t.set_kernel_entry(0, 0x0000_0402);
    t.set_kernel_entry(1, 7);
    post_init(&mut t);
    assert_eq!(t.kernel_entry(0), 0);
    assert_eq!(t.kernel_entry(1), 7);
}

#[test]
fn temp_handle_slots() {
    let mut t = PageTables::new();
    t.add_frame(0x5000, vec![0; 1024], false);
    let h1 = TempHandle::new(&mut t, 0x5000);
    let h2 = TempHandle::new(&mut t, 0x5000);
    assert_eq!(h1.addr(), KERNEL_TEMP_BASE);
    assert_eq!(h2.addr(), KERNEL_TEMP_BASE + 0x1000);
    assert_eq!(t.temp_entry(0), 0x5013);
    h1.store(&mut t, 3, 99);
    assert_eq!(h2.load(&t, 3), 99);
    assert_eq!(h2.cxchg(&mut t, 3, 1, 5), 99);
    assert_eq!(h2.load(&t, 3), 99);
    assert_eq!(h2.xchg(&mut t, 3, 5), 99);
    assert_eq!(t.frame_word(0x5000, 3), Some(5));
    h1.release(&mut t);
    assert_eq!(t.temp_entry(0), 0);
    let h3 = TempHandle::new(&mut t, 0x6000);
    assert_eq!(h3.addr(), KERNEL_TEMP_BASE);
    assert_eq!(t.tlb_log(), &[0xFFC0_0001, 0xFFC0_1001, 0xFFC0_0001]);
}

#[test]
fn map_installs_table_then_info_and_unmap() {
    let mut t = PageTables::new();
    t.add_frame(0x0010_0000, vec![0xEEEE_EEEE; 1024], true);
    let a: usize = 0x8040_3123;
    tifflin::virt::map(&mut t, a, 0x0020_0000, ProtectionMode::UserRW);
    // the group's four first-level descriptors point at the new table
    assert_eq!(t.kernel_entry(0x804), 0x0010_0001);
    assert_eq!(t.kernel_entry(0x805), 0x0010_0401);
    assert_eq!(t.kernel_entry(0x806), 0x0010_0801);
    assert_eq!(t.kernel_entry(0x807), 0x0010_0C01);
    assert_eq!(t.spare_count(), 0);
    assert_eq!(t.frame_word(0x0010_0000, 3), Some(0x0020_0033));
    assert_eq!(t.frame_word(0x0010_0000, 4), Some(0));
    assert_eq!(get_info(&mut t, a), Some((0x0020_0123, ProtectionMode::UserRW)));
    assert_eq!(get_info(&mut t, 0x8040_4000), None);
    assert_eq!(unmap(&mut t, a), Some(0x0020_0000));
    assert_eq!(t.frame_word(0x0010_0000, 3), Some(0));
    assert_eq!(unmap(&mut t, a), None);
    assert_eq!(t.tlb_log().last(), Some(&0x8040_3001));
}

#[test]
fn reprotect_changes_flags_only() {
    let mut t = PageTables::new();
    t.add_frame(0x0010_0000, vec![0; 1024], true);
    let a: usize = 0x0000_5000;
    tifflin::virt::map(&mut t, a, 0x0030_0000, ProtectionMode::UserRO);
    assert_eq!(t.user_entry(0), 0x0010_0001);
    assert_eq!(t.frame_word(0x0010_0000, 5), Some(0x0030_0233));
    reprotect(&mut t, a, ProtectionMode::UserCOW);
    assert_eq!(t.frame_word(0x0010_0000, 5), Some(0x0030_0223));
}

#[test]
fn section_info() {
    let mut t = PageTables::new();
    t.set_kernel_entry(0x800, 0x0040_0402);
    assert_eq!(get_info(&mut t, 0x8001_2345), Some((0x0041_2345, ProtectionMode::KernelRW)));
    assert_eq!(get_info(&mut t, 0x8010_0000), None);
}

#[test]
fn every_mode_reads_back() {
    for m in [
        ProtectionMode::Unmapped,
        ProtectionMode::KernelRO,
        ProtectionMode::KernelRW,
        ProtectionMode::KernelRX,
        ProtectionMode::UserRO,
        ProtectionMode::UserRW,
        ProtectionMode::UserRX,
        ProtectionMode::UserRWX,
        ProtectionMode::UserCOW,
    ] {
        assert_eq!(flags_to_prot_mode(prot_mode_to_flags(m)), m);
    }
}

#[test]
fn kernel_mode_map_reads_back() {
    let mut t = PageTables::new();
    t.add_frame(0x0010_0000, vec![0; 1024], true);
    let a: usize = 0x8000_2000;
    tifflin::virt::map(&mut t, a, 0x0050_0000, ProtectionMode::KernelRO);
    assert_eq!(get_info(&mut t, a), Some((0x0050_0000, ProtectionMode::KernelRO)));
}

#[test]
fn map_through_untyped_descriptor_then_unmap_twice() {
    let mut t = PageTables::new();
    t.add_frame(0x0020_0000, vec![0; 1024], false);
    t.set_user_entry(0, 0x0020_0000);
    t.add_frame(0x0010_0000, vec![0xEEEE_EEEE; 1024], true);
    let a: usize = 0x0000_3000;
    tifflin::virt::map(&mut t, a, 0x0070_0000, ProtectionMode::UserRW);
    // the frame allocated for the lookup went back to the allocator
    assert_eq!(t.spare_count(), 1);
    assert_eq!(t.user_entry(0), 0x0020_0000);
    assert_eq!(t.frame_word(0x0020_0000, 3), Some(0x0070_0033));
    assert_eq!(unmap(&mut t, a), Some(0x0070_0000));
    assert_eq!(unmap(&mut t, a), None);
    tifflin::virt::map(&mut t, a, 0x0080_0000, ProtectionMode::UserRO);
    assert_eq!(t.frame_word(0x0020_0000, 3), Some(0x0080_0233));
}

#[test]
fn store_then_load_through_window() {
    let mut t = PageTables::new();
    t.add_frame(0x7000, vec![1; 1024], false);
    let h = TempHandle::new(&mut t, 0x7000);
    h.store(&mut t, 10, 0xABCD);
    assert_eq!(h.load(&t, 10), 0xABCD);
    assert_eq!(h.load(&t, 11), 1);
    h.release(&mut t);
    for i in 0..1024 {
        assert_eq!(t.temp_entry(i), 0);
    }
}

#[test]
fn edit_ready_reports_lookup() {
    let mut t = PageTables::new();
    let a: usize = 0x8040_3123;
    assert_eq!(tifflin::virt::edit_ready(&t, a), None);
    t.add_frame(0x0010_0000, vec![0xEEEE_EEEE; 1024], true);
    assert_eq!(tifflin::virt::edit_ready(&t, a), Some(0));
    tifflin::virt::map(&mut t, a, 0x0020_0000, ProtectionMode::UserRW);
    assert_eq!(tifflin::virt::edit_ready(&t, a), Some(0x0020_0033));
    t.set_kernel_entry(0x900, 0x0040_0402);
    assert_eq!(tifflin::virt::edit_ready(&t, 0x9000_0000), None);
    assert_eq!(tifflin::virt::edit_ready(&t, 0x1_0000_0000usize), None);
}
