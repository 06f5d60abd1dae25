use kernel::allocators::paging::sv48::{PAddr, PTEntry, VAddr};
use kernel::allocators::paging::table::{valid_rwx, PTEFlagSet, PTEFlags, PTLevel, PageTable};
use kernel::allocators::paging::{add_pages_from_range, FreePages};
use kernel::boot::identity_map;

fn rx() -> PTEFlagSet {
    PTEFlagSet::from_flag(PTEFlags::Read).with(PTEFlags::Exec)
}

#[test]
fn entry_flags_are_the_low_byte() {
    assert_eq!(PTEntry(0xff).get_flags().bits(), 0xff);
    assert_eq!(PTEntry(0x1ff).get_flags().bits(), 0xff);
    assert_eq!(PTEntry(0x2008040b).get_flags().bits(), 0x0b);
}

#[test]
fn set_flags_replaces_the_low_byte() {
    let mut e = PTEntry(0x12345);
    e.set_flags(PTEFlagSet::from_flag(PTEFlags::Read));
    assert_eq!(e.0, 0x12302);
    e.set_flags(PTEFlagSet::empty());
    assert_eq!(e.0, 0x12300);
}

#[test]
fn rsw_bits() {
    assert_eq!(PTEntry(0x300).get_rsw(), 3);
    assert_eq!(PTEntry(0x2ff).get_rsw(), 2);
    let mut e = PTEntry(0);
    e.set_rsw(0b101);
    assert_eq!(e.0, 0x100);
    let mut e = PTEntry(u64::MAX);
    e.set_rsw(0);
    assert_eq!(e.0, !0x300u64);
}

#[test]
fn entry_ppn_fields() {
    assert_eq!(PTEntry(0x2008040b).get_ppn(), [1, 1, 2, 0]);
    let mut e = PTEntry(0xb);
    e.set_ppn([1, 1, 2, 0]);
    assert_eq!(e.0, 0x2008040b);
}

#[test]
fn set_ppn_keeps_flags_and_rsw() {
    let mut e = PTEntry(0x3ff);
    e.set_ppn([0x1ff, 0x1ff, 0x1ff, 0]);
    assert_eq!(e.0 & 0x3ff, 0x3ff);
    assert_eq!(e.get_ppn(), [0x1ff, 0x1ff, 0x1ff, 0]);
}

#[test]
fn set_ppn_shifts_the_last_field_by_twenty_seven() {
    let mut e = PTEntry(0);
    e.set_ppn([0, 0, 0, 1]);
    assert_eq!(e.0, 1 << 27);
    assert_eq!(e.get_ppn(), [0, 0x100, 0, 0]);
}

#[test]
fn valid_and_leaf_entries() {
    assert!(PTEntry(1).is_valid());
    assert!(!PTEntry(2).is_valid());
    assert!(PTEntry(0x3).is_leaf());
    assert!(PTEntry(0x9).is_leaf());
    assert!(!PTEntry(0x1).is_leaf());
    assert!(!PTEntry(0xf1).is_leaf());
}

#[test]
fn entry_or_and_flags() {
    assert_eq!(PTEntry(0x100).bitor(PTEFlagSet::from_flag(PTEFlags::Valid)).0, 0x101);
    assert_eq!(PTEntry(0x1ff).bitand(PTEFlagSet::from_flag(PTEFlags::Read)).0, 0x102);
}

#[test]
fn virtual_page_numbers() {
    assert_eq!(VAddr(0x8020_1000).get_vpn(), [1, 1, 2, 0]);
    assert_eq!(VAddr(0x7fff_ffff_f000).get_vpn(), [0x1ff, 0x1ff, 0x1ff, 0xff]);
    assert_eq!(VAddr::from_u64(0xffff_8000_0000_1000).0, 0x1000);
}

#[test]
fn physical_page_numbers() {
    assert_eq!(PAddr(0x8020_1000).get_ppn(), [1, 1, 2, 0]);
    assert_eq!(PAddr::from_ppn([1, 1, 2, 0]).0, 0x8020_1000);
    assert_eq!(PAddr::from_ppn([0x3ff, 0, 0, 0]).0, 0x1ff000);
    assert_eq!(PAddr::from_u64(u64::MAX).0, 0x7f_ffff_ffff_ffff);
}

#[test]
fn address_page_number_round_trip() {
    for a in [0u64, 0xfff, 0x8020_1234, 0x7f_ffff_ffff_ffff, u64::MAX] {
        assert_eq!(PAddr::from_ppn(PAddr(a).get_ppn()).0, a & 0x00ff_ffff_ffff_f000);
    }
}

#[test]
fn page_number_address_round_trip() {
    let ppn = [0x3ff, 0x1, 0x2, 0x3_ffff];
    assert_eq!(PAddr(PAddr::from_ppn(ppn).0).get_ppn(), [0x1ff, 0x1, 0x2, 0x1_ffff]);
}

#[test]
fn flag_sets() {
    assert_eq!(PTEFlagSet::empty().bits(), 0);
    assert_eq!(PTEFlagSet::from_bits_truncate(0x1ff).bits(), 0xff);
    let rw = PTEFlagSet::from_flag(PTEFlags::Write).with(PTEFlags::Read);
    assert_eq!(rw.bits(), 6);
    assert!(rw.contains(PTEFlags::Read));
    assert!(!rw.contains(PTEFlags::Exec));
    assert!(rw.intersects(rx()));
    assert!(!rw.intersects(PTEFlagSet::from_flag(PTEFlags::Valid)));
    assert_eq!(PTEFlags::Dirty.bit(), 128);
    assert_eq!(PTEFlags::Valid.bit(), 1);
}

#[test]
fn write_needs_read() {
    assert!(!valid_rwx(PTEFlagSet::from_flag(PTEFlags::Write)));
    assert!(valid_rwx(PTEFlagSet::from_flag(PTEFlags::Write).with(PTEFlags::Read)));
    assert!(valid_rwx(PTEFlagSet::empty()));
    assert!(valid_rwx(rx()));
}

#[test]
fn levels() {
    assert_eq!(PTLevel::Page.value(), 3);
    assert_eq!(PTLevel::MegaPage.value(), 2);
    assert_eq!(PTLevel::GigaPage.value(), 1);
    assert_eq!(PTLevel::TerraPage.value(), 0);
}

#[test]
fn zeroed_table_has_no_valid_entry() {
    let t = PageTable::zeroed(0x200000);
    for i in 0..512 {
        assert_eq!(t.index(i).0, 0);
        assert!(t.child(i).is_none());
    }
}

#[test]
fn map_page_builds_the_walk() {
    let mut free = FreePages::new();
    add_pages_from_range(&mut free, 0x100000..0x103000);
    let mut root = PageTable::zeroed(0x200000);
    root.map(&mut free, 0x8020_1000, 0x8020_1000, rx(), PTLevel::Page.value());
    assert_eq!(free.len(), 0);

    // The tables below take the free pages, last one first.
    assert_eq!(root.index(0).0, 0x40801);
    assert_eq!(PAddr::from_ppn(root.index(0).get_ppn()).0, 0x102000);
    let t1 = root.child(0).unwrap();
    assert_eq!(PAddr::from_ppn(t1.index(2).get_ppn()).0, 0x101000);
    let t2 = t1.child(2).unwrap();
    assert_eq!(PAddr::from_ppn(t2.index(1).get_ppn()).0, 0x100000);
    let t3 = t2.child(1).unwrap();
    let leaf = t3.index(1);
    assert_eq!(leaf.0, 0x2008040b);
    assert!(leaf.is_valid());
    assert!(leaf.is_leaf());
    assert_eq!(PAddr::from_ppn(leaf.get_ppn()).0, 0x8020_1000);
    assert!(t3.child(1).is_none());
}

#[test]
fn map_second_page_reuses_the_tables() {
    let mut free = FreePages::new();
    add_pages_from_range(&mut free, 0x100000..0x103000);
    let mut root = PageTable::zeroed(0x200000);
    root.map(&mut free, 0x8020_1000, 0x8020_1000, rx(), 3);
    root.map(&mut free, 0x8020_2000, 0x9000_0000, PTEFlagSet::from_flag(PTEFlags::Read), 3);
    let t3 = root.child(0).unwrap().child(2).unwrap().child(1).unwrap();
    assert_eq!(t3.index(1).0, 0x2008040b);
    assert_eq!(PAddr::from_ppn(t3.index(2).get_ppn()).0, 0x9000_0000);
    assert_eq!(t3.index(2).get_flags().bits(), 0x3);
}

#[test]
fn map_mega_page_stops_a_level_up() {
    let mut free = FreePages::new();
    add_pages_from_range(&mut free, 0x100000..0x102000);
    let mut root = PageTable::zeroed(0x200000);
    root.map(&mut free, 0x4020_0000, 0x8000_0000, rx(), PTLevel::MegaPage.value());
    assert_eq!(free.len(), 0);
    let t2 = root.child(0).unwrap().child(1).unwrap();
    let leaf = t2.index(1);
    assert_eq!(leaf.get_flags().bits(), 0xb);
    assert_eq!(PAddr::from_ppn(leaf.get_ppn()).0, 0x8000_0000);
}

#[test]
fn map_at_root_level_writes_the_root_entry() {
    let mut free = FreePages::new();
    let mut root = PageTable::zeroed(0x200000);
    root.map(&mut free, 0x1000, 0x5000, PTEFlagSet::from_flag(PTEFlags::Read), PTLevel::TerraPage.value());
    assert_eq!(root.index(0).0, (5 << 10) | 0x3);
}

#[test]
fn tables_needed_counts_missing_tables() {
    let mut free = FreePages::new();
    add_pages_from_range(&mut free, 0x100000..0x104000);
    let mut root = PageTable::zeroed(0x200000);
    assert_eq!(root.tables_needed(0x8020_1000, 3), Some(3));
    assert_eq!(root.tables_needed(0x8020_1000, 0), Some(0));
    root.map(&mut free, 0x8020_1000, 0x8020_1000, rx(), 3);
    assert_eq!(root.tables_needed(0x8020_2000, 3), Some(0));
    assert_eq!(root.tables_needed(0x8040_0000, 3), Some(1));
    assert_eq!(root.tables_needed(0xc000_0000, 3), Some(2));
}

#[test]
fn tables_needed_refuses_a_walk_through_a_large_page() {
    let mut free = FreePages::new();
    add_pages_from_range(&mut free, 0x100000..0x102000);
    let mut root = PageTable::zeroed(0x200000);
    root.map(&mut free, 0x4020_0000, 0x8000_0000, rx(), PTLevel::MegaPage.value());
    assert_eq!(root.tables_needed(0x4020_1000, 3), None);
    assert_eq!(root.tables_needed(0x4020_1000, 2), Some(0));
}

#[test]
fn listing_walks_the_valid_entries_depth_first() {
    let mut free = FreePages::new();
    add_pages_from_range(&mut free, 0x100000..0x104000);
    let mut root = PageTable::zeroed(0x200000);
    assert!(root.listing().is_empty());
    root.map(&mut free, 0x8020_1000, 0x8020_1000, rx(), 3);
    root.map(&mut free, 0x8020_2000, 0x9000_0000, PTEFlagSet::from_flag(PTEFlags::Read), 3);
    root.map(&mut free, 0x80_0000_0000, 0x5000, PTEFlagSet::from_flag(PTEFlags::Read), 0);
    let l = root.listing();
    assert_eq!(l.len(), 6);
    assert_eq!(l[0], (0, 0x40c01));
    assert_eq!(l[1].0, 1);
    assert_eq!(l[2].0, 2);
    assert_eq!(l[3], (3, 0x2008040b));
    assert_eq!(l[4].0, 3);
    assert_eq!(PAddr::from_ppn(PTEntry(l[4].1).get_ppn()).0, 0x9000_0000);
    assert_eq!(l[5], (0, (5 << 10) | 0x3));
}

#[test]
fn identity_map_maps_every_page_of_the_range() {
    let mut free = FreePages::new();
    add_pages_from_range(&mut free, 0x100000..0x104000);
    let mut root = PageTable::zeroed(0x200000);
    assert_eq!(identity_map(&mut root, &mut free, 0x8020_0000, 0x8020_2800, rx()), Ok(()));
    assert_eq!(free.len(), 1);
    let t3 = root.child(0).unwrap().child(2).unwrap().child(1).unwrap();
    for (i, page) in [0x8020_0000u64, 0x8020_1000, 0x8020_2000].iter().enumerate() {
        let e = t3.index(i);
        assert_eq!(e.get_flags().bits(), 0xb);
        assert_eq!(PAddr::from_ppn(e.get_ppn()).0, *page);
    }
    assert!(!t3.index(3).is_valid());
}

#[test]
fn identity_map_of_an_empty_range_maps_nothing() {
    let mut free = FreePages::new();
    let mut root = PageTable::zeroed(0x200000);
    assert_eq!(identity_map(&mut root, &mut free, 0x8020_0000, 0x8020_0000, rx()), Ok(()));
    assert!(root.listing().is_empty());
}

#[test]
fn identity_map_stops_where_the_tables_run_out() {
    let mut free = FreePages::new();
    add_pages_from_range(&mut free, 0x100000..0x103000);
    let mut root = PageTable::zeroed(0x200000);
    // The first page takes all three tables; the page in the next 2 MiB needs one more.
    assert_eq!(
        identity_map(&mut root, &mut free, 0x8020_0000, 0x8040_1000, rx()),
        Err(0x8040_0000)
    );
    assert_eq!(free.len(), 0);
    let t3 = root.child(0).unwrap().child(2).unwrap().child(1).unwrap();
    assert!(t3.index(511).is_valid());
}

#[test]
fn tables_record_the_pages_they_were_given() {
    let mut free = FreePages::new();
    add_pages_from_range(&mut free, 0x100000..0x103000);
    let mut root = PageTable::zeroed(0x200000);
    assert_eq!(root.page(), 0x200000);
    root.map(&mut free, 0x8020_1000, 0x8020_1000, rx(), 3);
    let t1 = root.child(0).unwrap();
    let t2 = t1.child(2).unwrap();
    let t3 = t2.child(1).unwrap();
    assert_eq!(root.page(), 0x200000);
    assert_eq!(t1.page(), 0x102000);
    assert_eq!(t2.page(), 0x101000);
    assert_eq!(t3.page(), 0x100000);
}

#[test]
fn large_page_over_a_table_drops_that_table() {
    let mut free = FreePages::new();
    add_pages_from_range(&mut free, 0x100000..0x103000);
    let mut root = PageTable::zeroed(0x200000);
    root.map(&mut free, 0x8020_1000, 0x8020_1000, rx(), 3);
    root.map(&mut free, 0x8020_0000, 0x9000_0000, rx(), PTLevel::MegaPage.value());
    let t2 = root.child(0).unwrap().child(2).unwrap();
    assert!(t2.child(1).is_none());
    assert!(t2.index(1).is_leaf());
    assert_eq!(PAddr::from_ppn(t2.index(1).get_ppn()).0, 0x9000_0000);
    assert_eq!(root.tables_needed(0x8020_1000, 3), None);
}

#[test]
fn identity_map_above_the_walk_range_uses_the_masked_walk() {
    let mut free = FreePages::new();
    add_pages_from_range(&mut free, 0x100000..0x103000);
    let mut root = PageTable::zeroed(0x200000);
    assert_eq!(identity_map(&mut root, &mut free, 0x8000_8020_0000, 0x8000_8020_2000, rx()), Ok(()));
    assert_eq!(free.len(), 0);
    let t3 = root.child(0).unwrap().child(2).unwrap().child(1).unwrap();
    assert_eq!(t3.index(0).get_flags().bits(), 0xb);
    assert_eq!(t3.index(1).get_flags().bits(), 0xb);
    assert!(!t3.index(2).is_valid());
}
