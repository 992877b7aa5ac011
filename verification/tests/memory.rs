use proc_core::memory::{AddressSpace, MapPermission, PageRange, MAX_AREA_PAGES, PAGE_SIZE};

const RW: usize = 3;

#[test]
fn mmap_then_munmap_leaves_region_unmapped() {
    let mut s = AddressSpace::new();
    assert_eq!(s.mmap(0x10000, 2 * PAGE_SIZE, RW), 0);
    assert_eq!(s.read_byte(0x10000), Some(0));
    assert_eq!(s.read_byte(0x10000 + 2 * PAGE_SIZE - 1), Some(0));
    assert_eq!(s.read_byte(0x10000 + 2 * PAGE_SIZE), None);
    assert_eq!(s.munmap(0x10000, 2 * PAGE_SIZE), 0);
    assert_eq!(s.read_byte(0x10000), None);
    assert_eq!(s.areas.len(), 0);
}

#[test]
fn mmap_rounds_length_up_to_pages() {
    let mut s = AddressSpace::new();
    assert_eq!(s.mmap(0x4000, 1, 1), 0);
    assert_eq!(s.areas[0].start_vpn, 4);
    assert_eq!(s.areas[0].end_vpn, 5);
    assert_eq!(s.areas[0].data.len(), PAGE_SIZE);
    assert_eq!(s.read_byte(0x4fff), Some(0));
    assert_eq!(s.munmap(0x4000, 1), 0);
}

#[test]
fn mmap_rejects_misaligned_start() {
    let mut s = AddressSpace::new();
    assert_eq!(s.mmap(0x10001, PAGE_SIZE, RW), -1);
    assert_eq!(s.areas.len(), 0);
}

#[test]
fn mmap_rejects_bad_port() {
    let mut s = AddressSpace::new();
    assert_eq!(s.mmap(0x10000, PAGE_SIZE, 0), -1);
    assert_eq!(s.mmap(0x10000, PAGE_SIZE, 8), -1);
    assert_eq!(s.mmap(0x10000, PAGE_SIZE, 0x17), -1);
    assert_eq!(s.areas.len(), 0);
    assert_eq!(s.mmap(0x10000, PAGE_SIZE, 7), 0);
}

#[test]
fn mmap_port_bits_become_rights() {
    let mut s = AddressSpace::new();
    assert_eq!(s.mmap(0x10000, PAGE_SIZE, 1), 0);
    assert_eq!(s.mmap(0x20000, PAGE_SIZE, 2), 0);
    assert_eq!(s.mmap(0x30000, PAGE_SIZE, 4), 0);
    assert_eq!(s.areas[0].perm, MapPermission { r: true, w: false, x: false, u: true });
    assert_eq!(s.areas[1].perm, MapPermission { r: false, w: true, x: false, u: true });
    assert_eq!(s.areas[2].perm, MapPermission { r: false, w: false, x: true, u: true });
    assert_eq!(s.read_byte(0x10000), Some(0));
    assert!(!s.write_byte(0x10000, 1));
    assert_eq!(s.read_byte(0x20000), None);
    assert!(s.write_byte(0x20000, 1));
    assert_eq!(s.read_byte(0x30000), None);
    assert!(!s.write_byte(0x30000, 1));
}

#[test]
fn mmap_overlap_is_refused_and_changes_nothing() {
    let mut s = AddressSpace::new();
    assert_eq!(s.mmap(0x10000, 2 * PAGE_SIZE, RW), 0);
    assert!(s.write_byte(0x10005, 9));
    assert_eq!(s.mmap(0x11000, 2 * PAGE_SIZE, RW), -1);
    assert_eq!(s.mmap(0x11000, 2 * PAGE_SIZE, RW), -1);
    assert_eq!(s.mmap(0xf000, 2 * PAGE_SIZE, RW), -1);
    assert_eq!(s.mmap(0x10000, 1, RW), -1);
    assert_eq!(s.areas.len(), 1);
    assert_eq!(s.areas[0].start_vpn, 0x10);
    assert_eq!(s.areas[0].end_vpn, 0x12);
    assert_eq!(s.read_byte(0x10005), Some(9));
    assert_eq!(s.mmap(0x12000, PAGE_SIZE, RW), 0);
}

#[test]
fn munmap_of_part_or_more_is_refused() {
    let mut s = AddressSpace::new();
    assert_eq!(s.mmap(0x10000, 2 * PAGE_SIZE, RW), 0);
    assert_eq!(s.munmap(0x10000, PAGE_SIZE), -1);
    assert_eq!(s.munmap(0x11000, PAGE_SIZE), -1);
    assert_eq!(s.munmap(0x10000, 3 * PAGE_SIZE), -1);
    assert_eq!(s.munmap(0xf000, 3 * PAGE_SIZE), -1);
    assert_eq!(s.areas.len(), 1);
    assert_eq!(s.read_byte(0x11fff), Some(0));
    assert_eq!(s.munmap(0x10000, 2 * PAGE_SIZE), 0);
}

#[test]
fn munmap_rejects_zero_length_and_misaligned_start() {
    let mut s = AddressSpace::new();
    assert_eq!(s.mmap(0x10000, PAGE_SIZE, RW), 0);
    assert_eq!(s.munmap(0x10000, 0), -1);
    assert_eq!(s.munmap(0x10001, PAGE_SIZE), -1);
    assert_eq!(s.munmap(0x20000, PAGE_SIZE), -1);
    assert_eq!(s.areas.len(), 1);
}

#[test]
fn mmap_of_zero_length_maps_nothing() {
    let mut s = AddressSpace::new();
    assert_eq!(s.mmap(0x10000, 0, RW), 0);
    assert_eq!(s.areas.len(), 0);
    assert_eq!(s.read_byte(0x10000), None);
}

#[test]
fn mmap_rejects_ranges_beyond_limits() {
    let mut s = AddressSpace::new();
    assert_eq!(s.mmap(0x10000, usize::MAX, RW), -1);
    assert_eq!(s.mmap(0x10000, (MAX_AREA_PAGES + 1) * PAGE_SIZE, RW), -1);
    assert_eq!(s.areas.len(), 0);
}

#[test]
fn translate_finds_region_and_page() {
    let mut s = AddressSpace::new();
    assert_eq!(s.mmap(0x10000, PAGE_SIZE, 1), 0);
    assert_eq!(s.mmap(0x20000, 3 * PAGE_SIZE, RW), 0);
    let e = s.translate(0x22).unwrap();
    assert_eq!(e.area, 1);
    assert_eq!(e.page, 2);
    assert_eq!(e.perm, MapPermission { r: true, w: true, x: false, u: true });
    assert_eq!(s.translate(0x23), None);
    assert_eq!(s.translate(0x0f), None);
    assert!(s.overlaps(0x22, 0x30));
    assert!(!s.overlaps(0x23, 0x30));
}

#[test]
fn insert_and_remove_exact() {
    let mut s = AddressSpace::new();
    let p = MapPermission { r: true, w: true, x: false, u: true };
    assert!(s.insert_framed_area(1, 3, p));
    assert!(!s.insert_framed_area(2, 4, p));
    assert!(!s.insert_framed_area(5, 5, p));
    assert!(s.insert_framed_area(3, 4, p));
    assert!(!s.remove_area_exact(1, 2));
    assert!(!s.remove_area_exact(1, 4));
    assert!(s.remove_area_exact(1, 3));
    assert_eq!(s.areas.len(), 1);
    assert_eq!(s.areas[0].start_vpn, 3);
}

#[test]
fn bytes_cross_page_and_region_boundaries() {
    let mut s = AddressSpace::new();
    assert_eq!(s.mmap(0x11000, PAGE_SIZE, RW), 0);
    assert_eq!(s.mmap(0x10000, PAGE_SIZE, RW), 0);
    assert!(s.write_bytes(0x10ffe, &vec![1, 2, 3, 4]));
    assert_eq!(s.read_byte(0x10ffe), Some(1));
    assert_eq!(s.read_byte(0x10fff), Some(2));
    assert_eq!(s.read_byte(0x11000), Some(3));
    assert_eq!(s.read_byte(0x11001), Some(4));
    assert_eq!(s.areas[1].data[PAGE_SIZE - 1], 2);
    assert_eq!(s.areas[0].data[0], 3);
}

#[test]
fn write_bytes_is_all_or_nothing() {
    let mut s = AddressSpace::new();
    assert_eq!(s.mmap(0x10000, PAGE_SIZE, RW), 0);
    assert!(!s.write_bytes(0x10ffe, &vec![1, 2, 3, 4]));
    assert_eq!(s.read_byte(0x10ffe), Some(0));
    assert_eq!(s.read_byte(0x10fff), Some(0));
    assert!(s.can_write_all(0x10ffe, 2));
    assert!(!s.can_write_all(0x10ffe, 3));
    assert!(!s.can_write_all(usize::MAX, 2));
    assert!(s.write_bytes(0x10000, &vec![]));
}

#[test]
fn kernel_addresses_are_refused() {
    let s = AddressSpace::new();
    assert_eq!(s.read_byte(usize::MAX), None);
    assert_eq!(s.read_byte(usize::MAX - 2 * PAGE_SIZE + 1), None);
    assert!(!s.can_write(usize::MAX - 2 * PAGE_SIZE + 1));
    assert_eq!(s.read_byte(0), None);
}

#[test]
fn read_str_stops_at_nul() {
    let mut s = AddressSpace::new();
    assert_eq!(s.mmap(0x10000, PAGE_SIZE, RW), 0);
    assert!(s.write_bytes(0x10000, &vec![b'a', b'b', 0, b'c']));
    assert_eq!(s.read_str(0x10000), Some(vec![b'a', b'b']));
    assert_eq!(s.read_str(0x10001), Some(vec![b'b']));
    assert_eq!(s.read_str(0x10002), Some(vec![]));
    assert_eq!(s.read_str(0x20000), None);
}

#[test]
fn read_str_without_end_is_refused() {
    let mut s = AddressSpace::new();
    assert_eq!(s.mmap(0x10000, PAGE_SIZE, RW), 0);
    let ones = vec![1u8; PAGE_SIZE];
    assert!(s.write_bytes(0x10000, &ones));
    assert_eq!(s.read_str(0x10000), None);
}

#[test]
fn duplicate_copies_bytes() {
    let mut s = AddressSpace::new();
    assert_eq!(s.mmap(0x10000, PAGE_SIZE, RW), 0);
    assert!(s.write_byte(0x10007, 5));
    let mut d = s.duplicate();
    assert_eq!(d.read_byte(0x10007), Some(5));
    assert!(d.write_byte(0x10007, 6));
    assert_eq!(s.read_byte(0x10007), Some(5));
    assert_eq!(d.areas.len(), 1);
}

#[test]
fn address_range_is_split_at_page_ends() {
    let mut s = AddressSpace::new();
    assert_eq!(s.mmap(0x11000, 2 * PAGE_SIZE, RW), 0);
    assert_eq!(s.mmap(0x10000, PAGE_SIZE, RW), 0);
    let r = s.translate_address_range(0x10ff0, 0x1020).unwrap();
    assert_eq!(
        r,
        vec![
            PageRange { area: 1, offset: 0xff0, len: 0x10 },
            PageRange { area: 0, offset: 0, len: 0x1000 },
            PageRange { area: 0, offset: 0x1000, len: 0x10 },
        ]
    );
    assert_eq!(s.translate_address_range(0x10010, 4).unwrap(), vec![PageRange { area: 1, offset: 0x10, len: 4 }]);
    assert_eq!(s.translate_address_range(0x10010, 0).unwrap(), vec![]);
    assert_eq!(s.translate_address_range(0x12ff0, 0x20), None);
    assert_eq!(s.translate_address_range(0xfff0, 0x20), None);
    assert_eq!(s.translate_address_range(0x10000, usize::MAX), None);
}

#[test]
fn resize_keeps_bytes_and_zero_fills() {
    let mut s = AddressSpace::new();
    let p = MapPermission { r: true, w: true, x: false, u: true };
    assert!(s.resize_from(4, 4, p));
    assert_eq!(s.areas.len(), 0);
    assert!(s.resize_from(4, 6, p));
    assert_eq!(s.areas[0].data.len(), 2 * PAGE_SIZE);
    assert!(s.write_byte(0x4001, 9));
    assert!(s.write_byte(0x5001, 8));
    assert!(s.resize_from(4, 5, p));
    assert_eq!(s.areas[0].end_vpn, 5);
    assert_eq!(s.read_byte(0x4001), Some(9));
    assert_eq!(s.read_byte(0x5001), None);
    assert!(s.resize_from(4, 7, p));
    assert_eq!(s.read_byte(0x4001), Some(9));
    assert_eq!(s.read_byte(0x5001), Some(0));
    assert_eq!(s.areas[0].data.len(), 3 * PAGE_SIZE);
    assert!(s.insert_framed_area(8, 9, p));
    assert!(!s.resize_from(4, 9, p));
    assert!(s.resize_from(4, 8, p));
    assert!(!s.resize_from(4, 4 + MAX_AREA_PAGES + 1, p));
    assert!(!s.resize_from(20, 21 + MAX_AREA_PAGES, p));
    assert!(s.resize_from(4, 3, p));
    assert_eq!(s.areas.len(), 1);
    assert_eq!(s.areas[0].start_vpn, 8);
}

#[test]
fn well_formedness_is_decided() {
    let mut s = AddressSpace::new();
    assert!(s.is_well_formed());
    assert_eq!(s.mmap(0x10000, PAGE_SIZE, RW), 0);
    assert_eq!(s.mmap(0x12000, 2 * PAGE_SIZE, RW), 0);
    assert!(s.is_well_formed());
    s.areas[1].start_vpn = 0x10;
    assert!(!s.is_well_formed());
    s.areas[1].start_vpn = 0x12;
    s.areas[0].data.pop();
    assert!(!s.is_well_formed());
    s.areas[0].data.push(0);
    s.areas[0].end_vpn = 0x10;
    assert!(!s.is_well_formed());
}
