use vmem::memory::{Memory, QueryResult};
use vmem::page_table::PageTable;
use vmem::tally::Tally;
use vmem::{BACKING_STORE_SIZE, PAGE_SIZE, TLB_ENTRIES};

fn backing_store() -> Vec<u8> {
    (0..BACKING_STORE_SIZE)
        .map(|i| ((i * 7 + i / PAGE_SIZE * 13) % 256) as u8)
        .collect()
}

fn signed(b: u8) -> i8 {
    b as i8
}

#[test]
fn cold_queries_fault_and_read_the_backing_store() {
    let backing = backing_store();
    for &(p, o) in &[(0u32, 0u32), (1, 0), (17, 200), (128, 5), (255, 255)] {
        let mut m = Memory::new();
        let addr = (p << 8) | o;
        let r = m.query(addr, &backing);
        assert!(r.page_fault);
        assert!(!r.tlb_hit);
        assert_eq!(r.physical_addr, o as usize);
        assert_eq!(r.value, signed(backing[(p * 256 + o) as usize]));
    }
}

#[test]
fn requery_after_fault_is_a_tlb_hit() {
    let backing = backing_store();
    let mut m = Memory::with_frames(4);
    let first = m.query(0x3A7, &backing);
    let second = m.query(0x3A7, &backing);
    assert!(first.page_fault);
    assert!(second.tlb_hit);
    assert!(!second.page_fault);
    assert_eq!(first.physical_addr, second.physical_addr);
    assert_eq!(first.value, second.value);
}

#[test]
fn requery_after_page_table_hit_is_a_tlb_hit() {
    let backing = backing_store();
    let mut m = Memory::new();
    // Page 0 leaves the cache after seventeen other pages enter it.
    m.query(0x0010, &backing);
    for p in 1..=(TLB_ENTRIES as u32) {
        m.query(p << 8, &backing);
    }
    assert_eq!(m.consult_tlb(0), None);
    let from_table = m.query(0x0010, &backing);
    assert!(!from_table.page_fault);
    assert!(!from_table.tlb_hit);
    assert_eq!(from_table.physical_addr, 0x10);
    let again = m.query(0x0010, &backing);
    assert!(again.tlb_hit);
    assert_eq!(again.physical_addr, from_table.physical_addr);
    assert_eq!(again.value, from_table.value);
}

#[test]
fn tlb_evicts_the_earliest_entry_when_full() {
    let mut m = Memory::new();
    for p in 0..(TLB_ENTRIES as u32) {
        m.update_tlb(p, p * 256 % (128 * 256));
    }
    assert_eq!(m.consult_tlb(0), Some(0));
    m.update_tlb(100, 512);
    assert_eq!(m.consult_tlb(0), None);
    assert_eq!(m.consult_tlb(1), Some(256));
    assert_eq!(m.consult_tlb(15), Some(15 * 256));
    assert_eq!(m.consult_tlb(100), Some(512));
}

#[test]
fn tlb_lookup_finds_the_oldest_entry_for_a_page() {
    let mut m = Memory::with_frames(4);
    m.update_tlb(7, 256);
    m.update_tlb(7, 768);
    assert_eq!(m.consult_tlb(7), Some(256));
    assert_eq!(m.consult_tlb(8), None);
}

#[test]
fn page_table_fills_frames_in_order_then_evicts_fifo() {
    let mut t = PageTable::with_frames(3);
    assert_eq!(t.get_frame_num(10), 0);
    assert_eq!(t.get_frame_num(11), 256);
    assert_eq!(t.get_frame_num(12), 512);
    assert_eq!(t.get_frame_num(13), 0);
    assert_eq!(t.lookup(10), None);
    assert_eq!(t.lookup(13), Some(0));
    assert_eq!(t.get_frame_num(14), 256);
    assert_eq!(t.lookup(11), None);
    assert_eq!(t.lookup(12), Some(512));
}

#[test]
fn page_table_default_has_128_frames() {
    let mut t = PageTable::new();
    for p in 0..128u32 {
        assert_eq!(t.get_frame_num(p), p as usize * 256);
    }
    assert_eq!(t.get_frame_num(200), 0);
    assert_eq!(t.lookup(0), None);
    assert_eq!(t.lookup(200), Some(0));
}

#[test]
fn two_frames_pages_0_1_2_0_allocation() {
    let mut t = PageTable::with_frames(2);
    assert_eq!(t.get_frame_num(0), 0);
    assert_eq!(t.get_frame_num(1), 256);
    assert_eq!(t.get_frame_num(2), 0);
    assert_eq!(t.lookup(0), None);
    assert_eq!(t.get_frame_num(0), 256);
    assert_eq!(t.lookup(1), None);
    assert_eq!(t.lookup(0), Some(256));
}

#[test]
fn two_frames_pages_0_1_2_0_queries() {
    let backing = backing_store();
    let mut m = Memory::with_frames(2);
    let r1 = m.query(0x0000, &backing);
    let r2 = m.query(0x0100, &backing);
    let r3 = m.query(0x0200, &backing);
    assert!(r1.page_fault && r2.page_fault && r3.page_fault);
    assert_eq!(r1.physical_addr, 0);
    assert_eq!(r2.physical_addr, 256);
    assert_eq!(r3.physical_addr, 0);
    assert_eq!(m.page_table().lookup(0), None);
    // The cache is not invalidated on eviction: page 0's old entry still
    // answers, with the frame that now holds page 2.
    let r4 = m.query(0x0000, &backing);
    assert!(r4.tlb_hit);
    assert!(!r4.page_fault);
    assert_eq!(r4.physical_addr, 0);
    assert_eq!(r4.value, signed(backing[0x0200]));
}

#[test]
fn same_address_twice_on_empty_translator() {
    let backing = backing_store();
    let mut m = Memory::new();
    let first = m.query(0x0100, &backing);
    assert!(first.page_fault);
    assert!(!first.tlb_hit);
    let second = m.query(0x0100, &backing);
    assert!(!second.page_fault);
    assert!(second.tlb_hit);
    assert_eq!(first.physical_addr, second.physical_addr);
}

#[test]
fn bytes_above_127_read_as_negative() {
    let mut backing = vec![0u8; BACKING_STORE_SIZE];
    backing[0x0105] = 200;
    backing[0x0106] = 127;
    backing[0x0107] = 255;
    backing[0x0108] = 128;
    let mut m = Memory::new();
    assert_eq!(m.query(0x0105, &backing).value, -56);
    assert_eq!(m.query(0x0106, &backing).value, 127);
    assert_eq!(m.query(0x0107, &backing).value, -1);
    assert_eq!(m.query(0x0108, &backing).value, -128);
}

#[test]
fn faulted_page_is_copied_whole() {
    let backing = backing_store();
    let mut m = Memory::with_frames(2);
    m.query(0x0900, &backing);
    for o in 0..256u32 {
        let r = m.query(0x0900 | o, &backing);
        assert!(r.tlb_hit);
        assert_eq!(r.physical_addr, o as usize);
        assert_eq!(r.value, signed(backing[0x0900 + o as usize]));
    }
}

#[test]
fn tally_counts_a_stream() {
    let backing = backing_store();
    let mut m = Memory::with_frames(2);
    let mut t = Tally::new();
    for &addr in &[0x0000u32, 0x0001, 0x0100, 0x0200, 0x0201, 0x0100] {
        let r = m.query(addr, &backing);
        t.record(&r);
    }
    assert_eq!(t.count, 6);
    assert_eq!(t.page_faults, 3);
    assert_eq!(t.tlb_hits, 3);
    let fault_rate = t.page_faults as f64 / t.count as f64;
    let hit_rate = t.tlb_hits as f64 / t.count as f64;
    assert!((0.0..=1.0).contains(&fault_rate));
    assert!((0.0..=1.0).contains(&hit_rate));
}

#[test]
fn tally_record_counts_each_flag() {
    let mut t = Tally::new();
    t.record(&QueryResult { physical_addr: 0, page_fault: true, tlb_hit: false, value: 0 });
    t.record(&QueryResult { physical_addr: 0, page_fault: false, tlb_hit: true, value: 0 });
    t.record(&QueryResult { physical_addr: 0, page_fault: false, tlb_hit: false, value: 0 });
    assert_eq!(t, Tally { count: 3, page_faults: 1, tlb_hits: 1 });
}
