use tlb_simulator::mmu::tlb::Tlb;

#[test]
fn tlb_lookup() {
    let mut tlb = Tlb::new(4);

    tlb.update(0, 0);
    tlb.update(1, 1);
    tlb.update(2, 2);
    tlb.update(3, 3);

    assert_eq!(tlb.lookup(0), Some(0));
    assert_eq!(tlb.lookup(1), Some(1));
    assert_eq!(tlb.lookup(2), Some(2));
    assert_eq!(tlb.lookup(3), Some(3));

    tlb.update(4, 4);

    assert_eq!(tlb.lookup(0), None);
    assert_eq!(tlb.lookup(1), Some(1));
    assert_eq!(tlb.lookup(2), Some(2));
    assert_eq!(tlb.lookup(3), Some(3));
    assert_eq!(tlb.lookup(4), Some(4));
}

#[test]
fn tlb_capacity_never_grows() {
    let mut tlb = Tlb::new(2);
    for page in 0..100usize {
        tlb.update(page, page + 1);
        assert_eq!(tlb.capacity(), 2);
        assert_eq!(tlb.entries.len(), 2);
    }
    // only the two most recent pages are cached
    assert_eq!(tlb.lookup(99), Some(100));
    assert_eq!(tlb.lookup(98), Some(99));
    assert_eq!(tlb.lookup(97), None);
}

#[test]
fn tlb_update_duplicates_an_already_cached_page() {
    let mut tlb = Tlb::new(2);
    tlb.update(7, 1);
    tlb.update(7, 1);
    // the page transiently occupies both slots
    assert_eq!(tlb.lookup(7), Some(1));
    tlb.update(8, 2);
    // the older copy was evicted, the newer one still answers
    assert_eq!(tlb.lookup(7), Some(1));
    tlb.update(9, 3);
    assert_eq!(tlb.lookup(7), None);
    assert_eq!(tlb.lookup(8), Some(2));
    assert_eq!(tlb.lookup(9), Some(3));
}

#[test]
fn tlb_lookups_do_not_refresh_recency() {
    let mut tlb = Tlb::new(2);
    tlb.update(1, 10);
    tlb.update(2, 20);
    // many hits on page 1 must not save it from FIFO eviction
    for _ in 0..10 {
        assert_eq!(tlb.lookup(1), Some(10));
    }
    tlb.update(3, 30);
    assert_eq!(tlb.lookup(1), None);
    assert_eq!(tlb.lookup(2), Some(20));
    assert_eq!(tlb.lookup(3), Some(30));
}
