use tlb_simulator::mmu::tlb::Tlb;
use tlb_simulator::{AddressTranslationResult, Mmu, SimulationError};

#[test]
fn mmu_should_be_initialized() {
    // a 4-bit architecture with a 2^2 page size and a 2-entry TLB
    let mmu = Mmu::new(4, 2, 2).unwrap();
    let tlb = Tlb::new(2);

    assert_eq!(mmu.page_table.len(), 4);
    assert_eq!(mmu.tlb, tlb);
}

#[test]
fn mmu_should_translate_address() {
    // examples taken from OS concepts 10th edition @ 9.6
    let mut mmu = Mmu::from_page_table(4, 2, 2, vec![5, 6, 1, 2]).unwrap();

    assert_eq!(mmu.translate(0b0000), Ok(AddressTranslationResult::Miss(20)));

    assert_eq!(mmu.translate(0b0001), Ok(AddressTranslationResult::Hit(21)));

    assert_eq!(mmu.translate(0b0110), Ok(AddressTranslationResult::Miss(26)));

    assert_eq!(mmu.translate(0b1111), Ok(AddressTranslationResult::Miss(11)));

    assert_eq!(mmu.translate(0b0000), Ok(AddressTranslationResult::Miss(20)));
}

#[test]
fn generated_page_table_samples_without_replacement() {
    // 6-bit addresses, 2-bit offset: 16 frames drawn from [0, 64)
    let mmu = Mmu::new(6, 2, 2).unwrap();
    let table = &mmu.page_table;
    assert_eq!(table.len(), 16);
    for v in table.iter() {
        assert!(*v < 64);
    }
    for i in 0..table.len() {
        for j in (i + 1)..table.len() {
            assert_ne!(table[i], table[j]);
        }
    }
}

#[test]
fn mmu_rejects_bad_configuration() {
    assert_eq!(
        Mmu::new(2, 4, 1).map(|_| ()),
        Err(SimulationError::Configuration)
    );
    assert_eq!(
        Mmu::new(4, 2, 0).map(|_| ()),
        Err(SimulationError::Configuration)
    );
    assert_eq!(
        Mmu::new(4000, 12, 4).map(|_| ()),
        Err(SimulationError::Configuration)
    );
    assert_eq!(
        Mmu::from_page_table(4, 2, 2, vec![5, 6, 1]).map(|_| ()),
        Err(SimulationError::Configuration)
    );
    assert_eq!(
        Mmu::from_page_table(4, 2, 2, vec![5, 6, 1, 16]).map(|_| ()),
        Err(SimulationError::Configuration)
    );
    assert_eq!(
        Mmu::from_page_table(4, 2, 2, vec![5, 6, 1, 5]).map(|_| ()),
        Err(SimulationError::Configuration)
    );
}

#[test]
fn mmu_rejects_full_universe_draw_beyond_u32() {
    // with a zero page offset the table covers the whole 2^M universe; the
    // sampler cannot draw a full range wider than 32 bits, so this is a
    // configuration error rather than a panic
    assert_eq!(
        Mmu::new(33, 0, 2).map(|_| ()),
        Err(SimulationError::Configuration)
    );
}

#[test]
fn mmu_supports_zero_page_offset() {
    // a zero offset within the 32-bit range: the table is a permutation of
    // the whole address space and physical addresses equal frame numbers
    let mut mmu = Mmu::new(4, 0, 2).unwrap();
    assert_eq!(mmu.page_table.len(), 16);
    for v in mmu.page_table.iter() {
        assert!(*v < 16);
    }
    let frame = mmu.page_table[3];
    assert_eq!(mmu.translate(3), Ok(AddressTranslationResult::Miss(frame)));
    assert_eq!(mmu.translate(3), Ok(AddressTranslationResult::Hit(frame)));
}

#[test]
fn mmu_rejects_out_of_range_address() {
    let mut mmu = Mmu::from_page_table(4, 2, 2, vec![5, 6, 1, 2]).unwrap();
    assert_eq!(mmu.translate(0b10000), Err(SimulationError::OutOfRangeAddress));
    // the failed translation left the TLB alone: the next lookup still misses
    assert_eq!(mmu.translate(0b0000), Ok(AddressTranslationResult::Miss(20)));
}
