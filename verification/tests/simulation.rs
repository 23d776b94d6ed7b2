use tlb_simulator::{Mmu, Simulation, SimulationError, SimulationResult, Trace};

#[test]
fn simulation_should_run() {
    let trace = "07b243a0 R
            07b24380 R";

    let mut simulation = Simulation::new(32, 12, 4, trace).unwrap();
    let SimulationResult { hits, misses, total } = simulation.run().unwrap();

    assert_eq!(hits, 1);
    assert_eq!(misses, 1);
    assert_eq!(total, 2);

    let hit_rate = hits as f64 / total as f64;
    let miss_rate = misses as f64 / total as f64;
    assert_eq!(hit_rate, 0.5);
    assert_eq!(miss_rate, 0.5);

    let result = SimulationResult::new(hits, misses, total);
    let (num, den) = result.effective_memory_cycle_rate(30, 1);
    assert_eq!(num as f64 / den as f64, 45.5);
}

#[test]
fn simulation_counts_follow_fifo_eviction() {
    // the scenario of the translation test, replayed through the driver
    let mmu = Mmu::from_page_table(4, 2, 2, vec![5, 6, 1, 2]).unwrap();
    let trace = Trace::from_operations(vec![0b0000, 0b0001, 0b0110, 0b1111, 0b0000]);
    let mut simulation = Simulation::from_parts(mmu, trace);
    let result = simulation.run().unwrap();
    assert_eq!(result.hits, 1);
    assert_eq!(result.misses, 4);
    assert_eq!(result.total, 5);
}

#[test]
fn simulation_rejects_empty_trace() {
    let mut simulation = Simulation::new(4, 2, 2, "").unwrap();
    assert_eq!(simulation.run(), Err(SimulationError::EmptyTrace));
}

#[test]
fn simulation_aborts_on_out_of_range_address() {
    let mmu = Mmu::from_page_table(4, 2, 2, vec![5, 6, 1, 2]).unwrap();
    let trace = Trace::from_operations(vec![0b0000, 0b10000]);
    let mut simulation = Simulation::from_parts(mmu, trace);
    assert_eq!(simulation.run(), Err(SimulationError::OutOfRangeAddress));
}

#[test]
fn simulation_new_reports_each_error() {
    assert!(matches!(
        Simulation::new(2, 4, 1, "ff"),
        Err(SimulationError::Configuration)
    ));
    assert!(matches!(
        Simulation::new(4, 2, 2, "not hex"),
        Err(SimulationError::InvalidTraceLine)
    ));
}

#[test]
fn effective_memory_cycle_rate_formula() {
    // the textbook example: a 1% miss rate, 30-cycle memory reads and a
    // 1-cycle TLB hit average 31.29 cycles per access
    let result = SimulationResult::new(99, 1, 100);
    let (num, den) = result.effective_memory_cycle_rate(30, 1);
    assert_eq!(num, 3129);
    assert_eq!(den, 100);
    assert_eq!(num as f64 / den as f64, 31.29);

    // the rate identity: hit rate and miss rate sum to one
    let hit_rate = result.hits as f64 / result.total as f64;
    let miss_rate = result.misses as f64 / result.total as f64;
    assert_eq!(hit_rate + miss_rate, 1.0);
}
