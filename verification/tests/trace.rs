use tlb_simulator::trace::parse_usize;
use tlb_simulator::{SimulationError, Trace};

#[test]
fn trace_should_be_parsed() {
    let trace = Trace::from_str("07b243a0\n08b24312").unwrap();

    let expected = Trace {
        operations: vec![(0x07b243a0), (0x08b24312)],
    };

    assert_eq!(trace, expected);
}

#[test]
fn trace_rejects_invalid_line() {
    assert_eq!(
        Trace::from_str("07b243a0R\n08b24312").map(|_| ()),
        Err(SimulationError::InvalidTraceLine)
    );
    assert_eq!(
        Trace::from_str("xyz").map(|_| ()),
        Err(SimulationError::InvalidTraceLine)
    );
    assert_eq!(
        Trace::from_str("07b243a0\n\n08b24312").map(|_| ()),
        Err(SimulationError::InvalidTraceLine)
    );
    // 2^64 does not fit a 64-bit word
    assert_eq!(
        Trace::from_str("10000000000000000").map(|_| ()),
        Err(SimulationError::InvalidTraceLine)
    );
}

#[test]
fn trace_accepts_tags_and_blank_edges() {
    let trace = Trace::from_str("  07b243a0 R\r\n08b24312 W").unwrap();
    assert_eq!(trace.operations(), &vec![0x07b243a0, 0x08b24312]);

    let empty = Trace::from_str("").unwrap();
    assert_eq!(empty.operations().len(), 0);

    let upper = Trace::from_str("FF\nff").unwrap();
    assert_eq!(trace_values(&upper), vec![255, 255]);
}

fn trace_values(t: &Trace) -> Vec<usize> {
    t.operations().clone()
}

#[test]
fn trace_new_is_empty() {
    let t = Trace::new();
    assert_eq!(t.operations().len(), 0);
    let u = Trace::from_operations(vec![1, 2, 3]);
    assert_eq!(u.operations(), &vec![1, 2, 3]);
}

#[test]
fn parse_usize_reads_decimal() {
    assert_eq!(parse_usize("0"), Some(0));
    assert_eq!(parse_usize(""), Some(0));
    assert_eq!(parse_usize("123"), Some(123));
    assert_eq!(parse_usize("18446744073709551615"), Some(usize::MAX));
    assert_eq!(parse_usize("18446744073709551616"), None);
    assert_eq!(parse_usize("12a"), None);
    assert_eq!(parse_usize(" 1"), None);
}
