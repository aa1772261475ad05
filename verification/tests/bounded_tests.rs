use minigit::bounded::BoundedReader;
use minigit::error::StoreError;

#[test]
fn overrun_rejected_before_exposing_extra_byte() {
    // a source offering more than the limit must fail a read that asks past it
    let source = b"0123456789".to_vec();
    let mut br = BoundedReader::new(source, 5);
    assert_eq!(br.read(10), Err(StoreError::Overrun));
}

#[test]
fn reads_within_limit_succeed() {
    let source = b"0123456789".to_vec();
    let mut br = BoundedReader::new(source, 5);
    assert_eq!(br.read(3).unwrap(), b"012".to_vec());
    assert_eq!(br.read(2).unwrap(), b"34".to_vec());
    // the limit is exhausted but the source still offers bytes: overrun
    assert_eq!(br.read(1), Err(StoreError::Overrun));
}

#[test]
fn exhausted_source_reads_zero_bytes() {
    let source = b"abc".to_vec();
    let mut br = BoundedReader::new(source, 3);
    assert_eq!(br.read(3).unwrap(), b"abc".to_vec());
    // reaching the limit together with the end of the source is the normal
    // end: further reads yield nothing, not an error
    assert_eq!(br.read(5).unwrap(), Vec::<u8>::new());
}

#[test]
fn limit_larger_than_source() {
    let source = b"ab".to_vec();
    let mut br = BoundedReader::new(source, 100);
    assert_eq!(br.read(50).unwrap(), b"ab".to_vec());
    assert_eq!(br.read(1).unwrap(), Vec::<u8>::new());
}

#[test]
fn peek_never_reveals_beyond_limit() {
    let source = b"0123456789".to_vec();
    let br = BoundedReader::new(source, 4);
    assert_eq!(br.peek(), b"0123".to_vec());
}

#[test]
fn consume_decreases_limit_by_min() {
    let source = b"0123456789".to_vec();
    let mut br = BoundedReader::new(source, 4);
    br.consume(2);
    assert_eq!(br.peek(), b"23".to_vec());
    // consuming more than the remaining limit clamps at the limit
    br.consume(100);
    assert_eq!(br.peek(), Vec::<u8>::new());
}
