use simdcsv::io::PaddedBuffer;
use simdcsv::parse_csv;

#[test]
fn padded_buffer_keeps_data() {
    let buffer = PaddedBuffer::new(b"a,b,c\n1,2,3\n4,5,6\n", 64);
    assert_eq!(buffer.len(), 18);
    assert!(!buffer.is_empty());
    assert_eq!(buffer.data(), b"a,b,c\n1,2,3\n4,5,6\n");
    assert_eq!(parse_csv(buffer.data()).indexes, vec![1, 3, 5, 7, 9, 11, 13, 15, 17]);
}

#[test]
fn padded_buffer_empty() {
    let buffer = PaddedBuffer::new(b"", 64);
    assert_eq!(buffer.len(), 0);
    assert!(buffer.is_empty());
    assert!(buffer.data().is_empty());
}
