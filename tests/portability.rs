use simdcsv::portability::{hamming, leading_zeros, trailing_zeros};

#[test]
fn test_trailing_zeros() {
    assert_eq!(trailing_zeros(0b1000), 3);
    assert_eq!(trailing_zeros(0b0001), 0);
    assert_eq!(trailing_zeros(0b1010_0000), 5);
}

#[test]
fn test_leading_zeros() {
    assert_eq!(leading_zeros(0b0001), 63);
    assert_eq!(
        leading_zeros(
            0b1000_0000_0000_0000_0000_0000_0000_0000_0000_0000_0000_0000_0000_0000_0000_0000
        ),
        0
    );
}

#[test]
fn test_hamming() {
    assert_eq!(hamming(0b1111), 4);
    assert_eq!(hamming(0b1010_1010), 4);
    assert_eq!(hamming(0), 0);
}

#[test]
fn zero_word_counts() {
    assert_eq!(trailing_zeros(0), 64);
    assert_eq!(leading_zeros(0), 64);
    assert_eq!(hamming(u64::MAX), 64);
    assert_eq!(hamming(0x8000_0000_0000_0001), 2);
}
