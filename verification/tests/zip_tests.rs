use audioserve::zip::{Descriptor, ToBytes, ZipError};

#[test]
fn data_descriptor_bytes() {
    let d = Descriptor::new(0x0102, 0x12345678);
    let b = d.to_bytes().unwrap();
    assert_eq!(b.len(), 16);
    assert_eq!(&b[0..4], b"PK\x07\x08");
    assert_eq!(&b[4..8], &0x12345678u32.to_le_bytes());
    assert_eq!(&b[8..12], &0x0102u32.to_le_bytes());
    assert_eq!(&b[12..16], &0x0102u32.to_le_bytes());
    let big = Descriptor::new(u32::MAX as u64 + 1, 0);
    assert_eq!(big.to_bytes(), Err(ZipError::FileTooBig(u32::MAX as u64 + 1)));
}
