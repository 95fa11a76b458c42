//! Tests for the boot-order codec.

use jumpstarter::boot_order::EfiBootOrder;
use jumpstarter::errors::BootVarError;

#[test]
fn decodes_packed_indices() {
    let o = EfiBootOrder::new_from_variable(&[1, 0, 2, 0, 10, 0]).unwrap();
    assert_eq!(o.boot_order, vec![1, 2, 10]);
}

#[test]
fn decodes_high_bytes_little_endian() {
    let o = EfiBootOrder::new_from_variable(&[0x34, 0x12]).unwrap();
    assert_eq!(o.boot_order, vec![0x1234]);
}

#[test]
fn round_trips_even_buffer() {
    let buf = vec![1, 0, 0x34, 0x12, 0xFF, 0xFF];
    let o = EfiBootOrder::new_from_variable(&buf).unwrap();
    assert_eq!(o.as_bytes(), buf);
}

#[test]
fn empty_buffer_is_empty_order() {
    let o = EfiBootOrder::new_from_variable(&[]).unwrap();
    assert!(o.boot_order.is_empty());
    assert!(o.as_bytes().is_empty());
}

#[test]
fn odd_buffer_fails() {
    assert!(matches!(
        EfiBootOrder::new_from_variable(&[1, 0, 2]),
        Err(BootVarError::OddLengthBuffer)
    ));
    assert!(matches!(EfiBootOrder::new_from_variable(&[1]), Err(BootVarError::OddLengthBuffer)));
}
