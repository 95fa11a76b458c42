//! Tests for the load-option codec: layout, round trips, and each
//! malformed-input error.

use jumpstarter::errors::BootVarError;
use jumpstarter::load_option::EfiLoadOption;
use jumpstarter::load_option::LoadOptionAttributes;

fn le16(v: u16) -> [u8; 2] {
    [(v % 0x100) as u8, (v / 0x100) as u8]
}

/// A synthetic hard-drive node: 4-byte header, then 38 payload bytes.
fn hd_node_bytes(number: u32, start: u64, size: u64, format: u8, sig_type: u8, sig: u8) -> Vec<u8> {
    let mut v = vec![0x04u8, 0x01u8, 42u8, 0u8];
    v.extend_from_slice(&number.to_le_bytes());
    v.extend_from_slice(&start.to_le_bytes());
    v.extend_from_slice(&size.to_le_bytes());
    v.extend_from_slice(&[sig; 16]);
    v.push(format);
    v.push(sig_type);
    v
}

/// A synthetic file-path node holding the UCS-2 string plus terminator.
fn file_node_bytes(path: &str) -> Vec<u8> {
    let units: Vec<u16> = path.encode_utf16().collect();
    let len = (4 + 2 * (units.len() + 1)) as u16;
    let mut v = vec![0x04u8, 0x04u8];
    v.extend_from_slice(&le16(len));
    for u in units {
        v.extend_from_slice(&le16(u));
    }
    v.extend_from_slice(&[0, 0]);
    v
}

fn end_node_bytes() -> Vec<u8> {
    vec![0x7F, 0xFF, 4, 0]
}

/// One full well-formed record: attributes, section length, description,
/// one device path (opaque node, hard-drive node, file node, end marker),
/// then optional data.
fn sample_record() -> Vec<u8> {
    let mut path = vec![0x01u8, 0x01u8, 8u8, 0u8, 0xAA, 0xBB, 0xCC, 0xDD];
    path.extend_from_slice(&hd_node_bytes(1, 0x22, 0x1000, 2, 2, 0x11));
    path.extend_from_slice(&file_node_bytes("\\loader.efi"));
    path.extend_from_slice(&end_node_bytes());

    let mut buf = Vec::new();
    buf.extend_from_slice(&1u32.to_le_bytes());
    buf.extend_from_slice(&le16(path.len() as u16));
    buf.extend_from_slice(&le16(0x42)); // description "B"
    buf.extend_from_slice(&[0, 0]);
    buf.extend_from_slice(&path);
    buf.extend_from_slice(&[0xDE, 0xAD]);
    buf
}

#[test]
fn decodes_sample_record_fields() {
    let buf = sample_record();
    let o = EfiLoadOption::try_from(&buf).unwrap();
    assert_eq!(o.attributes.bits(), 1);
    assert!(o.attributes.is_active());
    assert!(!o.attributes.is_hidden());
    assert_eq!(o.description, vec![0x42]);
    assert_eq!(o.device_path_list.len(), 1);
    let nodes = &o.device_path_list[0].nodes;
    assert_eq!(nodes.len(), 3); // end marker is implicit
    assert_eq!(nodes[0].device_type, 0x01);
    assert_eq!(nodes[0].data, vec![0xAA, 0xBB, 0xCC, 0xDD]);
    assert_eq!(nodes[1].device_type, 0x04);
    assert_eq!(nodes[1].sub_type, 0x01);
    assert_eq!(nodes[1].data.len(), 38);
    assert_eq!(nodes[2].sub_type, 0x04);
    assert_eq!(o.optional_data, Some(vec![0xDE, 0xAD]));
}

#[test]
fn round_trips_sample_record() {
    let buf = sample_record();
    let o = EfiLoadOption::try_from(&buf).unwrap();
    assert_eq!(o.as_bytes(), buf);
}

#[test]
fn round_trips_record_without_paths_or_payload() {
    let buf = vec![7, 0, 0, 0, 0, 0, 0, 0];
    let o = EfiLoadOption::try_from(&buf).unwrap();
    assert_eq!(o.attributes.bits(), 7);
    assert!(o.description.is_empty());
    assert!(o.device_path_list.is_empty());
    assert_eq!(o.optional_data, None);
    assert_eq!(o.as_bytes(), buf);
}

#[test]
fn short_record_fails() {
    assert!(matches!(EfiLoadOption::try_from(&[]), Err(BootVarError::RecordTooShort)));
    assert!(matches!(EfiLoadOption::try_from(&[0, 0, 0, 0, 0]), Err(BootVarError::RecordTooShort)));
}

#[test]
fn unterminated_description_fails() {
    // One non-null unit, then the record ends: no terminator.
    let buf = vec![0, 0, 0, 0, 0, 0, 0x41, 0];
    assert!(matches!(EfiLoadOption::try_from(&buf), Err(BootVarError::MalformedRecord)));
    // A six-byte record has no room even for the terminator.
    let buf = vec![0, 0, 0, 0, 0, 0];
    assert!(matches!(EfiLoadOption::try_from(&buf), Err(BootVarError::MalformedRecord)));
}

#[test]
fn truncated_section_fails() {
    // Declared section length 4, but the first path needs 12 bytes.
    let mut buf = vec![0, 0, 0, 0, 4, 0, 0, 0];
    buf.extend_from_slice(&[0x01, 0x01, 8, 0, 9, 9, 9, 9]);
    buf.extend_from_slice(&end_node_bytes());
    assert!(matches!(EfiLoadOption::try_from(&buf), Err(BootVarError::TruncatedDevicePath)));
}

#[test]
fn node_running_past_buffer_fails() {
    // A node header declaring 20 bytes with only 2 present: never read
    // out of bounds, always an error.
    let mut buf = vec![0, 0, 0, 0, 8, 0, 0, 0];
    buf.extend_from_slice(&[0x01, 0x01, 20, 0, 1, 2]);
    assert!(matches!(EfiLoadOption::try_from(&buf), Err(BootVarError::TruncatedDevicePath)));
}

#[test]
fn zero_length_section_with_nonzero_bytes_is_payload() {
    // Section length zero: everything after the description is payload.
    let buf = vec![0, 0, 0, 0, 0, 0, 0, 0, 0x55];
    let o = EfiLoadOption::try_from(&buf).unwrap();
    assert!(o.device_path_list.is_empty());
    assert_eq!(o.optional_data, Some(vec![0x55]));
}

#[test]
fn attribute_accessors_follow_masks() {
    let a = LoadOptionAttributes::from(0x0109);
    assert!(a.is_active());
    assert!(!a.is_force_reconnect());
    assert!(a.is_hidden());
    assert_eq!(a.category(), 0x100);
    assert!(a.is_category_app());
    assert!(!a.is_category_boot());

    let b = LoadOptionAttributes::from(0x0003);
    assert!(b.is_active());
    assert!(b.is_force_reconnect());
    assert_eq!(b.category(), 0);
    assert!(!b.is_category_app());
    // The boot category is the zero value of the sub-field, not a bit.
    assert!(b.is_category_boot());
}
