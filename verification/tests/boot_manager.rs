//! Tests for the boot manager: variable-name selection, construction,
//! sorting, and free-index allocation.

use jumpstarter::boot_manager::boot_var_index;
use jumpstarter::boot_manager::EfiBootManager;
use jumpstarter::boot_order::EfiBootOrder;
use jumpstarter::errors::BootVarError;
use jumpstarter::load_option::EfiLoadOption;
use jumpstarter::load_option::LoadOptionAttributes;

fn units(s: &str) -> Vec<u16> {
    s.encode_utf16().collect()
}

/// A minimal decodable record with the given attribute word.
fn record(attrs: u32) -> Vec<u8> {
    let mut v = Vec::new();
    v.extend_from_slice(&attrs.to_le_bytes());
    v.extend_from_slice(&[0, 0, 0, 0]);
    v
}

fn bare_option(attrs: u32) -> EfiLoadOption {
    EfiLoadOption {
        attributes: LoadOptionAttributes::from(attrs),
        description: Vec::new(),
        device_path_list: Vec::new(),
        optional_data: None,
    }
}

fn manager_with_indices(indices: &[usize]) -> EfiBootManager {
    EfiBootManager {
        boot_options: indices.iter().map(|&i| (i, bare_option(0))).collect(),
        boot_order: EfiBootOrder { boot_order: Vec::new() },
    }
}

#[test]
fn accepts_boot_variable_names() {
    assert_eq!(boot_var_index(&units("Boot0000")), Some(0));
    assert_eq!(boot_var_index(&units("Boot0001")), Some(1));
    assert_eq!(boot_var_index(&units("BootABCD")), Some(0xABCD));
    assert_eq!(boot_var_index(&units("Bootabcd")), Some(0xABCD));
    assert_eq!(boot_var_index(&units("BootFFFF")), Some(0xFFFF));
    assert_eq!(boot_var_index(&units("Boot0a1F")), Some(0x0A1F));
}

#[test]
fn rejects_other_variable_names() {
    assert_eq!(boot_var_index(&units("BootOrder")), None);
    assert_eq!(boot_var_index(&units("Boot001")), None);
    assert_eq!(boot_var_index(&units("Boot00011")), None);
    assert_eq!(boot_var_index(&units("Boot00G1")), None);
    assert_eq!(boot_var_index(&units("Root0001")), None);
    assert_eq!(boot_var_index(&units("boot0001")), None);
    assert_eq!(boot_var_index(&units("")), None);
}

#[test]
fn builds_sorted_manager() {
    let entries = vec![(3usize, record(3)), (1usize, record(1)), (2usize, record(2))];
    let m = EfiBootManager::new_from_variables(&[1, 0, 3, 0], &entries).unwrap();
    assert_eq!(m.boot_order.boot_order, vec![1, 3]);
    let indices: Vec<usize> = m.boot_options.iter().map(|p| p.0).collect();
    assert_eq!(indices, vec![1, 2, 3]);
    // Each entry kept its own decoded record.
    for (i, o) in &m.boot_options {
        assert_eq!(o.attributes.bits() as usize, *i);
    }
}

#[test]
fn bad_entry_aborts_construction() {
    let entries = vec![(0usize, record(0)), (1usize, vec![1, 2, 3])];
    assert!(matches!(
        EfiBootManager::new_from_variables(&[], &entries),
        Err(BootVarError::RecordTooShort)
    ));
}

#[test]
fn bad_boot_order_aborts_construction() {
    assert!(matches!(
        EfiBootManager::new_from_variables(&[1, 0, 2], &Vec::new()),
        Err(BootVarError::OddLengthBuffer)
    ));
}

#[test]
fn next_index_of_empty_set_is_zero() {
    let m = manager_with_indices(&[]);
    assert_eq!(m.get_next_available_boot_index().unwrap(), 0);
}

#[test]
fn next_index_appends_after_dense_run() {
    let m = manager_with_indices(&[0, 1, 2]);
    assert_eq!(m.get_next_available_boot_index().unwrap(), 3);
}

#[test]
fn next_index_fills_first_gap() {
    let m = manager_with_indices(&[0, 1, 3]);
    assert_eq!(m.get_next_available_boot_index().unwrap(), 2);
}

#[test]
fn next_index_is_zero_when_zero_is_free() {
    let m = manager_with_indices(&[1, 2, 3]);
    assert_eq!(m.get_next_available_boot_index().unwrap(), 0);
}
