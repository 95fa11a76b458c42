//! Tests for identity matching and path resynthesis.

use jumpstarter::boot_manager::EfiBootManager;
use jumpstarter::boot_order::EfiBootOrder;
use jumpstarter::device_path::DevicePath;
use jumpstarter::device_path::DevicePathNode;
use jumpstarter::load_option::EfiLoadOption;
use jumpstarter::load_option::LoadOptionAttributes;
use jumpstarter::matcher::driver_sibling_path;
use jumpstarter::matcher::file_path_node;
use jumpstarter::matcher::filter_nvme_paths;
use jumpstarter::matcher::plan_boot_loads;
use jumpstarter::matcher::plan_for_segment;
use jumpstarter::matcher::resynthesize;

fn node(device_type: u8, sub_type: u8, data: Vec<u8>) -> DevicePathNode {
    DevicePathNode { device_type, sub_type, data }
}

fn hd_node(number: u32, start: u64, size: u64, format: u8, sig_type: u8, sig: u8) -> DevicePathNode {
    let mut data = Vec::new();
    data.extend_from_slice(&number.to_le_bytes());
    data.extend_from_slice(&start.to_le_bytes());
    data.extend_from_slice(&size.to_le_bytes());
    data.extend_from_slice(&[sig; 16]);
    data.push(format);
    data.push(sig_type);
    node(0x04, 0x01, data)
}

fn file_node(path: &str) -> DevicePathNode {
    let units: Vec<u16> = path.encode_utf16().collect();
    file_path_node(&units)
}

fn path(nodes: Vec<DevicePathNode>) -> DevicePath {
    DevicePath { nodes }
}

fn node_eq(a: &DevicePathNode, b: &DevicePathNode) -> bool {
    a.device_type == b.device_type && a.sub_type == b.sub_type && a.data == b.data
}

#[test]
fn extracts_first_hard_drive_identity() {
    let p = path(vec![
        node(0x02, 0x01, vec![0; 8]),
        hd_node(1, 0x22, 0x1000, 2, 2, 0x11),
        file_node("\\loader.efi"),
    ]);
    let h = p.hard_drive().unwrap();
    assert_eq!(h.partition_number, 1);
    assert_eq!(h.partition_start, 0x22);
    assert_eq!(h.partition_size, 0x1000);
    assert_eq!(h.partition_format, 2);
    assert_eq!(h.signature_type, 2);
    assert_eq!(h.signature, vec![0x11; 16]);
}

#[test]
fn path_without_hard_drive_has_no_identity() {
    let p = path(vec![node(0x02, 0x01, vec![0; 8]), file_node("\\x")]);
    assert!(p.hard_drive().is_none());
}

#[test]
fn identical_identities_match_despite_different_prefixes() {
    let live = path(vec![
        node(0x02, 0x01, vec![0xA; 8]),
        node(0x01, 0x01, vec![0xB; 4]),
        hd_node(1, 0x22, 0x1000, 2, 2, 0x11),
    ]);
    let entry = path(vec![
        node(0x03, 0x05, vec![0xC; 2]),
        hd_node(1, 0x22, 0x1000, 2, 2, 0x11),
        file_node("\\loader.efi"),
    ]);
    let lh = live.hard_drive().unwrap();
    let eh = entry.hard_drive().unwrap();
    assert!(lh.matches(&eh));
}

#[test]
fn any_single_differing_field_fails_to_match() {
    let base = hd_node(1, 0x22, 0x1000, 2, 2, 0x11);
    let variants = vec![
        hd_node(2, 0x22, 0x1000, 2, 2, 0x11),
        hd_node(1, 0x23, 0x1000, 2, 2, 0x11),
        hd_node(1, 0x22, 0x1001, 2, 2, 0x11),
        hd_node(1, 0x22, 0x1000, 1, 2, 0x11),
        hd_node(1, 0x22, 0x1000, 2, 1, 0x11),
        hd_node(1, 0x22, 0x1000, 2, 2, 0x12),
    ];
    let a = path(vec![base]).hard_drive().unwrap();
    for v in variants {
        let b = path(vec![v]).hard_drive().unwrap();
        assert!(!a.matches(&b));
        assert!(!b.matches(&a));
    }
}

#[test]
fn resynthesis_splices_live_prefix_and_entry_file() {
    let a = node(0x02, 0x01, vec![0xA; 8]);
    let b = node(0x01, 0x01, vec![0xB; 4]);
    let hd = hd_node(1, 0x22, 0x1000, 2, 2, 0x11);
    let x = node(0x03, 0x05, vec![0xC; 2]);
    let y = node(0x03, 0x06, vec![0xD; 2]);
    let f = file_node("\\loader.efi");

    let live = path(vec![a, b, hd]);
    let entry = path(vec![
        x,
        y,
        hd_node(1, 0x22, 0x1000, 2, 2, 0x11),
        file_node("\\loader.efi"),
    ]);
    let r = resynthesize(&live, &entry);
    assert_eq!(r.nodes.len(), 4);
    assert!(node_eq(&r.nodes[0], &live.nodes[0]));
    assert!(node_eq(&r.nodes[1], &live.nodes[1]));
    assert!(node_eq(&r.nodes[2], &live.nodes[2]));
    assert!(node_eq(&r.nodes[3], &f));
}

#[test]
fn resynthesis_without_file_node_ends_at_partition() {
    let live = path(vec![node(0x02, 0x01, vec![0xA; 8]), hd_node(1, 2, 3, 2, 2, 9)]);
    let entry = path(vec![hd_node(1, 2, 3, 2, 2, 9)]);
    let r = resynthesize(&live, &entry);
    assert_eq!(r.nodes.len(), 2);
    assert!(node_eq(&r.nodes[1], &live.nodes[1]));
}

#[test]
fn plan_for_segment_keeps_only_matching_lives() {
    let matching = path(vec![node(0x02, 0x01, vec![1; 4]), hd_node(1, 2, 3, 2, 2, 9)]);
    let other = path(vec![node(0x02, 0x01, vec![2; 4]), hd_node(7, 2, 3, 2, 2, 9)]);
    let bare = path(vec![node(0x02, 0x01, vec![3; 4])]);
    let entry = path(vec![hd_node(1, 2, 3, 2, 2, 9), file_node("\\a")]);
    let planned = plan_for_segment(&vec![other, matching, bare], &entry);
    assert_eq!(planned.len(), 1);
    assert_eq!(planned[0].nodes.len(), 3);
    assert!(node_eq(&planned[0].nodes[2], &file_node("\\a")));
}

#[test]
fn plan_boot_loads_walks_entries_in_order() {
    let live = path(vec![node(0x02, 0x01, vec![1; 4]), hd_node(1, 2, 3, 2, 2, 9)]);
    let seg_match = path(vec![hd_node(1, 2, 3, 2, 2, 9), file_node("\\a")]);
    let seg_other = path(vec![hd_node(5, 2, 3, 2, 2, 9), file_node("\\b")]);
    let option = EfiLoadOption {
        attributes: LoadOptionAttributes::from(1),
        description: vec![0x42],
        device_path_list: vec![seg_other, seg_match],
        optional_data: None,
    };
    let manager = EfiBootManager {
        boot_options: vec![(0, option)],
        boot_order: EfiBootOrder { boot_order: Vec::new() },
    };
    let planned = plan_boot_loads(&manager, &vec![live]);
    assert_eq!(planned.len(), 1);
    assert!(node_eq(&planned[0].nodes[2], &file_node("\\a")));
}

#[test]
fn nvme_paths_are_recognized_and_filtered() {
    let nvme = path(vec![node(0x02, 0x01, vec![0; 4]), node(0x03, 0x17, vec![0; 8])]);
    let scsi = path(vec![node(0x02, 0x01, vec![0; 4]), node(0x03, 0x02, vec![0; 8])]);
    assert!(nvme.is_nvme());
    assert!(!scsi.is_nvme());
    let kept = filter_nvme_paths(&vec![scsi, nvme]);
    assert_eq!(kept.len(), 1);
    assert!(kept[0].is_nvme());
}

#[test]
fn file_path_node_carries_terminated_units() {
    let n = file_node("\\ab");
    assert_eq!(n.device_type, 0x04);
    assert_eq!(n.sub_type, 0x04);
    assert_eq!(n.data, vec![0x5C, 0, 0x61, 0, 0x62, 0, 0, 0]);
}

#[test]
fn driver_path_replaces_file_node() {
    let a = node(0x02, 0x01, vec![0xA; 8]);
    let b = node(0x01, 0x01, vec![0xB; 4]);
    let image = path(vec![
        node(0x02, 0x01, vec![0xA; 8]),
        node(0x01, 0x01, vec![0xB; 4]),
        file_node("\\efi\\boot\\app.efi"),
    ]);
    let driver = file_node("\\efi\\boot\\js\\drivers\\NvmExpressDxe.efi");
    let r = driver_sibling_path(&image, file_node("\\efi\\boot\\js\\drivers\\NvmExpressDxe.efi"));
    assert_eq!(r.nodes.len(), 3);
    assert!(node_eq(&r.nodes[0], &a));
    assert!(node_eq(&r.nodes[1], &b));
    assert!(node_eq(&r.nodes[2], &driver));
}

#[test]
fn file_path_finds_first_file_node() {
    let p = path(vec![node(0x02, 0x01, vec![0; 4]), file_node("\\x"), file_node("\\y")]);
    let f = p.file_path().unwrap();
    assert!(node_eq(&f, &file_node("\\x")));
    assert!(path(vec![node(0x02, 0x01, vec![0; 4])]).file_path().is_none());
}
