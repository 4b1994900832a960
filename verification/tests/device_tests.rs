use lsblk_rs::device::{get_block_details, BlockDevice, DeviceKind, DeviceSource, RegistryNode};
use lsblk_rs::registry::{read_file_to_string, ReadOutcome};

fn node(name: &str, dev: &str, rm: &str, size: &str, ro: &str, uevent: &str) -> RegistryNode {
    RegistryNode {
        name: name.to_string(),
        dev: dev.to_string(),
        removable: rm.to_string(),
        size: size.to_string(),
        ro: ro.to_string(),
        uevent: uevent.to_string(),
    }
}

fn sda() -> DeviceSource {
    DeviceSource {
        node: node("sda", "8:0", "0", "2048", "0", "MAJOR=8\nMINOR=0\nDEVNAME=sda\nDEVTYPE=disk"),
        entries: vec![
            node("queue", "", "", "", "", ""),
            node("sda1", "8:1", "1", "100", "0", "DEVTYPE=partition"),
            node("holders", "", "", "", "", ""),
            node("sda2", "8:2", "1", "1948", "1", ""),
        ],
    }
}

#[test]
fn one_disk_with_two_partitions_gives_three_records() {
    let mut records: Vec<BlockDevice> = Vec::new();
    get_block_details(&vec![sda()], &Some(String::new()), &mut records);
    assert_eq!(records.len(), 3);
    assert_eq!(records[0].name, "sda");
    assert_eq!(records[1].name, "sda1");
    assert_eq!(records[2].name, "sda2");
    assert_eq!(records[0].partitions, vec!["sda1", "sda2"]);
}

#[test]
fn partitions_inherit_the_removable_flag_of_their_disk() {
    let mut records: Vec<BlockDevice> = Vec::new();
    get_block_details(&vec![sda()], &None, &mut records);
    assert_eq!(records[0].rm, "0");
    assert_eq!(records[1].rm, "0");
    assert_eq!(records[2].rm, "0");

    let mut source = sda();
    source.node.removable = "1".to_string();
    source.entries[1].removable = "0".to_string();
    let mut records: Vec<BlockDevice> = Vec::new();
    get_block_details(&vec![source], &None, &mut records);
    assert_eq!(records[1].rm, "1");
    assert_eq!(records[2].rm, "1");
}

#[test]
fn a_disk_record_holds_what_the_registry_shows() {
    let mut records: Vec<BlockDevice> = Vec::new();
    get_block_details(&vec![sda()], &Some("/dev/sda /mnt/whole".to_string()), &mut records);
    assert_eq!(
        records[0],
        BlockDevice {
            name: "sda".to_string(),
            dev_id: "8:0".to_string(),
            rm: "0".to_string(),
            size: "2048".to_string(),
            ro: "0".to_string(),
            dev_type: "disk".to_string(),
            kind: DeviceKind::Disk,
            mountpoints: Some(vec!["/mnt/whole".to_string()]),
            partitions: vec!["sda1".to_string(), "sda2".to_string()],
        }
    );
}

#[test]
fn a_partition_record_has_its_own_identifier_size_and_read_only_flag() {
    let mut records: Vec<BlockDevice> = Vec::new();
    let table = "/dev/sda2 /home ext4 rw 0 0\n/dev/sda1 / ext4 rw 0 0\n/dev/sda2 /srv ext4 rw 0 0";
    get_block_details(&vec![sda()], &Some(table.to_string()), &mut records);
    assert_eq!(
        records[2],
        BlockDevice {
            name: "sda2".to_string(),
            dev_id: "8:2".to_string(),
            rm: "0".to_string(),
            size: "1948".to_string(),
            ro: "1".to_string(),
            dev_type: "part".to_string(),
            kind: DeviceKind::Partition,
            mountpoints: Some(vec!["/home".to_string(), "/srv".to_string()]),
            partitions: Vec::new(),
        }
    );
    assert_eq!(records[1].dev_type, "part");
    assert_eq!(records[1].kind, DeviceKind::Partition);
    assert_eq!(records[1].mountpoints, Some(vec!["/".to_string()]));
    assert_eq!(records[0].mountpoints, Some(Vec::new()));
}

#[test]
fn a_device_without_attributes_still_gives_one_record() {
    let bare = DeviceSource { node: node("loop7", "", "", "", "", ""), entries: Vec::new() };
    let mut records: Vec<BlockDevice> = Vec::new();
    get_block_details(&vec![bare], &Some(String::new()), &mut records);
    assert_eq!(
        records,
        vec![BlockDevice {
            name: "loop7".to_string(),
            dev_id: String::new(),
            rm: String::new(),
            size: String::new(),
            ro: String::new(),
            dev_type: String::new(),
            kind: DeviceKind::Disk,
            mountpoints: Some(Vec::new()),
            partitions: Vec::new(),
        }]
    );
    assert!(!records[0].removable());
    assert!(!records[0].read_only());
    assert_eq!(records[0].size_bytes(), 0);
}

#[test]
fn missing_attribute_files_give_a_record_and_no_error() {
    let read = || -> Result<String, String> { read_file_to_string(ReadOutcome::Missing) };
    let source = DeviceSource {
        node: RegistryNode {
            name: "ram0".to_string(),
            dev: read().unwrap(),
            removable: read().unwrap(),
            size: read().unwrap(),
            ro: read().unwrap(),
            uevent: read().unwrap(),
        },
        entries: Vec::new(),
    };
    let mut records: Vec<BlockDevice> = Vec::new();
    get_block_details(&vec![source], &read().ok(), &mut records);
    assert_eq!(records.len(), 1);
    let record = &records[0];
    assert_eq!(record.name, "ram0");
    assert_eq!(record.dev_id, "");
    assert_eq!(record.rm, "");
    assert_eq!(record.size, "");
    assert_eq!(record.ro, "");
    assert_eq!(record.dev_type, "");
    assert_eq!(record.mountpoints, Some(Vec::new()));
    assert!(!record.removable());
    assert!(!record.read_only());
    assert_eq!(record.size_bytes(), 0);
}

#[test]
fn without_a_mount_table_records_have_no_mount_points() {
    let mut records: Vec<BlockDevice> = Vec::new();
    get_block_details(&vec![sda()], &None, &mut records);
    assert_eq!(records.len(), 3);
    for record in &records {
        assert_eq!(record.mountpoints, None);
    }
}

#[test]
fn partitions_follow_their_disk_before_the_next_disk() {
    let sdb = DeviceSource {
        node: node("sdb", "8:16", "1", "4096", "0", "DEVTYPE=disk"),
        entries: vec![node("sdb1", "8:17", "", "4000", "0", "")],
    };
    let loop0 = DeviceSource { node: node("loop0", "7:0", "0", "0", "0", ""), entries: Vec::new() };
    let mut records: Vec<BlockDevice> = Vec::new();
    get_block_details(&vec![sdb, loop0, sda()], &None, &mut records);
    let names: Vec<&str> = records.iter().map(|r| r.name.as_str()).collect();
    assert_eq!(names, vec!["sdb", "sdb1", "loop0", "sda", "sda1", "sda2"]);
    for record in &records {
        if record.kind == DeviceKind::Partition {
            assert!(record.partitions.is_empty());
        }
    }
    assert_eq!(records[1].rm, "1");
}

#[test]
fn records_are_appended_to_those_already_there() {
    let mut records: Vec<BlockDevice> = Vec::new();
    get_block_details(&vec![sda()], &None, &mut records);
    let first = records.clone();
    get_block_details(&Vec::new(), &None, &mut records);
    assert_eq!(records, first);
    get_block_details(&vec![sda()], &None, &mut records);
    assert_eq!(records.len(), 6);
    assert_eq!(records[..3], first[..]);
    assert_eq!(records[3..], first[..]);
}

#[test]
fn flags_and_size_are_read_from_the_attribute_text() {
    let mut records: Vec<BlockDevice> = Vec::new();
    get_block_details(&vec![sda()], &None, &mut records);
    assert!(!records[0].removable());
    assert!(!records[0].read_only());
    assert!(records[2].read_only());
    assert_eq!(records[0].size_bytes(), 1_048_576);
    assert_eq!(records[1].size_bytes(), 51_200);
    assert_eq!(records[2].size_bytes(), 997_376);
}
