use lsblk_rs::device::{get_block_details, BlockDevice, DeviceKind, DeviceSource, RegistryNode};
use lsblk_rs::report::{
    render_block_details, render_header, render_record, sort_order, DisplayOptions,
};
use lsblk_rs::size::{convert_size_to_bytes, parse_u64};

fn disk(name: &str, dev_id: &str, size: &str) -> BlockDevice {
    BlockDevice {
        name: name.to_string(),
        dev_id: dev_id.to_string(),
        rm: "0".to_string(),
        size: size.to_string(),
        ro: "0".to_string(),
        dev_type: "disk".to_string(),
        kind: DeviceKind::Disk,
        mountpoints: Some(Vec::new()),
        partitions: Vec::new(),
    }
}

fn partition(name: &str, dev_id: &str, size: &str, mounts: &[&str]) -> BlockDevice {
    BlockDevice {
        name: name.to_string(),
        dev_id: dev_id.to_string(),
        rm: "0".to_string(),
        size: size.to_string(),
        ro: "0".to_string(),
        dev_type: "part".to_string(),
        kind: DeviceKind::Partition,
        mountpoints: Some(mounts.iter().map(|m| m.to_string()).collect()),
        partitions: Vec::new(),
    }
}

/// The row as the standard formatter lays it out.
fn formatted(name: &str, id: &str, rm: &str, size: &str, ro: &str, ty: &str, m: &str) -> String {
    format!("{:<12} {:<8} {:<2} {:<12} {:<2} {:<4} {:<15}", name, id, rm, size, ro, ty, m)
}

const SHOW_ALL: DisplayOptions = DisplayOptions { bytes: false, noheading: false };

#[test]
fn identifiers_are_compared_as_text() {
    let devices = vec![disk("sda", "8:0", "0"), disk("nvme0n1", "259:0", "0")];
    assert_eq!(sort_order(&devices), vec![1, 0]);
    let rows = render_block_details(&devices, &DisplayOptions { bytes: false, noheading: true });
    assert!(rows[0].starts_with("nvme0n1"));
    assert!(rows[1].starts_with("sda"));
}

#[test]
fn ten_comes_before_two() {
    let devices = vec![disk("a", "2:0", "0"), disk("b", "10:0", "0"), disk("c", "1:0", "0")];
    assert_eq!(sort_order(&devices), vec![1, 2, 0]);
    let devices = vec![disk("a", "2:0", "0"), disk("b", "10:0", "0")];
    assert_eq!(sort_order(&devices), vec![1, 0]);
}

#[test]
fn a_shorter_identifier_comes_before_its_extensions() {
    let devices = vec![
        disk("a", "8:10", "0"),
        disk("b", "8:1", "0"),
        disk("c", "", "0"),
        disk("d", "8:", "0"),
        disk("e", "8", "0"),
    ];
    assert_eq!(sort_order(&devices), vec![2, 4, 3, 1, 0]);
}

#[test]
fn records_with_the_same_identifier_keep_their_order() {
    let devices = vec![
        disk("first", "", "0"),
        disk("x", "8:0", "0"),
        disk("second", "", "0"),
        disk("y", "8:0", "0"),
        disk("third", "", "0"),
    ];
    assert_eq!(sort_order(&devices), vec![0, 2, 4, 1, 3]);
}

#[test]
fn the_order_is_that_of_a_stable_sort_by_identifier() {
    let ids = [
        "8:0", "8:1", "259:0", "7:0", "7:1", "7:10", "7:2", "", "8:0", "253:0", "11:0", "8:16",
        "8:17", "é", "8:0", "~", " ", "7:1", "1:0", "10:0", "2:0", "8",
    ];
    let devices: Vec<BlockDevice> =
        ids.iter().enumerate().map(|(i, id)| disk(&format!("d{}", i), id, "0")).collect();
    let mut expected: Vec<usize> = (0..devices.len()).collect();
    expected.sort_by_key(|&i| devices[i].dev_id.clone());
    assert_eq!(sort_order(&devices), expected);
}

#[test]
fn no_records_give_an_empty_order() {
    assert_eq!(sort_order(&Vec::new()), Vec::<usize>::new());
}

#[test]
fn the_header_row_names_the_columns() {
    assert_eq!(
        render_header(),
        "NAME         MAJ:MIN  RM SIZE         RO TYPE MOUNTPOINTS    "
    );
    assert_eq!(
        render_header(),
        formatted("NAME", "MAJ:MIN", "RM", "SIZE", "RO", "TYPE", "MOUNTPOINTS")
    );
}

#[test]
fn a_disk_row_shows_its_cells_in_columns() {
    let row = render_record(&disk("sda", "8:0", "2048"), false);
    assert_eq!(row, "sda          8:0      0  1.0M         0  disk                ");
    assert_eq!(row, formatted("sda", "8:0", "0", "1.0M", "0", "disk", ""));
}

#[test]
fn a_partition_row_is_nested_under_its_disk() {
    let row = render_record(&partition("sda1", "8:1", "100", &["/boot"]), false);
    assert_eq!(row, formatted("├─sda1", "8:1", "0", "50.0K", "0", "part", "/boot"));
    assert!(row.starts_with("├─sda1       8:1 "));
}

#[test]
fn mount_points_stand_one_under_the_other() {
    let row = render_record(&partition("sdb1", "8:17", "8", &["/mnt/a", "/mnt/b", "/c"]), true);
    assert_eq!(
        row,
        formatted(
            "├─sdb1",
            "8:17",
            "0",
            "4096",
            "0",
            "part",
            "/mnt/a\n\t\t\t\t\t      /mnt/b\n\t\t\t\t\t      /c"
        )
    );
}

#[test]
fn a_record_without_known_mount_points_has_an_empty_cell() {
    let mut device = disk("sda", "8:0", "2048");
    device.mountpoints = None;
    let row = render_record(&device, false);
    assert_eq!(row, formatted("sda", "8:0", "0", "1.0M", "0", "disk", ""));
    let rows = render_block_details(&vec![device], &SHOW_ALL);
    assert_eq!(rows.len(), 2);
}

#[test]
fn cells_wider_than_their_column_are_shown_whole() {
    let mut device = disk("a-very-long-device-name", "259:1048575", "18446744073709551615");
    device.rm = "yes".to_string();
    device.dev_type = "disk-like".to_string();
    device.mountpoints = Some(vec!["/a/long/mount/point/path".to_string()]);
    let row = render_record(&device, true);
    assert_eq!(
        row,
        formatted(
            "a-very-long-device-name",
            "259:1048575",
            "yes",
            "18446744073709551104",
            "0",
            "disk-like",
            "/a/long/mount/point/path"
        )
    );
}

#[test]
fn padding_counts_characters() {
    let mut device = partition("ü", "é:0", "0", &["/mnt/ö"]);
    device.dev_type = "é".to_string();
    let row = render_record(&device, false);
    assert_eq!(row, formatted("├─ü", "é:0", "0", "0B", "0", "é", "/mnt/ö"));
}

#[test]
fn a_plain_byte_count_is_the_exact_size() {
    for size in ["2048", "100", "1948", "0", "", "junk", "36028797018963967", "7814037168"] {
        let device = disk("sda", "8:0", size);
        let row = render_record(&device, true);
        let cell = row.split_whitespace().nth(3).unwrap();
        assert_eq!(parse_u64(cell), Some(convert_size_to_bytes(size)), "for {:?}", size);
        assert_eq!(cell, convert_size_to_bytes(size).to_string());
        assert_eq!(device.size_bytes(), convert_size_to_bytes(size));
    }
}

#[test]
fn the_report_has_a_header_and_one_row_for_each_record() {
    let devices = vec![
        disk("sda", "8:0", "2048"),
        partition("sda1", "8:1", "100", &["/boot"]),
        partition("sda2", "8:2", "1948", &[]),
        disk("nvme0n1", "259:0", "4194304"),
    ];
    let rows = render_block_details(&devices, &SHOW_ALL);
    assert_eq!(
        rows,
        vec![
            formatted("NAME", "MAJ:MIN", "RM", "SIZE", "RO", "TYPE", "MOUNTPOINTS"),
            formatted("nvme0n1", "259:0", "0", "2.0G", "0", "disk", ""),
            formatted("sda", "8:0", "0", "1.0M", "0", "disk", ""),
            formatted("├─sda1", "8:1", "0", "50.0K", "0", "part", "/boot"),
            formatted("├─sda2", "8:2", "0", "974.0K", "0", "part", ""),
        ]
    );
}

#[test]
fn the_header_can_be_left_out() {
    let devices = vec![disk("sda", "8:0", "2048")];
    let rows = render_block_details(&devices, &DisplayOptions { bytes: true, noheading: true });
    assert_eq!(rows, vec![formatted("sda", "8:0", "0", "1048576", "0", "disk", "")]);
    let none = render_block_details(&Vec::new(), &DisplayOptions { bytes: true, noheading: true });
    assert_eq!(none, Vec::<String>::new());
    let only_header = render_block_details(&Vec::new(), &SHOW_ALL);
    assert_eq!(only_header, vec![render_header()]);
}

#[test]
fn rendering_leaves_the_records_as_they_are() {
    let devices = vec![disk("sdb", "8:16", "1"), disk("sda", "8:0", "1")];
    let before = devices.clone();
    let _ = render_block_details(&devices, &SHOW_ALL);
    assert_eq!(devices, before);
}

#[test]
fn a_registry_is_shown_from_end_to_end() {
    let node = |name: &str, dev: &str, size: &str, uevent: &str| RegistryNode {
        name: name.to_string(),
        dev: dev.to_string(),
        removable: "0".to_string(),
        size: size.to_string(),
        ro: "0".to_string(),
        uevent: uevent.to_string(),
    };
    let sources = vec![
        DeviceSource {
            node: node("sda", "8:0", "2048", "MAJOR=8\nMINOR=0\nDEVTYPE=disk"),
            entries: vec![
                node("sda1", "8:1", "100", ""),
                node("queue", "", "", ""),
                node("sda2", "8:2", "1948", ""),
            ],
        },
        DeviceSource { node: node("nvme0n1", "259:0", "", "DEVTYPE=disk"), entries: Vec::new() },
    ];
    let table = "/dev/sda1 /boot vfat rw 0 0\n/dev/sda2 / ext4 rw 0 0\n/dev/sda2 /var ext4 rw 0 0";
    let mut records: Vec<BlockDevice> = Vec::new();
    get_block_details(&sources, &Some(table.to_string()), &mut records);
    let rows = render_block_details(&records, &DisplayOptions { bytes: true, noheading: false });
    assert_eq!(
        rows,
        vec![
            formatted("NAME", "MAJ:MIN", "RM", "SIZE", "RO", "TYPE", "MOUNTPOINTS"),
            formatted("nvme0n1", "259:0", "0", "0", "0", "disk", ""),
            formatted("sda", "8:0", "0", "1048576", "0", "disk", ""),
            formatted("├─sda1", "8:1", "0", "51200", "0", "part", "/boot"),
            formatted("├─sda2", "8:2", "0", "997376", "0", "part", "/\n\t\t\t\t\t      /var"),
        ]
    );
}
