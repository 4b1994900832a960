use lsblk_rs::mounts::get_mount_point;

/// The mount points as the standard library's line and field functions give
/// them.
fn mount_points_by_lines(device_name: &str, content: &str) -> Vec<String> {
    let mut mount_points = Vec::new();
    for line in content.lines() {
        let cols = line.split_whitespace().collect::<Vec<&str>>();
        if cols.len() < 2 {
            continue;
        }
        if cols[0] == format!("/dev/{}", device_name) {
            mount_points.push(cols[1].to_string());
        }
    }
    mount_points
}

#[test]
fn two_lines_for_one_device_give_both_mount_points_in_table_order() {
    let table = "/dev/sdb1 /mnt/a\n/dev/sdb1 /mnt/b";
    assert_eq!(get_mount_point("sdb1", table), vec!["/mnt/a", "/mnt/b"]);
}

#[test]
fn only_lines_of_the_device_count() {
    let table = "proc /proc proc rw 0 0\n\
                 /dev/sda1 / ext4 rw,relatime 0 0\n\
                 /dev/sda2 /home ext4 rw 0 0\n\
                 /dev/sda1 /mnt/bind ext4 rw 0 0\n\
                 tmpfs /run tmpfs rw 0 0";
    assert_eq!(get_mount_point("sda1", table), vec!["/", "/mnt/bind"]);
    assert_eq!(get_mount_point("sda2", table), vec!["/home"]);
    assert_eq!(get_mount_point("sda", table), Vec::<String>::new());
    assert_eq!(get_mount_point("sda11", table), Vec::<String>::new());
}

#[test]
fn a_device_that_no_line_names_has_no_mount_points() {
    assert_eq!(get_mount_point("sda", ""), Vec::<String>::new());
    assert_eq!(get_mount_point("sda", "\n\n"), Vec::<String>::new());
    assert_eq!(get_mount_point("sda", "/dev/sdb /mnt"), Vec::<String>::new());
}

#[test]
fn a_line_with_one_field_records_no_mount() {
    assert_eq!(get_mount_point("sda", "/dev/sda"), Vec::<String>::new());
    assert_eq!(get_mount_point("sda", "/dev/sda   \n/dev/sda /x"), vec!["/x"]);
}

#[test]
fn fields_are_parted_by_any_whitespace() {
    assert_eq!(get_mount_point("sda", "  /dev/sda\t\t/mnt/x   ext4"), vec!["/mnt/x"]);
    assert_eq!(get_mount_point("sda", "/dev/sda\u{a0}/mnt/y"), vec!["/mnt/y"]);
    assert_eq!(get_mount_point("sda", "/dev/sda /mnt/z\r\n/dev/sda /w\r\n"), vec!["/mnt/z", "/w"]);
}

#[test]
fn mount_points_agree_with_the_standard_line_functions() {
    let tables = [
        "",
        "\n",
        "/dev/sda /a\n/dev/sda /b\n",
        "/dev/sda /a\r\n/dev/sdb /b\r\n/dev/sda /c",
        "   /dev/sda    /a   \n\n\n/dev/sda\n/dev/sda /b c d e\n",
        "/dev/sda\r\n/dev/sda /x\r",
        "/dev/sda/ /a\n/dev//sda /b\n/dev/sda /c\u{2003}x",
        "/dev/é /ü\n/dev/sda /日本\n/dev/é /ö",
        "x /dev/sda /a\n/dev/sda\t/tab\n/dev/sda\u{b}/vt\n/dev/sda\u{c}/ff",
    ];
    let names = ["sda", "sdb", "é", "", "sda/", "/sda"];
    for table in tables {
        for name in names {
            assert_eq!(
                get_mount_point(name, table),
                mount_points_by_lines(name, table),
                "for {:?} in {:?}",
                name,
                table
            );
        }
    }
}
