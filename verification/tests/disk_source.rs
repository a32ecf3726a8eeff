use disk_monitor::disk_source::{
    is_real_filesystem, parse_mount_line, sort_mounts, split_fields,
    unescape_octal, DiskSource, MockSource, ProcfsSource,
};
use disk_monitor::model::{Mount, Usage};

fn mount(mount_point: &str, device: &str) -> Mount {
    Mount {
        mount_point: mount_point.into(),
        device: device.into(),
        fs_type: "ext4".into(),
        usage: Usage { used_bytes: 1, free_bytes: 1, total_bytes: 2 },
        largest_files: Vec::new(),
        largest_files_scanned_at: None,
    }
}

#[test]
fn pseudo_filesystems_are_filtered() {
    let line = "tmpfs /run tmpfs rw,nosuid 0 0";
    let parsed = parse_mount_line(line).unwrap();
    assert!(!is_real_filesystem(&parsed));
}

#[test]
fn root_ext4_is_kept() {
    let line = "/dev/nvme0n1p2 / ext4 rw,relatime 0 0";
    let parsed = parse_mount_line(line).unwrap();
    assert!(is_real_filesystem(&parsed));
    assert_eq!(parsed.device, "/dev/nvme0n1p2");
    assert_eq!(parsed.mount_point, "/");
}

#[test]
fn efi_partition_is_filtered() {
    let line = "/dev/nvme0n1p1 /boot/efi vfat rw,relatime 0 0";
    let parsed = parse_mount_line(line).unwrap();
    assert!(!is_real_filesystem(&parsed));
}

#[test]
fn snap_mounts_are_filtered() {
    let line = "/dev/loop0 /snap/core/12345 squashfs ro,nodev 0 0";
    let parsed = parse_mount_line(line).unwrap();
    assert!(!is_real_filesystem(&parsed));
}

#[test]
fn mount_point_with_space_decodes_octal() {
    let line = "/dev/sdb1 /media/My\\040Backup ext4 rw 0 0";
    let parsed = parse_mount_line(line).unwrap();
    assert_eq!(parsed.mount_point, "/media/My Backup");
}

#[test]
fn mock_source_returns_seeded_mounts() {
    let mount = Mount {
        mount_point: "/".into(),
        device: "/dev/sda1".into(),
        fs_type: "ext4".into(),
        usage: Usage {
            used_bytes: 50,
            free_bytes: 50,
            total_bytes: 100,
        },
        largest_files: Vec::new(),
        largest_files_scanned_at: None,
    };
    let mock = MockSource::new(vec![mount.clone()]);
    let sample = mock.sample().unwrap();
    assert_eq!(sample.len(), 1);
    assert_eq!(sample[0], mount);
}

#[test]
fn short_lines_do_not_parse() {
    assert!(parse_mount_line("").is_none());
    assert!(parse_mount_line("   ").is_none());
    assert!(parse_mount_line("/dev/sda1 /").is_none());
}

#[test]
fn fields_split_on_any_white_space() {
    let line: Vec<char> = "  a\tbb\u{3000}c \u{a0}d\r".chars().collect();
    let fields = split_fields(&line);
    let fields: Vec<String> = fields.into_iter().map(|f| f.into_iter().collect()).collect();
    assert_eq!(fields, vec!["a", "bb", "c", "d"]);
    let parsed = parse_mount_line("/dev/sdc1\t/data  xfs rw 0 0").unwrap();
    assert_eq!(parsed.device, "/dev/sdc1");
    assert_eq!(parsed.mount_point, "/data");
    assert_eq!(parsed.fs_type, "xfs");
}

#[test]
fn octal_escapes_are_decoded() {
    assert_eq!(unescape_octal("a\\011b\\012c\\134d"), "a\tb\nc\\d");
    // Not three octal digits: left as it is.
    assert_eq!(unescape_octal("x\\08y"), "x\\08y");
    assert_eq!(unescape_octal("end\\04"), "end\\04");
    // A decoded byte that is not UTF-8 on its own is replaced.
    assert_eq!(unescape_octal("\\377"), "\u{fffd}");
    assert_eq!(unescape_octal("caf\\303\\251"), "café");
}

#[test]
fn escapes_beyond_a_byte_wrap() {
    // The decoded value is taken modulo 256: \477 is 319, that is `?`.
    assert_eq!(unescape_octal("/media/\\477"), "/media/?");
    assert_eq!(unescape_octal("\\400x"), "\u{0}x");
    // \777 is 511, the byte 255, which is not UTF-8 on its own.
    assert_eq!(unescape_octal("/dev/\\777"), "/dev/\u{fffd}");
    let e = parse_mount_line("/dev/\\777 /media/\\477 ext4 rw 0 0").unwrap();
    assert_eq!(e.device, "/dev/\u{fffd}");
    assert_eq!(e.mount_point, "/media/?");
    // Only the device and mount point are unescaped.
    assert_eq!(parse_mount_line("/dev/sda1 /media \\777 rw 0 0").unwrap().fs_type, "\\777");
    let mounts = sample_table("/dev/sda1 /x\\400 ext4 rw 0 0\n", |_| {
        Some(Usage { used_bytes: 1, free_bytes: 1, total_bytes: 2 })
    });
    assert_eq!(mounts.len(), 1);
    assert_eq!(mounts[0].mount_point, "/x\u{0}");
}

#[test]
fn plain_fields_are_kept_as_written() {
    let e = parse_mount_line("  server:/export\t/mnt/nfs   nfs4 rw 0 0").unwrap();
    assert_eq!(e.device, "server:/export");
    assert_eq!(e.mount_point, "/mnt/nfs");
    assert_eq!(e.fs_type, "nfs4");
    assert!(parse_mount_line("/dev/sda1 /x").is_none());
}

#[test]
fn other_filesystem_rules() {
    let keep = |line: &str| is_real_filesystem(&parse_mount_line(line).unwrap());
    assert!(keep("/dev/sda2 /home ext4 rw 0 0"));
    assert!(keep("/dev/sda1 /boot ext4 rw 0 0"));
    assert!(keep("/dev/sdb1 /media/usb vfat rw 0 0"));
    assert!(!keep("/dev/sda1 /boot vfat rw 0 0"));
    assert!(!keep("proc /proc proc rw 0 0"));
    assert!(!keep("/dev/sdd1 /var/snap/x ext4 rw 0 0"));
    assert!(!keep("/dev/sdd1 /sysroot ext4 rw 0 0"));
    assert!(!keep("/dev/sdd1 /devices ext4 rw 0 0"));
    assert!(!keep("/dev/sdd1 /running ext4 rw 0 0"));
    assert!(!keep("overlay /var/lib/docker/x overlay rw 0 0"));
    assert!(!keep("portal /doc fuse.portal rw 0 0"));
}

#[test]
fn mounts_sort_root_first_then_by_path() {
    let sorted = sort_mounts(vec![
        mount("/home", "/dev/a"),
        mount("/data", "/dev/b"),
        mount("/", "/dev/c"),
        mount("/Zeta", "/dev/d"),
    ]);
    let order: Vec<&str> = sorted.iter().map(|m| m.mount_point.as_str()).collect();
    assert_eq!(order, vec!["/", "/Zeta", "/data", "/home"]);
}

#[test]
fn mounts_with_one_mount_point_keep_their_order() {
    let sorted = sort_mounts(vec![
        mount("/srv", "/dev/a"),
        mount("/", "/dev/b"),
        mount("/srv", "/dev/c"),
        mount("/", "/dev/d"),
        mount("/srv", "/dev/e"),
    ]);
    let devices: Vec<&str> = sorted.iter().map(|m| m.device.as_str()).collect();
    assert_eq!(devices, vec!["/dev/b", "/dev/d", "/dev/a", "/dev/c", "/dev/e"]);
}

fn sample_table(table: &str, usage_of: impl Fn(&str) -> Option<Usage>) -> Vec<Mount> {
    let mut scan = ProcfsSource::new().begin_sample(table);
    while let Some(mp) = scan.next_mount_point() {
        scan.record_usage(usage_of(&mp));
    }
    scan.finish()
}

#[test]
fn sampling_filters_dedupes_and_orders() {
    let table = "\
sysfs /sys sysfs rw 0 0
/dev/sda2 /home ext4 rw 0 0
/dev/sda1 / ext4 rw 0 0
tmpfs /run tmpfs rw 0 0
/dev/sda2 /srv/bind ext4 rw 0 0
server:/export /mnt/nfs nfs rw 0 0
server:/export /mnt/nfs2 nfs rw 0 0
/dev/sdb1 /broken ext4 rw 0 0
";
    let usage = Usage { used_bytes: 30, free_bytes: 70, total_bytes: 100 };
    let mounts = sample_table(table, |mp| if mp == "/broken" { None } else { Some(usage) });
    let order: Vec<&str> = mounts.iter().map(|m| m.mount_point.as_str()).collect();
    // The bind mount of /dev/sda2 is sampled once; network shares are not
    // block devices, so both are kept; a failed statvfs drops the mount.
    assert_eq!(order, vec!["/", "/home", "/mnt/nfs", "/mnt/nfs2"]);
    assert!(mounts.iter().all(|m| m.usage == usage && m.largest_files.is_empty()));
    assert_eq!(mounts[1].device, "/dev/sda2");
}

#[test]
fn failed_usage_does_not_block_the_same_device_later() {
    let table = "/dev/sda1 /first ext4 rw 0 0\n/dev/sda1 /second ext4 rw 0 0\n";
    let usage = Usage { used_bytes: 1, free_bytes: 2, total_bytes: 3 };
    let mounts = sample_table(table, |mp| if mp == "/first" { None } else { Some(usage) });
    assert_eq!(mounts.len(), 1);
    assert_eq!(mounts[0].mount_point, "/second");
}

#[test]
fn empty_table_samples_nothing() {
    assert!(sample_table("", |_| None).is_empty());
    assert!(sample_table("\n\n", |_| None).is_empty());
}

#[test]
fn usage_from_block_counts() {
    let u = Usage::from_block_counts(1000, 250, 4096).unwrap();
    assert_eq!(u.total_bytes, 4_096_000);
    assert_eq!(u.free_bytes, 1_024_000);
    assert_eq!(u.used_bytes, 3_072_000);
    // More available than total (a reserved-blocks quirk) floors at zero.
    let u = Usage::from_block_counts(10, 20, 512).unwrap();
    assert_eq!(u.used_bytes, 0);
    // Figures beyond 64 bits: the mount is unreadable.
    assert!(Usage::from_block_counts(u64::MAX, 1, 2).is_none());
    assert!(Usage::from_block_counts(1, u64::MAX / 2 + 1, 2).is_none());
    let u = Usage::from_block_counts(u64::MAX, 0, 1).unwrap();
    assert_eq!(u.total_bytes, u64::MAX);
    assert_eq!(u.used_bytes, u64::MAX);
}
