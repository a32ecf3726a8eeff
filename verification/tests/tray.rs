use disk_monitor::actions::{rescan_url, trash_step, TrashAction, TrashEvent};
use disk_monitor::model::{FileEntry, Mount, Snapshot, Usage};
use disk_monitor::tray::{
    file_label, format_bytes, icon_file_name, largest_files_heading, largest_files_note,
    short_time, DiskTray, State,
};

fn float_format(bytes: u64) -> String {
    const TIB: f64 = 1024.0 * 1024.0 * 1024.0 * 1024.0;
    const GIB: f64 = 1024.0 * 1024.0 * 1024.0;
    const MIB: f64 = 1024.0 * 1024.0;
    let b = bytes as f64;
    if b >= TIB {
        format!("{:.2} TiB", b / TIB)
    } else if b >= GIB {
        format!("{:.2} GiB", b / GIB)
    } else if b >= MIB {
        format!("{:.0} MiB", b / MIB)
    } else {
        format!("{} B", bytes)
    }
}

#[test]
fn format_bytes_examples() {
    assert_eq!(format_bytes(0), "0 B");
    assert_eq!(format_bytes(1023), "1023 B");
    assert_eq!(format_bytes(1024 * 1024), "1 MiB");
    assert_eq!(format_bytes(950107025408), "884.86 GiB");
    assert_eq!(format_bytes(982820896768), "915.32 GiB");
    assert_eq!(format_bytes(1 << 40), "1.00 TiB");
    assert_eq!(format_bytes(u64::MAX), "16777216.00 TiB");
}

#[test]
fn format_bytes_matches_float_formatting() {
    let mut samples: Vec<u64> = vec![
        0, 1, 1023, 1024, 1048575, 1048576, 1572864, 2621440, 3670016, 1073741823, 1073741824,
        1207959552, 1218445312, 1099511627775, 1099511627776, 1236950581248, 1110506744217,
        9007199254740993, 9007199254740995, 18014398509481985, u64::MAX, u64::MAX - 1024,
    ];
    let mut x: u64 = 0x9e37_79b9_7f4a_7c15;
    for _ in 0..20000 {
        x ^= x << 13;
        x ^= x >> 7;
        x ^= x << 17;
        samples.push(x >> (x % 64));
    }
    for b in samples {
        assert_eq!(format_bytes(b), float_format(b), "bytes = {}", b);
    }
}

#[test]
fn short_time_examples() {
    assert_eq!(short_time("2026-05-03T11:45:15.599+00:00"), "11:45:15");
    assert_eq!(short_time("2026-05-03T11:45:15+00:00"), "11:45:15+00:00");
    assert_eq!(short_time("no time here"), "no time here");
    assert_eq!(short_time("aTbTc"), "b");
    assert_eq!(short_time("T"), "");
}

#[test]
fn tray_state_and_icon_names() {
    let mut tray = DiskTray::new("http://127.0.0.1:9126".into());
    assert!(!tray.connected());
    assert!(tray.current_mounts().is_empty());
    assert_eq!(tray.icon_name(), "");
    let first = tray.next_icon_name();
    assert_eq!(first, "disk-monitor-tray-1");
    assert_eq!(icon_file_name(&first), "disk-monitor-tray-1.png");
    assert_eq!(tray.commit_icon(), None);
    let second = tray.next_icon_name();
    assert_eq!(second, "disk-monitor-tray-2");
    assert_eq!(tray.commit_icon(), Some("disk-monitor-tray-1.png".to_string()));
    assert_eq!(tray.icon_name(), "disk-monitor-tray-2");

    let mount = Mount {
        mount_point: "/".into(),
        device: "/dev/sda1".into(),
        fs_type: "ext4".into(),
        usage: Usage { used_bytes: 1, free_bytes: 1, total_bytes: 2 },
        largest_files: vec![],
        largest_files_scanned_at: None,
    };
    tray.set_state(State::Connected(Snapshot {
        timestamp: "2026-05-03T11:45:15.599+00:00".into(),
        host: "box".into(),
        mounts: vec![mount],
    }));
    assert!(tray.connected());
    assert_eq!(tray.current_mounts().len(), 1);
    tray.set_state(State::Disconnected("refused".into()));
    assert!(!tray.connected());
    assert!(tray.current_mounts().is_empty());
    assert_eq!(tray.backend_url(), "http://127.0.0.1:9126");
}

#[test]
fn largest_files_labels() {
    let mut mount = Mount {
        mount_point: "/home".into(),
        device: "/dev/sda2".into(),
        fs_type: "ext4".into(),
        usage: Usage { used_bytes: 1, free_bytes: 1, total_bytes: 2 },
        largest_files: vec![],
        largest_files_scanned_at: None,
    };
    assert_eq!(largest_files_heading(&mount), "Largest files (scanning…)");
    assert_eq!(
        largest_files_note(&mount).unwrap(),
        "Initial scan in progress; refresh after a few minutes…"
    );
    mount.largest_files_scanned_at = Some("2026-05-03T11:45:15.599+00:00".into());
    assert_eq!(largest_files_note(&mount).unwrap(), "(no readable files found)");
    let file = FileEntry { path: "/home/me/big.iso".into(), size_bytes: 5 * 1024 * 1024 * 1024 };
    mount.largest_files.push(file.clone());
    assert_eq!(largest_files_heading(&mount), "Largest files (top 1, scanned 11:45:15)");
    assert!(largest_files_note(&mount).is_none());
    assert_eq!(file_label(&file), " 5.00 GiB  /home/me/big.iso");
    assert_eq!(
        file_label(&file),
        format!("{:>9}  {}", format_bytes(file.size_bytes), file.path)
    );
    let small = FileEntry { path: "/x".into(), size_bytes: 12 };
    assert_eq!(file_label(&small), "     12 B  /x");
    let huge = FileEntry { path: "/y".into(), size_bytes: u64::MAX };
    assert_eq!(file_label(&huge), "16777216.00 TiB  /y");
}

#[test]
fn rescan_urls() {
    assert_eq!(rescan_url("http://127.0.0.1:9126", "/home"), "http://127.0.0.1:9126/v1/rescan/home");
    assert_eq!(rescan_url("http://127.0.0.1:9126//", "/"), "http://127.0.0.1:9126/v1/rescan");
    assert_eq!(
        rescan_url("http://h:1/", "//media/My Disk"),
        "http://h:1/v1/rescan/media/My Disk"
    );
}

fn step(event: TrashEvent) -> TrashAction {
    trash_step("/home/u/big.iso", "4.0 GiB", "http://127.0.0.1:9126/", "/home", &event)
}

#[test]
fn trash_steps_ask_first_then_trash_then_rescan() {
    match step(TrashEvent::Started) {
        TrashAction::Ask { title, prompt } => {
            assert_eq!(title, "Disk Monitor — confirm deletion");
            assert_eq!(
                prompt,
                "Move this file to the trash?\n\n<b>4.0 GiB</b>\n/home/u/big.iso\n\nIt will go to your home trash and can be restored from GNOME Files."
            );
        }
        _ => panic!("the user is asked first"),
    }
    assert!(matches!(step(TrashEvent::Confirmed(false)), TrashAction::Done));
    match step(TrashEvent::Confirmed(true)) {
        TrashAction::MoveToTrash { path } => assert_eq!(path, "/home/u/big.iso"),
        _ => panic!("a confirmation moves the file"),
    }
    match step(TrashEvent::Trashed(Ok(()))) {
        TrashAction::PostRescan { url } => assert_eq!(url, "http://127.0.0.1:9126/v1/rescan/home"),
        _ => panic!("a moved file is followed by a rescan"),
    }
    match step(TrashEvent::Trashed(Err("permission denied".into()))) {
        TrashAction::ShowError { text } => assert_eq!(
            text,
            "Could not move file to trash:\n\n/home/u/big.iso\n\nReason: permission denied"
        ),
        _ => panic!("a failure is shown"),
    }
}
