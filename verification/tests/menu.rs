use disk_monitor::menu::{
    largest_files_menu, main_menu, mount_menu, mount_menu_label, tool_tip_description,
    trash_prompt, MenuAction, MenuEntry, COFFEE_URL, REPO_URL,
};
use disk_monitor::model::{FileEntry, Mount, Snapshot, Usage};
use disk_monitor::tray::{DiskTray, State};

fn note(t: &str) -> MenuEntry {
    MenuEntry::Note(t.to_string())
}

fn footer() -> Vec<MenuEntry> {
    vec![
        MenuEntry::Action { label: "Repository".into(), action: MenuAction::OpenUrl(REPO_URL.into()) },
        MenuEntry::Action {
            label: "Buy me a coffee".into(),
            action: MenuAction::OpenUrl(COFFEE_URL.into()),
        },
        MenuEntry::Separator,
        MenuEntry::Action { label: "Quit".into(), action: MenuAction::Quit },
    ]
}

fn root_mount() -> Mount {
    Mount {
        mount_point: "/".into(),
        device: "/dev/nvme0n1p2".into(),
        fs_type: "ext4".into(),
        usage: Usage {
            used_bytes: 950107025408,
            free_bytes: 32713871360,
            total_bytes: 982820896768,
        },
        largest_files: vec![],
        largest_files_scanned_at: None,
    }
}

#[test]
fn menu_while_connecting_and_offline() {
    let mut tray = DiskTray::new("http://127.0.0.1:9126".into());
    let mut expected = vec![note("Connecting to http://127.0.0.1:9126…"), MenuEntry::Separator];
    expected.extend(footer());
    assert_eq!(main_menu(&tray), expected);

    tray.set_state(State::Disconnected("connection refused".into()));
    let mut expected = vec![
        note("Backend offline: connection refused"),
        note("Backend: http://127.0.0.1:9126"),
        MenuEntry::Separator,
    ];
    expected.extend(footer());
    assert_eq!(main_menu(&tray), expected);
    assert_eq!(tool_tip_description(&tray, &vec![]), "Backend offline: connection refused");
}

#[test]
fn menu_when_connected() {
    let mut tray = DiskTray::new("http://h:1".into());
    assert_eq!(tool_tip_description(&tray, &vec![]), "Connecting to http://h:1");
    let mut data = root_mount();
    data.mount_point = "/data".into();
    data.fs_type = "xfs".into();
    tray.set_state(State::Connected(Snapshot {
        timestamp: "2026-05-03T11:45:15.599+00:00".into(),
        host: "wallabot".into(),
        mounts: vec![root_mount(), data],
    }));
    let mut expected = vec![
        MenuEntry::MountMenu(0),
        MenuEntry::MountMenu(1),
        MenuEntry::Separator,
        note("Backend: http://h:1"),
        note("Updated: 11:45:15"),
        MenuEntry::Separator,
    ];
    expected.extend(footer());
    assert_eq!(main_menu(&tray), expected);
    assert_eq!(
        tool_tip_description(&tray, &vec!["97".into(), "50".into()]),
        "2 mount(s)\n/ (ext4) — 884.86 GiB/915.32 GiB (97%)\n/data (xfs) — 884.86 GiB/915.32 GiB (50%)"
    );
}

#[test]
fn mount_submenu_entries() {
    let m = root_mount();
    assert_eq!(mount_menu_label(&m), "/ (ext4)");
    assert_eq!(
        mount_menu(&m, "97"),
        vec![
            note("Device: /dev/nvme0n1p2"),
            note("Used: 884.86 GiB (97%)"),
            note("Free: 30.47 GiB"),
            note("Total: 915.32 GiB"),
            MenuEntry::Separator,
            MenuEntry::LargestFilesMenu,
        ]
    );
}

#[test]
fn largest_files_submenu_entries() {
    let mut m = root_mount();
    assert_eq!(
        largest_files_menu(&m),
        vec![note("Initial scan in progress; refresh after a few minutes…")]
    );
    m.largest_files_scanned_at = Some("2026-05-03T11:45:15+00:00".into());
    assert_eq!(largest_files_menu(&m), vec![note("(no readable files found)")]);
    m.largest_files = vec![
        FileEntry { path: "/a.iso".into(), size_bytes: 3 * 1024 * 1024 * 1024 },
        FileEntry { path: "/b.log".into(), size_bytes: 2048 },
    ];
    let file = |path: &str, label: &str, size: &str| {
        vec![
            note(label),
            MenuEntry::Action {
                label: "      ↳ Open in file manager".into(),
                action: MenuAction::OpenInFileManager(path.into()),
            },
            MenuEntry::Action {
                label: "      ↳ Move to trash…".into(),
                action: MenuAction::MoveToTrash {
                    path: path.into(),
                    size_text: size.into(),
                    mount_point: "/".into(),
                },
            },
        ]
    };
    let mut expected = file("/a.iso", " 3.00 GiB  /a.iso", "3.00 GiB");
    expected.push(MenuEntry::Separator);
    expected.extend(file("/b.log", "   2048 B  /b.log", "2048 B"));
    expected.push(MenuEntry::Separator);
    expected.push(MenuEntry::Action {
        label: "Rescan now".into(),
        action: MenuAction::Rescan { mount_point: "/".into() },
    });
    assert_eq!(largest_files_menu(&m), expected);
}

#[test]
fn trash_prompt_text() {
    assert_eq!(
        trash_prompt("3.00 GiB", "/a.iso"),
        "Move this file to the trash?\n\n<b>3.00 GiB</b>\n/a.iso\n\nIt will go to your home trash and can be restored from GNOME Files."
    );
}
