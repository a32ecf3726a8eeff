use disk_monitor::largest_files::{
    mount_points_of, path_less, plan_rescan, sort_by_size, FileVisit, LargestFiles, LargestFilesCache, RescanPlan,
    RescanRequest, ScanResult, ScannerConfig,
};
use disk_monitor::model::{FileEntry, Mount, Snapshot, Usage};

#[test]
fn cache_round_trip_and_retain() {
    let mut cache = LargestFilesCache::new();
    cache.put(
        "/home".into(),
        ScanResult {
            files: vec![],
            scanned_at: "now".into(),
        },
    );
    cache.put(
        "/data".into(),
        ScanResult {
            files: vec![],
            scanned_at: "now".into(),
        },
    );
    assert!(cache.get("/home").is_some());
    cache.retain(&["/data".into()]);
    assert!(cache.get("/home").is_none());
    assert!(cache.get("/data").is_some());
}

fn result(path: &str, size: u64, at: &str) -> ScanResult {
    ScanResult {
        files: vec![FileEntry { path: path.into(), size_bytes: size }],
        scanned_at: at.into(),
    }
}

#[test]
fn cache_put_replaces_and_get_copies() {
    let mut cache = LargestFilesCache::default();
    assert!(cache.get("/").is_none());
    cache.put("/".into(), result("/big", 10, "t1"));
    cache.put("/".into(), result("/bigger", 20, "t2"));
    let got = cache.get("/").unwrap();
    assert_eq!(got.scanned_at, "t2");
    assert_eq!(got.files, vec![FileEntry { path: "/bigger".into(), size_bytes: 20 }]);
    cache.put("/home".into(), result("/home/x", 5, "t3"));
    cache.retain(&[]);
    assert!(cache.get("/").is_none());
    assert!(cache.get("/home").is_none());
}

fn visit(path: &str, size: u64) -> FileVisit {
    FileVisit { path: path.into(), size_bytes: size, links: 1, device: 1, inode: size }
}

fn largest(visits: Vec<FileVisit>, top_n: usize) -> Vec<FileEntry> {
    let mut top = LargestFiles::new(top_n);
    for v in visits {
        top.offer(v);
    }
    top.finish()
}

#[test]
fn top_n_in_size_order() {
    let result = largest(
        vec![visit("/t/a", 100), visit("/t/b", 5_000), visit("/t/c", 1_000), visit("/t/d", 50)],
        2,
    );
    assert_eq!(result.len(), 2);
    assert_eq!(result[0].size_bytes, 5_000);
    assert!(result[0].path.ends_with("/b"));
    assert_eq!(result[1].size_bytes, 1_000);
    assert!(result[1].path.ends_with("/c"));
}

#[test]
fn all_files_when_fewer_than_top_n() {
    let result = largest(vec![visit("/t/a", 100), visit("/t/b", 200)], 10);
    assert_eq!(result.len(), 2);
    assert_eq!(result[0].size_bytes, 200);
}

#[test]
fn hard_links_count_once() {
    let first = FileVisit { path: "/t/real".into(), size_bytes: 1000, links: 2, device: 7, inode: 42 };
    let twin = FileVisit { path: "/t/link".into(), size_bytes: 1000, links: 2, device: 7, inode: 42 };
    let other_device = FileVisit { path: "/t/elsewhere".into(), size_bytes: 900, links: 2, device: 8, inode: 42 };
    let result = largest(vec![first, twin, other_device], 10);
    assert_eq!(result.len(), 2, "hardlinked twin should be dropped");
    assert_eq!(result[0].path, "/t/real");
    assert_eq!(result[1].path, "/t/elsewhere");
}

#[test]
fn single_link_files_are_never_deduplicated() {
    let a = FileVisit { path: "/t/a".into(), size_bytes: 10, links: 1, device: 1, inode: 5 };
    let b = FileVisit { path: "/t/b".into(), size_bytes: 10, links: 1, device: 1, inode: 5 };
    assert_eq!(largest(vec![a, b], 10).len(), 2);
}

#[test]
fn zero_top_n_keeps_nothing() {
    let top = LargestFiles::new(0);
    assert!(!top.keeps_any());
    assert!(largest(vec![visit("/t/a", 1)], 0).is_empty());
    assert!(LargestFiles::new(3).keeps_any());
}

#[test]
fn the_least_path_leaves_first_among_equal_sizes() {
    // Full at two files of size 10; a larger file evicts the one whose
    // path comes first, `/t/a/z` (the separator ranks before `-`).
    let result = largest(vec![visit("/t/a-z", 10), visit("/t/a/z", 10), visit("/t/new", 11)], 2);
    let paths: Vec<&str> = result.iter().map(|f| f.path.as_str()).collect();
    assert_eq!(paths, vec!["/t/new", "/t/a-z"]);
    // A file of the smallest kept size does not displace anything.
    let result = largest(vec![visit("/t/b", 10), visit("/t/a", 10), visit("/t/c", 10)], 2);
    let paths: Vec<&str> = result.iter().map(|f| f.path.as_str()).collect();
    assert_eq!(paths, vec!["/t/b", "/t/a"]);
}

#[test]
fn path_order_puts_the_separator_first() {
    assert!(path_less("/a/b", "/a b"));
    assert!(path_less("/a", "/a/b"));
    assert!(path_less("/z", "/é"));
    assert!(!path_less("/a", "/a"));
    assert!(!path_less("/b", "/a/c"));
}

#[test]
fn equal_sizes_keep_their_order() {
    let sorted = sort_by_size(vec![
        FileEntry { path: "/x".into(), size_bytes: 5 },
        FileEntry { path: "/y".into(), size_bytes: 9 },
        FileEntry { path: "/a".into(), size_bytes: 5 },
        FileEntry { path: "/m".into(), size_bytes: 5 },
    ]);
    let paths: Vec<&str> = sorted.iter().map(|f| f.path.as_str()).collect();
    assert_eq!(paths, vec!["/y", "/x", "/a", "/m"]);
}

#[test]
fn smaller_files_do_not_displace_kept_ones() {
    let result = largest(
        vec![visit("/t/a", 10), visit("/t/b", 30), visit("/t/c", 20), visit("/t/d", 5), visit("/t/e", 25)],
        3,
    );
    let sizes: Vec<u64> = result.iter().map(|f| f.size_bytes).collect();
    assert_eq!(sizes, vec![30, 25, 20]);
}

#[test]
fn rescan_bursts_coalesce() {
    let plan = plan_rescan(&vec![
        RescanRequest::One("/home".into()),
        RescanRequest::One("/data".into()),
        RescanRequest::One("/home".into()),
    ]);
    match plan {
        RescanPlan::Mounts(ms) => assert_eq!(ms, vec!["/home".to_string(), "/data".to_string()]),
        RescanPlan::All => panic!("expected single mounts"),
    }
    let plan = plan_rescan(&vec![RescanRequest::One("/home".into()), RescanRequest::All]);
    assert!(matches!(plan, RescanPlan::All));
}

#[test]
fn mount_points_of_a_snapshot() {
    let m = |mp: &str| Mount {
        mount_point: mp.into(),
        device: "/dev/x".into(),
        fs_type: "ext4".into(),
        usage: Usage { used_bytes: 0, free_bytes: 0, total_bytes: 0 },
        largest_files: vec![],
        largest_files_scanned_at: None,
    };
    let snap = Snapshot { timestamp: "t".into(), host: "h".into(), mounts: vec![m("/"), m("/home")] };
    assert_eq!(mount_points_of(&snap), vec!["/".to_string(), "/home".to_string()]);
}

#[test]
fn scanner_defaults() {
    let cfg = ScannerConfig::default();
    assert_eq!(cfg.top_n, 20);
    assert_eq!(cfg.refresh_secs, 300);
    assert_eq!(cfg.initial_delay_secs, 30);
}
