use disk_monitor::actions::rescan_url;
use disk_monitor::disk_source::{is_white_space_char, split_fields, unescape_octal};
use std::cmp::Reverse;
use std::collections::BinaryHeap;
use std::path::{Path, PathBuf};

use disk_monitor::largest_files::{path_less, FileVisit, LargestFiles};
use disk_monitor::tray::short_time;

struct Rng(u64);

impl Rng {
    fn next(&mut self) -> u64 {
        self.0 ^= self.0 << 13;
        self.0 ^= self.0 >> 7;
        self.0 ^= self.0 << 17;
        self.0
    }

    fn pick<'a>(&mut self, items: &'a [&'a str]) -> &'a str {
        items[(self.next() % items.len() as u64) as usize]
    }
}

fn random_text(rng: &mut Rng, pieces: &[&str], len: usize) -> String {
    (0..len).map(|_| rng.pick(pieces)).collect()
}

#[test]
fn white_space_agrees_with_char_is_whitespace() {
    for u in 0..0x11_0000u32 {
        if let Some(c) = char::from_u32(u) {
            assert_eq!(is_white_space_char(c), c.is_whitespace(), "U+{:04X}", u);
        }
    }
}

#[test]
fn fields_agree_with_split_whitespace() {
    let mut rng = Rng(0x1234_5678_9abc_def1);
    let pieces = ["a", "bc", " ", "\t", "\n", "\u{a0}", "\u{3000}", "é", "\\040", "/", "\r", "\u{2028}", "x"];
    for _ in 0..3000 {
        let len = (rng.next() % 12) as usize;
        let line = random_text(&mut rng, &pieces, len);
        let chars: Vec<char> = line.chars().collect();
        let got: Vec<String> = split_fields(&chars).into_iter().map(|f| f.into_iter().collect()).collect();
        let want: Vec<String> = line.split_whitespace().map(|s| s.to_string()).collect();
        assert_eq!(got, want, "line {:?}", line);
    }
}

/// A plain decoder of `\ooo` escapes, byte by byte, for comparison.
fn plain_unescape(s: &str) -> String {
    let b = s.as_bytes();
    let mut out = Vec::new();
    let mut i = 0;
    while i < b.len() {
        if b[i] == b'\\' && i + 3 < b.len() && b[i + 1..i + 4].iter().all(|d| (b'0'..=b'7').contains(d)) {
            let mut v: u8 = 0;
            for d in &b[i + 1..i + 4] {
                v = v.wrapping_mul(8).wrapping_add(d - b'0');
            }
            out.push(v);
            i += 4;
        } else {
            out.push(b[i]);
            i += 1;
        }
    }
    String::from_utf8_lossy(&out).into_owned()
}

#[test]
fn unescape_agrees_with_a_plain_decoder() {
    let mut rng = Rng(0xdead_beef_cafe_f00d);
    let pieces = ["\\", "0", "1", "3", "7", "8", "a", "é", "\\040", "\\303", "\\251", "\\0", "\\7", "\\4", " "];
    for _ in 0..5000 {
        let len = (rng.next() % 10) as usize;
        let s = random_text(&mut rng, &pieces, len);
        assert_eq!(unescape_octal(&s), plain_unescape(&s), "text {:?}", s);
    }
}

fn plain_short_time(rfc3339: &str) -> &str {
    rfc3339.split('T').nth(1).and_then(|s| s.split('.').next()).unwrap_or(rfc3339)
}

#[test]
fn short_time_agrees_with_splitting() {
    let mut rng = Rng(0x0bad_cafe_1234_5678);
    let pieces = ["T", ".", "2026-05-03", "11:45:15", "599", "+00:00", "é", ""];
    for _ in 0..3000 {
        let len = (rng.next() % 6) as usize;
        let s = random_text(&mut rng, &pieces, len);
        assert_eq!(short_time(&s), plain_short_time(&s), "text {:?}", s);
    }
}

#[test]
fn rescan_url_agrees_with_trimming() {
    let mut rng = Rng(0x5555_aaaa_3333_cccc);
    let pieces = ["/", "http://h:1", "home", "a b", "é"];
    for _ in 0..2000 {
        let url_len = (rng.next() % 4) as usize;
        let url = random_text(&mut rng, &pieces, url_len);
        let mp_len = (rng.next() % 4) as usize;
        let mp = random_text(&mut rng, &pieces, mp_len);
        let path = mp.trim_start_matches('/');
        let want = if path.is_empty() {
            format!("{}/v1/rescan", url.trim_end_matches('/'))
        } else {
            format!("{}/v1/rescan/{}", url.trim_end_matches('/'), path)
        };
        assert_eq!(rescan_url(&url, &mp), want);
    }
}

#[test]
fn largest_files_agree_with_a_heap_of_pairs() {
    let mut rng = Rng(0x7777_1111_2222_9999);
    for round in 0..500 {
        let n = (rng.next() % 30) as usize;
        let top_n = (rng.next() % 8) as usize;
        let names = ["a", "a b", "a/b", "ab", "b", "é", "a.b", "A"];
        let mut top = LargestFiles::new(top_n);
        // The same walk through a min-heap of (size, path) pairs.
        let mut heap: BinaryHeap<Reverse<(u64, PathBuf)>> = BinaryHeap::new();
        let mut seen = std::collections::HashSet::new();
        for k in 0..n {
            let size = rng.next() % 6;
            let links = 1 + rng.next() % 2;
            let inode = rng.next() % 6;
            let path = format!("/m/{}/{}", rng.pick(&names), k % 3);
            if (links == 1 || seen.insert(inode)) && top_n > 0 {
                if heap.len() < top_n {
                    heap.push(Reverse((size, PathBuf::from(&path))));
                } else if size > heap.peek().unwrap().0 .0 {
                    heap.pop();
                    heap.push(Reverse((size, PathBuf::from(&path))));
                }
            }
            top.offer(FileVisit { path, size_bytes: size, links, device: 3, inode });
        }
        let got = top.finish();
        let sizes: Vec<u64> = got.iter().map(|f| f.size_bytes).collect();
        assert!(sizes.windows(2).all(|w| w[0] >= w[1]), "round {}", round);
        let mut got: Vec<(u64, PathBuf)> =
            got.into_iter().map(|f| (f.size_bytes, PathBuf::from(f.path))).collect();
        let mut want: Vec<(u64, PathBuf)> = heap.into_iter().map(|r| r.0).collect();
        got.sort();
        want.sort();
        assert_eq!(got, want, "round {}", round);
    }
}

#[test]
fn path_order_agrees_with_path() {
    let mut rng = Rng(0x2468_ace0_1357_9bdf);
    let pieces = ["/", "a", "b", " ", "-", "é", "0", "ab", "\u{7f}", "\u{10000}"];
    for _ in 0..5000 {
        let la = (rng.next() % 6) as usize;
        let lb = (rng.next() % 6) as usize;
        let a = format!("/{}", random_text(&mut rng, &pieces, la));
        let b = format!("/{}", random_text(&mut rng, &pieces, lb));
        // Walk paths hold no doubled or trailing separator.
        if a.contains("//") || b.contains("//") || (a.len() > 1 && a.ends_with('/')) || (b.len() > 1 && b.ends_with('/')) {
            continue;
        }
        assert_eq!(path_less(&a, &b), Path::new(&a) < Path::new(&b), "{:?} {:?}", a, b);
    }
}
