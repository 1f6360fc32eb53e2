use diskbytes::catalog::{patterns, vm_disk_roots, HostOs};
use diskbytes::category::{CategoryStyle, FileCategory, Palette};
use diskbytes::locate::{find_node_by_path, normalize};
use diskbytes::quickwins::{
    build_artifact_with_sibling, find_build_artifacts, find_large_media, find_named, match_pattern,
    resolve, CATEGORY_CAP,
};
use diskbytes::sidebar::{compute_quick_wins, quick_win_items, QuickWinRow};
use diskbytes::tree::{BatchEntry, Node, Tree};

fn palette() -> Palette {
    let labels = [
        "Video", "Audio", "Image", "Document", "Developer", "Apps", "Archive", "System", "Other",
    ];
    Palette {
        styles: labels
            .iter()
            .enumerate()
            .map(|(i, l)| CategoryStyle { label: l.to_string(), color: i as u32 + 1 })
            .collect(),
    }
}

fn u16s(s: &str) -> Vec<u16> {
    s.encode_utf16().collect()
}

fn category_of(name: &str) -> FileCategory {
    match name.rsplit('.').next() {
        Some("mkv") | Some("mp4") => FileCategory::Video,
        Some("zip") => FileCategory::Archive,
        Some("txt") => FileCategory::Document,
        Some("rs") | Some("toml") => FileCategory::Developer,
        _ => FileCategory::Other,
    }
}

fn dir(name: &str) -> BatchEntry {
    let mut node = Node::new_dir();
    node.modified = 1;
    BatchEntry { name: u16s(name), node }
}

fn file(name: &str, logical: u64, on_disk: u64, modified: i64) -> BatchEntry {
    let mut node = Node::new_file();
    node.logical = logical;
    node.on_disk = on_disk;
    node.modified = modified;
    node.set_category(category_of(name));
    BatchEntry { name: u16s(name), node }
}

fn build() -> Tree {
    let mut t = Tree::new(1, palette());
    t.add_root_path(0, "C:\\Users\\z");
    t.append_batch(0, vec![dir("Downloads"), dir("AppData"), dir("proj"), dir("Videos")]);
    t.append_batch(
        1,
        vec![
            file("old.zip", 500, 500, 1),
            file("movie.mkv", 20 * 1024 * 1024, 20 * 1024 * 1024, 2),
        ],
    );
    t.append_batch(2, vec![dir("Local")]);
    t.append_batch(7, vec![dir("Temp")]);
    t.append_batch(8, vec![file("junk.tmp", 100, 100, 3)]);
    t.append_batch(
        3,
        vec![
            dir("node_modules"),
            dir("target"),
            file("Cargo.toml", 10, 10, 1),
            file("main.rs", 10, 10, 1),
        ],
    );
    t.append_batch(10, vec![file("lib.rlib", 900, 900, 1)]);
    t.append_batch(4, vec![file("tiny.txt", 5, 5, 1)]);
    t.finalize();
    t
}

fn env_roots() -> Vec<(String, String)> {
    vec![
        ("USERPROFILE".to_string(), "C:\\Users\\z".to_string()),
        ("HOME".to_string(), "C:\\Users\\z".to_string()),
        ("LOCALAPPDATA".to_string(), "C:\\Users\\z\\AppData\\Local".to_string()),
    ]
}

#[test]
fn downloads_and_temp_resolve() {
    let t = build();
    for host in [HostOs::Windows, HostOs::MacOs] {
        let cats = resolve(&t, &env_roots(), 1, host);
        let get = |id: &str| cats.iter().find(|c| c.id == id);
        let dl = get("downloads").expect("downloads row");
        assert_eq!(dl.items, vec![1]);
        if host == HostOs::MacOs {
            assert!(get("temp_caches").is_none(), "no Library/Caches in fixture");
        } else {
            let tc = get("temp_caches").expect("temp row");
            assert!(!tc.items.is_empty());
            assert!(tc.items.contains(&8));
        }
    }
}

#[test]
fn node_modules_and_target_with_sibling() {
    let t = build();
    let cats = resolve(&t, &env_roots(), 1, HostOs::Windows);
    let nm = cats.iter().find(|c| c.id == "node_modules").unwrap();
    assert_eq!(nm.items, vec![10]);
    let ba = cats.iter().find(|c| c.id == "build_artifacts").unwrap();
    assert!(ba.items.contains(&11), "target with sibling Cargo.toml");
}

#[test]
fn cleaner_set_artifact_names_match() {
    let mut t = Tree::new(1, palette());
    t.add_root_path(0, "C:\\work");
    t.append_batch(
        0,
        vec![
            dir("infra"),
            dir("backend"),
            dir("web"),
            dir("legacy"),
            dir("scripts"),
            dir("agent"),
        ],
    );
    t.append_batch(1, vec![dir(".terraform")]);
    t.append_batch(2, vec![dir(".pytest_cache")]);
    t.append_batch(3, vec![dir(".nuxt")]);
    t.append_batch(4, vec![dir(".tox")]);
    t.append_batch(5, vec![dir(".mypy_cache")]);
    t.append_batch(6, vec![dir(".ruff_cache")]);
    t.finalize();
    let ba = find_build_artifacts(&t, t.root);
    for expected in [7u32, 8, 9, 10, 11, 12] {
        assert!(ba.contains(&expected), "expected artifact id {expected} in {ba:?}");
    }
    let cats = resolve(&t, &env_roots(), 1, HostOs::Windows);
    let row = cats.iter().find(|c| c.id == "build_artifacts").unwrap();
    for expected in [7u32, 8, 9, 10, 11, 12] {
        assert!(row.items.contains(&expected));
    }
}

#[test]
fn large_media_minimum() {
    let t = build();
    let cats = resolve(&t, &env_roots(), 1, HostOs::Windows);
    let lm = cats.iter().find(|c| c.id == "large_media").unwrap();
    assert_eq!(lm.items, vec![6]);
}

#[test]
fn review_only_rows_flagged() {
    let t = build();
    for host in [HostOs::Windows, HostOs::MacOs] {
        let cats = resolve(&t, &env_roots(), 1, host);
        for c in &cats {
            if c.id == "vm_disks" || c.id == "windows_old" {
                assert!(c.review_only, "{} must be review-only", c.id);
            }
        }
    }
}

#[test]
fn match_pattern_expands_wildcards() {
    let t = build();
    let m = match_pattern(&t, "C:\\Users\\z\\AppData\\Local", &["Temp"]);
    assert!(m.contains(&8));
    let bad = match_pattern(&t, "C:\\Does\\Not\\Exist", &["Temp"]);
    assert!(bad.is_empty());
}

#[test]
fn browser_cache_patterns_match_profile_caches() {
    let mut t = Tree::new(1, palette());
    t.add_root_path(0, "C:\\Users\\z");
    t.append_batch(0, vec![dir("AppData")]);
    t.append_batch(1, vec![dir("Local")]);
    t.append_batch(2, vec![dir("Google")]);
    t.append_batch(3, vec![dir("Chrome")]);
    t.append_batch(4, vec![dir("Profile 1"), dir("Profile 2")]);
    t.append_batch(5, vec![dir("Cache"), dir("Code Cache")]);
    t.append_batch(6, vec![dir("GPUCache")]);
    t.finalize();
    let root = "C:\\Users\\z\\AppData\\Local";
    let m = match_pattern(&t, root, &["Google", "Chrome", "*", "Cache"]);
    assert_eq!(m, vec![7], "exact 'Cache' dir under any profile");
    let m = match_pattern(&t, root, &["Google", "Chrome", "*", "Code Cache"]);
    assert_eq!(m, vec![8], "'Code Cache' (with space) matches");
    let m = match_pattern(&t, root, &["Google", "Chrome", "*", "GPUCache"]);
    assert_eq!(m, vec![9], "'GPUCache' matches");
    let browser: Vec<_> = patterns(HostOs::Windows)
        .into_iter()
        .filter(|p| p.category == "browser_caches" && p.segments[0] != "Mozilla")
        .collect();
    assert_eq!(browser.len(), 9);
    for p in &browser {
        let segs = &p.segments;
        assert_eq!(segs.len(), 4, "browser patterns are 4 segments: {segs:?}");
        assert_eq!(segs[2], "*", "third segment is the profile wildcard: {segs:?}");
    }
}

const NEVER_CLEAN: &[&str] = &[
    "documents", "desktop", "pictures", "photos", "music", "movies", "videos", "onedrive",
    "icloud~", "dropbox", ".ssh", ".gnupg", "keychains", "mail", "saved games", "favorites",
    "contacts", "links", "searches",
];

#[test]
fn patterns_never_target_user_documents_or_credentials() {
    for host in [HostOs::Windows, HostOs::MacOs] {
        for p in patterns(host) {
            for seg in p.segments {
                let s = seg.to_ascii_lowercase();
                assert!(
                    !NEVER_CLEAN.contains(&s.as_str()),
                    "pattern for category {} targets protected root {seg:?}",
                    p.category
                );
            }
        }
    }
}

#[test]
fn patterns_have_a_literal_segment_below_the_env_root() {
    for host in [HostOs::Windows, HostOs::MacOs] {
        for p in patterns(host) {
            assert!(!p.segments.is_empty(), "empty pattern for {}", p.category);
            assert!(
                p.segments.iter().any(|s| *s != "*"),
                "all-wildcard pattern for {} would stage the whole env root",
                p.category
            );
        }
    }
}

#[test]
fn pattern_segments_are_single_components() {
    for host in [HostOs::Windows, HostOs::MacOs] {
        for p in patterns(host) {
            assert!(!p.segments.is_empty(), "empty segments in {}", p.category);
            for seg in p.segments {
                assert!(!seg.is_empty(), "empty segment in {}", p.category);
                assert!(
                    !seg.contains('/') && !seg.contains('\\') && !seg.contains(".."),
                    "segment {seg:?} in {} is not a single clean component",
                    p.category
                );
            }
        }
    }
}

#[test]
fn pattern_categories_are_known_to_the_catalog() {
    let known = [
        "downloads",
        "temp_caches",
        "browser_caches",
        "dev_caches",
        "android_emulators",
        "ios_simulators",
        "xcode_derived",
    ];
    for host in [HostOs::Windows, HostOs::MacOs] {
        for p in patterns(host) {
            assert!(
                known.contains(&p.category),
                "unknown category {:?} (typo? its matches would be dropped)",
                p.category
            );
        }
    }
}

#[test]
fn browser_caches_touch_cache_subpaths_only() {
    let cache_leaf = ["cache", "code cache", "gpucache", "cache2"];
    for host in [HostOs::Windows, HostOs::MacOs] {
        for p in patterns(host) {
            if p.category == "browser_caches" {
                let last = p.segments.last().expect("non-empty by invariant").to_ascii_lowercase();
                assert!(
                    cache_leaf.contains(&last.as_str()),
                    "browser pattern ends at {last:?} — only cache subtrees are fair game"
                );
            }
        }
    }
}

#[test]
fn vm_disks_category_is_review_only() {
    let mut t = Tree::new(1, palette());
    t.add_root_path(0, "C:\\Users\\z");
    t.append_batch(
        0,
        vec![file("heavy.vhdx", 8 * 1024 * 1024 * 1024, 8 * 1024 * 1024 * 1024, 1)],
    );
    t.finalize();
    let cats = resolve(&t, &env_roots(), 1, HostOs::Windows);
    let vm = cats.iter().find(|c| c.id == "vm_disks").expect("vm_disks row for an 8 GiB vhdx");
    assert!(vm.review_only, "VM disks must refuse Add all");
    assert_eq!(vm.items, vec![1]);
}

#[test]
fn category_cap_truncates_oversize_matches() {
    let mut t = Tree::new(1, palette());
    t.add_root_path(0, "C:\\Users\\z");
    let mut batch = Vec::with_capacity(CATEGORY_CAP + 50);
    for i in 0..(CATEGORY_CAP + 50) {
        batch.push(file(&format!("f{i}.tmp"), 100, 100, 1));
    }
    t.append_batch(0, batch);
    t.finalize();
    let cats = resolve(&t, &env_roots(), 1, HostOs::Windows);
    assert!(cats.iter().all(|c| c.items.len() <= CATEGORY_CAP));
}

#[test]
fn cap_keeps_four_hundred_and_sizes_what_it_keeps() {
    let mut t = Tree::new(1, palette());
    t.add_root_path(0, "C:\\work");
    let n = CATEGORY_CAP + 50;
    let mut batch = Vec::new();
    for i in 0..n {
        batch.push(dir(&format!("p{i:03}")));
    }
    t.append_batch(0, batch);
    for i in 0..n {
        t.append_batch(1 + i as u32, vec![dir("node_modules")]);
    }
    for i in 0..n {
        t.append_batch(1 + n as u32 + i as u32, vec![file("x.js", 7, 7, 1)]);
    }
    t.finalize();
    let cats = resolve(&t, &env_roots(), 1, HostOs::Windows);
    let nm = cats.iter().find(|c| c.id == "node_modules").unwrap();
    assert_eq!(nm.items.len(), CATEGORY_CAP);
    assert_eq!(nm.size, 7 * CATEGORY_CAP as u64);
}

#[test]
fn nested_matches_count_once() {
    let mut t = Tree::new(1, palette());
    t.add_root_path(0, "C:\\work");
    t.append_batch(0, vec![dir("node_modules")]);
    t.append_batch(1, vec![dir("a")]);
    t.append_batch(2, vec![dir("node_modules")]);
    t.append_batch(3, vec![file("x.js", 50, 50, 1)]);
    t.finalize();
    let cats = resolve(&t, &env_roots(), 1, HostOs::Windows);
    let nm = cats.iter().find(|c| c.id == "node_modules").unwrap();
    assert_eq!(nm.items, vec![1]);
    assert_eq!(nm.size, 50);
}

#[test]
fn named_search_goes_to_any_depth() {
    let t = build();
    assert_eq!(find_named(&t, 0, "TEMP", true), vec![8]);
    assert_eq!(find_named(&t, 0, "main.rs", true), Vec::<u32>::new());
    assert_eq!(find_named(&t, 0, "main.rs", false), vec![13]);
    assert_eq!(find_large_media(&t, 4), Vec::<u32>::new());
}

#[test]
fn target_needs_its_manifest() {
    let target = u16s("target");
    assert!(build_artifact_with_sibling(&target, &[u16s("Cargo.toml")]));
    assert!(!build_artifact_with_sibling(&target, &[u16s("readme.md")]));
    assert!(!build_artifact_with_sibling(&u16s("src"), &[u16s("Cargo.toml")]));
}

#[test]
fn vm_roots_hold_disk_images() {
    assert!(!vm_disk_roots().is_empty());
    for p in vm_disk_roots() {
        assert!(!p.segments.is_empty());
    }
}

#[test]
fn quick_win_row_shape() {
    let row = QuickWinRow {
        id: "downloads".into(),
        title: "Downloads".into(),
        icon: "downloads".into(),
        count: 3,
        size: 120,
        review_only: false,
        extra: None,
        biggest_match: Some(7),
    };
    assert_eq!(row.id, "downloads");
    assert!(!row.review_only);
}

#[test]
fn rows_name_their_biggest_item() {
    let t = build();
    let rows = compute_quick_wins(&t, &env_roots(), 1, HostOs::Windows);
    let dl = rows.iter().find(|r| r.id == "downloads").unwrap();
    assert_eq!(dl.count, 1);
    assert_eq!(dl.biggest_match, Some(1));
    assert_eq!(dl.size, t.node(1).unwrap().on_disk);
}

#[test]
fn items_of_a_row_carry_paths() {
    let t = build();
    let items = quick_win_items(&t, &env_roots(), 1, HostOs::Windows, "node_modules").unwrap();
    assert_eq!(items.len(), 1);
    assert_eq!(items[0].id, 10);
    assert_eq!(items[0].path, "C:\\Users\\z\\proj\\node_modules");
    assert_eq!(items[0].size, 900);
    assert!(quick_win_items(&t, &env_roots(), 1, HostOs::Windows, "nonsense").is_err());
}

fn key(name: &str, path: &str) -> (String, String) {
    (name.to_string(), path.to_string())
}

/// A user folder with simulators, derived data and downloads.
fn mac_home() -> Tree {
    let mut t = Tree::new(1, palette());
    t.add_root_path(0, "/Users/zoë");
    t.append_batch(0, vec![dir("Developer"), dir("Library"), dir("Downloads")]);
    t.append_batch(1, vec![dir("CoreSimulator")]);
    t.append_batch(2, vec![dir("Developer")]);
    t.append_batch(5, vec![dir("Xcode")]);
    t.append_batch(6, vec![dir("DerivedData")]);
    t.append_batch(4, vec![file("device.img", 70, 70, 1)]);
    t.append_batch(7, vec![file("build.db", 70, 70, 1)]);
    t.append_batch(3, vec![file("a.zip", 70, 70, 1)]);
    t.finalize();
    t
}

#[test]
fn simulators_and_derived_data_have_their_rows() {
    let t = mac_home();
    let rows = resolve(&t, &[key("%HOME%", "/Users/zoë")], 0, HostOs::MacOs);
    let got: Vec<(&str, &str, u64, Vec<u32>)> =
        rows.iter().map(|r| (r.id, r.title, r.size, r.items.clone())).collect();
    // Equally large rows stand in category order.
    assert_eq!(
        got,
        vec![
            ("downloads", "Downloads", 70, vec![3]),
            ("ios_simulators", "iOS simulators", 70, vec![4]),
            ("xcode_derived", "Xcode derived data", 70, vec![7]),
        ]
    );
    assert!(rows.iter().all(|r| !r.review_only && r.extra.is_none()));
    let items =
        quick_win_items(&t, &[key("HOME", "/Users/zoë")], 0, HostOs::MacOs, "ios_simulators");
    assert_eq!(items.unwrap()[0].path, "/Users/zoë/Developer/CoreSimulator");
}

#[test]
fn names_beyond_ascii_are_found() {
    let mut t = Tree::new(1, palette());
    t.add_root_path(0, "C:\\Users");
    t.append_batch(0, vec![dir("José"), dir("Straße 🎈"), dir("JOSE")]);
    t.append_batch(2, vec![file("Ünï.txt", 1, 1, 1)]);
    t.finalize();
    assert_eq!(find_node_by_path(&t, &normalize("C:\\Users\\José")), Some(1));
    assert_eq!(find_node_by_path(&t, "c:\\users\\josé"), Some(1));
    assert_eq!(find_node_by_path(&t, "c:\\users\\jose"), Some(3));
    assert_eq!(find_node_by_path(&t, "c:\\users\\jos\u{c3}\u{a9}"), None);
    for id in 0..5 {
        assert_eq!(find_node_by_path(&t, &normalize(&t.node_path(id))), Some(id));
        assert_eq!(t.resolve_display_path(&t.node_path(id)), Some(id));
    }
    assert_eq!(match_pattern(&t, "C:\\Users", &["josé"]), vec![1]);
    assert_eq!(find_named(&t, 0, "STRAßE 🎈", true), vec![2]);
}

#[test]
fn roots_with_two_separators_lead_nowhere() {
    let found = |root: &str| {
        let mut t = Tree::new(1, palette());
        t.add_root_path(0, root);
        t.append_batch(0, vec![dir("x")]);
        t.finalize();
        find_node_by_path(&t, &normalize(&t.node_path(1)))
    };
    assert_eq!(found("C:\\"), Some(1));
    assert_eq!(found("\\\\?\\C:\\"), Some(1));
    assert_eq!(found("/"), Some(1));
    assert_eq!(found("C:\\\\"), None);
    assert_eq!(found("\\\\?"), None);
    assert_eq!(found("\\\\?\\"), None);
}

#[test]
fn wrapped_and_bare_keys_give_equal_rows() {
    let t = build();
    let wrapped =
        [key("%USERPROFILE%", "C:\\Users\\z"), key("%LOCALAPPDATA%", "C:\\Users\\z\\AppData\\Local")];
    let bare =
        [key("USERPROFILE", "C:\\Users\\z"), key("LOCALAPPDATA", "C:\\Users\\z\\AppData\\Local")];
    let shown = |env: &[(String, String)], now: i64| format!("{:?}", resolve(&t, env, now, HostOs::Windows));
    assert!(!resolve(&t, &wrapped, 0, HostOs::Windows).is_empty());
    assert_eq!(shown(&wrapped, 0), shown(&bare, 0));
    assert_eq!(shown(&wrapped, 0), shown(&wrapped, i64::MAX));
}

#[test]
fn a_wildcard_keeps_what_matched() {
    let mut t = Tree::new(1, palette());
    t.add_root_path(0, "C:\\r");
    t.append_batch(0, vec![dir("a"), dir("b")]);
    t.append_batch(1, vec![file("x", 1, 1, 1), file("y", 2, 2, 1)]);
    t.append_batch(2, vec![file("x", 3, 3, 1)]);
    t.finalize();
    let some = match_pattern(&t, "C:\\r", &["a", "x"]);
    let more = match_pattern(&t, "C:\\r", &["*", "x"]);
    assert_eq!(some, vec![3]);
    assert_eq!(more.len(), 2);
    assert!(more.contains(&3));
    assert_eq!(match_pattern(&t, "C:\\r", &["a", "*"]).len(), 2);
}

#[test]
fn sidebar_rows_stand_as_resolved() {
    let t = mac_home();
    let env = [key("HOME", "/Users/zoë")];
    let cats = resolve(&t, &env, 0, HostOs::MacOs);
    let rows = compute_quick_wins(&t, &env, 0, HostOs::MacOs);
    assert_eq!(rows.len(), cats.len());
    for (r, c) in rows.iter().zip(&cats) {
        assert_eq!((r.id.as_str(), r.count, r.size), (c.id, c.items.len() as u64, c.size));
        assert_eq!(r.biggest_match, Some(c.items[0]));
    }
}
