use diskbytes::age::{
    big_untouched, bucket_totals, month_heatmap, month_of, AgeScale, AgeTotals, AgedFile,
    MonthHeatmap, YearRow,
};
use diskbytes::cache::{age_cache, clear_all_caches, quick_wins_cache, top_cache, MemoKey};
use diskbytes::category::{CategoryStyle, FileCategory, Palette};
use diskbytes::explore::{
    assemble_age_map, check_generation, compute_age_map, compute_breadcrumb, compute_details,
    compute_folder_view, compute_list, drive_path, guard, resolve_path, FILES_CAP,
};
use diskbytes::shares::Share;
use diskbytes::sidebar::{file_types, TypeSegment};
use diskbytes::top::{apply_filter, compute_top, scope_of_request, TopScope};
use diskbytes::tree::{BatchEntry, Node, Tree};

fn palette() -> Palette {
    let labels = [
        "Video", "Audio", "Image", "Document", "Developer", "Apps", "Archive", "System", "Other",
    ];
    Palette {
        styles: labels
            .iter()
            .enumerate()
            .map(|(i, l)| CategoryStyle { label: l.to_string(), color: i as u32 + 1 })
            .collect(),
    }
}

fn category_of(name: &str) -> FileCategory {
    match name.rsplit('.').next() {
        Some("mp4") => FileCategory::Video,
        Some("txt") => FileCategory::Document,
        Some("sys") => FileCategory::System,
        _ => FileCategory::Other,
    }
}

fn dir_entry(name: &str) -> BatchEntry {
    let mut node = Node::new_dir();
    node.modified = 1;
    BatchEntry { name: name.encode_utf16().collect(), node }
}

fn file_entry(name: &str, size: u64, modified: i64) -> BatchEntry {
    let mut node = Node::new_file();
    node.logical = size;
    node.on_disk = size;
    node.modified = modified;
    node.set_category(category_of(name));
    BatchEntry { name: name.encode_utf16().collect(), node }
}

fn build_tree() -> Tree {
    let mut t = Tree::new(7, palette());
    t.add_root_path(0, "C:\\Base");
    t.set_name(0, "Base");
    t.append_batch(
        0,
        vec![dir_entry("alpha"), dir_entry("beta"), file_entry("root.bin", 10, 1)],
    );
    t.append_batch(1, vec![file_entry("a1.mp4", 100, 1), file_entry("a2.txt", 20, 2)]);
    t.append_batch(2, vec![file_entry("b1.bin", 5, 3)]);
    t.finalize();
    t
}

fn ratio(s: Share) -> f64 {
    s.part as f64 / s.whole as f64
}

#[test]
fn folder_view_splits_folders_and_files() {
    let t = build_tree();
    let v = compute_folder_view(&t, 0, "");
    assert_eq!(v.folders.len(), 2);
    assert_eq!(v.files.len(), 1);
    assert_eq!(v.files[0].name, "root.bin");
    assert_eq!(v.folders[0].name, "alpha");
    assert_eq!(v.folders[0].item_count, 2);
    assert_eq!(v.folders[0].categories.len(), 2);
    assert_eq!(v.name, "Base");
    assert_eq!(v.file_count, 4);
    assert_eq!(v.folder_count, 2);
    assert!(!v.files_capped);
}

#[test]
fn folder_view_filter_case_insensitive() {
    let t = build_tree();
    let v = compute_folder_view(&t, 0, "ALPH");
    assert_eq!(v.folders.len(), 1);
    assert!(v.files.is_empty());
}

#[test]
fn folder_view_caps_its_files() {
    let mut t = Tree::new(3, palette());
    t.add_root_path(0, "C:\\many");
    let batch: Vec<BatchEntry> =
        (0..FILES_CAP + 1).map(|i| file_entry(&format!("f{i}.txt"), 1 + i as u64, 1)).collect();
    t.append_batch(0, batch);
    t.finalize();
    let v = compute_folder_view(&t, 0, "");
    assert!(v.files_capped);
    assert_eq!(v.files.len(), FILES_CAP);
    assert_eq!(v.files[0].size, FILES_CAP as u64 + 1);
}

#[test]
fn top_in_folder_ranks_children() {
    let t = build_tree();
    let tops = compute_top(&t, 0, TopScope::InFolder, "");
    assert_eq!(tops.rows.len(), 3);
    assert_eq!(tops.rows[0].id, 1);
    assert_eq!(tops.rows[0].rank, 1);
    assert!(ratio(tops.rows[0].share) > 0.8);
    assert_eq!(tops.rows[0].kind, "2 files");
    assert_eq!(tops.rows[0].parent_path, "");
}

#[test]
fn top_files_anywhere_walks_subtree_and_filters() {
    let t = build_tree();
    let tops = compute_top(&t, 0, TopScope::FilesAnywhere, "");
    assert_eq!(tops.rows.len(), 4);
    assert_eq!(tops.rows[0].name, "a1.mp4");
    assert_eq!(tops.rows[0].size, 100);
    assert!(tops.rows[0].parent_path.ends_with("alpha"));
    let filtered = compute_top(&t, 0, TopScope::FilesAnywhere, "b1");
    assert_eq!(filtered.rows.len(), 1);
    assert_eq!(filtered.rows[0].name, "b1.bin");
    assert_eq!(filtered.rows[0].rank, 1);
}

#[test]
fn top_folders_anywhere_excludes_scope_node() {
    let t = build_tree();
    let tops = compute_top(&t, 0, TopScope::FoldersAnywhere, "");
    let ids: Vec<u32> = tops.rows.iter().map(|r| r.id).collect();
    assert!(!ids.contains(&0), "scope node must not be a row");
    assert_eq!(tops.rows[0].id, 1);
    assert!(tops.rows[0].parent_path.ends_with("Base"));
}

#[test]
fn cached_filter_re_rank() {
    let t = build_tree();
    let mut tops = compute_top(&t, 0, TopScope::FilesAnywhere, "");
    assert_eq!(tops.rows.len(), 4);
    tops = apply_filter(tops, Some("a"));
    assert_eq!(tops.rows.len(), 2);
    for (i, r) in tops.rows.iter().enumerate() {
        assert_eq!(r.rank, i as u32 + 1);
    }
    let fresh = compute_top(&t, 0, TopScope::FilesAnywhere, "");
    let unfiltered = apply_filter(fresh, None);
    assert_eq!(unfiltered.rows.len(), 4);
}

#[test]
fn filter_before_and_after_agree() {
    let t = build_tree();
    let before = compute_top(&t, 0, TopScope::FilesAnywhere, "a");
    let after = apply_filter(compute_top(&t, 0, TopScope::FilesAnywhere, ""), Some("a"));
    let twice =
        apply_filter(apply_filter(compute_top(&t, 0, TopScope::FilesAnywhere, ""), Some("a")), Some("a"));
    let shown = |x: &diskbytes::top::TopSizes| format!("{x:?}");
    assert_eq!(before.rows.len(), 2);
    assert_eq!(shown(&before), shown(&after));
    assert_eq!(shown(&after), shown(&twice));
    let folders = compute_top(&t, 0, TopScope::FoldersAnywhere, " ALP ");
    let later = apply_filter(compute_top(&t, 0, TopScope::FoldersAnywhere, ""), Some(" ALP "));
    assert_eq!((folders.rows.len(), folders.rows[0].rank), (1, 1));
    assert_eq!(shown(&folders), shown(&later));
}

#[test]
fn a_missing_node_has_no_ranking() {
    let t = build_tree();
    for scope in [TopScope::InFolder, TopScope::FilesAnywhere, TopScope::FoldersAnywhere] {
        let tops = compute_top(&t, 9999, scope, "");
        assert_eq!((tops.node, tops.total, tops.rows.len()), (9999, 0, 0));
        assert_eq!((tops.generation, tops.scope.as_str()), (t.generation, scope.as_id()));
    }
}

#[test]
fn list_children_sorted_with_triangles() {
    let t = build_tree();
    let rows = compute_list(&t, 0, "");
    assert_eq!(rows.len(), 3);
    assert!(rows[0].size >= rows[1].size);
    assert_eq!(rows[0].id, 1);
    assert!(rows[0].has_children);
    assert_eq!(rows[1].id, 3);
    assert!(!rows[1].is_dir && !rows[1].has_children);
    assert_eq!(rows[2].id, 2);
    assert!(rows[2].has_children);
    let filtered = compute_list(&t, 0, "beta");
    assert_eq!(filtered.len(), 1);
    assert_eq!(filtered[0].id, 2);
}

#[test]
fn details_fields_complete() {
    let t = build_tree();
    let d = compute_details(&t, 1);
    assert_eq!(d.name, "alpha");
    assert_eq!(d.kind, "Folder");
    assert!(d.path.ends_with("alpha"));
    assert_eq!(d.files, 2);
    assert_eq!(d.folders, 0);
    assert_eq!(d.largest.len(), 2);
    assert_eq!(d.largest[0].name, "a1.mp4");
    assert!((ratio(d.share_of_scan) - 120.0 / 135.0).abs() < 1e-9);
    assert!((ratio(d.of_parent) - 120.0 / 135.0).abs() < 1e-9);
}

#[test]
fn details_drive_root_reads_as_disk() {
    let mut t = Tree::new(11, palette());
    t.add_root_path(0, "This PC");
    t.set_name(0, "This PC");
    t.append_batch(0, vec![dir_entry("Local Disk (C:)"), dir_entry("Data (D:)")]);
    t.append_batch(1, vec![dir_entry("Users"), file_entry("pagefile.sys", 5, 1)]);
    t.add_root_path(1, "C:\\");
    t.add_root_path(2, "D:\\");
    t.finalize();
    assert_eq!(compute_details(&t, 0).kind, "Folder");
    assert_eq!(compute_details(&t, 1).kind, "Disk");
    assert_eq!(compute_details(&t, 2).kind, "Disk");
    assert_eq!(compute_details(&t, 3).kind, "Folder");
}

#[test]
fn drive_paths_are_roots() {
    assert!(drive_path("C:\\"));
    assert!(!drive_path("C:\\x"));
    assert!(!drive_path("This PC"));
}

const DAY: i64 = 86_400;

fn scale() -> AgeScale {
    AgeScale {
        limits: [7 * DAY, 30 * DAY, 180 * DAY, 365 * DAY, 730 * DAY],
        labels: ["Last 7 days", "b", "c", "d", "e", "f"].map(String::from),
        big_bytes: 40 * 1024 * 1024,
        big_age: 365 * DAY,
    }
}

#[test]
fn age_map_buckets_and_big_rows() {
    let t = build_tree();
    let now = 1_800_000_000;
    let d = compute_age_map(&t, 0, now, scale());
    assert_eq!(d.total, 135);
    assert_eq!(d.buckets[5], 135);
    assert_eq!(d.big.len(), 0);
    assert_eq!(d.bucket_labels.len(), 6);
    assert_eq!(d.bucket_labels[0], "Last 7 days");
    assert_eq!(d.heatmap.years.len(), 1);
    assert_eq!((d.heatmap.years[0].year, d.heatmap.years[0].months[0]), (1970, 135));
}

#[test]
fn files_are_told_apart_by_age() {
    let now = 1_709_200_800; // 29 February 2024
    let mut t = Tree::new(1, palette());
    t.add_root_path(0, "C:\\r");
    t.append_batch(
        0,
        vec![
            file_entry("new", 1, now),
            file_entry("week", 2, now - 7 * DAY),
            file_entry("edge", 4, now - 7 * DAY + 1),
            file_entry("year", 8, now - 400 * DAY),
            file_entry("timeless", 16, 0),
            file_entry("later", 32, now + DAY),
            dir_entry("d"),
        ],
    );
    t.append_batch(7, vec![file_entry("deep", 64, now - 800 * DAY)]);
    t.finalize();
    let ages = bucket_totals(&t, 0, now, &scale().limits);
    assert_eq!(ages.bytes, [37, 2, 0, 0, 8, 80]);
    assert_eq!((ages.total, ages.bytes.iter().sum::<u64>()), (127, 127));
    let map = month_heatmap(&t, 0);
    let rows: Vec<(i64, Vec<(usize, u64)>)> = map
        .years
        .iter()
        .map(|y| {
            let used = y.months.iter().enumerate().filter(|(_, b)| **b > 0);
            (y.year, used.map(|(m, b)| (m, *b)).collect())
        })
        .collect();
    assert_eq!(
        rows,
        vec![(2021, vec![(11, 64)]), (2023, vec![(0, 8)]), (2024, vec![(1, 7), (2, 32)])]
    );
    let old = big_untouched(&t, 0, now, 8, 365 * DAY, 2);
    let ids: Vec<(u32, u64)> = old.iter().map(|f| (f.id, f.on_disk)).collect();
    assert_eq!(ids, vec![(8, 64), (5, 16)]);
    let mut loose = scale();
    loose.big_bytes = 8;
    let d = compute_age_map(&t, 7, now, loose);
    assert_eq!((d.node, d.big.len(), d.total), (7, 1, 64));
    assert_eq!(d.big[0].path, "C:\\r\\d\\deep");
}

#[test]
fn months_follow_the_calendar() {
    assert_eq!(month_of(1), (1970, 0));
    assert_eq!(month_of(31 * DAY - 1), (1970, 0));
    assert_eq!(month_of(31 * DAY), (1970, 1));
    assert_eq!(month_of(365 * DAY - 1), (1970, 11));
    assert_eq!(month_of(365 * DAY), (1971, 0));
    assert_eq!(month_of(951_782_400), (2000, 1)); // 29 February 2000
    assert_eq!(month_of(951_868_800), (2000, 2));
    assert_eq!(month_of(4_107_542_400 - 1), (2100, 1)); // 2100 is no leap year
    assert_eq!(month_of(4_107_542_400), (2100, 2));
    assert_eq!(month_of(253_402_300_799), (9999, 11));
    assert_eq!(month_of(253_402_300_800), (10_000, 0));
    assert_eq!(month_of(i64::MAX), (292_277_026_596, 11));
}

#[test]
fn age_map_shows_its_parts_as_given() {
    let t = build_tree();
    let ages = AgeTotals { bytes: [135, 0, 0, 0, 0, 0], total: 135 };
    let aged = vec![AgedFile { id: 4, logical: 100, on_disk: 100, modified: 1 }];
    let mut months = [0u64; 12];
    months[3] = 9;
    let heatmap = MonthHeatmap { years: vec![YearRow { year: 2020, months }] };
    let d = assemble_age_map(&t, 0, scale().labels, ages, heatmap, &aged);
    assert_eq!((d.generation, d.total, d.buckets[0]), (7, 135, 135));
    assert_eq!((d.heatmap.years[0].year, d.heatmap.years[0].months[3]), (2020, 9));
    assert_eq!(d.big.len(), 1);
    assert_eq!(d.big[0].name, "a1.mp4");
    assert_eq!(d.big[0].path, "C:\\Base\\alpha\\a1.mp4");
}

#[test]
fn breadcrumb_root_to_node() {
    let t = build_tree();
    let crumbs = compute_breadcrumb(&t, 4);
    assert_eq!(crumbs.len(), 3);
    assert_eq!(crumbs[0].name, "Base");
    assert_eq!(crumbs[1].name, "alpha");
    assert_eq!(crumbs[2].name, "a1.mp4");
}

#[test]
fn scope_parse_roundtrip() {
    assert_eq!(TopScope::parse("in-folder"), Some(TopScope::InFolder));
    assert_eq!(TopScope::parse("files-anywhere"), Some(TopScope::FilesAnywhere));
    assert_eq!(TopScope::parse("folders-anywhere"), Some(TopScope::FoldersAnywhere));
    assert_eq!(TopScope::parse("nonsense"), None);
    assert_eq!(TopScope::InFolder.as_id(), "in-folder");
}

#[test]
fn unknown_scope_is_an_error() {
    assert!(scope_of_request("files-anywhere").is_ok());
    assert!(scope_of_request("nonsense").is_err());
}

#[test]
fn stale_requests_are_refused() {
    let t = build_tree();
    assert_eq!(check_generation(None, 7), Err("no scan yet".to_string()));
    assert_eq!(
        check_generation(Some(&t), 6),
        Err("stale generation 6 (current 7)".to_string())
    );
    assert_eq!(check_generation(Some(&t), 7), Ok(()));
    assert_eq!(guard(Some(&t), 7, 99), Err("node 99 not in tree".to_string()));
    assert_eq!(guard(Some(&t), 7, 3), Ok(()));
    assert_eq!(resolve_path(Some(&t), 7, "c:/base/ALPHA"), Some(1));
    assert_eq!(resolve_path(Some(&t), 6, "c:/base/ALPHA"), None);
}

#[test]
fn type_segments_sorted_desc() {
    let mut segs = [
        TypeSegment { label: "A".into(), color: 1, size: 10 },
        TypeSegment { label: "B".into(), color: 2, size: 30 },
        TypeSegment { label: "C".into(), color: 3, size: 20 },
    ];
    segs.sort_unstable_by_key(|s| std::cmp::Reverse(s.size));
    assert_eq!(segs[0].label, "B");
}

#[test]
fn file_types_stand_largest_first() {
    let t = build_tree();
    let segs = file_types(&t);
    let shown: Vec<(String, u64)> = segs.iter().map(|s| (s.label.clone(), s.size)).collect();
    assert_eq!(
        shown,
        vec![("Video".to_string(), 100), ("Document".to_string(), 20), ("Other".to_string(), 15)]
    );
}

#[test]
fn caches_keep_and_forget() {
    let t = build_tree();
    let mut top = top_cache();
    let mut age = age_cache();
    let mut quick = quick_wins_cache();
    let key = MemoKey { generation: 7, node: 0, scope: 1 };
    assert!(top.begin(key));
    assert!(!top.begin(key));
    top.finish(key, compute_top(&t, 0, TopScope::FilesAnywhere, ""));
    assert_eq!(top.done.get(key).unwrap().rows.len(), 4);
    assert!(top.begin(key));
    for near in [
        MemoKey { generation: 8, ..key },
        MemoKey { node: 1, ..key },
        MemoKey { scope: 0, ..key },
        MemoKey { generation: u64::MAX, node: u32::MAX, scope: u8::MAX },
    ] {
        assert!(top.done.get(near).is_none());
        assert!(top.begin(near));
    }
    age.keep(7, 0, compute_age_map(&t, 0, 0, scale()));
    assert!(age.find(7, 0).is_some());
    assert!(age.find(7, 1).is_none());
    quick.keep(7, vec![]);
    assert!(quick.find(7).is_some());
    assert!(quick.find(8).is_none());
    clear_all_caches(&mut top, &mut age, &mut quick);
    assert!(top.done.get(key).is_none());
    assert!(top.inflight.is_empty());
    assert!(age.find(7, 0).is_none());
    assert!(quick.find(7).is_none());
}
