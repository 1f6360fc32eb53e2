use diskbytes::applications::{
    allocated_size, apps_cache, entry_is_gone, finish_list, icon_ref, identity_of, install_folder,
    last_used_for_install, leftover_roots, root_labels, round_up, seed_all, uninstall_target, Claim, LeftoverGroup,
};
use diskbytes::category::{CategoryStyle, Palette};
use diskbytes::cleanup::{
    announce, path_matches, queue_total, removed_ids, stage_items, tree_lookup_id, CommitItem,
    Removal,
};
use diskbytes::digest::{digest_of, same_digest, FileHasher, PREFIX};
use diskbytes::dupes::{
    collect_candidates, file_identity, needs_full_read, partition, prefix_survivors,
    prefix_targets, present, rank, totals, HashedFile,
};
use diskbytes::platform::{RawMsixApp, RawRegistryApp};
use diskbytes::scan::{
    parse_target, read_dev_hooks, turbo_drive_root, turbo_gate, turbo_next, HookVars, ScanOutcome,
    ScanState, ScanTarget, TurboAction, TurboEvent,
};
use diskbytes::sidebar::{
    env_roots, get_drive_chips, letter_of, storage_info, storage_probe, volume_label, KnownFolders,
};
use diskbytes::catalog::HostOs;
use diskbytes::platform::DirEntryData;
use diskbytes::progress::Progress;
use diskbytes::tree::{BatchEntry, Node, Tree};

fn palette() -> Palette {
    Palette {
        styles: (0..9).map(|i| CategoryStyle { label: format!("c{i}"), color: i }).collect(),
    }
}

fn file_entry(name: &str, size: u64) -> BatchEntry {
    let mut node = Node::new_file();
    node.logical = size;
    node.on_disk = size;
    BatchEntry { name: name.encode_utf16().collect(), node }
}

fn dir_entry(name: &str) -> BatchEntry {
    BatchEntry { name: name.encode_utf16().collect(), node: Node::new_dir() }
}

fn small_tree() -> Tree {
    let mut t = Tree::new(4, palette());
    t.add_root_path(0, "C:\\r");
    let mut locked = file_entry("locked.bin", 30);
    locked.node.protected = true;
    let mut cloud = file_entry("cloud.bin", 20);
    cloud.node.cloud = true;
    t.append_batch(0, vec![dir_entry("d"), file_entry("a.bin", 10), locked, cloud]);
    t.append_batch(1, vec![file_entry("a.bin", 10)]);
    t.finalize();
    t
}

#[test]
fn targets_end_in_the_separator_of_the_host() {
    for host in [HostOs::Windows, HostOs::MacOs] {
        assert!(matches!(parse_target("ThisPC", host), ScanTarget::ThisPc));
        assert!(matches!(parse_target("this pc", host), ScanTarget::ThisPc));
    }
    let folder = |s: &str, host: HostOs| match parse_target(s, host) {
        ScanTarget::Folder(p) => p,
        ScanTarget::ThisPc => panic!("expected a folder"),
    };
    assert_eq!(folder("C:", HostOs::Windows), "C:\\");
    assert_eq!(folder("C:\\x\\\\", HostOs::Windows), "C:\\x\\");
    assert_eq!(folder("C:/x/", HostOs::Windows), "C:/x\\");
    assert_eq!(folder("/srv", HostOs::Windows), "/srv\\");
    assert_eq!(folder("/Users/dev", HostOs::MacOs), "/Users/dev/");
    assert_eq!(folder("Users\\dev", HostOs::MacOs), "Users\\dev/");
    assert_eq!(folder("/", HostOs::MacOs), "/");
    assert_eq!(turbo_drive_root("C:", HostOs::Windows), "C:\\");
    assert_eq!(turbo_drive_root("C:\\\\", HostOs::Windows), "C:\\");
    assert_eq!(turbo_drive_root("C:/", HostOs::Windows), "C:/\\");
    assert_eq!(turbo_drive_root("/", HostOs::MacOs), "/");
    assert_eq!(turbo_drive_root("/Volumes/X\\/", HostOs::MacOs), "/Volumes/X/");
}

#[test]
fn a_superseded_scan_never_swaps() {
    let mut s: ScanState<u32> = ScanState::new();
    let first = s.begin();
    assert_eq!((first.generation, first.stop), (1, None));
    let second = s.begin();
    assert_eq!((second.generation, second.stop), (2, Some(1)));
    let end = s.finish(1, ScanOutcome::Done { tree: 11, stats: (1, 1, 1, 1) });
    assert_eq!(end.discard, Some(11));
    assert_eq!(s.tree, None);
    assert_eq!(s.scanning, 2);
    let end = s.finish(2, ScanOutcome::Done { tree: 22, stats: (2, 2, 2, 2) });
    assert!(end.clear_caches);
    assert_eq!(end.announce.unwrap().stats, Some((2, 2, 2, 2)));
    assert_eq!((s.tree, s.tree_generation), (Some(22), 2));
    let st = s.get_status();
    assert!(!st.scanning && st.has_tree);
    assert_eq!(st.last_done.unwrap().generation, 2);
}

#[test]
fn cancelling_keeps_what_was_there() {
    let mut s: ScanState<u32> = ScanState::new();
    assert!(!s.cancel_scan());
    s.begin();
    s.finish(1, ScanOutcome::Done { tree: 5, stats: (0, 0, 0, 0) });
    s.begin();
    assert_eq!(s.tick(2).unwrap().generation, 2);
    assert!(s.cancel_scan());
    assert_eq!(s.tree, Some(5));
    let end = s.finish(2, ScanOutcome::Cancelled);
    assert!(end.announce.is_none());
    assert!(s.tick(2).is_none());
    assert_eq!(s.tree, Some(5));
    s.begin();
    let end = s.finish(3, ScanOutcome::RootFailed("gone".into()));
    assert_eq!(end.announce.unwrap().error.as_deref(), Some("gone"));
    assert_eq!(s.tree, Some(5));
}

#[test]
fn turbo_falls_back_with_a_reason() {
    assert_eq!(turbo_gate(false), Err("ELEVATION_REQUIRED".to_string()));
    assert_eq!(turbo_gate(true), Ok(()));
    assert!(matches!(turbo_next(TurboEvent::Privilege(true)), TurboAction::CheckCancel));
    assert!(matches!(turbo_next(TurboEvent::Privilege(false)), TurboAction::FallBack(_)));
    assert!(matches!(turbo_next(TurboEvent::CancelFlag(false)), TurboAction::ReadGeometry));
    assert!(matches!(turbo_next(TurboEvent::Geometry(Ok(()))), TurboAction::ReadFileTable));
    match turbo_next(TurboEvent::FileTable(Err("why".into()))) {
        TurboAction::FallBack(t) => assert_eq!(t, "why"),
        _ => panic!("expected a fallback"),
    }
    assert!(matches!(turbo_next(TurboEvent::Built(true)), TurboAction::Finish));
    assert!(matches!(turbo_next(TurboEvent::Built(false)), TurboAction::Fail(_)));
}

#[test]
fn arguments_override_variables() {
    let vars = HookVars {
        scan: Some("D:\\".into()),
        mode: Some(String::new()),
        verify: Some("1".into()),
        tour: Some("0".into()),
    };
    let args: Vec<String> = ["--turbo", "--scan", "C:\\"].iter().map(|s| s.to_string()).collect();
    let h = read_dev_hooks(&args, &vars);
    assert_eq!(h.scan.as_deref(), Some("C:\\"));
    assert_eq!(h.mode, None);
    assert!(h.turbo && h.verify && !h.tour);
    let h = read_dev_hooks(&[], &vars);
    assert_eq!(h.scan.as_deref(), Some("D:\\"));
    assert!(!h.turbo);
}

#[test]
fn digests_are_sha256() {
    let hex: String = digest_of(b"abc", false).iter().map(|b| format!("{b:02x}")).collect();
    assert_eq!(hex, "ba7816bf8f01cfea414140de5dae2223b00361a396177a9cb410ff61f20015ad");
    let mut h = FileHasher::start_full();
    h.feed(b"a");
    h.feed(b"bc");
    assert!(same_digest(&h.finish(), &digest_of(b"abc", false)));
    let long = vec![7u8; PREFIX as usize + 1];
    let mut other = long.clone();
    *other.last_mut().unwrap() = 8;
    assert!(same_digest(&digest_of(&long, true), &digest_of(&other, true)));
    assert!(!same_digest(&digest_of(&long, false), &digest_of(&other, false)));
    let short = vec![1u8; 100];
    assert!(same_digest(&digest_of(&short, true), &digest_of(&short, false)));
    assert!(!needs_full_read(PREFIX));
    assert!(needs_full_read(PREFIX + 1));
    assert_eq!(FileHasher::start_prefix().wants(), PREFIX as usize);
}

fn hashed(path: &str, size: u64, index: u64, content: u8) -> HashedFile {
    HashedFile {
        path: path.to_string(),
        size,
        volume_serial: 1,
        file_index: index,
        sha256: [content; 32],
    }
}

#[test]
fn duplicates_are_grouped_and_ranked() {
    let sizes = vec![5, 9, 5, 1, 9, 9];
    assert_eq!(prefix_targets(&sizes), vec![0, 1, 2, 4, 5]);
    assert_eq!(partition(&sizes).run_of.len(), 6);
    let d = |v: u8| Some([v; 32]);
    assert_eq!(
        prefix_survivors(&sizes, &vec![d(1), d(2), d(1), d(3), None, d(2)]),
        vec![0, 1, 2, 5]
    );
    let groups = rank(&vec![
        hashed("s1", 5, 1, 1),
        hashed("big1", 100, 2, 2),
        hashed("s2", 5, 3, 1),
        hashed("big2", 100, 4, 2),
        hashed("big1-link", 100, 2, 2),
        hashed("alone", 7, 9, 3),
    ]);
    assert_eq!(groups.len(), 2);
    assert_eq!(groups[0].files, vec!["big1".to_string(), "big2".to_string()]);
    assert_eq!((groups[0].size, groups[0].wasted), (100, 100));
    assert_eq!(groups[1].wasted, 5);
    assert_eq!(totals(&groups).0, 105);
    let shown = present(3, 6, &groups);
    assert_eq!((shown.generation, shown.files, shown.wasted_total), (3, 6, 105));
    assert_eq!((shown.groups[1].id, shown.groups[1].count), (1, 2));
    assert_eq!(file_identity(None, 8), (u64::MAX, 8));
    assert_eq!(file_identity(Some((1, 2)), 8), (1, 2));
}

#[test]
fn placeholders_are_not_candidates() {
    let t = small_tree();
    let c = collect_candidates(&t);
    assert!(c.iter().all(|x| x.path != "C:\\r\\cloud.bin"));
    assert!(c.iter().any(|x| x.path == "C:\\r\\d\\a.bin"));
}

fn item(id: u32, path: &str, size: u64) -> CommitItem {
    CommitItem { id, path: path.to_string(), size, reason: String::new() }
}

#[test]
fn protected_items_are_refused() {
    let t = small_tree();
    let id = |p: &str| t.resolve_display_path(p).unwrap();
    let (locked, cloud, plain) = (id("C:\\r\\locked.bin"), id("C:\\r\\cloud.bin"), id("C:\\r\\a.bin"));
    let staged = stage_items(
        &t,
        &[
            item(locked, "C:\\r\\locked.bin", 30),
            item(cloud, "C:\\r\\cloud.bin", 20),
            item(plain, "C:\\r\\a.bin", 10),
            item(plain, "", 10),
        ],
    );
    let flags: Vec<bool> = staged.iter().map(|s| s.protected).collect();
    assert_eq!(flags, vec![true, true, false, true]);
    assert_eq!(queue_total(&[item(1, "a", 5), item(2, "b", 6)]), Some(11));
    assert_eq!(queue_total(&[item(1, "a", u64::MAX), item(2, "b", 1)]), None);
}

#[test]
fn recycled_paths_lead_back_to_nodes() {
    let t = small_tree();
    let deep = t.resolve_display_path("C:\\r\\d\\a.bin").unwrap();
    assert!(path_matches(&t, deep, "C:\\r\\d\\a.bin"));
    assert!(!path_matches(&t, deep, "C:\\r\\a.bin"));
    assert_eq!(tree_lookup_id(&t, "C:\\r\\d\\a.bin"), deep);
    assert_eq!(tree_lookup_id(&t, "C:\\r\\none"), 0);
    assert_eq!(tree_lookup_id(&t, ""), 0);
    assert_eq!(
        removed_ids(&t, &["C:\\r\\none".to_string(), "C:\\r\\d\\a.bin".to_string()]),
        vec![deep]
    );
}

#[test]
fn a_commit_yields_to_a_fresh_scan() {
    let mut s: ScanState<u32> = ScanState::new();
    s.begin();
    s.finish(1, ScanOutcome::Done { tree: 1, stats: (0, 0, 0, 0) });
    assert_eq!(s.commit_tree(1, 10, 2), Some(1));
    assert_eq!(s.tree, Some(10));
    assert!(s.begin().generation > 2);
    let g = s.generation;
    s.finish(g, ScanOutcome::Done { tree: 30, stats: (0, 0, 0, 0) });
    s.commit_tree(2, 99, 4);
    assert_eq!(s.tree, Some(30));
}

#[test]
fn commits_are_announced() {
    let t = small_tree();
    let r = announce(
        &t,
        Some(Removal { generation: 9, stats: (1, 2, 3, 4), current_folder: 1 }),
        vec![],
        vec![],
    );
    assert_eq!((r.generation, r.current_folder, r.stats), (9, 1, Some((1, 2, 3, 4))));
    let r = announce(&t, None, vec![], vec![]);
    assert_eq!(r.generation, 4);
}

#[test]
fn drives_have_chips() {
    assert_eq!(letter_of("\\\\?\\C:\\"), Some('C'));
    assert_eq!(letter_of("/"), None);
    let chips = get_drive_chips(&["C:\\".to_string(), "/".to_string(), "d:\\".to_string()]);
    let shown: Vec<(String, String)> =
        chips.iter().map(|c| (c.letter.clone(), c.target.clone())).collect();
    assert_eq!(
        shown,
        vec![
            ("C:".to_string(), "C:\\".to_string()),
            ("d:".to_string(), "d:\\".to_string())
        ]
    );
}

#[test]
fn storage_is_labelled() {
    let mut units: Vec<u16> = " Data ".encode_utf16().collect();
    units.extend([0, 0]);
    assert_eq!(volume_label(&units), "Data");
    let s = storage_info(&units, 100, 60, 40);
    assert_eq!((s.label.as_str(), s.used_share.part, s.used_share.whole), ("Data", 60, 100));
    let t = small_tree();
    assert_eq!(storage_probe(Some(&t), "X:\\"), "C:\\r");
    assert_eq!(storage_probe(None, "X:\\"), "X:\\");
}

fn known() -> KnownFolders {
    KnownFolders {
        profile: Some("C:\\Users\\z".into()),
        local: Some("C:\\Users\\z\\AppData\\Local".into()),
        roaming: None,
        program_data: Some("C:\\ProgramData".into()),
    }
}

#[test]
fn environment_roots_come_from_known_folders() {
    let m = env_roots(&known(), HostOs::Windows);
    let get = |k: &str| m.iter().find(|p| p.0 == k).map(|p| p.1.clone());
    assert_eq!(get("%USERPROFILE%").as_deref(), Some("C:\\Users\\z"));
    assert_eq!(get("%LOCALAPPDATA%").as_deref(), Some("C:\\Users\\z\\AppData\\Local"));
    let roots = leftover_roots(&known());
    assert_eq!(
        roots,
        vec![
            (0, "C:\\Users\\z\\AppData\\Local".to_string()),
            (2, "C:\\Users\\z\\AppData\\LocalLow".to_string()),
            (3, "C:\\ProgramData".to_string()),
            (4, "C:\\Users\\z\\AppData\\Local\\Packages".to_string()),
        ]
    );
}

#[test]
fn round_up_cluster_math() {
    assert_eq!(round_up(0, 4096), 0);
    assert_eq!(round_up(1, 4096), 4096);
    assert_eq!(round_up(4096, 4096), 4096);
    assert_eq!(round_up(4097, 4096), 8192);
    assert_eq!(round_up(10, 0), 10);
}

#[test]
fn roots_are_labeled_in_spec_order() {
    let labels = root_labels();
    assert_eq!(labels.len(), 5);
    assert_eq!(labels[0], "Local AppData");
    assert_eq!(labels[1], "Roaming AppData");
    assert_eq!(labels[2], "LocalLow AppData");
    assert_eq!(labels[3], "ProgramData");
    assert_eq!(labels[4], "Store package data");
}

#[test]
fn folders_allocate_whole_clusters() {
    assert_eq!(allocated_size(&[1000], 1), 1000);
    assert_eq!(allocated_size(&[], 4096), 0);
    assert_eq!(allocated_size(&[1, 4097], 4096), 4096 + 8192);
}

fn registry_app(id: &str, name: &str) -> RawRegistryApp {
    RawRegistryApp {
        id: id.to_string(),
        name: name.to_string(),
        publisher: "P".into(),
        version: "1".into(),
        install_location: "C:\\Apps\\Foo\\".into(),
        uninstall_string: "u.exe".into(),
        quiet_uninstall_string: "u.exe /S".into(),
        display_icon: "C:\\Apps\\Foo\\foo.exe".into(),
    }
}

fn package_app(id: &str) -> RawMsixApp {
    RawMsixApp {
        id: id.to_string(),
        name: "Pack".into(),
        publisher: "Q".into(),
        version: "2".into(),
        install_location: "C:\\W\\Pack".into(),
        family_name: "fam".into(),
    }
}

#[test]
fn applications_are_listed_by_footprint() {
    let reg = vec![registry_app("r1", "Foo")];
    let seeded = seed_all(&reg, &vec![Some(5)], &vec![package_app("m1")]);
    assert_eq!(seeded.len(), 2);
    assert_eq!(seeded[0].0.last_used, Some(5));
    assert_eq!(seeded[0].1.install_folder, "Foo");
    assert_eq!(install_folder("C:\\Apps\\Foo\\"), "Foo");
    assert_eq!(icon_ref(&seeded[0].0, &reg).as_deref(), Some("C:\\Apps\\Foo\\foo.exe"));
    let mut apps: Vec<_> = seeded.into_iter().map(|p| p.0).collect();
    apps[0].bundle_size = 10;
    apps[1].bundle_size = 7;
    apps[1].leftovers.push(LeftoverGroup { label_idx: 0, paths: vec![], size: 5 });
    let list = finish_list(apps);
    assert_eq!(list[0].id, "m1");
    assert_eq!((list[0].total, list[1].total), (12, 10));
}

#[test]
fn lists_are_computed_once() {
    let mut c = apps_cache();
    assert_eq!(c.claim(false), Claim::Own);
    assert_eq!(c.claim(false), Claim::Compute);
    c.complete(Some(vec![]));
    assert_eq!(c.claim(false), Claim::Serve);
    assert_eq!(c.claim(true), Claim::Own);
    c.complete(None);
    assert_eq!(c.claim(false), Claim::Own);
    c.clear();
    assert!(c.done.is_none());
}

#[test]
fn uninstalls_know_their_target() {
    let reg = vec![registry_app("r1", "Foo")];
    let packs = vec![package_app("m1")];
    let t = uninstall_target(&reg, &packs, "r1").unwrap();
    assert_eq!(t.command, "u.exe /S");
    assert_eq!(identity_of(&t).install_folder, "Foo");
    let t = uninstall_target(&reg, &packs, "m1").unwrap();
    assert!(t.is_msix);
    assert_eq!(t.full_name, "m1");
    assert_eq!(
        uninstall_target(&reg, &packs, "zz").unwrap_err(),
        "application zz not found"
    );
    assert!(!entry_is_gone(false, &reg, &None, "r1"));
    assert!(entry_is_gone(false, &vec![], &None, "r1"));
    assert!(!entry_is_gone(true, &reg, &Some(packs), "m1"));
    assert!(entry_is_gone(true, &reg, &None, "m1"));
}

#[test]
fn status_hands_the_progress_through() {
    let entry = |is_dir: bool, on_disk: u64| DirEntryData {
        name: vec![0x61],
        is_dir,
        logical: on_disk,
        on_disk,
        modified: 1,
        created: 1,
        reparse_tag: None,
        cloud: false,
        file_id: 0,
    };
    let told = |p: &Progress| (p.files, p.dirs, p.bytes, p.denied, p.current.clone());
    let mut s: ScanState<u32> = ScanState::new();
    assert_eq!(told(&s.get_status().progress), (0, 0, 0, 0, None));
    s.begin();
    s.see("C:\\a", &[entry(false, 5), entry(true, 9), entry(false, 7)], false);
    s.see("C:\\b", &[], true);
    let want = (2, 1, 12, 1, Some("C:\\b".to_string()));
    let st = s.get_status();
    assert!(st.scanning);
    assert_eq!(told(&st.progress), want);
    let event = s.tick(1).unwrap();
    assert_eq!((event.generation, told(&event.progress)), (1, want.clone()));
    s.finish(1, ScanOutcome::Done { tree: 1, stats: (0, 0, 0, 0) });
    assert_eq!(told(&s.get_status().progress), want);
    s.begin();
    assert_eq!(told(&s.get_status().progress), (0, 0, 0, 0, None));
    s.see("x", &[entry(false, u64::MAX), entry(false, 1)], false);
    assert_eq!(s.get_status().progress.bytes, u64::MAX);
}

#[test]
fn the_latest_start_below_the_location_counts() {
    let starts = [
        ("C:\\Apps\\Foo\\a.exe".to_string(), 5),
        ("C:\\Apps\\Foobar\\b.exe".to_string(), 90),
        ("c:/apps/foo/bin/c.exe".to_string(), 8),
        ("C:\\Apps\\Foo\\d.exe".to_string(), 7),
    ];
    assert_eq!(last_used_for_install(&starts, "C:\\Apps\\Foo\\"), Some(8));
    assert_eq!(last_used_for_install(&starts, "C:\\Apps"), Some(90));
    assert_eq!(last_used_for_install(&starts, "D:\\Apps"), None);
    assert_eq!(last_used_for_install(&starts, ""), None);
    assert_eq!(last_used_for_install(&[], "C:\\Apps"), None);
}
