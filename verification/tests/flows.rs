use diskbytes::applications::{
    enumerate_apps, fill_entry, root_candidates, seed_all, uninstall_target, AppFacts,
    EntryKind, LeftoverGroup, SizeWalk, UninstallAction, UninstallEvent, UninstallRun, WalkEntry,
};
use diskbytes::category::{CategoryStyle, FileCategory, Palette};
use diskbytes::cleanup::{preflight, refusal, take_out, Preflight, StagedPath};
use diskbytes::digest::digest_of;
use diskbytes::dupes::{hashed_files, Candidate};
use diskbytes::dupescan::DupeScan;
use diskbytes::engine::{scan_failure, Walk};
use diskbytes::layout::{color_of_cell, ColorMode};
use diskbytes::leftovers::{
    child_path, fill_nested, find_leftovers, folders_to_list, publisher_children_to_expand,
    RootChild, RootListing,
};
use diskbytes::platform::{BinPolicy, DirEntryData, ListError, RawMsixApp, RawRegistryApp};
use diskbytes::recycling::{part, settle, PathFacts};
use diskbytes::tree::{BatchEntry, Node, Tree};

fn palette() -> Palette {
    Palette {
        styles: (0..9).map(|i| CategoryStyle { label: format!("c{i}"), color: i }).collect(),
    }
}

fn file_entry(name: &str, size: u64) -> BatchEntry {
    let mut node = Node::new_file();
    node.logical = size;
    node.on_disk = size;
    BatchEntry { name: name.encode_utf16().collect(), node }
}

fn dir_entry(name: &str) -> BatchEntry {
    BatchEntry { name: name.encode_utf16().collect(), node: Node::new_dir() }
}

fn walk_entry(name: &str, kind: EntryKind) -> WalkEntry {
    WalkEntry { name: name.into(), path: format!("C:\\a\\{name}"), kind }
}

fn registry_app(id: &str, name: &str, location: &str) -> RawRegistryApp {
    RawRegistryApp {
        id: id.into(),
        name: name.into(),
        publisher: "P".into(),
        version: "1".into(),
        install_location: location.into(),
        uninstall_string: format!("{name}.exe /u"),
        quiet_uninstall_string: String::new(),
        display_icon: String::new(),
    }
}

fn package_app(id: &str) -> RawMsixApp {
    RawMsixApp {
        id: id.into(),
        name: "Pack".into(),
        publisher: "P".into(),
        version: "1".into(),
        family_name: "Pack_fam".into(),
        install_location: String::new(),
    }
}

fn leftover(size: u64) -> LeftoverGroup {
    LeftoverGroup { label_idx: 0, paths: vec!["C:\\left".into()], size }
}

#[test]
fn a_size_walk_counts_whole_clusters() {
    let mut w = SizeWalk::start("C:\\a", Some(EntryKind::Folder), 4096);
    assert_eq!(w.next_folder().as_deref(), Some("C:\\a"));
    w.take(&[
        walk_entry("f", EntryKind::File(1)),
        walk_entry("sub", EntryKind::Folder),
        walk_entry("link", EntryKind::Link),
        walk_entry("g", EntryKind::File(4097)),
    ]);
    assert_eq!(w.total, 3 * 4096);
    assert_eq!(w.next_folder().as_deref(), Some("C:\\a\\sub"));
    w.take(&[walk_entry("h", EntryKind::File(u64::MAX))]);
    assert_eq!(w.total, u64::MAX);
    assert_eq!(w.next_folder(), None);
}

#[test]
fn only_folders_of_a_root_are_candidates() {
    let got = root_candidates(&[
        walk_entry("x", EntryKind::Folder),
        walk_entry("l", EntryKind::Link),
        walk_entry("f", EntryKind::File(3)),
        walk_entry("y", EntryKind::Folder),
    ]);
    assert_eq!(
        got,
        vec![("x".to_string(), "C:\\a\\x".to_string()), ("y".to_string(), "C:\\a\\y".to_string())]
    );
    assert_eq!(child_path("C:\\root\\\\", "child"), "C:\\root\\child");
    assert_eq!(child_path("C:\\root", "child"), "C:\\root\\child");
    assert_eq!(child_path("", "child"), "\\child");
}

#[test]
fn entries_are_filled_and_listed() {
    let registry = vec![registry_app("a", "A", "C:\\A"), registry_app("b", "B", "")];
    let msix = vec![package_app("m")];
    let seeds = seed_all(&registry, &vec![None, Some(7)], &msix);
    let fact = |size: u64, left: u64, icon: Option<&str>| AppFacts {
        bundle_size: size,
        leftovers: vec![leftover(left)],
        icon: icon.map(Into::into),
    };
    let one = fill_entry(
        seed_all(&registry, &vec![None, Some(7)], &msix).remove(1).0,
        fact(100, 5, Some("png")),
    );
    assert_eq!((one.bundle_size, one.icon.as_str(), one.last_used), (0, "png", Some(7)));
    let list = enumerate_apps(
        seeds,
        vec![fact(10, 1, Some("i")), fact(900, 50, None), fact(400, 20, Some("never"))],
    );
    let got: Vec<(&str, u64)> = list.iter().map(|a| (a.id.as_str(), a.total)).collect();
    assert_eq!(got, vec![("b", 50), ("m", 20), ("a", 11)]);
    assert_eq!(list[1].icon, "");
    assert_eq!(list[2].icon, "i");
}

#[test]
fn an_uninstall_closes_then_removes_then_surveys() {
    let registry = vec![registry_app("a", "A", "C:\\Apps\\A\\")];
    let target = uninstall_target(&registry, &vec![], "a").unwrap();
    let (mut run, first) = UninstallRun::begin("a", target);
    assert!(matches!(first, UninstallAction::Close(p) if p == "C:\\Apps\\A\\"));
    let next = run.step(UninstallEvent::Closed(vec!["a.exe".into()]));
    assert!(matches!(next, UninstallAction::Launch(c) if c == "A.exe /u"));
    match run.step(UninstallEvent::Ended(Ok(3))) {
        UninstallAction::Survey(i) => {
            assert_eq!((i.display_name.as_str(), i.install_folder.as_str()), ("A", "A"));
            assert_eq!(i.family_name, "");
        }
        other => panic!("{other:?}"),
    }
    match run.step(UninstallEvent::Surveyed(vec![leftover(9)], vec![], None)) {
        UninstallAction::Report(r) => {
            assert_eq!(r.closed_processes, vec!["a.exe".to_string()]);
            assert_eq!(r.exit_code, 3);
            assert_eq!(r.remaining_leftovers.len(), 1);
            assert!(r.removed_entry);
        }
        other => panic!("{other:?}"),
    }
}

#[test]
fn a_package_without_location_is_removed_at_once() {
    let msix = vec![package_app("m")];
    let target = uninstall_target(&vec![], &msix, "m").unwrap();
    let (mut run, first) = UninstallRun::begin("m", target);
    assert!(matches!(first, UninstallAction::Remove(n) if n == "m"));
    assert!(matches!(
        run.step(UninstallEvent::Removed(Err("denied".into()))),
        UninstallAction::Fail(e) if e == "denied"
    ));
    assert!(matches!(run.step(UninstallEvent::Removed(Ok(()))), UninstallAction::Survey(_)));
    match run.step(UninstallEvent::Surveyed(vec![], vec![], Some(msix))) {
        UninstallAction::Report(r) => assert!(!r.removed_entry),
        other => panic!("{other:?}"),
    }
}

#[test]
fn duplicates_are_found_in_three_passes() {
    let mut t = Tree::new(8, palette());
    t.add_root_path(0, "C:\\r");
    t.append_batch(
        0,
        vec![
            file_entry("a", 4),
            file_entry("b", 4),
            file_entry("c", 4),
            file_entry("alone", 5),
            file_entry("big1", 70_000),
            file_entry("big2", 70_000),
            file_entry("empty", 0),
        ],
    );
    t.finalize();
    let mut s = DupeScan::begin(&t);
    assert_eq!(s.candidates.len(), 6);
    let content = |path: &str| -> Vec<u8> {
        match path {
            "C:\\r\\a" | "C:\\r\\b" => b"same".to_vec(),
            "C:\\r\\c" => b"else".to_vec(),
            "C:\\r\\big1" => vec![1; 70_000],
            "C:\\r\\big2" => {
                let mut v = vec![1; 70_000];
                v[69_999] = 2;
                v
            }
            other => panic!("{other} must not be read"),
        }
    };
    let digests: Vec<Option<[u8; 32]>> = s
        .targets
        .iter()
        .map(|&i| Some(digest_of(&content(&s.candidates[i as usize].path), true)))
        .collect();
    assert_eq!(digests.len(), 5);
    s.screen(&digests);
    let names: Vec<&str> =
        s.survivors.iter().map(|&i| s.candidates[i as usize].path.as_str()).collect();
    assert_eq!(names.len(), 4);
    assert!(!names.contains(&"C:\\r\\c"));
    let fulls: Vec<Option<[u8; 32]>> = s
        .survivors
        .iter()
        .map(|&i| {
            let c = &s.candidates[i as usize];
            if c.size > 65_536 { Some(digest_of(&content(&c.path), false)) } else { None }
        })
        .collect();
    let known = vec![None; s.survivors.len()];
    let r = s.finish(&fulls, &known);
    assert_eq!((r.generation, r.files, r.wasted_total), (t.generation, 6, 4));
    assert_eq!(r.groups.len(), 1);
    assert_eq!((r.groups[0].size, r.groups[0].count, r.groups[0].wasted), (4, 2, 4));
    let same: Vec<Option<(u64, u64)>> = vec![Some((1, 1)); s.survivors.len()];
    assert!(s.finish(&fulls, &same).groups.is_empty());
}

#[test]
fn unreadable_survivors_are_left_out() {
    let c = |path: &str, size: u64, id: u32| Candidate { path: path.into(), size, id };
    let cands = vec![c("s", 4, 1), c("l", 70_000, 2), c("m", 70_000, 3)];
    let p = Some([1u8; 32]);
    let got = hashed_files(
        &cands,
        &vec![0, 1, 2],
        &vec![p, p, p],
        &vec![None, None, Some([2u8; 32])],
        &vec![Some((9, 8)), None, None],
    );
    assert_eq!(got.len(), 2);
    assert_eq!((got[0].path.as_str(), got[0].sha256, got[0].volume_serial), ("s", [1u8; 32], 9));
    assert_eq!((got[1].path.as_str(), got[1].sha256), ("m", [2u8; 32]));
    assert_eq!((got[1].volume_serial, got[1].file_index), (u64::MAX, 3));
}

#[test]
fn display_paths_navigate_back() {
    for root in ["C:\\", "C:\\r", "/", "/Users/dev", "\\\\?\\C:\\r"] {
        let mut t = Tree::new(1, palette());
        t.add_root_path(0, root);
        t.append_batch(0, vec![dir_entry("Docs"), file_entry("Top.TXT", 1)]);
        t.append_batch(1, vec![file_entry("Deep.txt", 2)]);
        t.finalize();
        for id in 0..4 {
            assert_eq!(t.resolve_display_path(&t.node_path(id)), Some(id), "{root} {id}");
        }
    }
    let mut t = Tree::new(1, palette());
    t.add_root_path(0, "C:\\r");
    let mut unpaired = file_entry("", 1);
    unpaired.name = vec![0xD800];
    t.append_batch(0, vec![file_entry("\u{e9}", 2), unpaired]);
    t.finalize();
    assert_eq!(t.resolve_display_path(&t.node_path(1)), Some(1));
    // An unpaired surrogate does not survive in a path.
    assert_eq!(t.resolve_display_path(&t.node_path(2)), None);
}

fn listed(name: &str, is_dir: bool, size: u64, tag: Option<u32>) -> DirEntryData {
    DirEntryData {
        name: name.encode_utf16().collect(),
        is_dir,
        logical: size,
        on_disk: size,
        modified: 5,
        created: 4,
        reparse_tag: tag,
        cloud: false,
        file_id: 0,
    }
}

#[test]
fn a_walk_lists_each_folder_once_and_no_link() {
    let mut t = Tree::new(1, palette());
    t.add_root_path(0, "C:\\");
    let mut w = Walk::start(&t, 0, "C:\\");
    let mut seen = Vec::new();
    while let Some((node, path)) = w.next_dir() {
        let entries = match path.as_str() {
            "C:\\" => vec![
                listed("a", true, 0, None),
                listed("f.mp4", false, 7, None),
                listed("link", true, 0, Some(0xA000_000C)),
            ],
            "C:\\a" => vec![listed("b", true, 0, None)],
            _ => vec![],
        };
        let kinds = vec![FileCategory::Video; entries.len()];
        w.take(&mut t, node, &path, &entries, &kinds);
        seen.push(path);
    }
    assert_eq!(seen, vec!["C:\\", "C:\\a", "C:\\a\\b"]);
    t.finalize();
    assert_eq!(t.len(), 5);
    assert_eq!(t.root_stats(), (7, 7, 1, 3));
    let f = (0..5).find(|&id| t.name(id) == "f.mp4").unwrap();
    let n = t.node(f).unwrap();
    assert_eq!((n.kind, n.modified, n.created, n.dir), (FileCategory::Video, 5, 4, false));
    assert_eq!(t.node_path(4), "C:\\a\\b");
}

#[test]
fn recycled_nodes_leave_the_totals() {
    let mut t = Tree::new(8, palette());
    t.add_root_path(0, "C:\\r");
    t.append_batch(0, vec![dir_entry("d"), file_entry("keep", 10)]);
    t.append_batch(1, vec![file_entry("x", 5), dir_entry("sub")]);
    t.append_batch(4, vec![file_entry("y", 3)]);
    t.finalize();
    assert_eq!(t.root_stats(), (18, 18, 3, 2));
    assert!(take_out(&t, &["C:\\elsewhere".to_string()]).is_none());
    let (after, removal) = take_out(&t, &["C:\\r\\d\\sub".to_string()]).unwrap();
    assert_eq!(removal.generation, 9);
    assert_eq!(removal.stats, (15, 15, 2, 1));
    assert_eq!((after.generation, removal.current_folder), (9, 0));
    assert!(after.node(5).unwrap().removed);
    assert!(!after.node(3).unwrap().removed);
    assert_eq!(after.fixup_navigation(5), 1);
    assert_eq!(after.fixup_navigation(2), 2);
    assert_eq!(after.fixup_navigation(77), 0);
    assert!(!t.node(5).unwrap().removed);
    assert_eq!(t.root_stats(), (18, 18, 3, 2));
}

#[test]
fn totals_count_every_file_of_the_walk() {
    let mut t = Tree::new(1, palette());
    t.add_root_path(0, "C:\\r");
    t.append_batch(0, vec![dir_entry("d"), file_entry("a", 7)]);
    t.append_batch(1, vec![file_entry("b", 11), dir_entry("sub"), file_entry("c", 0)]);
    t.append_batch(4, vec![file_entry("e", 100)]);
    t.finalize();
    let sum = |top: u32| {
        t.walk(top)
            .iter()
            .map(|&id| t.node(id).unwrap())
            .filter(|n| !n.dir)
            .map(|n| n.on_disk)
            .sum::<u64>()
    };
    assert_eq!(sum(0), 118);
    assert_eq!(sum(1), 111);
    assert_eq!(sum(4), 100);
    for top in [0, 1, 4] {
        assert_eq!(t.node(top).unwrap().on_disk, sum(top));
    }
    assert_eq!(t.root_stats(), (118, 118, 4, 2));
}

#[test]
fn items_that_cannot_be_recycled_are_refused() {
    let item = |size: u64, protected: bool| StagedPath { id: 1, path: "p".into(), size, protected };
    let bin = |nuke: bool, mb: Option<u64>| BinPolicy { nuke_on_delete: nuke, max_capacity_mb: mb };
    let open = bin(false, None);
    assert_eq!(preflight(&item(1, true), true, true, &open), Preflight::Protected);
    assert_eq!(preflight(&item(1, false), true, false, &open), Preflight::Gone);
    assert_eq!(preflight(&item(1, false), false, false, &open), Preflight::NotFixed);
    assert_eq!(preflight(&item(1, false), false, true, &bin(true, None)), Preflight::BinDisabled);
    let small = bin(false, Some(1));
    assert_eq!(preflight(&item(1_048_576, false), false, true, &small), Preflight::Move);
    assert_eq!(preflight(&item(1_048_577, false), false, true, &small), Preflight::TooLarge);
    let huge = bin(false, Some(u64::MAX));
    assert_eq!(preflight(&item(u64::MAX, false), false, true, &huge), Preflight::Move);
    assert!(refusal(Preflight::Move).is_none() && refusal(Preflight::Gone).is_none());
    assert_eq!(
        refusal(Preflight::NotFixed).as_deref(),
        Some("This drive has no Recycle Bin.")
    );
}

#[test]
fn a_walk_may_start_from_several_drives() {
    let mut t = Tree::new(1, palette());
    t.append_batch(0, vec![dir_entry("C:\\"), dir_entry("D:\\")]);
    t.add_root_path(1, "C:\\");
    t.add_root_path(2, "D:\\");
    let mut w = Walk::start(&t, 1, "C:\\");
    w.also(&t, 2, "D:\\");
    let (node, path) = w.next_dir().unwrap();
    assert_eq!((node, path.as_str()), (1, "C:\\"));
    let entries = vec![listed("x", true, 0, None)];
    w.take(&mut t, node, &path, &entries, &vec![FileCategory::Other]);
    assert_eq!(w.next_dir(), Some((2, "D:\\".to_string())));
    assert_eq!(w.next_dir(), Some((3, "C:\\x".to_string())));
    assert_eq!(w.next_dir(), None);
    assert_eq!(t.resolve_display_path("D:\\"), Some(2));
}

#[test]
fn a_file_takes_whole_clusters_too() {
    let mut w = SizeWalk::start("C:\\a.exe", Some(EntryKind::File(4097)), 4096);
    assert_eq!((w.total, w.next_folder()), (8192, None));
    assert_eq!(SizeWalk::start("C:\\a.exe", Some(EntryKind::File(5)), 0).total, 5);
    let mut link = SizeWalk::start("C:\\l", Some(EntryKind::Link), 4096);
    assert_eq!((link.total, link.next_folder()), (0, None));
    let mut gone = SizeWalk::start("C:\\x", None, 4096);
    assert_eq!((gone.total, gone.next_folder()), (0, None));
}

#[test]
fn a_listed_record_is_not_gone() {
    let quiet = RawRegistryApp {
        uninstall_string: String::new(),
        quiet_uninstall_string: "A.exe /quiet".into(),
        ..registry_app("a", "A", "")
    };
    let target = uninstall_target(&vec![quiet.clone()], &vec![], "a").unwrap();
    let (mut run, first) = UninstallRun::begin("a", target);
    assert!(matches!(first, UninstallAction::Launch(c) if c == "A.exe /quiet"));
    run.step(UninstallEvent::Ended(Ok(0)));
    match run.step(UninstallEvent::Surveyed(vec![], vec![quiet], None)) {
        UninstallAction::Report(r) => assert!(!r.removed_entry),
        other => panic!("{other:?}"),
    }
    match run.step(UninstallEvent::Surveyed(vec![], vec![registry_app("b", "B", "")], None)) {
        UninstallAction::Report(r) => assert!(r.removed_entry),
        other => panic!("{other:?}"),
    }
}

fn child(name: &str, size: u64) -> RootChild {
    RootChild { name: name.into(), size, nested: Vec::new() }
}

#[test]
fn publisher_folders_are_expanded() {
    let mut roots = vec![
        RootListing {
            label_idx: 0,
            path: "C:\\Local\\".into(),
            children: vec![child("acme", 50), child("Other", 7), child("Tool", 20)],
        },
        RootListing { label_idx: 3, path: "C:\\Data".into(), children: vec![child("Else", 1)] },
    ];
    let registry = vec![registry_app("t", "Tool", "C:\\Apps\\ToolBox\\")];
    let mut identity = seed_all(&registry, &vec![None], &vec![]).remove(0).1;
    identity.publisher = "Acme".into();
    let requests = publisher_children_to_expand(&roots, &[identity.clone()]);
    assert_eq!(requests, vec![(0, "acme".to_string())]);
    let mut asked = requests.clone();
    asked.push((0, "missing".into()));
    asked.push((9, "acme".into()));
    assert_eq!(
        folders_to_list(&roots, &asked),
        vec![Some("C:\\Local\\acme".to_string()), None, None]
    );
    let nested = vec![("toolbox".to_string(), 30), ("game".to_string(), 5)];
    fill_nested(&mut roots, &asked, vec![Some(nested.clone()), Some(vec![]), None]);
    assert_eq!(roots[0].children[0].nested, nested);
    assert!(roots[0].children[1].nested.is_empty());
    let left = find_leftovers(&identity, &roots);
    assert_eq!(left.len(), 1);
    assert_eq!((left[0].label_idx, left[0].size), (0, 50));
    assert_eq!(
        left[0].paths,
        vec!["C:\\Local\\acme\\toolbox".to_string(), "C:\\Local\\Tool".to_string()]
    );
    fill_nested(&mut roots, &asked[..1], vec![None]);
    assert_eq!(roots[0].children[0].nested, nested);
}

#[test]
fn a_queue_parts_in_three() {
    let staged = |id: u32, size: u64, protected: bool| StagedPath {
        id,
        path: format!("C:\\{id}"),
        size,
        protected,
    };
    let fact = |missing: bool, fixed: bool, nuke: bool| PathFacts {
        missing,
        fixed,
        policy: BinPolicy { nuke_on_delete: nuke, max_capacity_mb: Some(1) },
    };
    let parted = part(
        &[
            staged(1, 10, false),
            staged(2, 10, true),
            staged(3, 10, false),
            staged(4, 10, false),
            staged(5, 10, false),
            staged(6, 2_000_000, false),
            staged(7, 11, false),
        ],
        &[
            fact(false, true, false),
            fact(true, true, false),
            fact(true, true, false),
            fact(false, false, false),
            fact(false, true, true),
            fact(false, true, false),
            fact(false, true, false),
        ],
    );
    let moving: Vec<u32> = parted.moving.iter().map(|m| m.id).collect();
    assert_eq!(moving, vec![1, 7]);
    assert_eq!(parted.trashed.len(), 1);
    assert_eq!((parted.trashed[0].id, parted.trashed[0].path.as_str()), (3, "C:\\3"));
    let refused: Vec<u32> = parted.failed.iter().map(|f| f.id).collect();
    assert_eq!(refused, vec![2, 4, 5, 6]);
    assert_eq!(parted.failed[3].reason, "This item is larger than the Recycle Bin.");
    let (trashed, failed) = settle(parted, &[Ok(()), Err("in use".to_string())]);
    let ids: Vec<(u32, u64)> = trashed.iter().map(|t| (t.id, t.size)).collect();
    assert_eq!(ids, vec![(3, 10), (1, 10)]);
    let last = failed.last().unwrap();
    assert_eq!((last.id, last.path.as_str(), last.reason.as_str()), (7, "C:\\7", "in use"));
    assert_eq!(failed.len(), 5);
}

#[test]
fn cells_are_coloured_by_mode() {
    let mut t = Tree::new(1, palette());
    t.add_root_path(0, "C:\\r");
    let mut video = file_entry("v", 9);
    video.node.set_category(FileCategory::Video);
    video.node.modified = 1_000;
    t.append_batch(0, vec![video, file_entry("o", 1)]);
    t.finalize();
    let day: i64 = 86_400;
    let color =
        |id: u32, mode: ColorMode, now: i64| color_of_cell(&t, id, mode, now, 0, 1, 0);
    // A folder has a category of its own, whatever it holds.
    assert_eq!(color(0, ColorMode::ByType, 0), 8);
    assert_eq!(color(1, ColorMode::ByType, 0), 0);
    assert_eq!(color(2, ColorMode::ByType, 0), 8);
    assert_eq!(color(1, ColorMode::ByAge, 1_000 + 30 * day - 1), 0xF87171);
    assert_eq!(color(1, ColorMode::ByAge, 1_000 + 30 * day), 0xFBBF24);
    assert_eq!(color(0, ColorMode::ByAge, 1_000 + 365 * day), 0x60A5FA);
    assert_eq!(color(0, ColorMode::ByAge, 1_000 + 730 * day), 0x6B7280);
    assert_eq!(color(2, ColorMode::ByAge, 5), 0x6B7280);
    let branch = |family: usize, depth: u32, sibling: usize| {
        color_of_cell(&t, 1, ColorMode::ByFolder, 0, family, depth, sibling)
    };
    // The plain colour of the family, then ever lighter shades of it.
    assert_eq!(branch(11, 0, 0), 2);
    assert_eq!(branch(2, 0, 1), 0x0F0F11);
    assert_eq!(branch(2, 1, 0), 0x1F1F21);
    assert_eq!(branch(2, 0x10001, 2), branch(2, 1, 0));
    assert_eq!(branch(2, 3, 1), 0x6F6F70);
}

#[test]
fn scans_end_where_nothing_can_be_listed() {
    let mut t = Tree::new(1, palette());
    t.add_root_path(0, "C:\\r");
    t.append_batch(0, vec![dir_entry("d")]);
    let one = [listed("a", false, 1, None)];
    let denied = Some(ListError::AccessDenied);
    assert_eq!(scan_failure(&t, 0, &[], &denied).as_deref(), Some("Access denied."));
    assert_eq!(
        scan_failure(&t, 0, &[], &Some(ListError::Vanished)).as_deref(),
        Some("This folder no longer exists.")
    );
    assert_eq!(
        scan_failure(&t, 0, &[], &Some(ListError::Other("odd".into()))).as_deref(),
        Some("odd")
    );
    assert_eq!(scan_failure(&t, 1, &[], &denied), None);
    assert_eq!(scan_failure(&t, 0, &one, &denied), None);
    assert_eq!(scan_failure(&t, 0, &[], &None), None);
}
