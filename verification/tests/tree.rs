use diskbytes::bytes::{magnitude, to_signed, u16_at, u32_at, u64_at, units_at};
use diskbytes::category::{CategoryStyle, FileCategory, Palette};
use diskbytes::layout::{
    depth_below, effective_branch_root, family_of, is_solid, level_below, reachable_levels,
    ring_budget, spread_rings,
};
use diskbytes::locate::{find_node_by_path, normalize};
use diskbytes::names::{eq_ci, has_ext_ci};
use diskbytes::order::rank;
use diskbytes::paths::join_path;
use diskbytes::text::{
    chars_of, decimal_string, hex_string, lossy_string, split_chars, string_of, to_lower,
    trim_chars, units_of, white,
};
use diskbytes::tree::{BatchEntry, Node, Tree};

fn palette() -> Palette {
    Palette {
        styles: (0..9)
            .map(|i| CategoryStyle { label: format!("c{i}"), color: i })
            .collect(),
    }
}

fn dir_entry(name: &str) -> BatchEntry {
    let mut node = Node::new_dir();
    node.modified = 1;
    BatchEntry { name: name.encode_utf16().collect(), node }
}

fn file_entry(name: &str, logical: u64, on_disk: u64) -> BatchEntry {
    let mut node = Node::new_file();
    node.logical = logical;
    node.on_disk = on_disk;
    node.modified = 2;
    node.set_category(FileCategory::Other);
    BatchEntry { name: name.encode_utf16().collect(), node }
}

#[test]
fn long_paths_supported_at_tree_level() {
    let mut t = Tree::new(1, palette());
    t.add_root_path(0, "C:\\long");
    let mut parent = 0u32;
    for i in 0..60 {
        let seg = format!("s{i:02}_{}", "x".repeat(40));
        let mut n = Node::new_dir();
        n.modified = 1;
        let base = t.append_batch(
            parent,
            vec![BatchEntry { name: seg.encode_utf16().collect(), node: n }],
        );
        parent = base;
    }
    let mut leaf = Node::new_file();
    leaf.logical = 7;
    leaf.on_disk = 4096;
    leaf.set_category(FileCategory::Document);
    t.append_batch(
        parent,
        vec![BatchEntry { name: "deep.txt".encode_utf16().collect(), node: leaf }],
    );
    t.finalize();
    let deep = (0..t.len() as u32).find(|&id| t.name(id) == "deep.txt").expect("deep.txt present");
    let path = t.node_path(deep);
    assert!(path.len() > 260, "rebuilt path should exceed MAX_PATH: {}", path.len());
    assert!(path.starts_with("C:\\long\\s00_"));
    assert_eq!(t.resolve_display_path(&path), Some(deep));
}

#[test]
fn case_variants_distinct_in_tree() {
    let mut t = Tree::new(1, palette());
    t.add_root_path(0, "/tmp/case");
    t.append_batch(0, vec![file_entry("Readme.md", 10, 10), file_entry("README.md", 20, 20)]);
    t.finalize();
    assert_eq!(t.children_sorted(0).len(), 2, "both cases kept distinct");
}

#[test]
fn sizes_roll_up_over_4gib_boundary() {
    let mut t = Tree::new(1, palette());
    t.add_root_path(0, "C:\\big");
    t.append_batch(
        0,
        vec![
            file_entry("a.iso", 3_000_000_000, 3_000_776_192),
            file_entry("b.iso", 3_000_000_000, 3_000_776_192),
            file_entry("c.iso", 2_000_000_000, 2_000_518_656),
        ],
    );
    t.finalize();
    let root = t.node(0).unwrap();
    assert_eq!(root.logical, 8_000_000_000, "logical sum > 4 GiB exact");
    assert!(root.on_disk > 8_000_000_000);
}

fn nested() -> Tree {
    let mut t = Tree::new(1, palette());
    t.add_root_path(0, "C:\\");
    t.append_batch(0, vec![dir_entry("a"), dir_entry("b")]);
    t.append_batch(1, vec![file_entry("a1", 75, 75), file_entry("a2", 25, 25), dir_entry("deep")]);
    t.append_batch(2, vec![file_entry("b1", 30, 30)]);
    t.append_batch(5, vec![file_entry("x", 5, 5), file_entry("y", 6, 6)]);
    t.finalize();
    t
}

#[test]
fn sums_counts_and_times_roll_up() {
    let t = nested();
    let root = t.node(0).unwrap();
    assert_eq!((root.logical, root.on_disk), (141, 141));
    let x = t.dir_extras[root.dir_index as usize];
    assert_eq!((x.file_count, x.folder_count, x.max_descendant_modified), (5, 3, 2));
    assert_eq!(x.type_sizes[8], 141);
    assert_eq!(t.children_sorted(1), &[3, 4, 5]);
    assert_eq!(t.children_sorted(5), &[8, 7]);
    assert_eq!(t.walk(1), vec![1, 3, 4, 5, 8, 7]);
    assert!(t.is_descendant_of(7, 1) && !t.is_descendant_of(7, 2));
}

#[test]
fn sums_stop_at_the_largest_number() {
    let mut t = Tree::new(1, palette());
    t.append_batch(0, vec![file_entry("a", u64::MAX, u64::MAX), file_entry("b", 5, 5)]);
    t.finalize();
    assert_eq!(t.node(0).unwrap().on_disk, u64::MAX);
}

#[test]
fn names_may_hold_unpaired_surrogates() {
    let mut t = Tree::new(1, palette());
    let node = Node::new_file();
    t.append_batch(0, vec![BatchEntry { name: vec![0x61, 0xD800, 0x62], node }]);
    assert_eq!(t.name_u16(1), &[0x61, 0xD800, 0x62]);
    assert_eq!(t.name(1), "a\u{FFFD}b");
}

#[test]
fn paths_are_found_without_regard_to_case() {
    let t = nested();
    assert_eq!(t.node_path(7), "C:\\a\\deep\\x");
    assert_eq!(t.resolve_display_path("c:/A/DEEP/x"), Some(7));
    assert_eq!(t.resolve_display_path("\\\\?\\C:\\a"), Some(1));
    assert_eq!(t.resolve_display_path("C:\\nope"), None);
    assert_eq!(normalize("\\\\?\\C:/Foo/"), "c:\\foo");
    assert_eq!(find_node_by_path(&t, "c:\\b\\b1"), Some(6));
    assert_eq!(join_path("C:\\", "x"), "C:\\x");
    assert_eq!(join_path("C:\\a", "x"), "C:\\a\\x");
}

#[test]
fn names_compare_by_ascii_case() {
    let u = |s: &str| -> Vec<u16> { s.encode_utf16().collect() };
    assert!(eq_ci(&u("TEMP"), "temp"));
    assert!(!eq_ci(&u("TEMP2"), "temp"));
    assert!(has_ext_ci(&u("disk.VHDX"), "vhdx"));
    assert!(!has_ext_ci(&u("disk.vmdk"), "vhdx"));
}

#[test]
fn rankings_break_ties_by_id() {
    assert_eq!(
        rank(&[(5, 3), (9, 1), (5, 2), (0, 0)]),
        vec![(9, 1), (5, 2), (5, 3), (0, 0)]
    );
}

#[test]
fn charts_count_rows_and_rings() {
    let t = nested();
    assert_eq!(reachable_levels(&t, 0, 7), 3);
    assert_eq!(reachable_levels(&t, 0, 2), 2);
    assert_eq!(reachable_levels(&t, 0, 0), 0);
    assert_eq!(spread_rings(&t, 0, 7), 3);
    assert_eq!(spread_rings(&t, 2, 7), 0);
    let mut c = Tree::new(1, palette());
    c.append_batch(0, vec![dir_entry("only"), dir_entry("empty")]);
    c.append_batch(1, vec![dir_entry("l"), dir_entry("r")]);
    c.append_batch(3, vec![file_entry("x", 1, 1)]);
    c.append_batch(4, vec![file_entry("y", 2, 2)]);
    c.finalize();
    assert_eq!(spread_rings(&c, 0, 7), 1);
    assert_eq!(effective_branch_root(&c, 0), 1);
    assert_eq!(depth_below(&c, 1, 0), 1);
    assert_eq!(depth_below(&c, 5, 0), 3);
    let level = level_below(&c, 0, 7);
    assert!(level.collapsed);
    assert_eq!(level.total, 3);
    assert_eq!(level.nodes.len(), 1);
    let below = level_below(&c, 1, 7);
    assert!(!below.collapsed);
    let shown: Vec<(u32, usize, u64, bool)> =
        below.nodes.iter().map(|n| (n.id, n.slot, n.on_disk, n.descends)).collect();
    assert_eq!(shown, vec![(4, 0, 2, true), (3, 1, 1, true)]);
    assert!(level_below(&c, 1, 0).nodes.is_empty());
    assert!(!level_below(&c, 1, 1).nodes[0].descends);
}

#[test]
fn families_begin_at_the_branches() {
    assert_eq!(family_of(3, 3, 5, 1), 5);
    assert_eq!(family_of(4, 3, 5, 1), 1);
    assert!(is_solid(2, 2));
    assert!(!is_solid(3, 2));
    let b = ring_budget(false, 3);
    assert_eq!((b.here, b.below), (3, 2));
    let b = ring_budget(true, 3);
    assert_eq!((b.here, b.below), (3, 3));
    let b = ring_budget(false, 0);
    assert_eq!((b.here, b.below), (1, 0));
}

#[test]
fn texts_convert_exactly() {
    assert_eq!(string_of(&chars_of("aé📁")), "aé📁");
    assert_eq!(units_of("aé📁"), "aé📁".encode_utf16().collect::<Vec<u16>>());
    for s in ["", "plain", "日本語", "📁🗺️"] {
        assert_eq!(lossy_string(&units_of(s)), s);
    }
    for u in [vec![0xD800], vec![0xDC00, 0x41], vec![0xD83D, 0xDCC1], vec![0xD83D, 0xD83D]] {
        assert_eq!(lossy_string(&u), String::from_utf16_lossy(&u));
    }
    assert_eq!(decimal_string(0), "0");
    assert_eq!(decimal_string(u64::MAX), u64::MAX.to_string());
    assert_eq!(hex_string(0xC0FF_EE00), "c0ffee00");
    assert_eq!(string_of(&to_lower(&chars_of("ÄbC"))), "Äbc");
    let parts: Vec<String> = split_chars(&chars_of("a//b"), '/').iter().map(|p| string_of(p)).collect();
    assert_eq!(parts, vec!["a".to_string(), String::new(), "b".to_string()]);
}

#[test]
fn white_space_is_unicode_white_space() {
    for v in 0..0x3100u32 {
        if let Some(c) = char::from_u32(v) {
            assert_eq!(white(c), c.is_whitespace(), "U+{v:04X}");
        }
    }
    assert_eq!(string_of(&trim_chars(&chars_of(" \u{3000}a b\t"))), "a b");
}

#[test]
fn numbers_are_read_little_endian() {
    let b = [1, 2, 3, 4, 5, 6, 7, 0x88];
    assert_eq!(u16_at(&b, 1), 0x0302);
    assert_eq!(u32_at(&b, 2), 0x0605_0403);
    assert_eq!(u64_at(&b, 0), u64::from_le_bytes(b));
    assert_eq!(units_at(&b, 2, 2), vec![0x0403, 0x0605]);
    assert_eq!(to_signed(u64::MAX), -1);
    assert_eq!(to_signed(1 << 63), i64::MIN);
    assert_eq!(magnitude(u64::MAX), 1);
    assert_eq!(magnitude(1 << 63), 1 << 63);
    assert_eq!(magnitude(7), 7);
}
