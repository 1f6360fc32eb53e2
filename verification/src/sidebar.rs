//! The sidebar: drive chips, storage, quick-win rows and the file-types bar.
use crate::catalog::HostOs;
use crate::category::FileCategory;
use crate::quickwins;
use crate::quickwins::{QuickWinCategory, Row};
use crate::shares;
use crate::shares::Share;
use crate::text;
use crate::tree::Tree;
use vstd::prelude::*;

verus! {

// ---------------------------------------------------------------------------
// Drives
// ---------------------------------------------------------------------------

/// One drive chip.
#[derive(Clone, Debug)]
pub struct DriveChip {
    /// Letter, e.g. `C:`.
    pub letter: String,
    /// Scan target, e.g. `C:\`.
    pub target: String,
}

/// An ASCII letter.
pub open spec fn is_letter(c: char) -> bool {
    ('A' <= c && c <= 'Z') || ('a' <= c && c <= 'z')
}

/// The text without verbatim prefixes in front.
pub open spec fn no_verbatim_left(s: Seq<char>) -> Seq<char>
    decreases s.len(),
{
    if s.len() >= 4 && s[0] == '\\' && s[1] == '\\' && s[2] == '?' && s[3] == '\\' {
        no_verbatim_left(s.skip(4))
    } else {
        s
    }
}

/// The letter of a drive root.
pub open spec fn drive_letter(root: Seq<char>) -> Option<char> {
    let s = no_verbatim_left(root);
    if s.len() >= 2 && is_letter(s[0]) && s[1] == ':' {
        Some(s[0])
    } else {
        None
    }
}

/// The letters of drive roots, in order; other roots are left out.
pub open spec fn drive_letters(roots: Seq<Seq<char>>) -> Seq<char>
    decreases roots.len(),
{
    if roots.len() == 0 {
        Seq::empty()
    } else {
        let rest = drive_letters(roots.drop_last());
        match drive_letter(roots.last()) {
            Some(c) => rest.push(c),
            None => rest,
        }
    }
}

/// The letter of a drive root (`\\?\C:\` is `C`).
pub fn letter_of(root: &str) -> (r: Option<char>)
    ensures
        r == drive_letter(root@),
{
    let cs = text::chars_of(root);
    let mut from: usize = 0;
    assert(cs@.skip(0) =~= cs@);
    while cs.len() - from >= 4 && cs[from] == '\\' && cs[from + 1] == '\\' && cs[from + 2] == '?'
        && cs[from + 3] == '\\'
        invariant
            from <= cs.len(),
            no_verbatim_left(cs@) == no_verbatim_left(cs@.skip(from as int)),
        decreases cs.len() - from,
    {
        assert(cs@.skip(from as int).skip(4) =~= cs@.skip(from + 4));
        from += 4;
    }
    if cs.len() - from >= 2 {
        let c: char = cs[from];
        let letter = ('A' <= c && c <= 'Z') || ('a' <= c && c <= 'z');
        if letter && cs[from + 1] == ':' {
            return Some(c);
        }
    }
    None
}

/// One chip per fixed drive.
pub fn get_drive_chips(roots: &[String]) -> (r: Vec<DriveChip>)
    ensures
        r@.len() == drive_letters(crate::scan::strings(roots@)).len(),
        forall|i: int|
            0 <= i < r@.len() ==> {
                let c = drive_letters(crate::scan::strings(roots@))[i];
                (#[trigger] r@[i]).letter@ == seq![c, ':'] && r@[i].target@ == seq![c, ':', '\\']
            },
{
    let ghost all = crate::scan::strings(roots@);
    let mut out: Vec<DriveChip> = Vec::new();
    let mut i: usize = 0;
    while i < roots.len()
        invariant
            i <= roots.len(),
            all == crate::scan::strings(roots@),
            out@.len() == drive_letters(all.take(i as int)).len(),
            forall|k: int|
                0 <= k < out@.len() ==> {
                    let c = drive_letters(all.take(i as int))[k];
                    (#[trigger] out@[k]).letter@ == seq![c, ':'] && out@[k].target@
                        == seq![c, ':', '\\']
                },
        decreases roots.len() - i,
    {
        proof {
            assert(all.take(i + 1).drop_last() =~= all.take(i as int));
            assert(all.take(i + 1).last() == roots@[i as int]@);
        }
        if let Some(c) = letter_of(roots[i].as_str()) {
            let mut letter = String::new();
            letter.push(c);
            letter.push(':');
            let mut target = letter.clone();
            target.push('\\');
            assert(letter@ =~= seq![c, ':']);
            assert(target@ =~= seq![c, ':', '\\']);
            out.push(DriveChip { letter, target });
        }
        i += 1;
    }
    assert(all.take(i as int) =~= all);
    out
}

// ---------------------------------------------------------------------------
// Storage
// ---------------------------------------------------------------------------

/// The space of one volume.
#[derive(Clone, Debug)]
pub struct StorageInfo {
    pub label: String,
    pub total: u64,
    pub used: u64,
    pub free: u64,
    /// Used part of the total.
    pub used_share: Share,
}

/// The text without NUL characters at the end.
pub open spec fn no_tail_nul(s: Seq<char>) -> Seq<char>
    decreases s.len(),
{
    if s.len() > 0 && s.last() == '\0' {
        no_tail_nul(s.drop_last())
    } else {
        s
    }
}

/// A volume label as shown.
pub open spec fn shown_label(units: Seq<u16>) -> Seq<char> {
    text::trim(no_tail_nul(text::lossy(units)))
}

/// A volume label as shown: without padding and surrounding white space.
pub fn volume_label(units: &[u16]) -> (r: String)
    ensures
        r@ == shown_label(units@),
{
    let cs = text::lossy_chars(units);
    let mut to: usize = cs.len();
    assert(cs@.take(to as int) =~= cs@);
    while to > 0 && cs[to - 1] == '\0'
        invariant
            to <= cs.len(),
            no_tail_nul(cs@) == no_tail_nul(cs@.take(to as int)),
        decreases to,
    {
        assert(cs@.take(to as int).drop_last() =~= cs@.take(to - 1));
        to -= 1;
    }
    let head = text::slice_chars(cs.as_slice(), 0, to);
    assert(head@ =~= cs@.take(to as int));
    let trimmed = text::trim_chars(head.as_slice());
    text::string_of(trimmed.as_slice())
}

/// The path whose volume is shown: the first path root of the current scan, or
/// the fallback where there is none.
pub fn storage_probe(tree: Option<&Tree>, fallback: &str) -> (r: String)
    ensures
        r@ == (match tree {
            Some(t) => if t.roots@.len() > 0 {
                t.roots@[0].path@
            } else {
                fallback@
            },
            None => fallback@,
        }),
{
    match tree {
        Some(t) => {
            if t.roots.len() > 0 {
                t.roots[0].path.clone()
            } else {
                fallback.to_owned()
            }
        },
        None => fallback.to_owned(),
    }
}

/// Puts the storage figures together.
pub fn storage_info(label: &[u16], total: u64, used: u64, free: u64) -> (r: StorageInfo)
    ensures
        r.label@ == shown_label(label@),
        r.total == total,
        r.used == used,
        r.free == free,
        r.used_share == (Share { part: used, whole: total }),
{
    StorageInfo {
        label: volume_label(label),
        total,
        used,
        free,
        used_share: Share { part: used, whole: total },
    }
}

// ---------------------------------------------------------------------------
// Environment roots
// ---------------------------------------------------------------------------

/// The user's known folders, where they exist.
#[derive(Clone, Debug)]
pub struct KnownFolders {
    pub profile: Option<String>,
    pub local: Option<String>,
    pub roaming: Option<String>,
    pub program_data: Option<String>,
}

/// A list of one pair where there is a value.
pub open spec fn pair_of(key: Seq<char>, v: Option<String>) -> Seq<(Seq<char>, Seq<char>)> {
    match v {
        Some(p) => seq![(key, p@)],
        None => Seq::empty(),
    }
}

/// The environment roots of a host.
pub open spec fn roots_of(k: KnownFolders, host: HostOs) -> Seq<(Seq<char>, Seq<char>)> {
    let base = pair_of("%USERPROFILE%"@, k.profile) + pair_of("%LOCALAPPDATA%"@, k.local)
        + pair_of("%APPDATA%"@, k.roaming) + pair_of("%PROGRAMDATA%"@, k.program_data);
    match (host, k.profile) {
        (HostOs::MacOs, Some(home)) => base + seq![
            ("%HOME%"@, home@),
            ("%APP_SUPPORT%"@, home@ + "/Library/Application Support"@),
        ],
        _ => base,
    }
}

/// The contents of a list of pairs.
pub open spec fn pair_views(s: Seq<(String, String)>) -> Seq<(Seq<char>, Seq<char>)> {
    s.map_values(|p: (String, String)| (p.0@, p.1@))
}

fn push_pair(out: &mut Vec<(String, String)>, key: &str, v: &Option<String>)
    ensures
        pair_views(final(out)@) == pair_views(old(out)@) + pair_of(key@, *v),
{
    let ghost before = out@;
    if let Some(p) = v {
        out.push((key.to_owned(), p.clone()));
        assert(pair_views(out@) =~= pair_views(before) + seq![(key@, p@)]);
    } else {
        assert(pair_views(out@) =~= pair_views(before) + Seq::empty());
    }
}

/// The environment roots that the location table is resolved against.
pub fn env_roots(known: &KnownFolders, host: HostOs) -> (r: Vec<(String, String)>)
    ensures
        pair_views(r@) == roots_of(*known, host),
{
    let mut out: Vec<(String, String)> = Vec::new();
    push_pair(&mut out, "%USERPROFILE%", &known.profile);
    push_pair(&mut out, "%LOCALAPPDATA%", &known.local);
    push_pair(&mut out, "%APPDATA%", &known.roaming);
    push_pair(&mut out, "%PROGRAMDATA%", &known.program_data);
    let ghost base = pair_views(out@);
    assert(base =~= pair_of("%USERPROFILE%"@, known.profile) + pair_of(
        "%LOCALAPPDATA%"@,
        known.local,
    ) + pair_of("%APPDATA%"@, known.roaming) + pair_of("%PROGRAMDATA%"@, known.program_data));
    if let HostOs::MacOs = host {
        if let Some(home) = &known.profile {
            let support = text::join2(home.as_str(), "/Library/Application Support");
            out.push(("%HOME%".to_owned(), home.clone()));
            out.push(("%APP_SUPPORT%".to_owned(), support));
            assert(pair_views(out@) =~= base + seq![
                ("%HOME%"@, home@),
                ("%APP_SUPPORT%"@, home@ + "/Library/Application Support"@),
            ]);
        }
    }
    out
}

// ---------------------------------------------------------------------------
// Quick wins
// ---------------------------------------------------------------------------

/// One quick-win row as shown.
#[derive(Clone, Debug)]
pub struct QuickWinRow {
    pub id: String,
    pub title: String,
    pub icon: String,
    pub count: u64,
    pub size: u64,
    /// Review-only rows refuse "Add all".
    pub review_only: bool,
    pub extra: Option<String>,
    /// The biggest match.
    pub biggest_match: Option<u32>,
}

/// The position of the largest of the first `n` items, the first one among
/// equals.
pub open spec fn largest_upto(t: Tree, items: Seq<u32>, n: nat) -> int
    decreases n,
{
    if n <= 1 {
        0
    } else {
        let best = largest_upto(t, items, (n - 1) as nat);
        if t.at(items[n - 1] as int).on_disk > t.at(items[best] as int).on_disk {
            n - 1
        } else {
            best
        }
    }
}

/// The largest item.
pub open spec fn biggest(t: Tree, items: Seq<u32>) -> Option<u32> {
    if items.len() == 0 {
        None
    } else {
        Some(items[largest_upto(t, items, items.len())])
    }
}

/// No item is larger than the biggest one.
pub proof fn biggest_is_the_largest(t: Tree, items: Seq<u32>)
    requires
        items.len() > 0,
    ensures
        biggest(t, items) matches Some(b) && items.contains(b) && forall|i: int|
            0 <= i < items.len() ==> t.at(#[trigger] items[i] as int).on_disk <= t.at(
                b as int,
            ).on_disk,
{
    largest_holds(t, items, items.len());
}

proof fn largest_holds(t: Tree, items: Seq<u32>, n: nat)
    requires
        0 < n <= items.len(),
    ensures
        0 <= largest_upto(t, items, n) < n,
        forall|i: int|
            0 <= i < n ==> t.at(#[trigger] items[i] as int).on_disk <= t.at(
                items[largest_upto(t, items, n)] as int,
            ).on_disk,
    decreases n,
{
    if n > 1 {
        largest_holds(t, items, (n - 1) as nat);
    }
}

impl QuickWinRow {
    /// The row as shown.
    pub open spec fn shows(&self, t: Tree, r: Row) -> bool {
        &&& self.id@ == r.id
        &&& self.title@ == r.title
        &&& self.icon@ == r.icon
        &&& self.count == r.items.len()
        &&& self.size == r.size
        &&& self.review_only == r.review_only
        &&& crate::scan::text_of(self.extra) == r.extra
        &&& self.biggest_match == biggest(t, r.items)
    }
}

/// The largest item.
fn find_biggest(tree: &Tree, items: &Vec<u32>) -> (r: Option<u32>)
    requires
        tree.wf(),
        quickwins::all_nodes(*tree, items@),
    ensures
        r == biggest(*tree, items@),
{
    if items.len() == 0 {
        return None;
    }
    let mut best: usize = 0;
    let mut i: usize = 1;
    while i < items.len()
        invariant
            1 <= i <= items.len(),
            tree.wf(),
            quickwins::all_nodes(*tree, items@),
            best < i,
            best == largest_upto(*tree, items@, i as nat),
        decreases items.len() - i,
    {
        assert(tree.has(items@[i as int] as int));
        assert(tree.has(items@[best as int] as int));
        if tree.arena[items[i] as usize].on_disk > tree.arena[items[best] as usize].on_disk {
            best = i;
        }
        i += 1;
    }
    Some(items[best])
}

/// The rows show the given ones, one for one.
pub open spec fn rows_shown(r: Seq<QuickWinRow>, t: Tree, rows: Seq<Row>) -> bool {
    &&& r.len() == rows.len()
    &&& forall|i: int| 0 <= i < r.len() ==> (#[trigger] r[i]).shows(t, rows[i])
}

/// The rows of the sidebar, one for each that [`quickwins::resolve`] gives, in
/// the same order.
pub fn compute_quick_wins(
    tree: &Tree,
    env_roots: &[(String, String)],
    now: i64,
    host: HostOs,
) -> (r: Vec<QuickWinRow>)
    requires
        tree.wf(),
    ensures
        rows_shown(
            r@,
            *tree,
            quickwins::by_size(quickwins::all_rows(*tree, env_roots@, host)),
        ),
{
    let cats = quickwins::resolve(tree, env_roots, now, host);
    let ghost rows = quickwins::says_rows(cats@);
    let mut out: Vec<QuickWinRow> = Vec::new();
    let mut i: usize = 0;
    while i < cats.len()
        invariant
            tree.wf(),
            i <= cats.len(),
            rows == quickwins::says_rows(cats@),
            forall|k: int|
                0 <= k < cats@.len() ==> quickwins::all_nodes(*tree, (#[trigger] cats@[k]).items@),
            out@.len() == i,
            forall|k: int| 0 <= k < i ==> (#[trigger] out@[k]).shows(*tree, rows[k]),
        decreases cats.len() - i,
    {
        let c = &cats[i];
        assert(quickwins::all_nodes(*tree, cats@[i as int].items@));
        assert(rows[i as int] == c.says());
        let biggest_match = find_biggest(tree, &c.items);
        out.push(
            QuickWinRow {
                id: c.id.to_owned(),
                title: c.title.to_owned(),
                icon: c.icon.to_owned(),
                count: c.items.len() as u64,
                size: c.size,
                review_only: c.review_only,
                extra: match c.extra {
                    Some(x) => Some(x.to_owned()),
                    None => None,
                },
                biggest_match,
            },
        );
        i += 1;
    }
    out
}

/// Each row of the sidebar shows the category of [`quickwins::resolve`] in its
/// place: its count and size, and as the biggest match an item of it that no
/// other item exceeds.
pub proof fn rows_show_the_categories(
    tree: &Tree,
    env_roots: &[(String, String)],
    now: i64,
    host: HostOs,
    cats: Vec<QuickWinCategory>,
    r: Vec<QuickWinRow>,
)
    requires
        call_ensures(quickwins::resolve, (tree, env_roots, now, host), cats),
        call_ensures(compute_quick_wins, (tree, env_roots, now, host), r),
    ensures
        r@.len() == cats@.len(),
        forall|k: int|
            0 <= k < r@.len() ==> {
                &&& (#[trigger] r@[k]).id@ == cats@[k].id@
                &&& r@[k].count == cats@[k].items@.len()
                &&& r@[k].size == cats@[k].size
                &&& r@[k].biggest_match matches Some(i) && cats@[k].items@.contains(i) && forall|
                    j: int,
                |
                    0 <= j < cats@[k].items@.len() ==> tree.at(i as int).on_disk >= tree.at(
                        #[trigger] cats@[k].items@[j] as int,
                    ).on_disk
            },
{
    let all = quickwins::all_rows(*tree, env_roots@, host);
    let rows = quickwins::by_size(all);
    assert(quickwins::says_rows(cats@) == rows);
    quickwins::rows_stand_largest_first(all);
    assert(rows_shown(r@, *tree, rows));
    assert forall|k: int| 0 <= k < r@.len() implies {
        &&& (#[trigger] r@[k]).id@ == cats@[k].id@
        &&& r@[k].count == cats@[k].items@.len()
        &&& r@[k].size == cats@[k].size
        &&& r@[k].biggest_match matches Some(i) && cats@[k].items@.contains(i) && forall|j: int|
            0 <= j < cats@[k].items@.len() ==> tree.at(i as int).on_disk >= tree.at(
                #[trigger] cats@[k].items@[j] as int,
            ).on_disk
    } by {
        let items = cats@[k].items@;
        assert(r@[k].shows(*tree, rows[k]));
        assert(rows[k] == cats@[k].says());
        all.to_multiset_ensures();
        rows.to_multiset_ensures();
        assert(rows.to_multiset().count(rows[k]) > 0);
        assert(all.contains(rows[k]));
        quickwins::rows_hold(*tree, env_roots@, host, rows[k]);
        biggest_is_the_largest(*tree, items);
    }
}

/// One item of a quick-win row.
#[derive(Clone, Debug)]
pub struct QuickWinItem {
    pub id: u32,
    pub path: String,
    pub size: u64,
}

/// The items show the given nodes.
pub open spec fn items_show(s: Seq<QuickWinItem>, t: Tree, ids: Seq<u32>) -> bool {
    &&& s.len() == ids.len()
    &&& forall|i: int|
        0 <= i < s.len() ==> {
            &&& (#[trigger] s[i]).id == ids[i]
            &&& s[i].path@ == t.path_of(ids[i] as int)
            &&& s[i].size == t.at(ids[i] as int).on_disk
        }
}

/// The answer to a request for an unknown category.
pub open spec fn unknown_category_text(id: Seq<char>) -> Seq<char> {
    "unknown Quick Wins category "@ + id
}

/// The items of one category, for staging them all.
pub fn quick_win_items(
    tree: &Tree,
    env_roots: &[(String, String)],
    now: i64,
    host: HostOs,
    category_id: &str,
) -> (r: Result<Vec<QuickWinItem>, String>)
    requires
        tree.wf(),
    ensures
        match r {
            Ok(items) => exists|row: Row|
                #![auto]
                quickwins::all_rows(*tree, env_roots@, host).contains(row) && row.id
                    == category_id@ && items_show(items@, *tree, row.items),
            Err(e) => e@ == unknown_category_text(category_id@) && forall|row: Row|
                #![auto]
                quickwins::all_rows(*tree, env_roots@, host).contains(row) ==> row.id
                    != category_id@,
        },
{
    let cats = quickwins::resolve(tree, env_roots, now, host);
    let ghost rows = quickwins::says_rows(cats@);
    let ghost all = quickwins::all_rows(*tree, env_roots@, host);
    proof {
        quickwins::rows_stand_largest_first(all);
        rows.to_multiset_ensures();
        all.to_multiset_ensures();
        assert forall|row: Row| rows.contains(row) <==> all.contains(row) by {
            assert(rows.contains(row) <==> rows.to_multiset().count(row) > 0);
            assert(all.contains(row) <==> all.to_multiset().count(row) > 0);
        }
    }
    let mut i: usize = 0;
    while i < cats.len()
        invariant
            tree.wf(),
            i <= cats.len(),
            rows == quickwins::says_rows(cats@),
            all == quickwins::all_rows(*tree, env_roots@, host),
            forall|row: Row| rows.contains(row) <==> all.contains(row),
            forall|k: int|
                0 <= k < cats@.len() ==> quickwins::all_nodes(*tree, (#[trigger] cats@[k]).items@),
            forall|k: int| 0 <= k < i ==> (#[trigger] cats@[k]).id@ != category_id@,
        decreases cats.len() - i,
    {
        let c: &QuickWinCategory = &cats[i];
        if text::same_str(c.id, category_id) {
            assert(rows[i as int] == c.says());
            assert(rows.contains(c.says()));
            assert(quickwins::all_nodes(*tree, cats@[i as int].items@));
            let items = list_items(tree, &c.items);
            assert(all.contains(c.says()) && c.says().id == category_id@);
            return Ok(items);
        }
        i += 1;
    }
    proof {
        assert forall|row: Row| #![auto] all.contains(row) implies row.id != category_id@ by {
            assert(rows.contains(row));
            let k = rows.index_of(row);
            assert(rows[k] == cats@[k].says());
        }
    }
    Err(text::join2("unknown Quick Wins category ", category_id))
}

/// The items for some nodes.
fn list_items(tree: &Tree, ids: &Vec<u32>) -> (r: Vec<QuickWinItem>)
    requires
        tree.wf(),
        quickwins::all_nodes(*tree, ids@),
    ensures
        items_show(r@, *tree, ids@),
{
    let mut out: Vec<QuickWinItem> = Vec::new();
    let mut i: usize = 0;
    while i < ids.len()
        invariant
            tree.wf(),
            quickwins::all_nodes(*tree, ids@),
            i <= ids.len(),
            items_show(out@, *tree, ids@.take(i as int)),
        decreases ids.len() - i,
    {
        assert(tree.has(ids@[i as int] as int));
        let id: u32 = ids[i];
        out.push(
            QuickWinItem {
                id,
                path: tree.node_path(id),
                size: tree.arena[id as usize].on_disk,
            },
        );
        i += 1;
    }
    assert(ids@.take(i as int) =~= ids@);
    out
}

// ---------------------------------------------------------------------------
// File types
// ---------------------------------------------------------------------------

/// One segment of the file-types bar.
#[derive(Clone, Debug)]
pub struct TypeSegment {
    pub label: String,
    pub color: u32,
    pub size: u64,
}

/// The file-types bar of the whole scan: the categories with bytes, the largest
/// first.
pub fn file_types(tree: &Tree) -> (r: Vec<TypeSegment>)
    requires
        tree.wf(),
    ensures
        r@.len() == tree.category_ranking(0).len(),
        forall|i: int|
            0 <= i < r@.len() ==> {
                let (size, c) = tree.category_ranking(0)[i];
                &&& (#[trigger] r@[i]).size == size
                &&& r@[i].color == tree.palette.styles@[c as int].color
                &&& r@[i].label@ == tree.palette.styles@[c as int].label@
            },
{
    let top = tree.top_categories(0, 9);
    let ghost full = tree.category_ranking(0);
    proof {
        tree.ranking_is_short(0);
    }
    let mut out: Vec<TypeSegment> = Vec::new();
    let mut i: usize = 0;
    while i < top.len()
        invariant
            tree.wf(),
            i <= top.len(),
            top@.len() == full.len(),
            full == tree.category_ranking(0),
            forall|j: int|
                0 <= j < top@.len() ==> (#[trigger] top@[j]).0.index() == full[j].1 && top@[j].1
                    == full[j].0,
            out@.len() == i,
            forall|k: int|
                0 <= k < i ==> {
                    let (size, c) = full[k];
                    &&& (#[trigger] out@[k]).size == size
                    &&& out@[k].color == tree.palette.styles@[c as int].color
                    &&& out@[k].label@ == tree.palette.styles@[c as int].label@
                },
        decreases top.len() - i,
    {
        let (c, size): (FileCategory, u64) = top[i];
        assert(top@[i as int].0.index() == full[i as int].1);
        out.push(TypeSegment { label: tree.palette.label(c), color: tree.palette.color(c), size });
        i += 1;
    }
    out
}

/// The file-types bar stands largest first and every segment has bytes.
pub proof fn type_segments_stand_largest_first(t: Tree)
    ensures
        forall|i: int, j: int|
            0 <= i < j < t.category_ranking(0).len() ==> (#[trigger] t.category_ranking(0)[i]).0
                >= (#[trigger] t.category_ranking(0)[j]).0,
        forall|i: int|
            0 <= i < t.category_ranking(0).len() ==> (#[trigger] t.category_ranking(0)[i]).0 > 0,
{
    if t.has(0) && t.at(0).dir {
        let f = shares::filled_categories(t.extra(0).type_sizes@, 9);
        crate::order::ranking_is_ranked(f);
        let r = t.category_ranking(0);
        assert forall|i: int, j: int| 0 <= i < j < r.len() implies (#[trigger] r[i]).0 >= (
        #[trigger] r[j]).0 by {
            assert(crate::order::before(r[i], r[j]));
        }
        filled_positive(t.extra(0).type_sizes@, 9);
        assert forall|i: int| 0 <= i < r.len() implies (#[trigger] r[i]).0 > 0 by {
            assert(r.contains(r[i]));
            let q = f.index_of(r[i]);
            assert(f[q] == r[i]);
        }
    }
}

proof fn filled_positive(sizes: Seq<u64>, n: nat)
    ensures
        forall|i: int|
            0 <= i < shares::filled_categories(sizes, n).len() ==> (
            #[trigger] shares::filled_categories(sizes, n)[i]).0 > 0,
    decreases n,
{
    if n > 0 {
        filled_positive(sizes, (n - 1) as nat);
        let rest = shares::filled_categories(sizes, (n - 1) as nat);
        let whole = shares::filled_categories(sizes, n);
        assert forall|i: int| 0 <= i < whole.len() implies (#[trigger] whole[i]).0 > 0 by {
            if i < rest.len() {
                assert(whole[i] == rest[i]);
            }
        }
    }
}

// ---------------------------------------------------------------------------
// What the sidebar shows
// ---------------------------------------------------------------------------

/// A root has a letter exactly where, behind any verbatim prefixes, it begins
/// with an ASCII letter and a colon: without a prefix its first character.
pub proof fn a_drive_begins_with_its_letter(root: &str, r: Option<char>)
    requires
        call_ensures(letter_of, (root,), r),
    ensures
        root@.len() < 2 ==> r is None,
        root@.len() >= 2 && root@[0] != '\\' ==> r == (if (('A' <= root@[0] && root@[0] <= 'Z') || (
        'a' <= root@[0] && root@[0] <= 'z')) && root@[1] == ':' {
            Some(root@[0])
        } else {
            None
        }),
        root@.len() >= 6 && root@[0] == '\\' && root@[1] == '\\' && root@[2] == '?' && root@[3]
            == '\\' && root@[4] != '\\' ==> r == (if (('A' <= root@[4] && root@[4] <= 'Z') || ('a'
            <= root@[4] && root@[4] <= 'z')) && root@[5] == ':' {
            Some(root@[4])
        } else {
            None
        }),
        r is Some ==> ('A' <= r->0 && r->0 <= 'Z') || ('a' <= r->0 && r->0 <= 'z'),
{
    let s = root@;
    if s.len() >= 6 && s[0] == '\\' && s[1] == '\\' && s[2] == '?' && s[3] == '\\' && s[4] != '\\' {
        let rest = s.skip(4);
        assert(rest[0] == s[4] && rest[1] == s[5]);
        assert(no_verbatim_left(s) == no_verbatim_left(rest));
        assert(no_verbatim_left(rest) == rest);
    }
}

/// One root more adds one chip at the end where it has a letter, with that letter
/// and a colon, and as target these and a backslash; else it adds none.
pub proof fn every_lettered_root_has_a_chip(
    roots: &[String],
    more: &[String],
    a: Vec<DriveChip>,
    b: Vec<DriveChip>,
    letter: Option<char>,
    last: &str,
)
    requires
        more@.len() > 0,
        roots@ == more@.drop_last(),
        last@ == more@.last()@,
        call_ensures(letter_of, (last,), letter),
        call_ensures(get_drive_chips, (roots,), a),
        call_ensures(get_drive_chips, (more,), b),
    ensures
        roots@.len() == 0 ==> a@.len() == 0,
        letter is None ==> b@.len() == a@.len(),
        letter is Some ==> {
            &&& b@.len() == a@.len() + 1
            &&& b@.last().letter@ == seq![letter->0, ':']
            &&& b@.last().target@ == seq![letter->0, ':', '\\']
        },
        forall|i: int|
            0 <= i < a@.len() ==> (#[trigger] b@[i]).letter@ == a@[i].letter@ && b@[i].target@
                == a@[i].target@,
{
    let sa = crate::scan::strings(roots@);
    let sb = crate::scan::strings(more@);
    assert(sb.drop_last() =~= sa);
    assert(sb.last() == last@);
    let la = drive_letters(sa);
    let lb = drive_letters(sb);
    assert forall|i: int| 0 <= i < a@.len() implies (#[trigger] b@[i]).letter@ == a@[i].letter@
        && b@[i].target@ == a@[i].target@ by {
        assert(lb[i] == la[i]);
        assert(a@[i].letter@ == seq![la[i], ':']);
    }
}

proof fn nul_tail_holds(s: Seq<char>)
    ensures
        no_tail_nul(s).len() <= s.len(),
        s.take(no_tail_nul(s).len() as int) == no_tail_nul(s),
        forall|i: int| no_tail_nul(s).len() <= i < s.len() ==> #[trigger] s[i] == '\0',
        no_tail_nul(s).len() > 0 ==> no_tail_nul(s).last() != '\0',
    decreases s.len(),
{
    if s.len() > 0 && s.last() == '\0' {
        let less = s.drop_last();
        nul_tail_holds(less);
        let n = no_tail_nul(s).len() as int;
        assert(s.take(n) =~= less.take(n));
        assert forall|i: int| n <= i < s.len() implies #[trigger] s[i] == '\0' by {
            if i < less.len() {
                assert(less[i] == s[i]);
            }
        }
    } else {
        assert(s.take(s.len() as int) =~= s);
    }
}

/// A volume label is shown without the NUL padding at its end and without white
/// space around it.
pub proof fn a_label_is_shown_without_padding(units: &[u16], n: int, r: String)
    requires
        call_ensures(volume_label, (units,), r),
        0 <= n <= text::lossy(units@).len(),
        forall|i: int|
            n <= i < text::lossy(units@).len() ==> #[trigger] text::lossy(units@)[i] == '\0',
        n > 0 ==> text::lossy(units@)[n - 1] != '\0',
    ensures
        r@ == text::trim(text::lossy(units@).take(n)),
{
    let s = text::lossy(units@);
    nul_tail_holds(s);
    let m = no_tail_nul(s).len() as int;
    if m < n {
        assert(s[n - 1] == '\0');
    } else if m > n {
        assert(no_tail_nul(s).last() == s.take(m)[m - 1]);
        assert(s[m - 1] == '\0');
    }
}

/// The environment holds each known folder that there is under its name, in
/// order; on macOS the profile also as home, with the application support folder
/// below it.
pub proof fn known_folders_have_their_names(
    known: &KnownFolders,
    host: HostOs,
    r: Vec<(String, String)>,
    key: Seq<char>,
    value: Seq<char>,
)
    requires
        call_ensures(env_roots, (known, host), r),
    ensures
        (exists|i: int| 0 <= i < r@.len() && (#[trigger] r@[i]).0@ == key && r@[i].1@ == value) <==> {
            ||| key == "%USERPROFILE%"@ && known.profile is Some && value == known.profile->0@
            ||| key == "%LOCALAPPDATA%"@ && known.local is Some && value == known.local->0@
            ||| key == "%APPDATA%"@ && known.roaming is Some && value == known.roaming->0@
            ||| key == "%PROGRAMDATA%"@ && known.program_data is Some && value
                == known.program_data->0@
            ||| key == "%HOME%"@ && host is MacOs && known.profile is Some && value
                == known.profile->0@
            ||| key == "%APP_SUPPORT%"@ && host is MacOs && known.profile is Some && value
                == known.profile->0@ + "/Library/Application Support"@
        },
{
    let v = roots_of(*known, host);
    let e = (key, value);
    let p1 = pair_of("%USERPROFILE%"@, known.profile);
    let p2 = pair_of("%LOCALAPPDATA%"@, known.local);
    let p3 = pair_of("%APPDATA%"@, known.roaming);
    let p4 = pair_of("%PROGRAMDATA%"@, known.program_data);
    let base = p1 + p2 + p3 + p4;
    sum_members(p1, p2, e);
    sum_members(p1 + p2, p3, e);
    sum_members(p1 + p2 + p3, p4, e);
    pair_member("%USERPROFILE%"@, known.profile, e);
    pair_member("%LOCALAPPDATA%"@, known.local, e);
    pair_member("%APPDATA%"@, known.roaming, e);
    pair_member("%PROGRAMDATA%"@, known.program_data, e);
    if host is MacOs && known.profile is Some {
        let home = known.profile->0@;
        let two = seq![
            ("%HOME%"@, home),
            ("%APP_SUPPORT%"@, home + "/Library/Application Support"@),
        ];
        assert(v == base + two);
        sum_members(base, two, e);
        assert(two[0] == ("%HOME%"@, home));
        assert(two[1] == ("%APP_SUPPORT%"@, home + "/Library/Application Support"@));
        assert(two.contains(e) <==> e == two[0] || e == two[1]);
    }
    if v.contains(e) {
        let i = v.index_of(e);
        assert(v[i] == e);
        assert(pair_views(r@)[i] == (r@[i].0@, r@[i].1@));
        assert(r@[i].0@ == key);
    }
    if exists|i: int| 0 <= i < r@.len() && (#[trigger] r@[i]).0@ == key && r@[i].1@ == value {
        let i = choose|i: int|
            0 <= i < r@.len() && (#[trigger] r@[i]).0@ == key && r@[i].1@ == value;
        assert(pair_views(r@)[i] == e);
        assert(v.contains(e));
    }
}

proof fn sum_members(
    a: Seq<(Seq<char>, Seq<char>)>,
    b: Seq<(Seq<char>, Seq<char>)>,
    e: (Seq<char>, Seq<char>),
)
    ensures
        (a + b).contains(e) <==> a.contains(e) || b.contains(e),
{
    if (a + b).contains(e) {
        let i = (a + b).index_of(e);
        assert((a + b)[i] == e);
        if i < a.len() {
            assert(a[i] == e);
        } else {
            assert(b[i - a.len()] == e);
        }
    }
    if a.contains(e) {
        let i = a.index_of(e);
        assert((a + b)[i] == e);
    }
    if b.contains(e) {
        let i = b.index_of(e);
        assert((a + b)[a.len() + i] == e);
    }
}

proof fn pair_member(key: Seq<char>, v: Option<String>, e: (Seq<char>, Seq<char>))
    ensures
        pair_of(key, v).contains(e) <==> v is Some && e == (key, v->0@),
{
    if v is Some {
        assert(pair_of(key, v)[0] == (key, v->0@));
    }
}

/// The file-types bar has a segment for each category with bytes in the scan,
/// with its bytes, label and colour, the largest first.
pub proof fn every_filled_category_has_a_segment(tree: &Tree, r: Vec<TypeSegment>)
    requires
        tree.wf(),
        tree.arena@[0].dir,
        call_ensures(file_types, (tree,), r),
    ensures
        ({
            let sizes = tree.dir_extras@[tree.arena@[0].dir_index as int].type_sizes@;
            &&& forall|i: int, j: int|
                0 <= i < j < r@.len() ==> (#[trigger] r@[i]).size >= (#[trigger] r@[j]).size
            &&& forall|i: int|
                0 <= i < r@.len() ==> (#[trigger] r@[i]).size > 0 && exists|c: int|
                    0 <= c < 9 && #[trigger] sizes[c] == r@[i].size && r@[i].color
                        == tree.palette.styles@[c].color && r@[i].label@
                        == tree.palette.styles@[c].label@
            &&& forall|c: int|
                0 <= c < 9 && #[trigger] sizes[c] > 0 ==> exists|i: int|
                    0 <= i < r@.len() && (#[trigger] r@[i]).size == sizes[c] && r@[i].color
                        == tree.palette.styles@[c].color && r@[i].label@
                        == tree.palette.styles@[c].label@
        }),
{
    let t = *tree;
    shares::categories_are_ranked(t, 0);
    let full = t.category_ranking(0);
    let sizes = t.extra(0).type_sizes@;
    assert forall|i: int| 0 <= i < r@.len() implies {
        let (size, c) = full[i];
        &&& (#[trigger] r@[i]).size == size
        &&& r@[i].color == tree.palette.styles@[c as int].color
        &&& r@[i].label@ == tree.palette.styles@[c as int].label@
        &&& size == sizes[c as int]
        &&& c < 9
        &&& size > 0
    } by {
        assert(full[i].1 < 9);
    }
    assert forall|i: int, j: int| 0 <= i < j < r@.len() implies (#[trigger] r@[i]).size >= (
    #[trigger] r@[j]).size by {
        assert(full[i].0 > full[j].0 || (full[i].0 == full[j].0 && full[i].1 < full[j].1));
    }
    assert forall|i: int| 0 <= i < r@.len() implies (#[trigger] r@[i]).size > 0 && exists|c: int|
        0 <= c < 9 && #[trigger] sizes[c] == r@[i].size && r@[i].color
            == tree.palette.styles@[c].color && r@[i].label@ == tree.palette.styles@[c].label@ by {
        assert(sizes[full[i].1 as int] == r@[i].size);
    }
    assert forall|c: int| 0 <= c < 9 && #[trigger] sizes[c] > 0 implies exists|i: int|
        0 <= i < r@.len() && (#[trigger] r@[i]).size == sizes[c] && r@[i].color
            == tree.palette.styles@[c].color && r@[i].label@ == tree.palette.styles@[c].label@ by {
        let e = (sizes[c], c as u32);
        assert(full.contains(e));
        let q = full.index_of(e);
        assert(full[q] == e);
        assert(r@[q].size == sizes[c]);
    }
}

/// The items of a category are those of its row in [`quickwins::resolve`], in
/// order and with paths and sizes; a category without a row is refused.
pub proof fn a_category_lists_its_items(
    tree: &Tree,
    env: &[(String, String)],
    now: i64,
    host: HostOs,
    id: &str,
    cats: Vec<QuickWinCategory>,
    r: Result<Vec<QuickWinItem>, String>,
)
    requires
        tree.wf(),
        call_ensures(quickwins::resolve, (tree, env, now, host), cats),
        call_ensures(quick_win_items, (tree, env, now, host, id), r),
    ensures
        r is Ok <==> exists|k: int| 0 <= k < cats@.len() && (#[trigger] cats@[k]).id@ == id@,
        forall|k: int|
            0 <= k < cats@.len() && (#[trigger] cats@[k]).id@ == id@ ==> r is Ok && {
                let items = r->Ok_0@;
                &&& items.len() == cats@[k].items@.len()
                &&& forall|i: int|
                    0 <= i < items.len() ==> {
                        &&& (#[trigger] items[i]).id == cats@[k].items@[i]
                        &&& items[i].path@ == tree.path_of(items[i].id as int)
                        &&& items[i].size == tree.arena@[items[i].id as int].on_disk
                    }
            },
{
    let all = quickwins::all_rows(*tree, env@, host);
    let rows = quickwins::by_size(all);
    assert(quickwins::says_rows(cats@) == rows);
    quickwins::rows_stand_largest_first(all);
    quickwins::every_category_has_its_row(*tree, env@, host);
    all.to_multiset_ensures();
    rows.to_multiset_ensures();
    assert forall|row: Row| rows.contains(row) <==> all.contains(row) by {
        assert(rows.contains(row) <==> rows.to_multiset().count(row) > 0);
        assert(all.contains(row) <==> all.to_multiset().count(row) > 0);
    }
    assert forall|k: int| 0 <= k < cats@.len() implies rows.contains(
        (#[trigger] cats@[k]).says(),
    ) by {
        assert(quickwins::says_rows(cats@)[k] == cats@[k].says());
    }
    match r {
        Ok(items) => {
            let row = choose|row: Row|
                #![auto]
                all.contains(row) && row.id == id@ && items_show(items@, *tree, row.items);
            assert(rows.contains(row));
            let k = rows.index_of(row);
            assert(rows[k] == cats@[k].says());
            assert(cats@[k].id@ == id@);
            assert forall|k: int| 0 <= k < cats@.len() && (#[trigger] cats@[k]).id@
                == id@ implies cats@[k].items@ == row.items by {
                let other = cats@[k].says();
                assert(all.contains(other));
                let p = all.index_of(other);
                let q = all.index_of(row);
                assert(all[p] == other && all[q] == row);
                if p < q {
                    assert(all[p].id != all[q].id);
                } else if q < p {
                    assert(all[q].id != all[p].id);
                }
            }
        },
        Err(_) => {
            assert forall|k: int| 0 <= k < cats@.len() implies (#[trigger] cats@[k]).id@ != id@ by {
                assert(all.contains(cats@[k].says()));
            }
        },
    }
}

/// The volume shown is that of the scan's first path, or the fallback's.
pub proof fn the_first_path_is_probed(tree: Option<&Tree>, fallback: &str, r: String)
    requires
        call_ensures(storage_probe, (tree, fallback), r),
    ensures
        tree matches Some(t) ==> t.roots@.len() > 0 ==> r@ == t.roots@[0].path@,
        tree matches Some(t) ==> t.roots@.len() == 0 ==> r@ == fallback@,
        tree is None ==> r@ == fallback@,
{
}

/// Storage is shown with its figures, and the used part is compared with the
/// total.
pub proof fn storage_is_shown_with_its_figures(
    label: &[u16],
    total: u64,
    used: u64,
    free: u64,
    r: StorageInfo,
)
    requires
        call_ensures(storage_info, (label, total, used, free), r),
    ensures
        r.total == total && r.used == used && r.free == free,
        r.used_share.part == used && r.used_share.whole == total,
{
}

} // verus!
