//! What a running scan has seen so far.
use crate::platform::DirEntryData;
use crate::rollup;
use vstd::prelude::*;

verus! {

/// What a scan has seen so far.
#[derive(Debug)]
pub struct Progress {
    pub files: u64,
    pub dirs: u64,
    /// Bytes on disk of the files.
    pub bytes: u64,
    /// Directories that may not be listed.
    pub denied: u64,
    /// The directory listed last.
    pub current: Option<String>,
}

/// Progress as it is sent while a scan runs.
#[derive(Debug)]
pub struct ProgressEvent {
    /// The generation that it belongs to.
    pub generation: u64,
    pub progress: Progress,
}

/// Folders in a listing.
pub open spec fn dirs_in(entries: Seq<DirEntryData>) -> int
    decreases entries.len(),
{
    if entries.len() == 0 {
        0
    } else {
        dirs_in(entries.drop_last()) + (if entries.last().is_dir {
            1int
        } else {
            0
        })
    }
}

/// Bytes on disk of the files in a listing.
pub open spec fn bytes_in(entries: Seq<DirEntryData>) -> int
    decreases entries.len(),
{
    if entries.len() == 0 {
        0
    } else {
        bytes_in(entries.drop_last()) + (if entries.last().is_dir {
            0
        } else {
            entries.last().on_disk as int
        })
    }
}

proof fn counts_hold(entries: Seq<DirEntryData>)
    ensures
        0 <= dirs_in(entries) <= entries.len(),
        bytes_in(entries) >= 0,
    decreases entries.len(),
{
    if entries.len() > 0 {
        counts_hold(entries.drop_last());
    }
}

impl Progress {
    /// Nothing seen yet.
    pub open spec fn nothing() -> Progress {
        Progress { files: 0, dirs: 0, bytes: 0, denied: 0, current: None }
    }

    /// Nothing seen yet.
    pub fn new() -> (r: Self)
        ensures
            r == Progress::nothing(),
    {
        Progress { files: 0, dirs: 0, bytes: 0, denied: 0, current: None }
    }

    /// The same.
    pub fn copy(&self) -> (r: Self)
        ensures
            r == *self,
    {
        Progress {
            files: self.files,
            dirs: self.dirs,
            bytes: self.bytes,
            denied: self.denied,
            current: match &self.current {
                Some(p) => Some(p.clone()),
                None => None,
            },
        }
    }

    /// What was seen after one more directory was listed.
    pub open spec fn follows(
        &self,
        before: Progress,
        path: Seq<char>,
        entries: Seq<DirEntryData>,
        denied: bool,
    ) -> bool {
        &&& self.files == rollup::capped(before.files + entries.len() - dirs_in(entries))
        &&& self.dirs == rollup::capped(before.dirs + dirs_in(entries))
        &&& self.bytes == rollup::capped(before.bytes + bytes_in(entries))
        &&& self.denied == rollup::capped(before.denied + (if denied {
            1int
        } else {
            0
        }))
        &&& crate::scan::text_of(self.current) == Some(path)
    }

    /// Takes in one listed directory.
    pub fn see(&mut self, path: &str, entries: &[DirEntryData], denied: bool)
        ensures
            final(self).follows(*old(self), path@, entries@, denied),
    {
        let mut files: u64 = self.files;
        let mut dirs: u64 = self.dirs;
        let mut bytes: u64 = self.bytes;
        let mut i: usize = 0;
        while i < entries.len()
            invariant
                i <= entries.len(),
                files == rollup::capped(old(self).files + i - dirs_in(entries@.take(i as int))),
                dirs == rollup::capped(old(self).dirs + dirs_in(entries@.take(i as int))),
                bytes == rollup::capped(old(self).bytes + bytes_in(entries@.take(i as int))),
            decreases entries.len() - i,
        {
            proof {
                assert(entries@.take(i + 1).drop_last() =~= entries@.take(i as int));
                counts_hold(entries@.take(i as int));
            }
            if entries[i].is_dir {
                dirs = dirs.saturating_add(1);
            } else {
                files = files.saturating_add(1);
                bytes = bytes.saturating_add(entries[i].on_disk);
            }
            i += 1;
        }
        assert(entries@.take(i as int) =~= entries@);
        self.files = files;
        self.dirs = dirs;
        self.bytes = bytes;
        if denied {
            self.denied = self.denied.saturating_add(1);
        }
        self.current = Some(path.to_owned());
    }
}

/// One entry more in a listing counts as one folder more, or as one file and its
/// bytes on disk more; a count stops at the largest number. A listing that was
/// denied counts once, and an empty one changes no other count.
pub proof fn every_entry_is_counted(
    before: Progress,
    path: Seq<char>,
    entries: Seq<DirEntryData>,
    denied: bool,
    p: Progress,
    q: Progress,
)
    requires
        entries.len() > 0,
        p.follows(before, path, entries.drop_last(), denied),
        q.follows(before, path, entries, denied),
    ensures
        entries.len() == 1 ==> p.files == before.files && p.dirs == before.dirs && p.bytes
            == before.bytes,
        entries.last().is_dir ==> q.files == p.files && q.bytes == p.bytes && (q.dirs == p.dirs + 1
            || q.dirs == u64::MAX),
        !entries.last().is_dir ==> q.dirs == p.dirs && (q.files == p.files + 1 || q.files
            == u64::MAX),
        !entries.last().is_dir && p.bytes + entries.last().on_disk <= u64::MAX ==> q.bytes == p.bytes
            + entries.last().on_disk,
        q.denied == p.denied,
        !denied ==> p.denied == before.denied,
        denied && before.denied < u64::MAX ==> p.denied == before.denied + 1,
        q.current is Some && q.current->0@ == path,
{
    counts_hold(entries.drop_last());
    assert(entries.drop_last().len() == entries.len() - 1);
    if entries.len() == 1 {
        assert(entries.drop_last() =~= Seq::empty());
    }
}

} // verus!
