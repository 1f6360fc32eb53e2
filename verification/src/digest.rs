//! Content digests: SHA-256 over the first bytes of a file or over all of it.
//!
//! The caller reads the file and hands over what it read; how the bytes are cut
//! into pieces does not matter.
use crate::shares;
use sha2::Digest;
use vstd::prelude::*;

verus! {

/// Bytes of a prefix digest (64 KiB).
pub const PREFIX: u64 = 65536;

/// Bytes of one read for a full digest (1 MiB).
pub const CHUNK: usize = 1048576;

/// A SHA-256 computation under way; `sha2::Sha256` is an instance of a generic
/// type that cannot be declared by itself.
#[verifier::external_body]
pub struct Sha256State {
    inner: sha2::Sha256,
}

/// The bytes that a computation has taken in.
pub uninterp spec fn absorbed(h: Sha256State) -> Seq<u8>;

/// The SHA-256 digest of some bytes.
pub uninterp spec fn sha256_of(data: Seq<u8>) -> Seq<u8>;

/// `Sha256::new`: a computation that has taken in nothing.
#[verifier::external_body]
fn sha256_new() -> (r: Sha256State)
    ensures
        absorbed(r) == Seq::<u8>::empty(),
{
    Sha256State { inner: sha2::Sha256::new() }
}

/// `Digest::update`: takes in bytes behind those taken in before.
#[verifier::external_body]
fn sha256_update(h: &mut Sha256State, data: &[u8])
    ensures
        absorbed(*final(h)) == absorbed(*old(h)) + data@,
{
    h.inner.update(data);
}

/// `Digest::finalize`: the digest of everything taken in, as 32 bytes.
#[verifier::external_body]
fn sha256_finish(h: Sha256State) -> (r: [u8; 32])
    ensures
        r@ == sha256_of(absorbed(h)),
{
    h.inner.finalize().into()
}

/// The digest of a file that is being read, of its first [`PREFIX`] bytes or of
/// the whole.
pub struct FileHasher {
    state: Sha256State,
    read: u64,
    prefix_only: bool,
}

impl FileHasher {
    /// The bytes taken in so far.
    pub closed spec fn seen(&self) -> Seq<u8> {
        absorbed(self.state)
    }

    /// Whether only the first bytes count.
    pub closed spec fn is_prefix(&self) -> bool {
        self.prefix_only
    }

    /// A prefix digest never takes in more than [`PREFIX`] bytes.
    pub closed spec fn wf(&self) -> bool {
        self.prefix_only ==> self.read == absorbed(self.state).len() && self.read <= PREFIX
    }

    /// Begins the digest of a file's first bytes.
    pub fn start_prefix() -> (r: Self)
        ensures
            r.wf(),
            r.is_prefix(),
            r.seen() == Seq::<u8>::empty(),
    {
        FileHasher { state: sha256_new(), read: 0, prefix_only: true }
    }

    /// Begins the digest of a whole file.
    pub fn start_full() -> (r: Self)
        ensures
            r.wf(),
            !r.is_prefix(),
            r.seen() == Seq::<u8>::empty(),
    {
        FileHasher { state: sha256_new(), read: 0, prefix_only: false }
    }

    /// How many bytes to read next: for a prefix what is left of it, else one
    /// chunk. Zero means that no more are needed.
    pub fn wants(&self) -> (r: usize)
        requires
            self.wf(),
        ensures
            self.is_prefix() ==> r == PREFIX - self.seen().len(),
            !self.is_prefix() ==> r == CHUNK,
    {
        if self.prefix_only {
            (PREFIX - self.read) as usize
        } else {
            CHUNK
        }
    }

    /// Takes in the bytes of one read, at most as many as wanted.
    pub fn feed(&mut self, bytes: &[u8])
        requires
            old(self).wf(),
            old(self).is_prefix() ==> old(self).seen().len() + bytes@.len() <= PREFIX,
        ensures
            final(self).wf(),
            final(self).is_prefix() == old(self).is_prefix(),
            final(self).seen() == old(self).seen() + bytes@,
    {
        sha256_update(&mut self.state, bytes);
        if self.prefix_only {
            self.read = self.read + bytes.len() as u64;
        }
    }

    /// The digest of what was taken in.
    pub fn finish(self) -> (r: [u8; 32])
        ensures
            r@ == sha256_of(self.seen()),
    {
        sha256_finish(self.state)
    }
}

/// The digest of a file's first [`PREFIX`] bytes.
pub open spec fn prefix_digest(content: Seq<u8>) -> Seq<u8> {
    sha256_of(shares::first_n(content, PREFIX as int))
}

/// Two digests are the same bytes.
pub fn same_digest(a: &[u8; 32], b: &[u8; 32]) -> (r: bool)
    ensures
        r == (a@ == b@),
{
    let mut i: usize = 0;
    while i < 32
        invariant
            i <= 32,
            forall|k: int| 0 <= k < i ==> a@[k] == b@[k],
        decreases 32 - i,
    {
        if a[i] != b[i] {
            assert(a@[i as int] != b@[i as int]);
            return false;
        }
        i += 1;
    }
    assert(a@ =~= b@);
    true
}

/// Digests bytes that are at hand: all of them, or only the first ones.
pub fn digest_of(content: &[u8], prefix_only: bool) -> (r: [u8; 32])
    ensures
        prefix_only ==> r@ == prefix_digest(content@),
        !prefix_only ==> r@ == sha256_of(content@),
{
    if prefix_only {
        let mut h = FileHasher::start_prefix();
        let want: usize = h.wants();
        let n: usize = if content.len() < want {
            content.len()
        } else {
            want
        };
        let head = vstd::slice::slice_subrange(content, 0, n);
        h.feed(head);
        assert(h.seen() =~= shares::first_n(content@, PREFIX as int));
        h.finish()
    } else {
        let mut h = FileHasher::start_full();
        h.feed(content);
        assert(h.seen() =~= content@);
        h.finish()
    }
}

/// Of a file of at most [`PREFIX`] bytes the prefix digest is the full one.
pub proof fn short_files_need_no_second_read(content: Seq<u8>)
    requires
        content.len() <= PREFIX,
    ensures
        prefix_digest(content) == sha256_of(content),
{
}

/// The prefix digest is the digest of the first 65536 bytes: nothing behind them
/// counts, and for shorter content it is the digest of everything.
pub proof fn a_prefix_ends_at_65536_bytes(a: &[u8], ra: [u8; 32], b: &[u8], rb: [u8; 32])
    requires
        call_ensures(digest_of, (a, true), ra),
        call_ensures(digest_of, (b, false), rb),
        a@.len() <= 65536 ==> b@ == a@,
        a@.len() > 65536 ==> b@ == a@.take(65536),
    ensures
        ra@ == rb@,
{
    assert(shares::first_n(a@, PREFIX as int) =~= b@);
}

/// A prefix wants as much as is missing from 65536 bytes, a whole file one chunk
/// of 1048576 at a time.
pub proof fn a_reader_wants_what_is_missing(h: &FileHasher, r: usize)
    requires
        h.wf(),
        call_ensures(FileHasher::wants, (h,), r),
    ensures
        h.is_prefix() ==> r + h.seen().len() == 65536,
        !h.is_prefix() ==> r == 1048576,
{
}

/// Two digests are the same where all 32 bytes are.
pub proof fn digests_are_compared_whole(a: &[u8; 32], b: &[u8; 32], r: bool)
    requires
        call_ensures(same_digest, (a, b), r),
    ensures
        r <==> forall|i: int| 0 <= i < 32 ==> #[trigger] a@[i] == b@[i],
{
    if forall|i: int| 0 <= i < 32 ==> #[trigger] a@[i] == b@[i] {
        assert(a@ =~= b@);
    }
}

} // verus!
