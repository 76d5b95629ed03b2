//! SHA-256 digests of byte streams, computed chunk by chunk.

use vstd::prelude::*;

verus! {

/// A running SHA-256 computation of the `sha2` crate.
#[verifier::external_body]
pub struct Sha256State {
    inner: sha2::Sha256,
}

/// The SHA-256 digest of a byte string, as `sha2` computes it.
pub uninterp spec fn sha256(data: Seq<u8>) -> Seq<u8>;

/// The bytes that a running computation has taken in so far, in order.
pub uninterp spec fn absorbed(state: Sha256State) -> Seq<u8>;

/// `sha2::Digest::new` for `Sha256`: a computation that has taken in nothing yet.
#[verifier::external_body]
fn sha256_new() -> (state: Sha256State)
    ensures
        absorbed(state) == Seq::<u8>::empty(),
{
    Sha256State { inner: <sha2::Sha256 as sha2::Digest>::new() }
}

/// `sha2::Digest::update`: the computation takes in `chunk` after what it already holds.
#[verifier::external_body]
fn sha256_update(state: &mut Sha256State, chunk: &[u8])
    ensures
        absorbed(*final(state)) == absorbed(*old(state)) + chunk@,
{
    sha2::Digest::update(&mut state.inner, chunk)
}

/// `sha2::Digest::finalize`: the 32-byte digest of everything taken in.
#[verifier::external_body]
fn sha256_finalize(state: Sha256State) -> (out: [u8; 32])
    ensures
        out@ == sha256(absorbed(state)),
{
    sha2::Digest::finalize(state.inner).into()
}

/// A 256-bit digest.
#[derive(Clone, Copy, Debug, PartialEq, Eq)]
pub struct Digest {
    pub bytes: [u8; 32],
}

impl View for Digest {
    type V = Seq<u8>;

    open spec fn view(&self) -> Seq<u8> {
        self.bytes@
    }
}

impl Digest {
    /// Whether two digests hold the same bytes.
    pub fn same_as(&self, other: &Digest) -> (same: bool)
        ensures
            same == (self@ == other@),
    {
        let mut i: usize = 0;
        while i < 32
            invariant
                i <= 32,
                forall|j: int| 0 <= j < i ==> self.bytes@[j] == other.bytes@[j],
            decreases 32 - i,
        {
            if self.bytes[i] != other.bytes[i] {
                return false;
            }
            i = i + 1;
        }
        assert(self@ =~= other@);
        true
    }
}

/// The number of bytes to ask for in one read: large enough to be fast, small enough that
/// hashing a file of any size takes a fixed amount of memory.
pub const READ_SIZE: usize = 8192;

/// What one attempt to read from a file gave.
pub enum ReadOutcome<'a> {
    /// The bytes read; none at the end of the file.
    Bytes(&'a [u8]),
    /// The read failed, with its cause.
    Failed(String),
}

/// Where the hashing of a file stands after a read.
pub enum Hashing {
    /// More is to be read.
    Reading(FileHasher),
    /// The file ended: its digest.
    Done(Digest),
    /// A read failed, with its cause.
    Failed(String),
}

/// The digest of a file in the making: the file's bytes go in as they are read, in pieces of
/// any size.
pub struct FileHasher {
    state: Sha256State,
}

impl FileHasher {
    /// The bytes taken in so far, in order.
    pub closed spec fn consumed(self) -> Seq<u8> {
        absorbed(self.state)
    }

    /// A hasher that has taken in nothing.
    pub fn new() -> (hasher: FileHasher)
        ensures
            hasher.consumed() == Seq::<u8>::empty(),
    {
        FileHasher { state: sha256_new() }
    }

    /// Takes the outcome of the next read: bytes are taken in, an empty read ends the file and
    /// gives the digest of all that was taken in, a failure ends the hashing without one.
    pub fn step(self, read: ReadOutcome) -> (next: Hashing)
        ensures
            (match read {
                ReadOutcome::Failed(cause) => next == Hashing::Failed(cause),
                ReadOutcome::Bytes(chunk) => if chunk@.len() == 0 {
                    next matches Hashing::Done(digest) && digest@ == sha256(self.consumed())
                } else {
                    next matches Hashing::Reading(hasher) && hasher.consumed() == self.consumed()
                        + chunk@
                },
            }),
    {
        match read {
            ReadOutcome::Failed(cause) => Hashing::Failed(cause),
            ReadOutcome::Bytes(chunk) => {
                if chunk.len() == 0 {
                    Hashing::Done(Digest { bytes: sha256_finalize(self.state) })
                } else {
                    let mut state = self.state;
                    sha256_update(&mut state, chunk);
                    Hashing::Reading(FileHasher { state })
                }
            },
        }
    }
}

} // verus!
