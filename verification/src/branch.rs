//! The bytes of a text source: a shared, read-only redwing branch.
//!
//! A [`Branch`] is a handle to a redwing branch that nobody else can reach,
//! so its bytes never change.  An edit makes a new branch and leaves the one
//! it started from as it was.

use std::sync::Arc;

use vstd::prelude::*;

use crate::error::IoError;

verus! {

/// A redwing branch that this module alone can reach.
#[verifier::external_body]
pub struct BranchHandle {
    inner: Arc<dyn redwing::Branch>,
}

/// The bytes that a redwing branch holds, from the first to the last.
pub uninterp spec fn branch_bytes(handle: &BranchHandle) -> Seq<u8>;

/// How many forks lead from the branch that a thicket began with to a redwing
/// branch.
pub uninterp spec fn branch_forks(handle: &BranchHandle) -> nat;

/// How replacing `len` bytes at `offset` with `replacement` fails, if it does.
///
/// A zero-length deletion is never out of bounds, and neither is an empty
/// insertion: only the parts that do something are checked.
pub open spec fn splice_failure(bytes: Seq<u8>, offset: u64, len: u64, replacement: Seq<u8>) -> Option<
    IoError,
> {
    if len > 0 && offset + len > u64::MAX {
        Some(IoError::OffsetOverflow)
    } else if len > 0 && offset + len > bytes.len() {
        Some(IoError::OutOfBounds)
    } else if replacement.len() > 0 && offset > bytes.len() {
        Some(IoError::OutOfBounds)
    } else {
        None
    }
}

/// `bytes` with the `len` bytes at `offset` replaced by `replacement`.
pub open spec fn spliced(bytes: Seq<u8>, offset: int, len: int, replacement: Seq<u8>) -> Seq<u8> {
    if offset > bytes.len() {
        bytes
    } else {
        bytes.take(offset) + replacement + bytes.skip(offset + len)
    }
}

impl BranchHandle {
    /// `redwing::make_thicket_from_bytes`, and its only branch.
    ///
    /// The branch holds exactly `data` and is no fork.  The bytes came in a
    /// `Vec`, which never holds more than `isize::MAX` of them.
    #[verifier::external_body]
    fn from_bytes(data: Vec<u8>) -> (handle: BranchHandle)
        ensures
            branch_bytes(&handle) == data@,
            branch_bytes(&handle).len() <= isize::MAX,
            branch_forks(&handle) == 0,
    {
        BranchHandle { inner: redwing::make_thicket_from_bytes(data).main() }
    }

    /// `redwing::Branch::byte_len`: how many bytes the branch holds.
    #[verifier::external_body]
    fn byte_len(&self) -> (len: u64)
        ensures
            len == branch_bytes(self).len(),
    {
        self.inner.byte_len()
    }

    /// `redwing::Branch::read_at`, into a fresh buffer of `len` bytes.
    ///
    /// The branch lies in memory, so the read fills the buffer as far as there
    /// are bytes from `offset` on and never fails.
    #[verifier::external_body]
    fn read_at(&self, offset: u64, len: usize) -> (chunk: Vec<u8>)
        requires
            len <= isize::MAX,
        ensures
            chunk@ == bytes_at(branch_bytes(self), offset as int, len as int),
    {
        let mut chunk = vec![0u8; len];
        let count = self.inner.read_at(offset, &mut chunk).unwrap();
        chunk.truncate(count);
        chunk
    }

    /// `redwing::Branch::read_byte`: the byte at `offset`, or the error that
    /// redwing gives for an offset at or past the end.
    #[verifier::external_body]
    fn read_byte(&self, offset: u64) -> (byte: Result<u8, IoError>)
        ensures
            byte == (if offset < branch_bytes(self).len() {
                Ok::<u8, IoError>(branch_bytes(self)[offset as int])
            } else {
                Err(IoError::OutOfBounds)
            }),
    {
        self.inner.read_byte(offset).map_err(|_| IoError::OutOfBounds)
    }

    /// `redwing::materialize`: all bytes of the branch.
    #[verifier::external_body]
    fn materialize(&self) -> (bytes: Vec<u8>)
        requires
            branch_bytes(self).len() <= isize::MAX,
        ensures
            bytes@ == branch_bytes(self),
    {
        redwing::materialize(self.inner.as_ref()).unwrap()
    }

    /// `redwing::Branch::fork`, then `redwing::Branch::splice` on the fork.
    ///
    /// The fork is a branch of its own; the one it came from keeps its bytes.
    #[verifier::external_body]
    fn fork_and_splice(&self, offset: u64, len: u64, replacement: &[u8]) -> (fork: Result<
        BranchHandle,
        IoError,
    >)
        requires
            branch_bytes(self).len() + replacement@.len() <= isize::MAX,
        ensures
            match fork {
                Ok(handle) => {
                    &&& splice_failure(branch_bytes(self), offset, len, replacement@) is None
                    &&& branch_bytes(&handle) == spliced(
                        branch_bytes(self),
                        offset as int,
                        len as int,
                        replacement@,
                    )
                    &&& branch_forks(&handle) == branch_forks(self) + 1
                },
                Err(e) => splice_failure(branch_bytes(self), offset, len, replacement@) == Some(e),
            },
    {
        let fork = self.inner.fork();
        match fork.splice(offset, len, replacement) {
            Ok(()) => Ok(BranchHandle { inner: fork }),
            Err(e) => match redwing::branch_error(&e) {
                Some(redwing::BranchError::OffsetOverflow) => Err(IoError::OffsetOverflow),
                _ => Err(IoError::OutOfBounds),
            },
        }
    }

    /// `redwing::Branch::fork`, then `redwing::Branch::insert_before` on the
    /// fork.
    ///
    /// The fork is a branch of its own; the one it came from keeps its bytes.
    #[verifier::external_body]
    fn fork_and_insert(&self, offset: u64, bytes: &[u8]) -> (fork: Result<BranchHandle, IoError>)
        requires
            branch_bytes(self).len() + bytes@.len() <= isize::MAX,
        ensures
            match fork {
                Ok(handle) => {
                    &&& splice_failure(branch_bytes(self), offset, 0, bytes@) is None
                    &&& branch_bytes(&handle) == spliced(
                        branch_bytes(self),
                        offset as int,
                        0,
                        bytes@,
                    )
                    &&& branch_forks(&handle) == branch_forks(self) + 1
                },
                Err(e) => splice_failure(branch_bytes(self), offset, 0, bytes@) == Some(e),
            },
    {
        let fork = self.inner.fork();
        match fork.insert_before(offset, bytes) {
            Ok(()) => Ok(BranchHandle { inner: fork }),
            Err(_) => Err(IoError::OutOfBounds),
        }
    }
}

/// `std::sync::Arc::ptr_eq` on two branch handles.
///
/// A handle is never copied, so two shared handles are one and the same value
/// exactly when they point to the same allocation.
#[verifier::external_body]
fn same_handle(a: &Arc<BranchHandle>, b: &Arc<BranchHandle>) -> (same: bool)
    ensures
        same == (*a == *b),
{
    Arc::ptr_eq(a, b)
}

/// The up to `len` bytes of `bytes` from `offset` on.
pub open spec fn bytes_at(bytes: Seq<u8>, offset: int, len: int) -> Seq<u8> {
    if offset >= bytes.len() || len <= 0 {
        Seq::empty()
    } else if offset + len >= bytes.len() {
        bytes.skip(offset)
    } else {
        bytes.subrange(offset, offset + len)
    }
}

/// A shared, read-only byte stream.
pub struct Branch {
    handle: Arc<BranchHandle>,
}

impl Branch {
    #[verifier::type_invariant]
    spec fn fits_in_memory(self) -> bool {
        branch_bytes(&*self.handle).len() <= isize::MAX
    }

    /// The bytes of the branch.
    pub closed spec fn view(&self) -> Seq<u8> {
        branch_bytes(&*self.handle)
    }

    /// How many edits lead to the branch.
    pub closed spec fn generation(&self) -> nat {
        branch_forks(&*self.handle)
    }

    /// A branch that holds `data`.
    pub fn from_bytes(data: Vec<u8>) -> (branch: Branch)
        ensures
            branch@ == data@,
            branch.generation() == 0,
    {
        Branch { handle: Arc::new(BranchHandle::from_bytes(data)) }
    }

    /// How many bytes the branch holds.
    pub fn byte_len(&self) -> (len: u64)
        ensures
            len == self@.len(),
            len <= isize::MAX,
    {
        proof {
            use_type_invariant(self);
        }
        self.handle.byte_len()
    }

    /// Read up to `len` bytes from `offset` on: fewer only where the branch
    /// ends, none at or past its end.
    pub fn read_at(&self, offset: u64, len: usize) -> (chunk: Vec<u8>)
        requires
            len <= isize::MAX,
        ensures
            chunk@ == bytes_at(self@, offset as int, len as int),
    {
        self.handle.read_at(offset, len)
    }

    /// The byte at `offset`.
    pub fn read_byte(&self, offset: u64) -> (byte: Result<u8, IoError>)
        ensures
            byte == (if offset < self@.len() {
                Ok::<u8, IoError>(self@[offset as int])
            } else {
                Err(IoError::OutOfBounds)
            }),
    {
        self.handle.read_byte(offset)
    }

    /// All bytes of the branch.
    pub fn materialize(&self) -> (bytes: Vec<u8>)
        ensures
            bytes@ == self@,
    {
        proof {
            use_type_invariant(self);
        }
        self.handle.materialize()
    }

    /// A new branch with the `len` bytes at `offset` replaced.
    pub fn splice(&self, offset: u64, len: u64, replacement: &[u8]) -> (branch: Result<
        Branch,
        IoError,
    >)
        requires
            self@.len() + replacement@.len() <= isize::MAX,
        ensures
            match branch {
                Ok(new) => {
                    &&& splice_failure(self@, offset, len, replacement@) is None
                    &&& new@ == spliced(self@, offset as int, len as int, replacement@)
                    &&& new.generation() == self.generation() + 1
                },
                Err(e) => splice_failure(self@, offset, len, replacement@) == Some(e),
            },
    {
        match self.handle.fork_and_splice(offset, len, replacement) {
            Ok(handle) => Ok(Branch { handle: Arc::new(handle) }),
            Err(e) => Err(e),
        }
    }

    /// A new branch with `bytes` inserted before the byte at `offset`.
    pub fn insert_before(&self, offset: u64, bytes: &[u8]) -> (branch: Result<Branch, IoError>)
        requires
            self@.len() + bytes@.len() <= isize::MAX,
        ensures
            match branch {
                Ok(new) => {
                    &&& splice_failure(self@, offset, 0, bytes@) is None
                    &&& new@ == spliced(self@, offset as int, 0, bytes@)
                    &&& new.generation() == self.generation() + 1
                },
                Err(e) => splice_failure(self@, offset, 0, bytes@) == Some(e),
            },
    {
        match self.handle.fork_and_insert(offset, bytes) {
            Ok(handle) => Ok(Branch { handle: Arc::new(handle) }),
            Err(e) => Err(e),
        }
    }

    /// Whether the two are handles to one and the same branch, and not just to
    /// branches with equal bytes.
    pub fn same_branch(&self, other: &Branch) -> (same: bool)
        ensures
            same == (*self == *other),
    {
        same_handle(&self.handle, &other.handle)
    }
}

impl Clone for Branch {
    fn clone(&self) -> (branch: Branch)
        ensures
            branch == *self,
    {
        proof {
            use_type_invariant(self);
        }
        Branch { handle: Arc::clone(&self.handle) }
    }
}

} // verus!
