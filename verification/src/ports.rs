//! Ports through which the use cases reach the outside world.
use crate::error::K1FixError;
use vstd::prelude::*;

verus! {

/// Reads and writes bytes by path (injectable for tests).
pub trait Fs {
    /// Read the full contents of `path`.
    fn read(&self, path: &str) -> Result<Vec<u8>, K1FixError>;

    /// Write `bytes` to `path`.
    fn write(&mut self, path: &str, bytes: &[u8]) -> Result<(), K1FixError>;

    /// Returns true when `path` exists.
    fn file_exists(&self, path: &str) -> bool;
}

/// Mesh loader and store over an injectable [`Fs`].
pub struct FileMeshRepository<F: Fs> {
    fs: F,
}

impl<F: Fs> FileMeshRepository<F> {
    /// Create a repository with a custom filesystem.
    pub fn new(fs: F) -> (r: Self)
        ensures
            r.fs() == fs,
    {
        FileMeshRepository { fs }
    }

    /// The filesystem the repository reads and writes.
    pub closed spec fn fs(&self) -> F {
        self.fs
    }

    /// Borrow the filesystem.
    pub fn filesystem(&self) -> (r: &F)
        ensures
            *r == self.fs(),
    {
        &self.fs
    }

    /// Borrow the filesystem mutably.
    pub fn filesystem_mut(&mut self) -> (r: &mut F)
        ensures
            *r == old(self).fs(),
            final(self).fs() == *final(r),
    {
        &mut self.fs
    }
}

} // verus!
