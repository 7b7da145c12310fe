//! The filesystem-facing interface of the library: error kinds, attribute
//! records, seek positions, and the two ports that plug-in backends
//! implement — a seekable byte stream and an openable file.

use vstd::prelude::*;

verus! {

/// The error kinds the library reports.  `Io` carries the underlying
/// condition's message.
#[derive(Debug)]
pub enum Error {
    /// A member path is not present in the archive.
    NotFound,
    /// A seek before zero or an otherwise unsupported request.
    InvalidArgument,
    /// A read or release against an unknown handle.
    BadHandle,
    /// The underlying file or decoder reported a fatal condition.
    Io(String),
    /// The page manager could not satisfy an allocation even after evicting
    /// every eligible victim.
    OutOfMemory,
}

/// A seek request, relative to the start, the end, or the current position.
#[derive(Clone, Copy, Debug)]
pub enum SeekFrom {
    Start(u64),
    End(i64),
    Current(i64),
}

/// A point in time: seconds and nanoseconds.
#[derive(Clone, Copy, Debug, PartialEq, Eq, Structural)]
pub struct TimeSpec {
    pub sec: i64,
    pub nsec: i32,
}

/// The kind of a directory entry, mirroring the POSIX file types.
#[derive(Clone, Copy, Debug, PartialEq, Eq, Structural)]
pub enum FileKind {
    NamedPipe,
    CharDevice,
    BlockDevice,
    Directory,
    RegularFile,
    Symlink,
}

/// The attribute record of a file or directory.  The inode is a dummy zero
/// that the kernel bridge overwrites.
#[derive(Clone, Copy, Debug, PartialEq, Eq, Structural)]
pub struct Attr {
    pub ino: u64,
    pub size: u64,
    pub blocks: u64,
    pub atime: TimeSpec,
    pub mtime: TimeSpec,
    pub ctime: TimeSpec,
    pub crtime: TimeSpec,
    pub kind: FileKind,
    pub perm: u16,
    pub nlink: u32,
    pub uid: u32,
    pub gid: u32,
    pub rdev: u32,
    pub flags: u32,
}

/// A forward-readable, possibly seekable byte stream over fixed content.
///
/// This is a port: backends (physical files, decoded archive members, test
/// fixtures) implement it.  `content` is the whole byte sequence the stream
/// ranges over and `pos` the current read position.
pub trait SeekableRead: Sized {
    spec fn content(&self) -> Seq<u8>;

    spec fn pos(&self) -> int;

    /// Reads up to `len` bytes from the current position.  A successful
    /// empty result with `len > 0` means the end of the content.
    fn read(&mut self, len: usize) -> (r: Result<Vec<u8>, Error>)
        ensures
            final(self).content() == old(self).content(),
            match r {
                Ok(v) => {
                    &&& v.len() <= len
                    &&& final(self).pos() == old(self).pos() + v.len()
                    &&& v.len() > 0 ==> 0 <= old(self).pos()
                        && old(self).pos() + v.len() <= old(self).content().len()
                        && v@ == old(self).content().subrange(
                            old(self).pos(),
                            old(self).pos() + v.len(),
                        )
                    &&& (v.len() == 0 && len > 0) ==> old(self).pos()
                        >= old(self).content().len()
                },
                Err(e) => final(self).pos() == old(self).pos() && !(e is OutOfMemory),
            },
    ;

    /// Moves the read position.  Whether `End` and `Current` are supported
    /// is up to the implementation, but a successful result is the exact
    /// position the request names.
    fn seek(&mut self, from: SeekFrom) -> (r: Result<u64, Error>)
        ensures
            final(self).content() == old(self).content(),
            match r {
                Ok(p) => {
                    &&& final(self).pos() == p as int
                    &&& (from matches SeekFrom::Start(n) ==> p == n)
                    &&& (from matches SeekFrom::End(i) ==> p as int == old(
                        self,
                    ).content().len() + i)
                    &&& (from matches SeekFrom::Current(i) ==> p as int == old(self).pos() + i)
                },
                Err(_) => final(self).pos() == old(self).pos(),
            },
    ;
}

/// An openable file of fixed content.
///
/// This is a port: the physical backing file and the archive-member
/// descriptors implement it.  `open` yields a fresh stream positioned at
/// zero over the file's content; `getattr` reports a size equal to that
/// content's length.
pub trait File: Sized {
    type Stream: SeekableRead;

    spec fn content(&self) -> Seq<u8>;

    fn getattr(&self) -> (r: Result<Attr, Error>)
        ensures
            match r {
                Ok(a) => a.size == self.content().len(),
                Err(e) => !(e is OutOfMemory),
            },
    ;

    fn open(&self) -> (r: Result<Self::Stream, Error>)
        ensures
            match r {
                Ok(s) => s.content() == self.content() && s.pos() == 0,
                Err(e) => !(e is OutOfMemory),
            },
    ;

    fn name(&self) -> Vec<u8>;
}

/// A reserved inode number, handed out by the kernel bridge's entry table
/// before the entry itself is registered.
pub struct InodeReserver {
    pub inode: u64,
}

impl InodeReserver {
    /// The reserved number.
    pub fn inode(&self) -> (r: u64)
        ensures
            r == self.inode,
    {
        self.inode
    }
}

} // verus!
