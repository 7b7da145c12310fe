//! A memory-backed file: the simplest implementation of the stream and
//! file ports, used wherever a member's bytes are already at hand.

use vstd::prelude::*;

verus! {

use crate::fs::Attr;
use crate::fs::Error;
use crate::fs::File;
use crate::fs::FileKind;
use crate::fs::SeekFrom;
use crate::fs::SeekableRead;
use crate::fs::TimeSpec;
use crate::reader::seek_update;

/// A file whose whole content sits in memory.
pub struct MemFile {
    data: Vec<u8>,
}

/// A forward-readable, fully seekable stream over an in-memory copy.
pub struct MemStream {
    data: Vec<u8>,
    pos: usize,
}

impl MemFile {
    pub fn new(data: Vec<u8>) -> (r: MemFile)
        ensures
            r.content() == data@,
    {
        MemFile { data }
    }
}

fn copy_bytes(src: &Vec<u8>) -> (r: Vec<u8>)
    ensures
        r@ == src@,
{
    let mut out: Vec<u8> = Vec::new();
    let mut i: usize = 0;
    while i < src.len()
        invariant
            i <= src@.len(),
            out@ =~= src@.subrange(0, i as int),
        decreases src@.len() - i,
    {
        out.push(src[i]);
        i = i + 1;
    }
    proof {
        assert(out@ =~= src@);
    }
    out
}

impl File for MemFile {
    type Stream = MemStream;

    closed spec fn content(&self) -> Seq<u8> {
        self.data@
    }

    fn getattr(&self) -> (r: Result<Attr, Error>) {
        let zero = TimeSpec { sec: 0, nsec: 0 };
        Ok(
            Attr {
                ino: 0,
                size: self.data.len() as u64,
                blocks: 0,
                atime: zero,
                mtime: zero,
                ctime: zero,
                crtime: zero,
                kind: FileKind::RegularFile,
                perm: 0o444,
                nlink: 0,
                uid: 0,
                gid: 0,
                rdev: 0,
                flags: 0,
            },
        )
    }

    fn open(&self) -> (r: Result<MemStream, Error>) {
        Ok(MemStream { data: copy_bytes(&self.data), pos: 0 })
    }

    fn name(&self) -> (r: Vec<u8>) {
        Vec::new()
    }
}

impl SeekableRead for MemStream {
    closed spec fn content(&self) -> Seq<u8> {
        self.data@
    }

    closed spec fn pos(&self) -> int {
        self.pos as int
    }

    fn read(&mut self, len: usize) -> (r: Result<Vec<u8>, Error>) {
        if self.pos >= self.data.len() {
            return Ok(Vec::new());
        }
        let avail = self.data.len() - self.pos;
        let l = if len < avail {
            len
        } else {
            avail
        };
        let mut out: Vec<u8> = Vec::new();
        let mut i: usize = 0;
        while i < l
            invariant
                i <= l,
                self.data@.len() <= usize::MAX,
                self.pos + l <= self.data@.len(),
                out@ =~= self.data@.subrange(self.pos as int, self.pos + i),
        decreases l - i,
        {
            out.push(self.data[self.pos + i]);
            i = i + 1;
        }
        proof {
            assert(out@ =~= self.data@.subrange(self.pos as int, self.pos + l));
        }
        self.pos = self.pos + l;
        Ok(out)
    }

    fn seek(&mut self, from: SeekFrom) -> (r: Result<u64, Error>) {
        let (pos2, r) = seek_update(self.pos, self.data.len(), from);
        self.pos = pos2;
        r
    }
}

} // verus!
