//! A buffering adapter that gives restart-from-zero seekability to a
//! forward-only stream by keeping everything read so far in memory.

use vstd::prelude::*;

verus! {

use crate::PAGE_SIZE;

/// Rounds `n` up to a whole number of pages.
pub fn round_to_page_size(n: usize) -> (r: usize)
    requires
        n + PAGE_SIZE <= usize::MAX,
    ensures
        r % PAGE_SIZE == 0,
        n <= r < n + PAGE_SIZE,
{
    let n_page: usize = n / PAGE_SIZE;
    let remain: usize = n % PAGE_SIZE;
    if remain > 0 {
        (n_page + 1) * PAGE_SIZE
    } else {
        n_page * PAGE_SIZE
    }
}


use crate::fs::Error;
use crate::fs::SeekFrom;
use crate::fs::SeekableRead;

/// Buffers everything read so far from a forward-only stream, so the
/// stream becomes seekable from the start.
pub struct BufferedReader<R> {
    r: R,
    read_pos: usize,
    size: usize,
    data: Vec<u8>,
}

impl<R: SeekableRead> BufferedReader<R> {
    /// The stream's whole content.
    pub closed spec fn content(&self) -> Seq<u8> {
        self.r.content()
    }

    /// The local cursor.
    pub closed spec fn pos(&self) -> int {
        self.read_pos as int
    }

    pub closed spec fn wf(&self) -> bool {
        &&& self.size == self.data@.len()
        &&& self.size as int == self.r.pos()
        &&& self.size <= self.r.content().len()
        &&& self.data@ == self.r.content().subrange(0, self.size as int)
        &&& self.r.content().len() <= usize::MAX
    }

    /// Wraps a fresh stream.
    pub fn new(r: R) -> (b: BufferedReader<R>)
        requires
            r.pos() == 0,
            r.content().len() <= usize::MAX,
        ensures
            b.wf(),
            b.content() == r.content(),
            b.pos() == 0,
    {
        let b = BufferedReader { r, read_pos: 0, size: 0, data: Vec::new() };
        proof {
            assert(b.data@ =~= b.r.content().subrange(0, 0));
        }
        b
    }

    /// Reads up to `len` bytes at the cursor, pulling the stream forward
    /// (in whole pages) when the cursor is past what is buffered.
    pub fn read(&mut self, len: usize) -> (r: Result<Vec<u8>, Error>)
        requires
            old(self).wf(),
        ensures
            final(self).wf(),
            final(self).content() == old(self).content(),
            match r {
                Ok(v) => {
                    &&& v@.len() <= len
                    &&& final(self).pos() == old(self).pos() + v@.len()
                    &&& v@.len() > 0 ==> old(self).pos() + v@.len() <= old(self).content().len()
                        && v@ == old(self).content().subrange(
                        old(self).pos(),
                        old(self).pos() + v@.len(),
                    )
                    &&& (v@.len() == 0 && len > 0) ==> old(self).pos() >= old(
                        self,
                    ).content().len()
                },
                Err(_) => final(self).pos() == old(self).pos(),
            },
    {
        if self.read_pos >= self.size {
            // pull the stream forward, a page at a time, until the cursor
            // and the requested bytes are covered or the stream ends
            let target = if len > usize::MAX - self.read_pos {
                usize::MAX
            } else {
                self.read_pos + len
            };
            let mut done = false;
            while !done && self.size < target
                invariant
                    self.wf(),
                    self.content() == old(self).content(),
                    self.pos() == old(self).pos(),
                    self.read_pos == old(self).read_pos,
                    target as int == if len > usize::MAX - self.read_pos {
                        usize::MAX as int
                    } else {
                        self.read_pos + len
                    },
                    done ==> self.size == self.content().len(),
                decreases (if self.size >= target {
                    0int
                } else {
                    target - self.size
                }), (if done {
                    0int
                } else {
                    1int
                }),
            {
                let got = self.r.read(PAGE_SIZE);
                match got {
                    Ok(v) => {
                        if v.len() == 0 {
                            done = true;
                        } else {
                            let mut v2 = v;
                            let added = v2.len();
                            self.data.append(&mut v2);
                            proof {
                                assert(self.data@ =~= self.r.content().subrange(
                                    0,
                                    self.data@.len() as int,
                                ));
                            }
                            self.size = self.size + added;
                        }
                    },
                    Err(e) => {
                        return Err(e);
                    },
                }
            }
        }
        if self.read_pos >= self.size {
            return Ok(Vec::new());
        }
        let l = if len < self.size - self.read_pos {
            len
        } else {
            self.size - self.read_pos
        };
        let mut out: Vec<u8> = Vec::new();
        let mut i: usize = 0;
        while i < l
            invariant
                i <= l,
                self.wf(),
                self.read_pos + l <= self.size,
                out@ =~= self.data@.subrange(self.read_pos as int, self.read_pos + i),
            decreases l - i,
        {
            out.push(self.data[self.read_pos + i]);
            i = i + 1;
        }
        proof {
            assert(out@ =~= self.content().subrange(self.pos(), self.pos() + l));
        }
        self.read_pos = self.read_pos + l;
        Ok(out)
    }

    /// Moves the cursor: only start-relative seeks are supported.
    pub fn seek(&mut self, from: SeekFrom) -> (r: Result<u64, Error>)
        requires
            old(self).wf(),
        ensures
            final(self).wf(),
            final(self).content() == old(self).content(),
            match from {
                SeekFrom::Start(n) => {
                    if n <= usize::MAX as u64 {
                        r matches Ok(p) && p == n && final(self).pos() == n as int
                    } else {
                        r is Err && final(self).pos() == old(self).pos()
                    }
                },
                _ => r is Err && final(self).pos() == old(self).pos(),
            },
    {
        match from {
            SeekFrom::Start(n) => {
                if n <= usize::MAX as u64 {
                    self.read_pos = n as usize;
                    Ok(n)
                } else {
                    Err(Error::InvalidArgument)
                }
            },
            _ => Err(Error::InvalidArgument),
        }
    }
}

} // verus!
