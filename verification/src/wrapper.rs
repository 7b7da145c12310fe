//! The decoder-facing logic: the entry-walk state machine over the
//! decoder's status codes, the data-block cursor that zero-fills sparse
//! gaps and copies from the current block, and the byte-source proxy whose
//! position bookkeeping backs the decoder's read, skip and seek callbacks.

use vstd::prelude::*;

verus! {

use crate::PAGE_SIZE;
use crate::fs::Error;
use crate::fs::SeekFrom;
use crate::fs::SeekableRead;

/// The decoder's reply to a header or data-block request.
#[derive(Clone, Copy, Debug, PartialEq, Eq, Structural)]
pub enum DecoderStatus {
    /// The call succeeded.
    Normal,
    /// The call succeeded with a warning to log.
    Warn,
    /// The end of the archive.
    Eof,
    /// The call failed but may be retried.
    Retry,
    /// The call failed for good.
    Fatal,
}

/// What the caller of the decoder does next.
#[derive(Clone, Copy, Debug, PartialEq, Eq, Structural)]
pub enum DecoderAction {
    /// Take the result.
    Accept,
    /// Log the warning, then take the result.
    AcceptLogged,
    /// Stop: the walk is over.
    Finish,
    /// Repeat the same call.
    Again,
    /// Surface an error.
    Fail,
}

/// The entry walk over one archive: sticky once the end is reached.
pub struct Archive {
    eof: bool,
}

impl Archive {
    pub closed spec fn spec_eof(&self) -> bool {
        self.eof
    }

    pub fn new() -> (r: Archive)
        ensures
            !r.spec_eof(),
    {
        Archive { eof: false }
    }

    /// Whether the walk already ended.
    pub fn at_eof(&self) -> (r: bool)
        ensures
            r == self.spec_eof(),
    {
        self.eof
    }

    /// Decides what a header request's status means: success yields the
    /// entry (a warning is logged and treated as success), the end finishes
    /// the walk for good, a retryable failure repeats the call, and a
    /// fatal one surfaces an error.
    pub fn next_entry_action(&mut self, status: DecoderStatus) -> (r: DecoderAction)
        ensures
            old(self).spec_eof() ==> r == DecoderAction::Finish && final(self).spec_eof(),
            !old(self).spec_eof() ==> r == match status {
                DecoderStatus::Normal => DecoderAction::Accept,
                DecoderStatus::Warn => DecoderAction::AcceptLogged,
                DecoderStatus::Eof => DecoderAction::Finish,
                DecoderStatus::Retry => DecoderAction::Again,
                DecoderStatus::Fatal => DecoderAction::Fail,
            },
            final(self).spec_eof() == (old(self).spec_eof() || (!old(self).spec_eof()
                && status == DecoderStatus::Eof)),
    {
        if self.eof {
            return DecoderAction::Finish;
        }
        match status {
            DecoderStatus::Normal => DecoderAction::Accept,
            DecoderStatus::Warn => DecoderAction::AcceptLogged,
            DecoderStatus::Eof => {
                self.eof = true;
                DecoderAction::Finish
            },
            DecoderStatus::Retry => DecoderAction::Again,
            DecoderStatus::Fatal => DecoderAction::Fail,
        }
    }
}

/// The member-read cursor over the decoder's data blocks: tracks the read
/// position, the current block's logical offset and length, and the
/// end-of-member flag.  A block's logical offset may jump past the read
/// position; the gap reads as zeros (sparse members).
pub struct BlockCursor {
    read_pos: usize,
    block_offset: usize,
    block_len: usize,
    eof: bool,
}

impl BlockCursor {
    pub closed spec fn spec_read_pos(&self) -> int {
        self.read_pos as int
    }

    pub closed spec fn spec_block_offset(&self) -> int {
        self.block_offset as int
    }

    pub closed spec fn spec_block_len(&self) -> int {
        self.block_len as int
    }

    pub closed spec fn spec_eof(&self) -> bool {
        self.eof
    }

    pub fn new() -> (r: BlockCursor)
        ensures
            r.spec_read_pos() == 0,
            r.spec_block_offset() == 0,
            r.spec_block_len() == 0,
            !r.spec_eof(),
    {
        BlockCursor { read_pos: 0, block_offset: 0, block_len: 0, eof: false }
    }

    /// Whether the current block is exhausted, so the decoder must be
    /// asked for the next one.
    pub fn needs_block(&self) -> (r: bool)
        ensures
            r == (!self.spec_eof() && self.spec_block_offset() + self.spec_block_len()
                <= self.spec_read_pos()),
    {
        !self.eof && self.block_len <= self.read_pos && self.block_offset
            <= self.read_pos - self.block_len
    }

    /// Records the block the decoder just produced.
    pub fn set_block(&mut self, offset: usize, len: usize)
        requires
            offset + len <= usize::MAX,
        ensures
            final(self).spec_block_offset() == offset,
            final(self).spec_block_len() == len,
            final(self).spec_read_pos() == old(self).spec_read_pos(),
            final(self).spec_eof() == old(self).spec_eof(),
    {
        self.block_offset = offset;
        self.block_len = len;
    }

    /// Records the member's end.
    pub fn set_eof(&mut self)
        ensures
            final(self).spec_eof(),
            final(self).spec_read_pos() == old(self).spec_read_pos(),
            final(self).spec_block_offset() == old(self).spec_block_offset(),
            final(self).spec_block_len() == old(self).spec_block_len(),
    {
        self.eof = true;
    }

    /// How many zero bytes to hand out before the current block: the gap
    /// between the read position and the block's logical offset, capped at
    /// `want`.  Advances the read position past the zeros.
    pub fn fill_gap(&mut self, want: usize) -> (r: usize)
        ensures
            r == if old(self).spec_read_pos() < old(self).spec_block_offset() {
                vstd::math::min(
                    want as int,
                    old(self).spec_block_offset() - old(self).spec_read_pos(),
                )
            } else {
                0int
            },
            final(self).spec_read_pos() == old(self).spec_read_pos() + r,
            final(self).spec_block_offset() == old(self).spec_block_offset(),
            final(self).spec_block_len() == old(self).spec_block_len(),
            final(self).spec_eof() == old(self).spec_eof(),
    {
        if self.read_pos < self.block_offset {
            let gap = self.block_offset - self.read_pos;
            let l = if want < gap {
                want
            } else {
                gap
            };
            self.read_pos = self.read_pos + l;
            l
        } else {
            0
        }
    }

    /// Where in the current block the read position falls, and how many
    /// bytes to copy from there, capped at `want`.  Advances the read
    /// position past the copied bytes.
    pub fn take_from_block(&mut self, want: usize) -> (r: (usize, usize))
        requires
            old(self).spec_block_offset() + old(self).spec_block_len() <= usize::MAX,
            old(self).spec_block_offset() <= old(self).spec_read_pos(),
            old(self).spec_read_pos() <= old(self).spec_block_offset() + old(self).spec_block_len(),
        ensures
            r.0 == old(self).spec_read_pos() - old(self).spec_block_offset(),
            r.1 == vstd::math::min(
                want as int,
                old(self).spec_block_len() - r.0,
            ),
            final(self).spec_read_pos() == old(self).spec_read_pos() + r.1,
            final(self).spec_block_offset() == old(self).spec_block_offset(),
            final(self).spec_block_len() == old(self).spec_block_len(),
            final(self).spec_eof() == old(self).spec_eof(),
    {
        let begin = self.read_pos - self.block_offset;
        let avail = self.block_len - begin;
        let l = if want < avail {
            want
        } else {
            avail
        };
        self.read_pos = self.read_pos + l;
        (begin, l)
    }

    /// Moves the read position: from the start or relative to the current
    /// position; end-relative seeks are not supported over a
    /// forward-streaming member.
    pub fn seek(&mut self, from: SeekFrom) -> (r: Result<u64, Error>)
        ensures
            final(self).spec_block_offset() == old(self).spec_block_offset(),
            final(self).spec_block_len() == old(self).spec_block_len(),
            final(self).spec_eof() == old(self).spec_eof(),
            match from {
                SeekFrom::Start(n) => {
                    if n <= usize::MAX as u64 {
                        r matches Ok(p) && p == n && final(self).spec_read_pos() == n as int
                    } else {
                        r is Err && final(self).spec_read_pos() == old(self).spec_read_pos()
                    }
                },
                SeekFrom::Current(i) => {
                    if 0 <= old(self).spec_read_pos() + i <= usize::MAX as int {
                        r matches Ok(p) && p == old(self).spec_read_pos() + i && final(self).spec_read_pos() == old(self).spec_read_pos() + i
                    } else {
                        r is Err && final(self).spec_read_pos() == old(self).spec_read_pos()
                    }
                },
                SeekFrom::End(_) => r is Err && final(self).spec_read_pos() == old(self).spec_read_pos(),
            },
    {
        let (pos2, r) = match from {
            SeekFrom::Start(n) => {
                if n <= usize::MAX as u64 {
                    (n as usize, Ok(n))
                } else {
                    (self.read_pos, Err(Error::InvalidArgument))
                }
            },
            SeekFrom::Current(i) => {
                if i >= 0 {
                    if (i as u64) <= (usize::MAX - self.read_pos) as u64 {
                        let p = self.read_pos + i as usize;
                        (p, Ok(p as u64))
                    } else {
                        (self.read_pos, Err(Error::InvalidArgument))
                    }
                } else {
                    let mag_minus_one = -(i + 1);
                    let mag = (mag_minus_one as u64) + 1;
                    if mag <= self.read_pos as u64 {
                        let p = self.read_pos - mag as usize;
                        (p, Ok(p as u64))
                    } else {
                        (self.read_pos, Err(Error::InvalidArgument))
                    }
                }
            },
            SeekFrom::End(_) => (self.read_pos, Err(Error::InvalidArgument)),
        };
        self.read_pos = pos2;
        r
    }
}

/// The byte-source proxy between a seekable stream and the decoder's
/// callbacks: hands out chunks and tracks the position the skip callback
/// must report relative to.
pub struct Proxy<R> {
    r: R,
    pos: u64,
}

impl<R: SeekableRead> Proxy<R> {
    pub closed spec fn spec_pos(&self) -> int {
        self.pos as int
    }

    pub closed spec fn stream(&self) -> R {
        self.r
    }

    pub closed spec fn wf(&self) -> bool {
        &&& self.pos as int == self.r.pos()
        &&& self.r.content().len() <= u64::MAX
    }

    pub fn new(r: R) -> (p: Proxy<R>)
        requires
            r.pos() == 0,
            r.content().len() <= u64::MAX,
        ensures
            p.wf(),
            p.spec_pos() == 0,
            p.stream().content() == r.content(),
    {
        Proxy { r, pos: 0 }
    }

    /// Reads the next chunk, at most one page, advancing the tracked
    /// position by exactly the chunk's length.
    pub fn read(&mut self) -> (r: Result<Vec<u8>, Error>)
        requires
            old(self).wf(),
        ensures
            final(self).stream().content() == old(self).stream().content(),
            match r {
                Ok(v) => {
                    &&& final(self).wf()
                    &&& v@.len() <= PAGE_SIZE
                    &&& final(self).spec_pos() == old(self).spec_pos() + v@.len()
                    &&& v@.len() > 0 ==> v@ == old(self).stream().content().subrange(
                        old(self).spec_pos(),
                        old(self).spec_pos() + v@.len(),
                    )
                    &&& v@.len() == 0 ==> old(self).spec_pos() >= old(self).stream().content().len()
                },
                Err(_) => final(self).spec_pos() == old(self).spec_pos(),
            },
    {
        let got = self.r.read(PAGE_SIZE);
        match got {
            Ok(v) => {
                self.pos = self.pos + (v.len() as u64);
                Ok(v)
            },
            Err(e) => Err(e),
        }
    }

    /// Seeks the underlying stream and re-anchors the tracked position.
    pub fn seek(&mut self, from: SeekFrom) -> (r: Result<u64, Error>)
        requires
            old(self).wf(),
        ensures
            final(self).stream().content() == old(self).stream().content(),
            match r {
                Ok(p) => final(self).wf() && final(self).spec_pos() == p as int,
                Err(_) => final(self).spec_pos() == old(self).spec_pos(),
            },
    {
        let got = self.r.seek(from);
        match got {
            Ok(p) => {
                self.pos = p;
                Ok(p)
            },
            Err(e) => Err(e),
        }
    }

    /// Skips forward `request` bytes: seeks the stream relative to its
    /// position and reports exactly how far the position moved.
    pub fn skip(&mut self, request: i64) -> (r: Result<i64, Error>)
        requires
            old(self).wf(),
            request >= 0,
        ensures
            final(self).stream().content() == old(self).stream().content(),
            match r {
                Ok(n) => {
                    &&& n == request
                    &&& final(self).wf()
                    &&& final(self).spec_pos() == old(self).spec_pos() + n
                    &&& final(self).stream().pos() == old(self).stream().pos() + n
                },
                Err(_) => true,
            },
    {
        let got = self.r.seek(SeekFrom::Current(request));
        let now = match got {
            Ok(p) => p,
            Err(e) => {
                return Err(e);
            },
        };
        if now < self.pos {
            return Err(Error::InvalidArgument);
        }
        let diff = now - self.pos;
        if diff > i64::MAX as u64 {
            return Err(Error::InvalidArgument);
        }
        self.pos = now;
        Ok(diff as i64)
    }
}

} // verus!
