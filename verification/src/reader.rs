//! The per-member cache: the Empty → Loading → Loaded state machine that
//! materializes a forward-only stream into one allocation, and the two
//! readers over it — one for completed members, one that drives the stream
//! forward cooperatively.

use vstd::prelude::*;

verus! {

use crate::PAGE_SIZE;
use crate::fs::Error;
use crate::fs::File;
use crate::fs::SeekFrom;
use crate::fs::SeekableRead;
use crate::page::PageManager;
use crate::page::spec_need_pages;
use crate::page::RefPage;
use crate::page::SliceIter;
use crate::page::WeakRefPage;

/// The in-progress materialization of one member: the pinned allocation,
/// the forward-only stream, and the count of bytes decoded so far.
pub struct LoadingState<R> {
    reader: Option<R>,
    cached_size: usize,
    page: RefPage,
    content: Ghost<Seq<u8>>,
}

impl<R: SeekableRead> LoadingState<R> {
    pub closed spec fn spec_gen(&self) -> u64 {
        self.page.spec_gen()
    }

    /// Bytes decoded into the allocation so far.
    pub closed spec fn spec_cached(&self) -> int {
        self.cached_size as int
    }

    /// The member's whole content, as the stream yields it.
    pub closed spec fn spec_content(&self) -> Seq<u8> {
        self.content@
    }

    /// The stream is exhausted (or was abandoned for lack of pages).
    pub closed spec fn is_eof_spec(&self) -> bool {
        self.reader is None
    }

    pub closed spec fn wf(&self, pm: &PageManager) -> bool {
        &&& pm.live(self.spec_gen())
        &&& pm.spec_use_count(self.spec_gen()) >= 1
        &&& self.spec_cached() <= pm.spec_payload_len(self.spec_gen())
        &&& pm.spec_payload_len(self.spec_gen()) >= self.spec_content().len()
        &&& self.spec_cached() <= self.spec_content().len()
        &&& pm.contents(self.spec_gen()).subrange(0, self.spec_cached())
            == self.spec_content().subrange(0, self.spec_cached())
        &&& match self.reader {
            Some(rd) => rd.content() == self.spec_content() && rd.pos() == self.spec_cached(),
            None => self.spec_cached() == self.spec_content().len(),
        }
    }

    /// Whether the stream has been closed.
    pub fn is_eof(&self) -> (r: bool)
        ensures
            r == self.is_eof_spec(),
    {
        self.reader.is_none()
    }

    /// Begins iterating the cached pages from byte `pos`.
    pub fn get_slices(&self, pm: &mut PageManager, pos: usize) -> (r: SliceIter)
        requires
            old(pm).wf(),
            self.wf(old(pm)),
        ensures
            final(pm).wf(),
            self.wf(final(pm)),
            final(pm).spec_capacity() == old(pm).spec_capacity(),
            final(pm).spec_free_pages() == old(pm).spec_free_pages(),
            final(pm).spec_generations_used() == old(pm).spec_generations_used(),
            forall|g: u64| #[trigger] final(pm).live(g) <==> old(pm).live(g),
            forall|g: u64|
                #[trigger] final(pm).live(g) ==> final(pm).contents(g) == old(pm).contents(g)
                    && final(pm).spec_use_count(g) == old(pm).spec_use_count(g) && final(pm).spec_payload_len(g) == old(pm).spec_payload_len(g),
            r.spec_gen() == self.spec_gen(),
            r.spec_n() == pos as int / (PAGE_SIZE as int),
            r.spec_offset() == pos as int % (PAGE_SIZE as int),
    {
        let r = self.page.get_slices(pm, pos);
        proof {
            assert(pm.live(self.spec_gen()));
        }
        r
    }

    /// Drives the stream forward until at least `read_to` bytes are cached,
    /// the stream ends, or the allocation is full.  `cached_size` never
    /// decreases, and on success it reaches `read_to` or the member's end.
    pub fn read_to_at_least(&mut self, pm: &mut PageManager, read_to: usize) -> (r: Result<
        usize,
        Error,
    >)
        requires
            old(pm).wf(),
            old(self).wf(old(pm)),
        ensures
            final(pm).wf(),
            final(self).wf(final(pm)),
            final(self).spec_gen() == old(self).spec_gen(),
            final(self).spec_content() == old(self).spec_content(),
            final(self).spec_cached() >= old(self).spec_cached(),
            final(pm).spec_capacity() == old(pm).spec_capacity(),
            final(pm).spec_free_pages() == old(pm).spec_free_pages(),
            final(pm).spec_generations_used() == old(pm).spec_generations_used(),
            forall|g: u64| #[trigger] final(pm).live(g) <==> old(pm).live(g),
            forall|g: u64|
                #[trigger] final(pm).live(g) ==> final(pm).spec_use_count(g) == old(pm).spec_use_count(g) && final(pm).spec_payload_len(g) == old(pm).spec_payload_len(
                    g,
                ),
            forall|g: u64|
                #[trigger] final(pm).live(g) && g != old(self).spec_gen() ==> final(pm).contents(
                    g,
                ) == old(pm).contents(g),
            old(self).is_eof_spec() ==> r is Ok && *final(self) == *old(self) && *final(pm)
                == *old(pm),
            old(self).spec_cached() >= read_to ==> r is Ok && *final(self) == *old(self)
                && *final(pm) == *old(pm),
            match r {
                Ok(n) => {
                    &&& n == final(self).spec_cached()
                    &&& final(self).spec_cached() >= vstd::math::min(
                        read_to as int,
                        old(self).spec_content().len() as int,
                    )
                    &&& (final(self).spec_cached() >= read_to || final(self).is_eof_spec())
                },
                Err(_) => true,
            },
    {
        if self.reader.is_none() {
            return Ok(self.cached_size);
        }
        if self.cached_size >= read_to {
            return Ok(self.cached_size);
        }
        let payload = pm.payload_len(&self.page);
        let ghost entrypm = *pm;
        let ghost entry = *self;
        while !self.reader.is_none() && self.cached_size < read_to
            invariant
                entry == *old(self),
                entrypm == *old(pm),
                !old(self).is_eof_spec(),
                read_to <= usize::MAX,
                pm.wf(),
                self.wf(pm),
                self.spec_gen() == entry.spec_gen(),
                self.spec_content() == entry.spec_content(),
                self.spec_cached() >= entry.spec_cached(),
                payload == pm.spec_payload_len(self.spec_gen()),
                pm.spec_capacity() == entrypm.spec_capacity(),
                pm.spec_free_pages() == entrypm.spec_free_pages(),
                pm.spec_generations_used() == entrypm.spec_generations_used(),
                forall|g: u64| #[trigger] pm.live(g) <==> entrypm.live(g),
                forall|g: u64|
                    #[trigger] pm.live(g) ==> pm.spec_use_count(g) == entrypm.spec_use_count(g)
                        && pm.spec_payload_len(g) == entrypm.spec_payload_len(g),
                forall|g: u64|
                    #[trigger] pm.live(g) && g != entry.spec_gen() ==> pm.contents(g)
                        == entrypm.contents(g),
            decreases self.spec_content().len() - self.spec_cached() + (if self.is_eof_spec() {
                0int
            } else {
                1int
            }),
        {
            if self.cached_size >= payload {
                // no more buffer: close the stream
                proof {
                    assert(self.spec_cached() == self.spec_content().len());
                }
                self.reader = None;
            } else {
                let boundary = PAGE_SIZE - (self.cached_size % PAGE_SIZE);
                let room = payload - self.cached_size;
                let req = if boundary < room {
                    boundary
                } else {
                    room
                };
                let ghost cached0 = self.spec_cached();
                let got = match &mut self.reader {
                    Some(rd) => rd.read(req),
                    None => {
                        proof {
                            assert(false);
                        }
                        vstd::pervasive::unreached()
                    },
                };
                match got {
                    Ok(v) => {
                        if v.len() == 0 {
                            // end of the stream
                            proof {
                                assert(self.spec_cached() == self.spec_content().len());
                            }
                            self.reader = None;
                        } else {
                            let ghost cpre = pm.contents(self.spec_gen());
                            let ghost c = self.spec_content();
                            proof {
                                assert(v@ == c.subrange(
                                    self.spec_cached(),
                                    self.spec_cached() + v@.len(),
                                ));
                            }
                            pm.write_range(&self.page, self.cached_size, &v);
                            proof {
                                assert(pm.live(self.spec_gen()));
                                let cached = self.spec_cached();
                                let vlen = v@.len() as int;
                                assert(pm.contents(self.spec_gen()).subrange(0, cached + vlen)
                                    =~= cpre.subrange(0, cached) + v@);
                                assert(cpre.subrange(0, cached) == c.subrange(0, cached));
                                assert(c.subrange(0, cached) + c.subrange(cached, cached + vlen)
                                    =~= c.subrange(0, cached + vlen));
                                assert(pm.contents(self.spec_gen()).subrange(0, cached + vlen)
                                    == c.subrange(0, cached + vlen));
                            }
                            self.cached_size = self.cached_size + v.len();
                        }
                    },
                    Err(e) => {
                        return Err(e);
                    },
                }
            }
        }
        Ok(self.cached_size)
    }
}


/// The tri-state of a member's cache slot.
pub enum CacheState<R> {
    /// Nothing cached.
    Empty,
    /// A materialization is in progress.
    Loading(LoadingState<R>),
    /// Fully materialized: a weak reference and the authoritative size.
    Loaded(WeakRefPage, usize),
}

/// A reader over a fully loaded member: random access against a pinned
/// allocation.
pub struct CacheReader {
    size: usize,
    pos: usize,
    page: RefPage,
    content: Ghost<Seq<u8>>,
}

/// A reader over a member still loading: it drives the shared stream
/// forward through the cache as far as its position requires.
pub struct LoadingReader {
    size: usize,
    pos: usize,
    page: RefPage,
    content: Ghost<Seq<u8>>,
}

/// Either kind of member reader.
pub enum MemberReader {
    Cached(CacheReader),
    Loading(LoadingReader),
}

/// One member's cache: the page manager reference and the member's file
/// handle stay with the caller; the cache keeps the size, the tri-state,
/// and a count of how often the underlying member was opened.
pub struct Cache<R> {
    size: Option<usize>,
    state: CacheState<R>,
    open_count: u64,
    content: Ghost<Seq<u8>>,
}

impl CacheReader {
    pub closed spec fn spec_gen(&self) -> u64 {
        self.page.spec_gen()
    }

    pub closed spec fn spec_pos(&self) -> int {
        self.pos as int
    }

    pub closed spec fn spec_size(&self) -> int {
        self.size as int
    }

    pub closed spec fn spec_content(&self) -> Seq<u8> {
        self.content@
    }

    pub closed spec fn wf(&self, pm: &PageManager) -> bool {
        &&& pm.live(self.spec_gen())
        &&& pm.spec_use_count(self.spec_gen()) >= 1
        &&& self.spec_size() == self.spec_content().len()
        &&& self.spec_size() <= pm.spec_payload_len(self.spec_gen())
        &&& pm.contents(self.spec_gen()).subrange(0, self.spec_size()) == self.spec_content()
    }

    /// Copies up to `len` bytes from the current position; empty once the
    /// position is at or past the end.
    pub fn read(&mut self, pm: &mut PageManager, len: usize) -> (r: Result<Vec<u8>, Error>)
        requires
            old(pm).wf(),
            old(self).wf(old(pm)),
        ensures
            final(pm).wf(),
            final(self).wf(final(pm)),
            final(self).spec_content() == old(self).spec_content(),
            final(self).spec_size() == old(self).spec_size(),
            final(self).spec_gen() == old(self).spec_gen(),
            final(pm).spec_capacity() == old(pm).spec_capacity(),
            final(pm).spec_free_pages() == old(pm).spec_free_pages(),
            final(pm).spec_generations_used() == old(pm).spec_generations_used(),
            forall|g: u64| #[trigger] final(pm).live(g) <==> old(pm).live(g),
            forall|g: u64|
                #[trigger] final(pm).live(g) ==> final(pm).contents(g) == old(pm).contents(g)
                    && final(pm).spec_use_count(g) == old(pm).spec_use_count(g) && final(pm).spec_payload_len(g) == old(pm).spec_payload_len(g),
            match r {
                Ok(v) => {
                    &&& v@.len() == if old(self).spec_pos() < old(self).spec_size() {
                        vstd::math::min(len as int, old(self).spec_size() - old(self).spec_pos())
                    } else {
                        0int
                    }
                    &&& old(self).spec_pos() < old(self).spec_size() ==> v@ == old(self).spec_content().subrange(
                        old(self).spec_pos(),
                        old(self).spec_pos() + v@.len(),
                    )
                    &&& final(self).spec_pos() == old(self).spec_pos() + v@.len()
                },
                Err(_) => false,
            },
    {
        if self.pos >= self.size {
            return Ok(Vec::new());
        }
        let n = if len < self.size - self.pos {
            len
        } else {
            self.size - self.pos
        };
        let v = pm.read_range(&self.page, self.pos, n);
        proof {
            let gen = self.spec_gen();
            assert(pm.live(gen));
            old(pm).lemma_contents_len(gen);
            assert forall|t: int| 0 <= t < n implies v@[t] == self.spec_content()[self.spec_pos()
                + t] by {
                assert(v@[t] == old(pm).contents(gen).subrange(
                    self.spec_pos(),
                    self.spec_pos() + n,
                )[t]);
                assert(old(pm).contents(gen).subrange(0, self.spec_size())[self.spec_pos() + t]
                    == self.spec_content()[self.spec_pos() + t]);
            }
            assert(v@ =~= self.spec_content().subrange(self.spec_pos(), self.spec_pos() + n));
        }
        self.pos = self.pos + n;
        Ok(v)
    }

    /// Moves the read position; the reader stays valid against any page
    /// manager it was valid against.
    pub fn seek(&mut self, from: SeekFrom) -> (r: Result<u64, Error>)
        ensures
            final(self).spec_content() == old(self).spec_content(),
            final(self).spec_size() == old(self).spec_size(),
            final(self).spec_gen() == old(self).spec_gen(),
            forall|pm: PageManager| #[trigger] old(self).wf(&pm) ==> final(self).wf(&pm),
            seek_outcome(old(self).spec_pos(), old(self).spec_size(), from, r, final(self).spec_pos()),
    {
        let (pos2, r) = seek_update(self.pos, self.size, from);
        self.pos = pos2;
        r
    }

    /// The reader stays valid across page-manager steps that keep pinned
    /// allocations resident with their contents, use counts and payload
    /// sizes — exactly what every pool operation, eviction included,
    /// promises.
    pub proof fn lemma_wf_frame(&self, pm1: &PageManager, pm2: &PageManager)
        requires
            self.wf(pm1),
            forall|g: u64|
                #[trigger] pm1.live(g) && pm1.spec_use_count(g) > 0 ==> pm2.live(g),
            forall|g: u64|
                #[trigger] pm2.live(g) && pm1.live(g) ==> pm2.contents(g) == pm1.contents(g)
                    && pm2.spec_use_count(g) == pm1.spec_use_count(g) && pm2.spec_payload_len(g)
                    == pm1.spec_payload_len(g),
        ensures
            self.wf(pm2),
    {
        assert(pm1.live(self.spec_gen()) && pm1.spec_use_count(self.spec_gen()) > 0);
        assert(pm2.live(self.spec_gen()));
    }

    /// Gives the pin on the allocation back.
    pub fn close(self, pm: &mut PageManager)
        requires
            old(pm).wf(),
            self.wf(old(pm)),
        ensures
            final(pm).wf(),
            final(pm).spec_capacity() == old(pm).spec_capacity(),
            final(pm).spec_free_pages() == old(pm).spec_free_pages(),
            final(pm).spec_generations_used() == old(pm).spec_generations_used(),
            forall|g: u64| #[trigger] final(pm).live(g) <==> old(pm).live(g),
            forall|g: u64|
                #[trigger] final(pm).live(g) ==> final(pm).contents(g) == old(pm).contents(g)
                    && final(pm).spec_payload_len(g) == old(pm).spec_payload_len(g),
            forall|g: u64|
                #[trigger] final(pm).live(g) && g != self.spec_gen() ==> final(pm).spec_use_count(
                    g,
                ) == old(pm).spec_use_count(g),
            final(pm).spec_use_count(self.spec_gen()) == old(pm).spec_use_count(self.spec_gen())
                - 1,
    {
        let CacheReader { size: _, pos: _, page, content: _ } = self;
        pm.release(page);
    }
}

/// How a seek request resolves: the successful new position, or the
/// position left unchanged with an invalid-argument error.
pub open spec fn seek_outcome(
    pos: int,
    size: int,
    from: SeekFrom,
    r: Result<u64, Error>,
    pos2: int,
) -> bool {
    match from {
        SeekFrom::Start(n) => {
            if n <= usize::MAX as u64 {
                r matches Ok(p) && p == n && pos2 == n as int
            } else {
                r matches Err(e) && (e matches Error::InvalidArgument) && pos2 == pos
            }
        },
        SeekFrom::End(i) => {
            if i >= 0 {
                if size + i <= usize::MAX as int {
                    r matches Ok(p) && p == size + i && pos2 == size + i
                } else {
                    r matches Err(e) && (e matches Error::InvalidArgument) && pos2 == pos
                }
            } else {
                if size + i >= 0 {
                    r matches Ok(p) && p == size + i && pos2 == size + i
                } else {
                    r matches Err(e) && (e matches Error::InvalidArgument) && pos2 == pos
                }
            }
        },
        SeekFrom::Current(i) => {
            if i >= 0 {
                if pos + i <= usize::MAX as int {
                    r matches Ok(p) && p == pos + i && pos2 == pos + i
                } else {
                    r matches Err(e) && (e matches Error::InvalidArgument) && pos2 == pos
                }
            } else {
                if pos + i >= 0 {
                    r matches Ok(p) && p == pos + i && pos2 == pos + i
                } else {
                    r matches Err(e) && (e matches Error::InvalidArgument) && pos2 == pos
                }
            }
        },
    }
}

/// Resolves a seek request against a position and a size: start-relative,
/// end-relative, or current-relative, refusing a result before zero or
/// past the address range.
pub fn seek_update(pos: usize, size: usize, from: SeekFrom) -> (r: (usize, Result<u64, Error>))
    ensures
        seek_outcome(pos as int, size as int, from, r.1, r.0 as int),
{
    match from {
        SeekFrom::Start(n) => {
            if n <= usize::MAX as u64 {
                (n as usize, Ok(n))
            } else {
                (pos, Err(Error::InvalidArgument))
            }
        },
        SeekFrom::End(i) => {
            if i >= 0 {
                if (i as u64) <= (usize::MAX - size) as u64 {
                    let p = size + i as usize;
                    (p, Ok(p as u64))
                } else {
                    (pos, Err(Error::InvalidArgument))
                }
            } else {
                let mag_minus_one = -(i + 1);
                let mag = (mag_minus_one as u64) + 1;
                if mag <= size as u64 {
                    let p = size - mag as usize;
                    (p, Ok(p as u64))
                } else {
                    (pos, Err(Error::InvalidArgument))
                }
            }
        },
        SeekFrom::Current(i) => {
            if i >= 0 {
                if (i as u64) <= (usize::MAX - pos) as u64 {
                    let p = pos + i as usize;
                    (p, Ok(p as u64))
                } else {
                    (pos, Err(Error::InvalidArgument))
                }
            } else {
                let mag_minus_one = -(i + 1);
                let mag = (mag_minus_one as u64) + 1;
                if mag <= pos as u64 {
                    let p = pos - mag as usize;
                    (p, Ok(p as u64))
                } else {
                    (pos, Err(Error::InvalidArgument))
                }
            }
        },
    }
}


impl LoadingReader {
    pub closed spec fn spec_gen(&self) -> u64 {
        self.page.spec_gen()
    }

    pub closed spec fn spec_pos(&self) -> int {
        self.pos as int
    }

    pub closed spec fn spec_size(&self) -> int {
        self.size as int
    }

    pub closed spec fn spec_content(&self) -> Seq<u8> {
        self.content@
    }

    pub closed spec fn wf(&self, pm: &PageManager) -> bool {
        &&& pm.live(self.spec_gen())
        &&& pm.spec_use_count(self.spec_gen()) >= 1
        &&& self.spec_size() == self.spec_content().len()
    }

    /// Moves the read position; the reader stays valid against any page
    /// manager it was valid against.
    pub fn seek(&mut self, from: SeekFrom) -> (r: Result<u64, Error>)
        ensures
            final(self).spec_content() == old(self).spec_content(),
            final(self).spec_size() == old(self).spec_size(),
            final(self).spec_gen() == old(self).spec_gen(),
            forall|pm: PageManager| #[trigger] old(self).wf(&pm) ==> final(self).wf(&pm),
            seek_outcome(old(self).spec_pos(), old(self).spec_size(), from, r, final(self).spec_pos()),
    {
        let (pos2, r) = seek_update(self.pos, self.size, from);
        self.pos = pos2;
        r
    }

    /// The reader stays valid across page-manager steps that keep pinned
    /// allocations resident with their contents, use counts and payload
    /// sizes.
    pub proof fn lemma_wf_frame(&self, pm1: &PageManager, pm2: &PageManager)
        requires
            self.wf(pm1),
            forall|g: u64|
                #[trigger] pm1.live(g) && pm1.spec_use_count(g) > 0 ==> pm2.live(g),
            forall|g: u64|
                #[trigger] pm2.live(g) && pm1.live(g) ==> pm2.contents(g) == pm1.contents(g)
                    && pm2.spec_use_count(g) == pm1.spec_use_count(g) && pm2.spec_payload_len(g)
                    == pm1.spec_payload_len(g),
        ensures
            self.wf(pm2),
    {
        assert(pm1.live(self.spec_gen()) && pm1.spec_use_count(self.spec_gen()) > 0);
        assert(pm2.live(self.spec_gen()));
    }

    /// Gives the pin on the allocation back.
    pub fn close(self, pm: &mut PageManager)
        requires
            old(pm).wf(),
            self.wf(old(pm)),
        ensures
            final(pm).wf(),
            final(pm).spec_capacity() == old(pm).spec_capacity(),
            final(pm).spec_free_pages() == old(pm).spec_free_pages(),
            final(pm).spec_generations_used() == old(pm).spec_generations_used(),
            forall|g: u64| #[trigger] final(pm).live(g) <==> old(pm).live(g),
            forall|g: u64|
                #[trigger] final(pm).live(g) ==> final(pm).contents(g) == old(pm).contents(g)
                    && final(pm).spec_payload_len(g) == old(pm).spec_payload_len(g),
            forall|g: u64|
                #[trigger] final(pm).live(g) && g != self.spec_gen() ==> final(pm).spec_use_count(
                    g,
                ) == old(pm).spec_use_count(g),
            final(pm).spec_use_count(self.spec_gen()) == old(pm).spec_use_count(self.spec_gen())
                - 1,
    {
        let LoadingReader { size: _, pos: _, page, content: _ } = self;
        pm.release(page);
    }
}

impl<R: SeekableRead> Cache<R> {
    /// The member's whole content.
    pub closed spec fn spec_content(&self) -> Seq<u8> {
        self.content@
    }

    /// How often the underlying member was opened so far.
    pub closed spec fn spec_open_count(&self) -> int {
        self.open_count as int
    }

    pub closed spec fn is_empty_state(&self) -> bool {
        self.state is Empty
    }

    pub closed spec fn is_loading_state(&self) -> bool {
        self.state is Loading
    }

    pub closed spec fn is_loaded_state(&self) -> bool {
        self.state is Loaded
    }

    /// The generation of the cached allocation, when one exists.
    pub closed spec fn state_gen(&self) -> u64 {
        match self.state {
            CacheState::Empty => 0,
            CacheState::Loading(l) => l.spec_gen(),
            CacheState::Loaded(w, _) => w.spec_gen(),
        }
    }

    pub closed spec fn wf(&self, pm: &PageManager) -> bool {
        &&& match self.state {
            CacheState::Empty => true,
            CacheState::Loading(l) => l.wf(pm) && l.spec_content() == self.content@
                && self.size is Some,
            CacheState::Loaded(w, sz) => {
                &&& sz == self.content@.len()
                &&& (pm.live(w.spec_gen()) ==> sz <= pm.spec_payload_len(w.spec_gen())
                    && pm.contents(w.spec_gen()).subrange(0, sz as int) == self.content@)
            },
        }
        &&& match self.size {
            Some(s) => s == self.content@.len(),
            None => true,
        }
    }

    /// A resident, fully loaded slot.
    pub closed spec fn is_loaded_live(&self, pm: &PageManager) -> bool {
        match self.state {
            CacheState::Loaded(w, _) => pm.live(w.spec_gen()),
            _ => false,
        }
    }

    /// A materialization that already reached the member's end but has not
    /// yet been demoted to the loaded state.
    pub closed spec fn is_loading_eof(&self) -> bool {
        match self.state {
            CacheState::Loading(l) => l.is_eof_spec(),
            _ => false,
        }
    }

    /// A live, fully loaded slot: `make_reader` serves from it without
    /// touching the underlying member.
    pub open spec fn serves_cached(&self, pm: &PageManager) -> bool {
        self.is_loaded_live(pm) || self.is_loading_eof()
    }

    /// The call must open the member afresh: the slot is empty, or holds
    /// only a stale weak reference to an evicted allocation.
    pub open spec fn needs_open(&self, pm: &PageManager) -> bool {
        self.is_empty_state() || (self.is_loaded_state() && !pm.live(self.state_gen()))
    }

    /// How far the slot can serve a read of `len` bytes at `pos` without
    /// driving the stream: always, once loaded; while loading, when the
    /// stream is closed or the range is already cached.
    pub closed spec fn covers_read(&self, pos: int, len: int) -> bool {
        match self.state {
            CacheState::Loaded(_, _) => true,
            CacheState::Loading(l) => l.is_eof_spec() || l.spec_cached() >= pos + len,
            CacheState::Empty => false,
        }
    }

    /// A materialization in progress: `make_reader` joins it without
    /// touching the underlying member.
    pub closed spec fn serves_loading(&self) -> bool {
        match self.state {
            CacheState::Loading(l) => !l.is_eof_spec(),
            _ => false,
        }
    }

    /// A loaded slot, or a loading one whose stream already ended, covers
    /// any read without driving the stream.
    pub proof fn lemma_covers(&self, pos: int, len: int)
        requires
            self.is_loaded_state() || self.is_loading_eof(),
        ensures
            self.covers_read(pos, len),
    {
    }

    /// A loaded slot whose allocation is resident serves directly.
    pub proof fn lemma_loaded_live(&self, pm: &PageManager)
        requires
            self.is_loaded_state(),
            pm.live(self.state_gen()),
        ensures
            self.is_loaded_live(pm),
    {
    }

    /// The use counts `make_reader` may bump still have room.
    pub closed spec fn use_headroom(&self, pm: &PageManager) -> bool {
        match self.state {
            CacheState::Empty => true,
            CacheState::Loading(l) => pm.spec_use_count(l.spec_gen()) < u32::MAX,
            CacheState::Loaded(w, _) => pm.live(w.spec_gen()) ==> pm.spec_use_count(w.spec_gen())
                < u32::MAX,
        }
    }

    /// A cache stays well formed across page-manager steps that preserve
    /// the live set, contents, use counts and payload sizes.
    pub proof fn lemma_wf_frame(&self, pm1: &PageManager, pm2: &PageManager)
        requires
            self.wf(pm1),
            forall|g: u64| #[trigger] pm2.live(g) <==> pm1.live(g),
            forall|g: u64|
                #[trigger] pm2.live(g) ==> pm2.contents(g) == pm1.contents(g)
                    && pm2.spec_use_count(g) == pm1.spec_use_count(g) && pm2.spec_payload_len(g)
                    == pm1.spec_payload_len(g),
        ensures
            self.wf(pm2),
    {
        match self.state {
            CacheState::Loading(l) => {
                assert(pm1.live(l.spec_gen()));
                assert(pm2.live(l.spec_gen()));
            },
            CacheState::Loaded(w, sz) => {
                if pm2.live(w.spec_gen()) {
                    assert(pm1.live(w.spec_gen()));
                }
            },
            CacheState::Empty => {},
        }
    }

    /// The cache stays well formed across an unrelated allocation: pinned
    /// allocations survive with their state, and the only new allocation is
    /// `fresh`, which a resident loaded slot is distinct from.
    pub proof fn lemma_wf_pressure(&self, pm1: &PageManager, pm2: &PageManager, fresh: u64)
        requires
            self.wf(pm1),
            forall|g: u64|
                #[trigger] pm1.live(g) && pm1.spec_use_count(g) > 0 ==> pm2.live(g),
            forall|g: u64|
                #[trigger] pm2.live(g) && pm1.live(g) ==> pm2.contents(g) == pm1.contents(g)
                    && pm2.spec_use_count(g) == pm1.spec_use_count(g) && pm2.spec_payload_len(g)
                    == pm1.spec_payload_len(g),
            forall|g: u64| #[trigger] pm2.live(g) && g != fresh ==> pm1.live(g),
            self.is_loaded_state() ==> self.state_gen() != fresh,
        ensures
            self.wf(pm2),
    {
        match self.state {
            CacheState::Loading(l) => {
                assert(pm1.live(l.spec_gen()) && pm1.spec_use_count(l.spec_gen()) > 0);
                assert(pm2.live(l.spec_gen()));
            },
            CacheState::Loaded(w, sz) => {
                if pm2.live(w.spec_gen()) {
                    assert(pm1.live(w.spec_gen()));
                }
            },
            CacheState::Empty => {},
        }
    }

    /// The headroom precondition follows from a small pin count on the
    /// slot's own allocation.
    pub proof fn lemma_headroom(&self, pm: &PageManager)
        requires
            self.is_empty_state() || pm.spec_use_count(self.state_gen()) < u32::MAX,
        ensures
            self.use_headroom(pm),
    {
    }

    /// The cache stays well formed when a pin elsewhere is given back: the
    /// live set and every allocation's contents and payload stay, and a
    /// loading slot's own allocation keeps at least one pin.
    pub proof fn lemma_wf_after_release(&self, pm1: &PageManager, pm2: &PageManager)
        requires
            self.wf(pm1),
            forall|g: u64| #[trigger] pm2.live(g) <==> pm1.live(g),
            forall|g: u64|
                #[trigger] pm2.live(g) ==> pm2.contents(g) == pm1.contents(g)
                    && pm2.spec_payload_len(g) == pm1.spec_payload_len(g),
            self.is_loading_state() ==> pm2.spec_use_count(self.state_gen()) >= 1,
        ensures
            self.wf(pm2),
    {
        match self.state {
            CacheState::Loading(l) => {
                assert(pm1.live(l.spec_gen()));
                assert(pm2.live(l.spec_gen()));
            },
            CacheState::Loaded(w, sz) => {
                if pm2.live(w.spec_gen()) {
                    assert(pm1.live(w.spec_gen()));
                }
            },
            CacheState::Empty => {},
        }
    }

    /// A fresh, empty cache slot for the member `file` serves.
    pub fn new<F: File<Stream = R>>(file: &F) -> (c: Cache<R>)
        ensures
            c.spec_content() == file.content(),
            c.is_empty_state(),
            c.spec_open_count() == 0,
            forall|pm: PageManager| #[trigger] c.wf(&pm),
            forall|pm: PageManager| #[trigger] c.use_headroom(&pm),
    {
        Cache {
            size: None,
            state: CacheState::Empty,
            open_count: 0,
            content: Ghost(file.content()),
        }
    }
}


impl<R: SeekableRead> Cache<R> {
    /// The reader `lr` was handed out against this cache's current
    /// allocation and member.
    pub closed spec fn joins(&self, lr: LoadingReader) -> bool {
        &&& match self.state {
            CacheState::Loading(l) => l.spec_gen() == lr.spec_gen(),
            CacheState::Loaded(w, _) => w.spec_gen() == lr.spec_gen(),
            CacheState::Empty => false,
        }
        &&& lr.spec_content() == self.content@
    }

    /// Makes a reader over this member: from the finished allocation when
    /// one is resident, joining the loading state when one is in progress,
    /// and otherwise opening the member afresh.
    pub fn make_reader<F: File<Stream = R>>(&mut self, pm: &mut PageManager, file: &F) -> (r:
        Result<MemberReader, Error>)
        requires
            old(pm).wf(),
            old(self).wf(old(pm)),
            old(self).use_headroom(old(pm)),
            file.content() == old(self).spec_content(),
            old(self).spec_open_count() < u64::MAX,
        ensures
            final(pm).wf(),
            final(self).wf(final(pm)),
            final(self).spec_content() == old(self).spec_content(),
            final(pm).spec_capacity() == old(pm).spec_capacity(),
            forall|g: u64|
                old(pm).live(g) && old(pm).spec_use_count(g) > 0 ==> #[trigger] final(pm).live(g),
            forall|g: u64|
                #[trigger] final(pm).live(g) && old(pm).live(g) ==> final(pm).contents(g) == old(pm).contents(g) && final(pm).spec_payload_len(g) == old(pm).spec_payload_len(g),
            (old(self).serves_cached(old(pm)) || old(self).serves_loading()) ==> final(self).spec_open_count() == old(self).spec_open_count() && r is Ok,
            final(self).spec_open_count() <= old(self).spec_open_count() + 1,
            old(self).serves_cached(old(pm)) ==> (r matches Ok(mr) && mr is Cached),
            old(self).serves_loading() ==> (r matches Ok(mr) && mr is Loading),
            // what each serving state does to the shared allocation's pin count
            old(self).serves_loading() ==> final(self).is_loading_state() && final(self).state_gen() == old(self).state_gen() && final(pm).spec_use_count(old(self).state_gen()) == old(pm).spec_use_count(old(self).state_gen()) + 1,
            old(self).is_loaded_live(old(pm)) ==> final(self).is_loaded_state() && final(self).state_gen() == old(self).state_gen() && final(pm).spec_use_count(old(self).state_gen()) == old(pm).spec_use_count(old(self).state_gen()) + 1,
            old(self).is_loading_eof() ==> final(self).is_loaded_state() && final(self).state_gen() == old(self).state_gen() && final(pm).spec_use_count(old(self).state_gen()) == old(pm).spec_use_count(old(self).state_gen()),
            // a fresh open materializes: one more open, a fresh allocation
            // pinned by the loading state and the handed-out reader
            (old(self).needs_open(old(pm)) && r is Ok) ==> (final(self).is_loading_state()
                && final(self).spec_open_count() == old(self).spec_open_count() + 1 && !old(pm).live(final(self).state_gen()) && final(pm).spec_use_count(final(self).state_gen())
                == 2 && (r matches Ok(mr) && mr is Loading)),
            old(pm).spec_generations_used() <= final(pm).spec_generations_used() <= old(pm).spec_generations_used() + 1,
            r is Ok ==> final(pm).live(final(self).state_gen()),
            // every other resident allocation's pin count is untouched
            forall|g: u64|
                #[trigger] final(pm).live(g) && old(pm).live(g) && g != old(self).state_gen()
                    && g != final(self).state_gen() ==> final(pm).spec_use_count(g) == old(pm).spec_use_count(g),
            match r {
                Ok(mr) => {
                    &&& mr.wf(final(pm))
                    &&& mr.spec_content() == old(self).spec_content()
                    &&& mr.spec_pos() == 0
                    &&& mr.spec_size() == old(self).spec_content().len()
                    &&& mr.spec_gen() == final(self).state_gen()
                    &&& (mr matches MemberReader::Loading(lr) ==> final(self).joins(lr)
                        && final(self).is_loading_state())
                },
                Err(e) => {
                    &&& !old(self).serves_cached(old(pm))
                    &&& !old(self).serves_loading()
                    &&& final(self).is_empty_state()
                    &&& final(self).spec_open_count() == old(self).spec_open_count()
                    &&& (e is OutOfMemory ==> (old(self).spec_content().len() > usize::MAX
                        || spec_need_pages(old(self).spec_content().len() as int) > old(pm).spec_capacity() || (final(pm).spec_free_pages() < spec_need_pages(
                        old(self).spec_content().len() as int,
                    ) && (forall|g: u64|
                        #[trigger] final(pm).live(g) ==> final(pm).spec_use_count(g) > 0)) || old(pm).gen_exhausted()))
                },
            },
            // an oversized member cannot be materialized
            (old(self).needs_open(old(pm)) && (old(self).spec_content().len() > usize::MAX
                || spec_need_pages(old(self).spec_content().len() as int) > old(pm).spec_capacity())) ==> r is Err,
    {
        let ghost entry = *self;
        let ghost entrypm = *pm;
        // a finished loading state demotes to the loaded state
        let mut st = CacheState::Empty;
        core::mem::swap(&mut st, &mut self.state);
        match st {
            CacheState::Loading(l) => {
                if l.is_eof() {
                    proof {
                        assert(l.wf(pm));
                        assert(l.spec_cached() == l.spec_content().len());
                        assert(l.spec_content() == entry.spec_content());
                        assert(pm.contents(l.spec_gen()).subrange(0, l.spec_cached())
                            == l.spec_content().subrange(0, l.spec_cached()));
                        assert(l.spec_content().subrange(0, l.spec_content().len() as int)
                            =~= l.spec_content());
                        assert(pm.spec_use_count(l.spec_gen()) < u32::MAX);
                    }
                    let LoadingState { reader: _, cached_size, page, content: _ } = l;
                    let w = page.downgrade();
                    pm.release(page);
                    proof {
                        assert(pm.live(w.spec_gen()));
                        assert(pm.contents(w.spec_gen()) == entrypm.contents(w.spec_gen()));
                    }
                    self.state = CacheState::Loaded(w, cached_size);
                } else {
                    self.state = CacheState::Loading(l);
                }
            },
            other => {
                self.state = other;
            },
        }
        let ghost pm1 = *pm;
        let ghost self1 = *self;
        // a live loaded slot serves directly; a stale one resets
        let mut st = CacheState::Empty;
        core::mem::swap(&mut st, &mut self.state);
        let mut reset = false;
        match st {
            CacheState::Loaded(w, sz) => {
                let up = w.upgrade(pm);
                match up {
                    Some(rp) => {
                        proof {
                            let g = w.spec_gen();
                            assert(pm.live(g));
                            assert(pm1.live(g));
                            pm1.lemma_use_count_nonneg(g);
                            pm1.lemma_contents_len(g);
                            pm.lemma_contents_len(g);
                            assert(pm.contents(g) == pm1.contents(g));
                            assert(pm.spec_payload_len(g) == pm1.spec_payload_len(g));
                            assert(sz == self.content@.len());
                            assert(pm1.contents(g).subrange(0, sz as int) == self.content@);
                            assert(pm.contents(g).subrange(0, sz as int) == self.content@);
                            assert(sz <= pm.spec_payload_len(g));
                            assert(pm.spec_use_count(g) >= 1);
                        }
                        self.state = CacheState::Loaded(w, sz);
                        return Ok(
                            MemberReader::Cached(
                                CacheReader {
                                    size: sz,
                                    pos: 0,
                                    page: rp,
                                    content: Ghost(self.content@),
                                },
                            ),
                        );
                    },
                    None => {
                        proof {
                            assert(!pm1.live(w.spec_gen()));
                            assert(!entrypm.live(w.spec_gen()));
                        }
                        self.state = CacheState::Empty;
                    },
                }
            },
            other => {
                self.state = other;
            },
        }
        // an empty slot opens the member and begins loading
        let is_empty = match &self.state {
            CacheState::Empty => true,
            _ => false,
        };
        proof {
            if is_empty {
                assert(!entry.serves_cached(&entrypm) && !entry.serves_loading()) by {
                    match entry.state {
                        CacheState::Loading(l0) => {
                            if l0.is_eof_spec() {
                                assert(pm1.live(l0.spec_gen()));
                                assert(false);
                            } else {
                                assert(false);
                            }
                        },
                        CacheState::Loaded(w0, s0) => {
                            if entrypm.live(w0.spec_gen()) {
                                assert(false);
                            }
                        },
                        CacheState::Empty => {},
                    }
                }
            }
        }
        if is_empty {
            if self.size.is_none() {
                let a = match file.getattr() {
                    Ok(a) => a,
                    Err(e) => {
                        return Err(e);
                    },
                };
                if a.size > usize::MAX as u64 {
                    return Err(Error::OutOfMemory);
                }
                self.size = Some(a.size as usize);
            }
            let sz = match self.size {
                Some(s) => s,
                None => {
                    proof {
                        assert(false);
                    }
                    vstd::pervasive::unreached()
                },
            };
            let w = match pm.allocate(sz) {
                Some(w) => w,
                None => {
                    return Err(Error::OutOfMemory);
                },
            };
            let ghost pma = *pm;
            let stream = match file.open() {
                Ok(s) => s,
                Err(e) => {
                    return Err(e);
                },
            };
            self.open_count = self.open_count + 1;
            let rp = match w.upgrade(pm) {
                Some(rp) => rp,
                None => {
                    proof {
                        assert(false);
                    }
                    vstd::pervasive::unreached()
                },
            };
            self.state = CacheState::Loading(
                LoadingState {
                    reader: Some(stream),
                    cached_size: 0,
                    page: rp,
                    content: Ghost(self.content@),
                },
            );
            proof {
                let g = w.spec_gen();
                assert(pm.live(g));
                assert(pm.spec_payload_len(g) == pma.spec_payload_len(g));
                assert(pm.spec_payload_len(g) >= self.content@.len());
                assert(pm.spec_use_count(g) >= 1);
                assert(pm.contents(g).subrange(0, 0) =~= self.content@.subrange(0, 0));
                assert(self.wf(pm));
            }
        }
        // join the loading state
        proof {
            assert(self.wf(pm));
        }
        let ghost pmj = *pm;
        match &self.state {
            CacheState::Loading(l) => {
                let w2 = l.page.downgrade();
                proof {
                    pmj.lemma_use_count_nonneg(l.spec_gen());
                }
                let rp2 = match w2.upgrade(pm) {
                    Some(r) => r,
                    None => {
                        proof {
                            assert(false);
                        }
                        vstd::pervasive::unreached()
                    },
                };
                let sz = match self.size {
                    Some(s) => s,
                    None => {
                        proof {
                            assert(false);
                        }
                        vstd::pervasive::unreached()
                    },
                };
                proof {
                    let g = l.spec_gen();
                    assert(pm.live(g));
                    assert(pm.contents(g) == pmj.contents(g));
                    assert(pm.spec_payload_len(g) == pmj.spec_payload_len(g));
                    assert(pm.spec_use_count(g) >= 1);
                }
                Ok(
                    MemberReader::Loading(
                        LoadingReader { size: sz, pos: 0, page: rp2, content: Ghost(self.content@) },
                    ),
                )
            },
            _ => {
                proof {
                    assert(false);
                }
                vstd::pervasive::unreached()
            },
        }
    }

    /// Reads for a cooperative reader: drives the shared stream forward as
    /// far as the reader's position requires, then copies from the cached
    /// pages.
    pub fn read_shared(&mut self, lr: &mut LoadingReader, pm: &mut PageManager, len: usize) -> (r:
        Result<Vec<u8>, Error>)
        requires
            old(pm).wf(),
            old(self).wf(old(pm)),
            old(lr).wf(old(pm)),
            old(self).joins(*old(lr)),
        ensures
            final(pm).wf(),
            final(self).wf(final(pm)),
            final(lr).wf(final(pm)),
            final(self).joins(*final(lr)),
            final(self).spec_content() == old(self).spec_content(),
            final(self).spec_open_count() == old(self).spec_open_count(),
            final(self).is_loading_state() == old(self).is_loading_state(),
            final(self).is_loaded_state() == old(self).is_loaded_state(),
            final(self).is_empty_state() == old(self).is_empty_state(),
            final(self).state_gen() == old(self).state_gen(),
            final(lr).spec_content() == old(lr).spec_content(),
            final(lr).spec_size() == old(lr).spec_size(),
            final(lr).spec_gen() == old(lr).spec_gen(),
            final(pm).spec_capacity() == old(pm).spec_capacity(),
            final(pm).spec_free_pages() == old(pm).spec_free_pages(),
            final(pm).spec_generations_used() == old(pm).spec_generations_used(),
            forall|g: u64| #[trigger] final(pm).live(g) <==> old(pm).live(g),
            forall|g: u64|
                #[trigger] final(pm).live(g) ==> final(pm).spec_use_count(g) == old(pm).spec_use_count(g) && final(pm).spec_payload_len(g) == old(pm).spec_payload_len(
                    g,
                ),
            forall|g: u64|
                #[trigger] final(pm).live(g) && g != old(lr).spec_gen() ==> final(pm).contents(g)
                    == old(pm).contents(g),
            old(self).covers_read(old(lr).spec_pos(), len as int) ==> r is Ok,
            (r matches Ok(v) && old(self).is_loading_state() && v@.len() == 0 && len > 0 && old(lr).spec_size() < usize::MAX) ==> final(self).is_loading_eof(),
            match r {
                Ok(v) => {
                    &&& v@.len() == if old(lr).spec_pos() < old(lr).spec_size() {
                        vstd::math::min(len as int, old(lr).spec_size() - old(lr).spec_pos())
                    } else {
                        0int
                    }
                    &&& old(lr).spec_pos() < old(lr).spec_size() ==> v@ == old(lr).spec_content().subrange(
                        old(lr).spec_pos(),
                        old(lr).spec_pos() + v@.len(),
                    )
                    &&& final(lr).spec_pos() == old(lr).spec_pos() + v@.len()
                },
                Err(_) => final(lr).spec_pos() == old(lr).spec_pos(),
            },
    {
        let want = if len > usize::MAX - lr.pos {
            usize::MAX
        } else {
            lr.pos + len
        };
        match &mut self.state {
            CacheState::Loading(l) => {
                let res = l.read_to_at_least(pm, want);
                let cached = match res {
                    Ok(c) => c,
                    Err(e) => {
                        return Err(e);
                    },
                };
                if lr.pos >= cached {
                    proof {
                        if lr.spec_pos() < lr.spec_size() {
                            assert(len == 0);
                            assert(lr.spec_content().subrange(lr.spec_pos(), lr.spec_pos())
                                =~= Seq::<u8>::empty());
                        }
                    }
                    return Ok(Vec::new());
                }
                let n = if len < cached - lr.pos {
                    len
                } else {
                    cached - lr.pos
                };
                let ghost pm2 = *pm;
                let v = pm.read_range(&lr.page, lr.pos, n);
                proof {
                    let gen = lr.spec_gen();
                    assert(pm.live(gen));
                    pm2.lemma_contents_len(gen);
                    assert forall|t: int| 0 <= t < n implies v@[t] == lr.spec_content()[
                        lr.spec_pos() + t] by {
                        assert(v@[t] == pm2.contents(gen).subrange(
                            lr.spec_pos(),
                            lr.spec_pos() + n,
                        )[t]);
                        assert(pm2.contents(gen).subrange(0, l.spec_cached())[lr.spec_pos() + t]
                            == lr.spec_content()[lr.spec_pos() + t]);
                    }
                    assert(v@ =~= lr.spec_content().subrange(lr.spec_pos(), lr.spec_pos() + n));
                }
                lr.pos = lr.pos + n;
                Ok(v)
            },
            CacheState::Loaded(w, szr) => {
                let sz = *szr;
                if lr.pos >= sz {
                    return Ok(Vec::new());
                }
                let n = if len < sz - lr.pos {
                    len
                } else {
                    sz - lr.pos
                };
                let v = pm.read_range(&lr.page, lr.pos, n);
                proof {
                    let gen = lr.spec_gen();
                    assert(pm.live(gen));
                    old(pm).lemma_contents_len(gen);
                    assert forall|t: int| 0 <= t < n implies v@[t] == lr.spec_content()[
                        lr.spec_pos() + t] by {
                        assert(v@[t] == old(pm).contents(gen).subrange(
                            lr.spec_pos(),
                            lr.spec_pos() + n,
                        )[t]);
                        assert(old(pm).contents(gen).subrange(0, sz as int)[lr.spec_pos() + t]
                            == lr.spec_content()[lr.spec_pos() + t]);
                    }
                    assert(v@ =~= lr.spec_content().subrange(lr.spec_pos(), lr.spec_pos() + n));
                }
                lr.pos = lr.pos + n;
                Ok(v)
            },
            CacheState::Empty => {
                proof {
                    assert(false);
                }
                vstd::pervasive::unreached()
            },
        }
    }
}

impl MemberReader {
    pub open spec fn spec_pos(&self) -> int {
        match self {
            MemberReader::Cached(cr) => cr.spec_pos(),
            MemberReader::Loading(lr) => lr.spec_pos(),
        }
    }

    pub open spec fn spec_size(&self) -> int {
        match self {
            MemberReader::Cached(cr) => cr.spec_size(),
            MemberReader::Loading(lr) => lr.spec_size(),
        }
    }

    pub open spec fn spec_content(&self) -> Seq<u8> {
        match self {
            MemberReader::Cached(cr) => cr.spec_content(),
            MemberReader::Loading(lr) => lr.spec_content(),
        }
    }

    pub open spec fn spec_gen(&self) -> u64 {
        match self {
            MemberReader::Cached(cr) => cr.spec_gen(),
            MemberReader::Loading(lr) => lr.spec_gen(),
        }
    }

    pub open spec fn wf(&self, pm: &PageManager) -> bool {
        match self {
            MemberReader::Cached(cr) => cr.wf(pm),
            MemberReader::Loading(lr) => lr.wf(pm),
        }
    }

    /// Reads up to `len` bytes from the current position, cooperating with
    /// the member's cache when the member is still loading.
    pub fn read<R: SeekableRead>(
        &mut self,
        cache: &mut Cache<R>,
        pm: &mut PageManager,
        len: usize,
    ) -> (r: Result<Vec<u8>, Error>)
        requires
            old(pm).wf(),
            old(self).wf(old(pm)),
            old(cache).wf(old(pm)),
            (*old(self)) matches MemberReader::Loading(lr) ==> old(cache).joins(lr),
        ensures
            final(pm).wf(),
            final(self).wf(final(pm)),
            final(cache).wf(final(pm)),
            (*final(self)) is Cached <==> (*old(self)) is Cached,
            (*final(self)) matches MemberReader::Loading(lr) ==> ((*old(self)) is Loading
                ==> final(cache).joins(lr)),
            final(self).spec_content() == old(self).spec_content(),
            final(self).spec_size() == old(self).spec_size(),
            final(self).spec_gen() == old(self).spec_gen(),
            final(cache).spec_content() == old(cache).spec_content(),
            final(cache).spec_open_count() == old(cache).spec_open_count(),
            final(cache).is_loading_state() == old(cache).is_loading_state(),
            final(cache).is_loaded_state() == old(cache).is_loaded_state(),
            final(cache).is_empty_state() == old(cache).is_empty_state(),
            final(cache).state_gen() == old(cache).state_gen(),
            final(pm).spec_capacity() == old(pm).spec_capacity(),
            final(pm).spec_free_pages() == old(pm).spec_free_pages(),
            final(pm).spec_generations_used() == old(pm).spec_generations_used(),
            forall|g: u64| #[trigger] final(pm).live(g) <==> old(pm).live(g),
            forall|g: u64|
                #[trigger] final(pm).live(g) ==> final(pm).spec_use_count(g) == old(pm).spec_use_count(g) && final(pm).spec_payload_len(g) == old(pm).spec_payload_len(
                    g,
                ),
            forall|g: u64|
                #[trigger] final(pm).live(g) && g != old(self).spec_gen() ==> final(pm).contents(
                    g,
                ) == old(pm).contents(g),
            (*old(self)) is Cached ==> r is Ok,
            ((*old(self)) is Loading && old(cache).covers_read(old(self).spec_pos(), len as int))
                ==> r is Ok,
            (r matches Ok(v) && (*old(self)) is Loading && old(cache).is_loading_state()
                && v@.len() == 0 && len > 0 && old(self).spec_size() < usize::MAX) ==> final(cache).is_loading_eof(),
            match r {
                Ok(v) => {
                    &&& v@.len() == if old(self).spec_pos() < old(self).spec_size() {
                        vstd::math::min(len as int, old(self).spec_size() - old(self).spec_pos())
                    } else {
                        0int
                    }
                    &&& old(self).spec_pos() < old(self).spec_size() ==> v@ == old(self).spec_content().subrange(
                        old(self).spec_pos(),
                        old(self).spec_pos() + v@.len(),
                    )
                    &&& final(self).spec_pos() == old(self).spec_pos() + v@.len()
                },
                Err(_) => final(self).spec_pos() == old(self).spec_pos(),
            },
    {
        match self {
            MemberReader::Cached(cr) => {
                let r = cr.read(pm, len);
                proof {
                    cache.lemma_wf_frame(old(pm), pm);
                }
                r
            },
            MemberReader::Loading(lr) => cache.read_shared(lr, pm, len),
        }
    }

    /// Moves the read position; the reader stays valid against any page
    /// manager it was valid against.
    pub fn seek(&mut self, from: SeekFrom) -> (r: Result<u64, Error>)
        ensures
            final(self).spec_content() == old(self).spec_content(),
            final(self).spec_size() == old(self).spec_size(),
            final(self).spec_gen() == old(self).spec_gen(),
            (*final(self)) is Cached <==> (*old(self)) is Cached,
            forall|pm: PageManager| #[trigger] old(self).wf(&pm) ==> final(self).wf(&pm),
            seek_outcome(old(self).spec_pos(), old(self).spec_size(), from, r, final(self).spec_pos()),
    {
        match self {
            MemberReader::Cached(cr) => cr.seek(from),
            MemberReader::Loading(lr) => lr.seek(from),
        }
    }

    /// The reader stays valid across page-manager steps that keep pinned
    /// allocations resident with their contents, use counts and payload
    /// sizes.
    pub proof fn lemma_wf_frame(&self, pm1: &PageManager, pm2: &PageManager)
        requires
            self.wf(pm1),
            forall|g: u64|
                #[trigger] pm1.live(g) && pm1.spec_use_count(g) > 0 ==> pm2.live(g),
            forall|g: u64|
                #[trigger] pm2.live(g) && pm1.live(g) ==> pm2.contents(g) == pm1.contents(g)
                    && pm2.spec_use_count(g) == pm1.spec_use_count(g) && pm2.spec_payload_len(g)
                    == pm1.spec_payload_len(g),
        ensures
            self.wf(pm2),
    {
        match self {
            MemberReader::Cached(cr) => cr.lemma_wf_frame(pm1, pm2),
            MemberReader::Loading(lr) => lr.lemma_wf_frame(pm1, pm2),
        }
    }

    /// Gives the pin on the allocation back.
    pub fn close(self, pm: &mut PageManager)
        requires
            old(pm).wf(),
            self.wf(old(pm)),
        ensures
            final(pm).wf(),
            final(pm).spec_capacity() == old(pm).spec_capacity(),
            final(pm).spec_free_pages() == old(pm).spec_free_pages(),
            final(pm).spec_generations_used() == old(pm).spec_generations_used(),
            forall|g: u64| #[trigger] final(pm).live(g) <==> old(pm).live(g),
            forall|g: u64|
                #[trigger] final(pm).live(g) ==> final(pm).contents(g) == old(pm).contents(g)
                    && final(pm).spec_payload_len(g) == old(pm).spec_payload_len(g),
            forall|g: u64|
                #[trigger] final(pm).live(g) && g != self.spec_gen() ==> final(pm).spec_use_count(
                    g,
                ) == old(pm).spec_use_count(g),
            final(pm).spec_use_count(self.spec_gen()) == old(pm).spec_use_count(self.spec_gen())
                - 1,
    {
        match self {
            MemberReader::Cached(cr) => cr.close(pm),
            MemberReader::Loading(lr) => lr.close(pm),
        }
    }
}


impl<R: SeekableRead> Cache<R> {
    /// How often the underlying member was opened so far — each reader
    /// hands this through unchanged unless a fresh open was unavoidable.
    pub fn open_count(&self) -> (r: u64)
        ensures
            r == self.spec_open_count(),
    {
        self.open_count
    }
}

/// Round-trip identity over any seek-and-read schedule: reads that cover a
/// member's content from start to end — each yielding the exact byte range
/// between its cut points, as every reader's `read` ensures — concatenate
/// to exactly the member's content, whether the cut points were visited
/// in increasing order, in decreasing order, or one by one.
proof fn lemma_cuts_monotone(cuts: Seq<int>, n: int, i: int, j: int)
    requires
        n < cuts.len(),
        forall|k: int| 0 <= k < n ==> #[trigger] cuts[k] <= cuts[k + 1],
        0 <= i <= j <= n,
    ensures
        cuts[i] <= cuts[j],
    decreases j - i,
{
    if i < j {
        lemma_cuts_monotone(cuts, n, i, j - 1);
        assert(cuts[j - 1] <= cuts[j]);
    }
}

pub proof fn lemma_reads_concatenate(c: Seq<u8>, parts: Seq<Seq<u8>>, cuts: Seq<int>)
    requires
        cuts.len() == parts.len() + 1,
        cuts[0] == 0,
        cuts[cuts.len() - 1] == c.len(),
        forall|k: int| 0 <= k < parts.len() ==> 0 <= #[trigger] cuts[k] <= cuts[k + 1] <= c.len(),
        forall|k: int| 0 <= k < parts.len() ==> #[trigger] parts[k] == c.subrange(
            cuts[k],
            cuts[k + 1],
        ),
    ensures
        parts.flatten() == c,
    decreases parts.len(),
{
    if parts.len() == 0 {
        assert(parts.flatten() =~= c);
    } else {
        let rest = parts.drop_first();
        let restcuts = cuts.drop_first();
        let c2 = c.subrange(cuts[1], c.len() as int);
        let shifted = Seq::new(restcuts.len(), |k: int| restcuts[k] - cuts[1]);
        assert forall|k: int| 0 <= k < rest.len() implies 0 <= #[trigger] shifted[k]
            <= shifted[k + 1] <= c2.len() && rest[k] == c2.subrange(
            shifted[k],
            shifted[k + 1],
        ) by {
            assert(forall|kk: int| 0 <= kk < parts.len() ==> #[trigger] cuts[kk] <= cuts[kk + 1]);
            lemma_cuts_monotone(cuts, parts.len() as int, 1, k + 1);
            lemma_cuts_monotone(cuts, parts.len() as int, k + 1, parts.len() as int);
            assert(cuts[k + 1] <= cuts[k + 2]);
            assert(cuts[k + 2] <= c.len()) by {
                if k + 2 < cuts.len() - 1 {
                    lemma_cuts_monotone(
                        cuts,
                        parts.len() as int,
                        k + 2,
                        parts.len() as int,
                    );
                } else {
                }
            }
            assert(parts[k + 1] == c.subrange(cuts[k + 1], cuts[k + 2]));
            assert(c2.subrange(shifted[k], shifted[k + 1]) =~= c.subrange(
                cuts[k + 1],
                cuts[k + 2],
            ));
        }
        assert(cuts[0] <= cuts[1]);
        lemma_cuts_monotone(cuts, parts.len() as int, 1, parts.len() as int);
        assert(shifted[0] == 0);
        assert(shifted[shifted.len() - 1] == c2.len());
        lemma_reads_concatenate(c2, rest, shifted);
        assert(parts.flatten() == parts[0] + rest.flatten());
        assert(parts[0] + c2 =~= c);
    }
}

} // verus!\n