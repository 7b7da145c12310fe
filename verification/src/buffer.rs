//! The raw buffer: a fixed-size byte arena carved into uniform pages.  Its
//! view is the sequence of pages, each a sequence of `PAGE_SIZE` bytes.

use vstd::prelude::*;

verus! {

use crate::PAGE_SIZE;

/// A fixed arena of `PAGE_SIZE`-byte pages, created zero-filled.
pub struct Buffer {
    pages: Vec<Vec<u8>>,
}

impl Buffer {
    pub closed spec fn view(&self) -> Seq<Seq<u8>> {
        self.pages@.map_values(|p: Vec<u8>| p@)
    }

    /// Every page holds exactly `PAGE_SIZE` bytes.
    pub open spec fn wf(&self) -> bool {
        forall|i: int| 0 <= i < self@.len() ==> (#[trigger] self@[i]).len() == PAGE_SIZE
    }

    /// Makes an arena large enough for `size` bytes, rounded up to whole
    /// pages.
    pub fn new(size: usize) -> (r: Buffer)
        requires
            size + PAGE_SIZE <= usize::MAX,
        ensures
            r.wf(),
            r@.len() == (size + PAGE_SIZE - 1) as int / PAGE_SIZE as int,
    {
        let count: usize = (size + PAGE_SIZE - 1) / PAGE_SIZE;
        let mut pages: Vec<Vec<u8>> = Vec::new();
        while pages.len() < count
            invariant
                pages@.len() <= count,
                forall|i: int| 0 <= i < pages@.len() ==> (#[trigger] pages@[i])@.len()
                    == PAGE_SIZE,
            decreases count - pages@.len(),
        {
            let page: Vec<u8> = vec![0u8; PAGE_SIZE];
            pages.push(page);
        }
        let r = Buffer { pages };
        assert forall|i: int| 0 <= i < r@.len() implies (#[trigger] r@[i]).len()
            == PAGE_SIZE by {
            assert(r@[i] == r.pages@[i]@);
        }
        r
    }

    /// The number of pages.
    pub fn page_count(&self) -> (r: usize)
        ensures
            r == self@.len(),
    {
        self.pages.len()
    }

    /// Copies `len` bytes out of page `page`, starting at `offset`.
    pub fn read_range(&self, page: usize, offset: usize, len: usize) -> (r: Vec<u8>)
        requires
            self.wf(),
            page < self@.len(),
            offset + len <= PAGE_SIZE,
        ensures
            r@ == self@[page as int].subrange(offset as int, offset + len),
    {
        assert(self@[page as int] == self.pages@[page as int]@);
        let mut out: Vec<u8> = Vec::new();
        let mut i: usize = 0;
        while i < len
            invariant
                i <= len,
                page < self.pages@.len(),
                offset + len <= PAGE_SIZE,
                offset + len <= self.pages@[page as int]@.len(),
                out@ =~= self.pages@[page as int]@.subrange(offset as int, offset + i),
            decreases len - i,
        {
            out.push(self.pages[page][offset + i]);
            i = i + 1;
        }
        assert(out@ =~= self@[page as int].subrange(offset as int, offset + len));
        out
    }

    /// Overwrites part of page `page`, starting at `offset`, with `data`.
    /// Other pages and the rest of this page are unchanged.
    pub fn write_range(&mut self, page: usize, offset: usize, data: &Vec<u8>)
        requires
            old(self).wf(),
            page < old(self)@.len(),
            offset + data@.len() <= PAGE_SIZE,
        ensures
            final(self).wf(),
            final(self)@.len() == old(self)@.len(),
            final(self)@[page as int] =~= old(self)@[page as int].subrange(0, offset as int)
                + data@ + old(self)@[page as int].subrange(
                offset + data@.len(),
                PAGE_SIZE as int,
            ),
            forall|i: int| 0 <= i < old(self)@.len() && i != page ==> final(self)@[i]
                == old(self)@[i],
    {
        assert(old(self)@[page as int] == self.pages@[page as int]@);
        let mut newpage: Vec<u8> = Vec::new();
        let mut i: usize = 0;
        while i < offset
            invariant
                i <= offset,
                self == old(self),
                page < self.pages@.len(),
                offset + data@.len() <= PAGE_SIZE,
                offset + data@.len() <= self.pages@[page as int]@.len(),
                newpage@ =~= self.pages@[page as int]@.subrange(0, i as int),
            decreases offset - i,
        {
            newpage.push(self.pages[page][i]);
            i = i + 1;
        }
        let mut j: usize = 0;
        while j < data.len()
            invariant
                j <= data@.len(),
                self == old(self),
                page < self.pages@.len(),
                offset + data@.len() <= PAGE_SIZE,
                offset + data@.len() <= self.pages@[page as int]@.len(),
                newpage@ =~= self.pages@[page as int]@.subrange(0, offset as int)
                    + data@.subrange(0, j as int),
            decreases data@.len() - j,
        {
            newpage.push(data[j]);
            j = j + 1;
        }
        let mut k: usize = offset + data.len();
        while k < PAGE_SIZE
            invariant
                offset + data@.len() <= k <= PAGE_SIZE,
                self == old(self),
                page < self.pages@.len(),
                self.pages@[page as int]@.len() == PAGE_SIZE,
                newpage@ =~= self.pages@[page as int]@.subrange(0, offset as int) + data@
                    + self.pages@[page as int]@.subrange(offset + data@.len(), k as int),
            decreases PAGE_SIZE - k,
        {
            newpage.push(self.pages[page][k]);
            k = k + 1;
        }
        self.pages[page] = newpage;
        assert(self@ =~= old(self)@.update(page as int, self.pages@[page as int]@));
    }
}

} // verus!
