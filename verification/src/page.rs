//! The page pool: the free-run allocator, the allocated-page headers with
//! their embed / direct / relative maps, the LRU with victim eviction, and
//! the weak / strong page references.

use vstd::prelude::*;

verus! {

use vstd::set_lib::lemma_int_range;
use vstd::set_lib::lemma_len_subset;
use vstd::set_lib::set_int_range;
use crate::PAGE_SIZE;
use crate::buffer::Buffer;
use crate::link::LinkHead;

/// How many page offsets one whole page can hold (`PAGE_SIZE / 4`).
pub const PAGE_MAP_LEN: usize = 1024;

/// Bytes of an allocation's header page reserved for the header itself.
pub const HEADER_BYTES: usize = 48;

/// Bytes of payload the header page can embed after the header.
pub const EMBED_SIZE: usize = PAGE_SIZE - HEADER_BYTES;

/// Page offsets the embedded map can hold.
pub const EMBED_MAP_LEN: usize = EMBED_SIZE / 4;

/// Data pages needed for a payload of `bytes` bytes; zero when the payload
/// embeds in the header page.
pub open spec fn spec_data_pages(bytes: int) -> int {
    if bytes <= EMBED_SIZE {
        0
    } else {
        (bytes + PAGE_SIZE - 1) / (PAGE_SIZE as int)
    }
}

/// Indirection pages needed on top of `spec_data_pages(bytes)` data pages.
pub open spec fn spec_rel_pages(bytes: int) -> int {
    if spec_data_pages(bytes) <= EMBED_MAP_LEN {
        0
    } else {
        (spec_data_pages(bytes) + PAGE_MAP_LEN - 1) / (PAGE_MAP_LEN as int)
    }
}

/// Whole pages an allocation for `bytes` bytes consumes: header,
/// indirection, data.
pub open spec fn spec_need_pages(bytes: int) -> int {
    1 + spec_rel_pages(bytes) + spec_data_pages(bytes)
}

/// A run of consecutive free pages, `top` included, `top + count` excluded.
/// In the arena the run's bookkeeping would sit in its last page; here the
/// run is carried by the free list itself.
#[derive(Clone, Copy, Debug, PartialEq, Eq, Structural)]
pub struct FreePage {
    pub top: u32,
    pub count: usize,
}

impl FreePage {
    /// The pages of this run.
    pub open spec fn pages(self) -> Set<int> {
        set_int_range(self.top as int, self.top + self.count)
    }
}

/// The free-list allocator over the arena's pages.  Hands out single pages
/// from the front run; freeing coalesces with the front run when the freed
/// page sits directly below its top.
pub struct PageAllocator {
    free_list: LinkHead<FreePage>,
    free_count: usize,
    capacity: usize,
}

impl PageAllocator {
    pub closed spec fn runs(&self) -> Seq<FreePage> {
        self.free_list@
    }

    /// The pages currently free.
    pub open spec fn free_set(&self) -> Set<int> {
        Set::new(
            |p: int|
                exists|k: int|
                    0 <= k < self.runs().len() && (#[trigger] self.runs()[k]).pages().contains(p),
        )
    }

    pub closed spec fn spec_free_count(&self) -> int {
        self.free_count as int
    }

    pub closed spec fn spec_capacity(&self) -> int {
        self.capacity as int
    }

    pub open spec fn wf(&self) -> bool {
        &&& self.spec_capacity() <= u32::MAX
        &&& forall|k: int| 0 <= k < self.runs().len() ==> (#[trigger] self.runs()[k]).count >= 1
        &&& forall|k: int|
            0 <= k < self.runs().len() ==> (#[trigger] self.runs()[k]).top + self.runs()[k].count
                <= self.spec_capacity()
        &&& forall|k1: int, k2: int|
            0 <= k1 < self.runs().len() && 0 <= k2 < self.runs().len() && k1 != k2 ==> (
            #[trigger] self.runs()[k1]).pages().disjoint((#[trigger] self.runs()[k2]).pages())
        &&& self.free_set().finite()
        &&& self.free_set().len() == self.spec_free_count()
    }

    proof fn lemma_free_subset_capacity(&self)
        requires
            self.wf(),
        ensures
            self.free_set() <= set_int_range(0, self.spec_capacity()),
            self.spec_free_count() <= self.spec_capacity(),
    {
        assert forall|p: int| self.free_set().contains(p) implies set_int_range(
            0,
            self.spec_capacity(),
        ).contains(p) by {
            let k = choose|k: int|
                0 <= k < self.runs().len() && (#[trigger] self.runs()[k]).pages().contains(p);
            assert(self.runs()[k].top + self.runs()[k].count <= self.spec_capacity());
        }
        lemma_int_range(0, self.spec_capacity());
        lemma_len_subset(self.free_set(), set_int_range(0, self.spec_capacity()));
    }

    /// Starts with the whole arena free: one run of `max_pages` pages.
    pub fn new(max_pages: usize) -> (r: PageAllocator)
        requires
            max_pages <= u32::MAX,
        ensures
            r.wf(),
            r.spec_capacity() == max_pages,
            r.spec_free_count() == max_pages,
            r.free_set() =~= set_int_range(0, max_pages as int),
    {
        let mut list: LinkHead<FreePage> = LinkHead::new();
        if max_pages > 0 {
            list.push_front(FreePage { top: 0, count: max_pages });
        }
        let r = PageAllocator { free_list: list, free_count: max_pages, capacity: max_pages };
        proof {
            lemma_int_range(0, max_pages as int);
            if max_pages > 0 {
                assert forall|p: int| set_int_range(0, max_pages as int).contains(p)
                    implies r.free_set().contains(p) by {
                    assert(r.runs()[0].pages().contains(p));
                }
                assert(r.free_set() =~= set_int_range(0, max_pages as int));
            } else {
                assert(r.free_set() =~= Set::<int>::empty());
            }
        }
        r
    }

    /// How many pages are free.
    pub fn free_pages(&self) -> (r: usize)
        ensures
            r == self.spec_free_count(),
    {
        self.free_count
    }

    /// Takes one page from the front run, or reports exhaustion.
    pub fn allocate(&mut self) -> (r: Option<u32>)
        requires
            old(self).wf(),
        ensures
            final(self).wf(),
            final(self).spec_capacity() == old(self).spec_capacity(),
            match r {
                Some(p) => {
                    &&& old(self).free_set().contains(p as int)
                    &&& p < old(self).spec_capacity()
                    &&& final(self).free_set() =~= old(self).free_set().remove(p as int)
                    &&& final(self).spec_free_count() == old(self).spec_free_count() - 1
                },
                None => {
                    &&& old(self).spec_free_count() == 0
                    &&& *final(self) == *old(self)
                },
            },
    {
        if self.free_count == 0 {
            return None;
        }
        proof {
            if self.free_list@.len() == 0 {
                assert(self.free_set() =~= Set::<int>::empty());
            }
        }
        let front: FreePage = *self.free_list.get(0);
        let taken: u32 = front.top;
        let ghost oldself = *self;
        proof {
            assert(oldself.runs()[0].pages().contains(taken as int));
            assert(oldself.free_set().contains(taken as int));
        }
        if front.count == 1 {
            self.free_list.unlink(0);
            proof {
                assert forall|p: int| self.free_set().contains(p) implies oldself
                    .free_set().remove(taken as int).contains(p) by {
                    let k = choose|k: int|
                        0 <= k < self.runs().len() && (#[trigger] self.runs()[k])
                            .pages().contains(p);
                    assert(oldself.runs()[k + 1].pages().contains(p));
                    assert(oldself.runs()[0].pages().disjoint(oldself.runs()[k + 1].pages()));
                }
                assert forall|p: int| oldself.free_set().remove(taken as int).contains(p)
                    implies self.free_set().contains(p) by {
                    let k = choose|k: int|
                        0 <= k < oldself.runs().len() && (#[trigger] oldself.runs()[k])
                            .pages().contains(p);
                    if k == 0 {
                        assert(p == taken as int);
                    } else {
                        assert(self.runs()[k - 1].pages().contains(p));
                    }
                }
                assert(self.free_set() =~= oldself.free_set().remove(taken as int));
            }
        } else {
            let updated = FreePage { top: front.top + 1, count: front.count - 1 };
            let slot = self.free_list.get_mut(0);
            *slot = updated;
            proof {
                assert forall|p: int| self.free_set().contains(p) implies oldself
                    .free_set().remove(taken as int).contains(p) by {
                    let k = choose|k: int|
                        0 <= k < self.runs().len() && (#[trigger] self.runs()[k])
                            .pages().contains(p);
                    assert(oldself.runs()[k].pages().contains(p));
                    if k != 0 {
                        assert(oldself.runs()[0].pages().disjoint(oldself.runs()[k].pages()));
                        assert(p != taken as int);
                    }
                }
                assert forall|p: int| oldself.free_set().remove(taken as int).contains(p)
                    implies self.free_set().contains(p) by {
                    let k = choose|k: int|
                        0 <= k < oldself.runs().len() && (#[trigger] oldself.runs()[k])
                            .pages().contains(p);
                    assert(self.runs()[k].pages().contains(p));
                }
                assert(self.free_set() =~= oldself.free_set().remove(taken as int));
            }
        }
        self.free_count = self.free_count - 1;
        Some(taken)
    }

    /// Returns `page` to the free list: extends the front run in place when
    /// `page` sits directly below its top, otherwise links a new
    /// single-page run at the front.
    pub fn free(&mut self, page: u32)
        requires
            old(self).wf(),
            page < old(self).spec_capacity(),
            !old(self).free_set().contains(page as int),
        ensures
            final(self).wf(),
            final(self).spec_capacity() == old(self).spec_capacity(),
            final(self).free_set() =~= old(self).free_set().insert(page as int),
            final(self).spec_free_count() == old(self).spec_free_count() + 1,
    {
        proof {
            self.lemma_free_subset_capacity();
            lemma_int_range(0, self.spec_capacity());
            assert(self.free_set().subset_of(
                set_int_range(0, self.spec_capacity()).remove(page as int),
            ));
            lemma_len_subset(
                self.free_set(),
                set_int_range(0, self.spec_capacity()).remove(page as int),
            );
        }
        let ghost oldself = *self;
        if !self.free_list.is_empty() {
            let front: FreePage = *self.free_list.get(0);
            if page + 1 == front.top {
                let updated = FreePage { top: page, count: front.count + 1 };
                let slot = self.free_list.get_mut(0);
                *slot = updated;
                self.free_count = self.free_count + 1;
                proof {
                    assert forall|p: int| self.free_set().contains(p) implies oldself
                        .free_set().insert(page as int).contains(p) by {
                        let k = choose|k: int|
                            0 <= k < self.runs().len() && (#[trigger] self.runs()[k])
                                .pages().contains(p);
                        if k == 0 {
                            if p != page as int {
                                assert(oldself.runs()[0].pages().contains(p));
                            }
                        } else {
                            assert(oldself.runs()[k].pages().contains(p));
                        }
                    }
                    assert forall|p: int| oldself.free_set().insert(page as int).contains(p)
                        implies self.free_set().contains(p) by {
                        if p == page as int {
                            assert(self.runs()[0].pages().contains(p));
                        } else {
                            let k = choose|k: int|
                                0 <= k < oldself.runs().len() && (#[trigger] oldself.runs()[k])
                                    .pages().contains(p);
                            assert(self.runs()[k].pages().contains(p));
                        }
                    }
                    assert(self.free_set() =~= oldself.free_set().insert(page as int));
                    assert forall|k1: int, k2: int|
                        0 <= k1 < self.runs().len() && 0 <= k2 < self.runs().len()
                            && k1 != k2 implies (#[trigger] self.runs()[k1]).pages()
                        .disjoint((#[trigger] self.runs()[k2]).pages()) by {
                        assert forall|p: int|
                            self.runs()[k1].pages().contains(p) && self.runs()[k2]
                                .pages().contains(p) implies false by {
                            if k1 == 0 || k2 == 0 {
                                if p == page as int {
                                    let ko = if k1 == 0 {
                                        k2
                                    } else {
                                        k1
                                    };
                                    assert(oldself.runs()[ko].pages().contains(p));
                                    assert(oldself.free_set().contains(p));
                                } else {
                                    assert(oldself.runs()[k1].pages().contains(p));
                                    assert(oldself.runs()[k2].pages().contains(p));
                                }
                            } else {
                                assert(oldself.runs()[k1].pages().contains(p));
                                assert(oldself.runs()[k2].pages().contains(p));
                            }
                        }
                    }
                }
                return ;
            }
        }
        self.free_list.push_front(FreePage { top: page, count: 1 });
        self.free_count = self.free_count + 1;
        proof {
            assert forall|p: int| self.free_set().contains(p) implies oldself.free_set()
                .insert(page as int).contains(p) by {
                let k = choose|k: int|
                    0 <= k < self.runs().len() && (#[trigger] self.runs()[k])
                        .pages().contains(p);
                if k == 0 {
                    assert(p == page as int);
                } else {
                    assert(oldself.runs()[k - 1].pages().contains(p));
                }
            }
            assert forall|p: int| oldself.free_set().insert(page as int).contains(p)
                implies self.free_set().contains(p) by {
                if p == page as int {
                    assert(self.runs()[0].pages().contains(p));
                } else {
                    let k = choose|k: int|
                        0 <= k < oldself.runs().len() && (#[trigger] oldself.runs()[k])
                            .pages().contains(p);
                    assert(self.runs()[k + 1].pages().contains(p));
                }
            }
            assert(self.free_set() =~= oldself.free_set().insert(page as int));
            assert forall|k1: int, k2: int|
                0 <= k1 < self.runs().len() && 0 <= k2 < self.runs().len() && k1
                    != k2 implies (#[trigger] self.runs()[k1]).pages().disjoint(
                (#[trigger] self.runs()[k2]).pages()) by {
                assert forall|p: int|
                    self.runs()[k1].pages().contains(p) && self.runs()[k2]
                        .pages().contains(p) implies false by {
                    if k1 == 0 || k2 == 0 {
                        let ko = if k1 == 0 {
                            k2
                        } else {
                            k1
                        };
                        assert(p == page as int);
                        assert(oldself.runs()[ko - 1].pages().contains(p));
                        assert(oldself.free_set().contains(p));
                    } else {
                        assert(oldself.runs()[k1 - 1].pages().contains(p));
                        assert(oldself.runs()[k2 - 1].pages().contains(p));
                    }
                }
            }
        }
    }
}


proof fn lemma_div_ceil(x: int, d: int)
    requires
        0 < d,
        0 <= x,
    ensures
        (x + d - 1) / d == x / d + if x % d == 0 {
            0int
        } else {
            1int
        },
{
    vstd::arithmetic::div_mod::lemma_fundamental_div_mod(x, d);
    let q = x / d;
    let r = x % d;
    if r == 0 {
        assert(x + d - 1 == q * d + (d - 1)) by (nonlinear_arith)
            requires
                x == d * q + r,
                r == 0,
                d > 0,
        ;
        vstd::arithmetic::div_mod::lemma_fundamental_div_mod_converse_div(x + d - 1, d, q, d - 1);
    } else {
        assert(x + d - 1 == (q + 1) * d + (r - 1)) by (nonlinear_arith)
            requires
                x == d * q + r,
                0 < r < d,
        ;
        vstd::arithmetic::div_mod::lemma_fundamental_div_mod_converse_div(x + d - 1, d, q + 1, r - 1);
    }
}

/// The header of one allocation: the pages it owns and its place in the
/// LRU.  The payload embeds in the header page (`data_pages == 0`), sits in
/// directly mapped data pages, or is reached through indirection pages when
/// the direct map would not fit the embedded area.
pub struct AllocatedPage {
    header_page: u32,
    rel_map: Vec<u32>,
    data_map: Vec<u32>,
    data_pages: u32,
    use_count: u32,
    gen: u64,
}

impl AllocatedPage {
    /// The payload lives in the header page itself.
    pub closed spec fn is_embed(self) -> bool {
        self.data_pages == 0
    }

    /// The payload is reached through indirection pages.
    pub closed spec fn is_relative(self) -> bool {
        self.data_pages > EMBED_MAP_LEN
    }

    /// Every page this allocation owns: header first, then indirection,
    /// then data.
    pub closed spec fn spec_all_pages(self) -> Seq<u32> {
        seq![self.header_page] + self.rel_map@ + self.data_map@
    }

    pub open spec fn owns(self, p: int) -> bool {
        exists|k: int|
            0 <= k < self.spec_all_pages().len() && (#[trigger] self.spec_all_pages()[k]) as int
                == p
    }

    /// Pages consumed in all: header, indirection, data.
    pub closed spec fn total_pages(self) -> int {
        1 + self.rel_map@.len() + self.data_map@.len() as int
    }

    /// Bytes of payload the allocation can hold.
    pub closed spec fn payload_len(self) -> int {
        if self.is_embed() {
            EMBED_SIZE as int
        } else {
            self.data_pages * (PAGE_SIZE as int)
        }
    }

    pub closed spec fn spec_gen(self) -> u64 {
        self.gen
    }

    pub closed spec fn spec_use_count(self) -> u32 {
        self.use_count
    }

    pub closed spec fn wf(self, capacity: int) -> bool {
        &&& self.data_map@.len() == self.data_pages
        &&& self.rel_map@.len() == if self.data_pages <= EMBED_MAP_LEN {
            0int
        } else {
            (self.data_pages + PAGE_MAP_LEN - 1) as int / (PAGE_MAP_LEN as int)
        }
        &&& forall|k: int|
            0 <= k < self.spec_all_pages().len() ==> (#[trigger] self.spec_all_pages()[k])
                < capacity
        &&& forall|k1: int, k2: int|
            0 <= k1 < self.spec_all_pages().len() && 0 <= k2 < self.spec_all_pages().len() && k1
                != k2 ==> self.spec_all_pages()[k1] != self.spec_all_pages()[k2]
        &&& self.total_pages() <= capacity
    }

    /// Bytes the header page can embed.
    pub fn embed_size() -> (r: usize)
        ensures
            r == EMBED_SIZE,
    {
        EMBED_SIZE
    }

    /// Page offsets the embedded map can hold.
    pub fn embed_map_len() -> (r: usize)
        ensures
            r == EMBED_MAP_LEN,
    {
        EMBED_MAP_LEN
    }

    /// Data and indirection pages needed for a payload of `bytes` bytes.
    pub fn calc_page_count(bytes: usize) -> (r: (usize, usize))
        ensures
            r.0 == spec_data_pages(bytes as int),
            r.1 == spec_rel_pages(bytes as int),
            r.0 <= bytes as int / (PAGE_SIZE as int) + 1,
            r.1 <= r.0,
    {
        let data_pages: usize = if bytes <= EMBED_SIZE {
            0
        } else {
            proof {
                lemma_div_ceil(bytes as int, PAGE_SIZE as int);
            }
            bytes / PAGE_SIZE + if bytes % PAGE_SIZE > 0 {
                1
            } else {
                0
            }
        };
        let rel_map_pages: usize = if data_pages <= EMBED_MAP_LEN {
            0
        } else {
            proof {
                lemma_div_ceil(data_pages as int, PAGE_MAP_LEN as int);
            }
            data_pages / PAGE_MAP_LEN + if data_pages % PAGE_MAP_LEN > 0 {
                1
            } else {
                0
            }
        };
        (data_pages, rel_map_pages)
    }

    /// Pages an allocation for `bytes` bytes needs: header, indirection,
    /// data.
    pub fn need_pages(bytes: usize) -> (r: u64)
        ensures
            r == spec_need_pages(bytes as int),
    {
        let (d, m) = AllocatedPage::calc_page_count(bytes);
        1 + (d as u64) + (m as u64)
    }

    /// Pages this allocation consumes.
    pub fn all_pages(&self) -> (r: usize)
        requires
            self.total_pages() <= usize::MAX,
        ensures
            r == self.total_pages(),
    {
        1 + self.rel_map.len() + self.data_map.len()
    }

    /// Whether the payload embeds in the header page.
    pub fn is_embed_page(&self) -> (r: bool)
        ensures
            r == self.is_embed(),
    {
        self.data_pages == 0
    }

    /// Whether the allocation goes through indirection pages.
    pub fn is_relative_using(&self) -> (r: bool)
        ensures
            r == self.is_relative(),
    {
        self.data_pages as usize > EMBED_MAP_LEN
    }

    /// Notes one more strong reference.
    fn inc_use(&mut self)
        requires
            old(self).spec_use_count() < u32::MAX,
        ensures
            final(self).spec_use_count() == old(self).spec_use_count() + 1,
            final(self).gen == old(self).gen,
            final(self).header_page == old(self).header_page,
            final(self).rel_map == old(self).rel_map,
            final(self).data_map == old(self).data_map,
            final(self).data_pages == old(self).data_pages,
    {
        self.use_count = self.use_count + 1;
    }

    /// Notes one strong reference gone.
    fn dec_use(&mut self)
        requires
            old(self).spec_use_count() >= 1,
        ensures
            final(self).spec_use_count() == old(self).spec_use_count() - 1,
            final(self).gen == old(self).gen,
            final(self).header_page == old(self).header_page,
            final(self).rel_map == old(self).rel_map,
            final(self).data_map == old(self).data_map,
            final(self).data_pages == old(self).data_pages,
    {
        self.use_count = self.use_count - 1;
    }

    /// Whether a strong reference pins this allocation.
    pub fn is_used(&self) -> (r: bool)
        ensures
            r == (self.spec_use_count() > 0),
    {
        self.use_count > 0
    }
}


/// Sum of the page totals of the headers in `s`.
pub open spec fn pages_sum(s: Seq<AllocatedPage>) -> int
    decreases s.len(),
{
    if s.len() == 0 {
        0
    } else {
        s[0].total_pages() + pages_sum(s.drop_first())
    }
}

proof fn lemma_pages_sum_nonneg(s: Seq<AllocatedPage>)
    ensures
        pages_sum(s) >= 0,
    decreases s.len(),
{
    if s.len() > 0 {
        lemma_pages_sum_nonneg(s.drop_first());
    }
}

proof fn lemma_pages_sum_remove(s: Seq<AllocatedPage>, k: int)
    requires
        0 <= k < s.len(),
    ensures
        pages_sum(s.remove(k)) == pages_sum(s) - s[k].total_pages(),
    decreases s.len(),
{
    if k == 0 {
        assert(s.remove(0) =~= s.drop_first());
    } else {
        lemma_pages_sum_remove(s.drop_first(), k - 1);
        assert(s.remove(k).drop_first() =~= s.drop_first().remove(k - 1));
        assert(pages_sum(s.remove(k)) == s[0].total_pages() + pages_sum(
            s.remove(k).drop_first(),
        ));
    }
}

proof fn lemma_pages_sum_update(s: Seq<AllocatedPage>, k: int, x: AllocatedPage)
    requires
        0 <= k < s.len(),
        x.total_pages() == s[k].total_pages(),
    ensures
        pages_sum(s.update(k, x)) == pages_sum(s),
    decreases s.len(),
{
    if k == 0 {
        assert(s.update(0, x).drop_first() =~= s.drop_first());
    } else {
        lemma_pages_sum_update(s.drop_first(), k - 1, x);
        assert(s.update(k, x).drop_first() =~= s.drop_first().update(k - 1, x));
        assert(pages_sum(s.update(k, x)) == s.update(k, x)[0].total_pages() + pages_sum(
            s.update(k, x).drop_first(),
        ));
    }
}

/// The payload contents of the data pages `m`, in order, over the arena
/// pages `b`.
pub open spec fn data_contents(b: Seq<Seq<u8>>, m: Seq<u32>) -> Seq<u8>
    decreases m.len(),
{
    if m.len() == 0 {
        Seq::empty()
    } else {
        b[m[0] as int] + data_contents(b, m.drop_first())
    }
}

/// The payload contents of an allocation over the arena pages `b`.
pub closed spec fn hdr_contents(h: AllocatedPage, b: Seq<Seq<u8>>) -> Seq<u8> {
    if h.is_embed() {
        b[h.header_page as int].subrange(HEADER_BYTES as int, PAGE_SIZE as int)
    } else {
        data_contents(b, h.data_map@)
    }
}

/// A weak reference to an allocation: refuses to upgrade once the
/// allocation was evicted.
#[derive(Clone, Copy, Debug)]
pub struct WeakRefPage {
    gen: u64,
}

impl WeakRefPage {
    pub closed spec fn spec_gen(&self) -> u64 {
        self.gen
    }
}

/// A strong reference to an allocation: while held, the allocation cannot
/// be evicted.  Released explicitly through `PageManager::release`.
#[derive(Debug)]
pub struct RefPage {
    gen: u64,
}

impl RefPage {
    pub closed spec fn spec_gen(&self) -> u64 {
        self.gen
    }

    /// A weak reference to the same allocation.
    pub fn downgrade(&self) -> (r: WeakRefPage)
        ensures
            r.spec_gen() == self.spec_gen(),
    {
        WeakRefPage { gen: self.gen }
    }
}

/// The public entry to the page pool: allocates multi-page regions, evicts
/// least-recently-used unused victims under pressure, and hands out weak
/// and strong references.
pub struct PageManager {
    buffer: Buffer,
    allocator: PageAllocator,
    use_page_lru: LinkHead<AllocatedPage>,
    next_gen: u64,
}

impl PageManager {
    pub closed spec fn hdrs(&self) -> Seq<AllocatedPage> {
        self.use_page_lru@
    }

    /// Pages the arena holds in all.
    pub closed spec fn spec_capacity(&self) -> int {
        self.allocator.spec_capacity()
    }

    /// Pages currently free.
    pub closed spec fn spec_free_pages(&self) -> int {
        self.allocator.spec_free_count()
    }

    /// Whether the allocation `gen` is still resident.
    pub closed spec fn live(&self, gen: u64) -> bool {
        exists|k: int| 0 <= k < self.hdrs().len() && (#[trigger] self.hdrs()[k]).gen == gen
    }

    /// The allocation's LRU position: zero is the most recently used, the
    /// largest position the least recently used.
    pub closed spec fn idx(&self, gen: u64) -> int {
        choose|k: int| 0 <= k < self.hdrs().len() && (#[trigger] self.hdrs()[k]).gen == gen
    }

    /// Live strong references to the allocation `gen`.
    pub closed spec fn spec_use_count(&self, gen: u64) -> int {
        self.hdrs()[self.idx(gen)].use_count as int
    }

    /// Bytes of payload the allocation `gen` holds.
    pub closed spec fn spec_payload_len(&self, gen: u64) -> int {
        self.hdrs()[self.idx(gen)].payload_len()
    }

    /// The payload bytes of the allocation `gen`.
    pub closed spec fn contents(&self, gen: u64) -> Seq<u8> {
        hdr_contents(self.hdrs()[self.idx(gen)], self.buffer@)
    }

    /// How many allocations were ever made: each takes one generation
    /// number.
    pub closed spec fn spec_generations_used(&self) -> int {
        self.next_gen as int
    }

    /// No further generation numbers remain; practically unreachable.
    pub open spec fn gen_exhausted(&self) -> bool {
        self.spec_generations_used() == u64::MAX as int
    }

    pub closed spec fn wf(&self) -> bool {
        &&& self.buffer.wf()
        &&& self.buffer@.len() == self.spec_capacity()
        &&& self.allocator.wf()
        &&& forall|k: int|
            0 <= k < self.hdrs().len() ==> (#[trigger] self.hdrs()[k]).wf(self.spec_capacity())
        &&& forall|k1: int, k2: int|
            0 <= k1 < self.hdrs().len() && 0 <= k2 < self.hdrs().len() && k1 != k2 ==> (
            #[trigger] self.hdrs()[k1]).gen != (#[trigger] self.hdrs()[k2]).gen
        &&& forall|k: int|
            0 <= k < self.hdrs().len() ==> (#[trigger] self.hdrs()[k]).gen < self.next_gen
        &&& forall|k1: int, k2: int, p: int|
            0 <= k1 < self.hdrs().len() && 0 <= k2 < self.hdrs().len() && k1 != k2 ==> !((
            #[trigger] self.hdrs()[k1].owns(p)) && (#[trigger] self.hdrs()[k2].owns(p)))
        &&& forall|k: int, p: int|
            0 <= k < self.hdrs().len() && (#[trigger] self.hdrs()[k].owns(p))
                ==> !self.allocator.free_set().contains(p)
        &&& self.spec_capacity() * (PAGE_SIZE as int) <= usize::MAX as int
        &&& self.spec_free_pages() + pages_sum(self.hdrs()) == self.spec_capacity()
    }

    proof fn lemma_idx(&self, gen: u64)
        requires
            self.base_wf(),
            self.live(gen),
        ensures
            0 <= self.idx(gen) < self.hdrs().len(),
            self.hdrs()[self.idx(gen)].gen == gen,
            forall|k: int|
                0 <= k < self.hdrs().len() && (#[trigger] self.hdrs()[k]).gen == gen ==> k
                    == self.idx(gen),
    {
        let i = self.idx(gen);
        assert(0 <= i < self.hdrs().len() && self.hdrs()[i].gen == gen);
    }

    /// Sizes the arena to hold `max_bytes`, rounded up to whole pages.
    pub fn new(max_bytes: usize) -> (r: PageManager)
        requires
            max_bytes + PAGE_SIZE <= usize::MAX,
            (max_bytes + PAGE_SIZE - 1) as int / (PAGE_SIZE as int) <= u32::MAX,
        ensures
            r.wf(),
            r.spec_capacity() == (max_bytes + PAGE_SIZE - 1) as int / (PAGE_SIZE as int),
            r.spec_free_pages() == r.spec_capacity(),
            forall|g: u64| !r.live(g),
            r.spec_generations_used() == 0,
            !r.gen_exhausted(),
    {
        let buffer = Buffer::new(max_bytes);
        let pages = buffer.page_count();
        let allocator = PageAllocator::new(pages);
        let r = PageManager {
            buffer,
            allocator,
            use_page_lru: LinkHead::new(),
            next_gen: 0,
        };
        proof {
            let cap = r.spec_capacity();
            let mb = max_bytes as int;
            let d = PAGE_SIZE as int;
            vstd::arithmetic::div_mod::lemma_fundamental_div_mod(mb + d - 1, d);
            assert(cap * d <= mb + d - 1) by (nonlinear_arith)
                requires
                    mb + d - 1 == d * cap + ((mb + d - 1) % d),
                    0 <= (mb + d - 1) % d,
            ;
        }
        r
    }

    /// Pages currently free, as the allocator counts them.
    pub fn free_pages(&self) -> (r: usize)
        ensures
            r == self.spec_free_pages(),
    {
        self.allocator.free_pages()
    }

    /// The arena's page capacity.
    pub fn capacity_pages(&self) -> (r: usize)
        requires
            self.wf(),
        ensures
            r == self.spec_capacity(),
    {
        self.buffer.page_count()
    }
}


/// Victim selection respects the LRU order: there is a cut position in
/// `pre`'s recency order (zero is most recent) such that, among the
/// allocations that were unpinned in `pre`, exactly those at positions
/// before the cut survive into `post` — eviction takes the least recently
/// used unpinned victims first.
pub open spec fn eviction_cut(pre: PageManager, post: PageManager, cut: int) -> bool {
    forall|g: u64|
        pre.live(g) && pre.spec_use_count(g) == 0 ==> ((#[trigger] post.live(g)) <==> pre.idx(g)
            < cut)
}

/// The pages an allocation with payload capacity `p` consumes: one header
/// page; if the payload does not embed, its data pages and the indirection
/// pages those need.
pub open spec fn spec_total_for_payload(p: int) -> int {
    if p == EMBED_SIZE {
        1
    } else {
        1 + (if p / (PAGE_SIZE as int) <= EMBED_MAP_LEN {
            0int
        } else {
            (p / (PAGE_SIZE as int) + PAGE_MAP_LEN - 1) / (PAGE_MAP_LEN as int)
        }) + p / (PAGE_SIZE as int)
    }
}

/// The payload capacity an allocation for `bytes` bytes gets.
pub open spec fn spec_payload_len_for(bytes: int) -> int {
    if bytes <= EMBED_SIZE {
        EMBED_SIZE as int
    } else {
        spec_data_pages(bytes) * (PAGE_SIZE as int)
    }
}

proof fn lemma_payload_len_for_covers(bytes: int)
    requires
        0 <= bytes,
    ensures
        spec_payload_len_for(bytes) >= bytes,
{
    if bytes > EMBED_SIZE {
        lemma_div_ceil(bytes, PAGE_SIZE as int);
        vstd::arithmetic::div_mod::lemma_fundamental_div_mod(bytes, PAGE_SIZE as int);
        let q = bytes / (PAGE_SIZE as int);
        let r = bytes % (PAGE_SIZE as int);
        if r == 0 {
            assert(spec_data_pages(bytes) == q);
            assert(q * (PAGE_SIZE as int) == bytes) by (nonlinear_arith)
                requires
                    bytes == (PAGE_SIZE as int) * q + r,
                    r == 0,
            ;
        } else {
            assert(spec_data_pages(bytes) == q + 1);
            assert((q + 1) * (PAGE_SIZE as int) >= bytes) by (nonlinear_arith)
                requires
                    bytes == (PAGE_SIZE as int) * q + r,
                    0 < r < (PAGE_SIZE as int),
            ;
        }
    }
}

impl PageManager {
    /// Everything `wf` says except the page-count conservation, which
    /// breaks transiently while an allocation is built or torn down.
    pub closed spec fn base_wf(&self) -> bool {
        &&& self.buffer.wf()
        &&& self.buffer@.len() == self.spec_capacity()
        &&& self.allocator.wf()
        &&& forall|k: int|
            0 <= k < self.hdrs().len() ==> (#[trigger] self.hdrs()[k]).wf(self.spec_capacity())
        &&& forall|k1: int, k2: int|
            0 <= k1 < self.hdrs().len() && 0 <= k2 < self.hdrs().len() && k1 != k2 ==> (
            #[trigger] self.hdrs()[k1]).gen != (#[trigger] self.hdrs()[k2]).gen
        &&& forall|k: int|
            0 <= k < self.hdrs().len() ==> (#[trigger] self.hdrs()[k]).gen < self.next_gen
        &&& forall|k1: int, k2: int, p: int|
            0 <= k1 < self.hdrs().len() && 0 <= k2 < self.hdrs().len() && k1 != k2 ==> !((
            #[trigger] self.hdrs()[k1].owns(p)) && (#[trigger] self.hdrs()[k2].owns(p)))
        &&& forall|k: int, p: int|
            0 <= k < self.hdrs().len() && (#[trigger] self.hdrs()[k].owns(p))
                ==> !self.allocator.free_set().contains(p)
        &&& self.spec_capacity() * (PAGE_SIZE as int) <= usize::MAX as int
    }

    proof fn lemma_wf_base(&self)
        requires
            self.wf(),
        ensures
            self.base_wf(),
    {
    }

    /// Everything an allocation's removal leaves identical for the headers
    /// that stay, stated between a pre and a post state whose header
    /// sequences differ by one removal.
    proof fn lemma_remove_preserves(pre: PageManager, post: PageManager, pos: int)
        requires
            0 <= pos < pre.hdrs().len(),
            post.hdrs() == pre.hdrs().remove(pos),
            post.buffer@ == pre.buffer@,
            forall|k1: int, k2: int|
                0 <= k1 < pre.hdrs().len() && 0 <= k2 < pre.hdrs().len() && k1 != k2 ==> (
                #[trigger] pre.hdrs()[k1]).gen != (#[trigger] pre.hdrs()[k2]).gen,
        ensures
            forall|g: u64| #[trigger] post.live(g) ==> pre.live(g),
            forall|g: u64|
                #[trigger] pre.live(g) && g != pre.hdrs()[pos].gen ==> post.live(g),
            !post.live(pre.hdrs()[pos].gen),
            forall|g: u64|
                #[trigger] post.live(g) ==> post.contents(g) == pre.contents(g)
                    && post.spec_use_count(g) == pre.spec_use_count(g)
                    && post.spec_payload_len(g) == pre.spec_payload_len(g),
    {
        assert forall|g: u64| #[trigger] post.live(g) implies pre.live(g) && post.contents(g)
            == pre.contents(g) && post.spec_use_count(g) == pre.spec_use_count(g)
            && post.spec_payload_len(g) == pre.spec_payload_len(g) by {
            let kq = choose|k: int|
                0 <= k < post.hdrs().len() && (#[trigger] post.hdrs()[k]).gen == g;
            let korig = if kq < pos {
                kq
            } else {
                kq + 1
            };
            assert(post.hdrs()[kq] == pre.hdrs()[korig]);
            assert(pre.live(g));
            let ki = pre.idx(g);
            assert(0 <= ki < pre.hdrs().len() && pre.hdrs()[ki].gen == g);
            assert(ki == korig);
            let kj = post.idx(g);
            assert(0 <= kj < post.hdrs().len() && post.hdrs()[kj].gen == g);
            let kjorig = if kj < pos {
                kj
            } else {
                kj + 1
            };
            assert(post.hdrs()[kj] == pre.hdrs()[kjorig]);
            assert(kjorig == ki);
        }
        assert forall|g: u64|
            #[trigger] pre.live(g) && g != pre.hdrs()[pos].gen implies post.live(g) by {
            let ki = pre.idx(g);
            assert(0 <= ki < pre.hdrs().len() && pre.hdrs()[ki].gen == g);
            if ki < pos {
                assert(post.hdrs()[ki].gen == g);
            } else {
                assert(ki != pos);
                assert(post.hdrs()[ki - 1].gen == g);
            }
        }
        if post.live(pre.hdrs()[pos].gen) {
            let kq = choose|k: int|
                0 <= k < post.hdrs().len() && (#[trigger] post.hdrs()[k]).gen == pre.hdrs()[pos].gen;
            let korig = if kq < pos {
                kq
            } else {
                kq + 1
            };
            assert(post.hdrs()[kq] == pre.hdrs()[korig]);
            assert(korig != pos);
            assert(false);
        }
    }

    /// What pushing a fresh allocation at the LRU front leaves identical
    /// for the headers already there.
    proof fn lemma_push_preserves(pre: PageManager, post: PageManager, h: AllocatedPage)
        requires
            post.hdrs() == seq![h] + pre.hdrs(),
            post.buffer@ == pre.buffer@,
            forall|k: int| 0 <= k < pre.hdrs().len() ==> (#[trigger] pre.hdrs()[k]).gen != h.gen,
            forall|k1: int, k2: int|
                0 <= k1 < pre.hdrs().len() && 0 <= k2 < pre.hdrs().len() && k1 != k2 ==> (
                #[trigger] pre.hdrs()[k1]).gen != (#[trigger] pre.hdrs()[k2]).gen,
        ensures
            post.live(h.gen),
            !pre.live(h.gen),
            forall|g: u64| #[trigger] pre.live(g) ==> post.live(g),
            forall|g: u64| #[trigger] post.live(g) && g != h.gen ==> pre.live(g),
            forall|g: u64|
                #[trigger] post.live(g) && g != h.gen ==> post.contents(g) == pre.contents(g)
                    && post.spec_use_count(g) == pre.spec_use_count(g)
                    && post.spec_payload_len(g) == pre.spec_payload_len(g),
            post.spec_use_count(h.gen) == h.use_count,
            post.spec_payload_len(h.gen) == h.payload_len(),
            post.contents(h.gen) == hdr_contents(h, post.buffer@),
            post.idx(h.gen) == 0,
    {
        assert(post.hdrs()[0] == h);
        assert(post.live(h.gen));
        assert forall|g: u64| #[trigger] pre.live(g) implies post.live(g) by {
            let ki = choose|k: int|
                0 <= k < pre.hdrs().len() && (#[trigger] pre.hdrs()[k]).gen == g;
            assert(post.hdrs()[ki + 1].gen == g);
        }
        assert forall|g: u64| #[trigger] post.live(g) && g != h.gen implies pre.live(g)
            && post.contents(g) == pre.contents(g) && post.spec_use_count(g)
            == pre.spec_use_count(g) && post.spec_payload_len(g) == pre.spec_payload_len(g) by {
            let kq = choose|k: int|
                0 <= k < post.hdrs().len() && (#[trigger] post.hdrs()[k]).gen == g;
            assert(kq != 0);
            assert(post.hdrs()[kq] == pre.hdrs()[kq - 1]);
            assert(pre.live(g));
            let ki = pre.idx(g);
            assert(0 <= ki < pre.hdrs().len() && pre.hdrs()[ki].gen == g);
            assert(ki == kq - 1);
            let kj = post.idx(g);
            assert(0 <= kj < post.hdrs().len() && post.hdrs()[kj].gen == g);
            assert(kj != 0);
            assert(post.hdrs()[kj] == pre.hdrs()[kj - 1]);
            assert(kj - 1 == ki);
        }
        let k0 = post.idx(h.gen);
        assert(0 <= k0 < post.hdrs().len() && post.hdrs()[k0].gen == h.gen);
        if k0 != 0 {
            assert(pre.hdrs()[k0 - 1].gen == h.gen);
            assert(false);
        }
        if pre.live(h.gen) {
            let ki = choose|k: int|
                0 <= k < pre.hdrs().len() && (#[trigger] pre.hdrs()[k]).gen == h.gen;
            assert(false);
        }
    }

    /// What changing one header in place, pages untouched, leaves
    /// identical: the live set, every allocation's contents and payload
    /// size, and the use counts of the others.
    proof fn lemma_update_preserves(pre: PageManager, post: PageManager, k: int, x: AllocatedPage)
        requires
            0 <= k < pre.hdrs().len(),
            post.hdrs() == pre.hdrs().update(k, x),
            post.buffer@ == pre.buffer@,
            x.gen == pre.hdrs()[k].gen,
            x.header_page == pre.hdrs()[k].header_page,
            x.rel_map == pre.hdrs()[k].rel_map,
            x.data_map == pre.hdrs()[k].data_map,
            x.data_pages == pre.hdrs()[k].data_pages,
            forall|k1: int, k2: int|
                0 <= k1 < pre.hdrs().len() && 0 <= k2 < pre.hdrs().len() && k1 != k2 ==> (
                #[trigger] pre.hdrs()[k1]).gen != (#[trigger] pre.hdrs()[k2]).gen,
        ensures
            forall|g: u64| #[trigger] post.live(g) <==> #[trigger] pre.live(g),
            forall|g: u64|
                #[trigger] post.live(g) ==> post.contents(g) == pre.contents(g)
                    && post.spec_payload_len(g) == pre.spec_payload_len(g),
            forall|g: u64|
                #[trigger] post.live(g) && g != x.gen ==> post.spec_use_count(g)
                    == pre.spec_use_count(g),
            post.live(x.gen),
            post.spec_use_count(x.gen) == x.use_count,
            post.idx(x.gen) == k,
            pre.idx(x.gen) == k,
    {
        assert(post.hdrs()[k] == x);
        assert(post.live(x.gen));
        assert(pre.hdrs()[k].gen == x.gen);
        assert(pre.live(x.gen));
        assert forall|g: u64| #[trigger] pre.live(g) implies post.live(g) by {
            let ki = choose|kk: int|
                0 <= kk < pre.hdrs().len() && (#[trigger] pre.hdrs()[kk]).gen == g;
            assert(post.hdrs()[ki].gen == g);
        }
        assert forall|g: u64| #[trigger] post.live(g) implies pre.live(g) by {
            let ki = choose|kk: int|
                0 <= kk < post.hdrs().len() && (#[trigger] post.hdrs()[kk]).gen == g;
            assert(pre.hdrs()[ki].gen == g);
        }
        assert forall|g: u64| #[trigger] post.live(g) implies post.contents(g) == pre.contents(g)
            && post.spec_payload_len(g) == pre.spec_payload_len(g) && (g != x.gen
            ==> post.spec_use_count(g) == pre.spec_use_count(g)) by {
            let kj = post.idx(g);
            assert(0 <= kj < post.hdrs().len() && post.hdrs()[kj].gen == g);
            let ki = pre.idx(g);
            assert(0 <= ki < pre.hdrs().len() && pre.hdrs()[ki].gen == g);
            assert(pre.hdrs()[kj].gen == g);
            assert(ki == kj);
            if kj == k {
                assert(post.hdrs()[kj].payload_len() == pre.hdrs()[ki].payload_len());
                assert(hdr_contents(post.hdrs()[kj], post.buffer@) == hdr_contents(
                    pre.hdrs()[ki],
                    pre.buffer@,
                ));
            } else {
                assert(post.hdrs()[kj] == pre.hdrs()[ki]);
            }
        }
        let ki = pre.idx(x.gen);
        assert(0 <= ki < pre.hdrs().len() && pre.hdrs()[ki].gen == x.gen);
        assert(ki == k);
        let kj = post.idx(x.gen);
        assert(0 <= kj < post.hdrs().len() && post.hdrs()[kj].gen == x.gen);
        assert(pre.hdrs()[kj].gen == x.gen);
        assert(kj == k);
    }

    /// A state trivially respects the LRU eviction order against itself:
    /// nothing was evicted.
    proof fn lemma_identity_cut(&self)
        requires
            self.base_wf(),
        ensures
            eviction_cut(*self, *self, self.hdrs().len() as int),
            exists|cut: int| #[trigger] eviction_cut(*self, *self, cut) && 0 <= cut,
    {
        assert forall|g: u64| self.live(g) && self.spec_use_count(g) == 0 implies ((
        #[trigger] self.live(g)) <==> self.idx(g) < self.hdrs().len() as int) by {
            self.lemma_idx(g);
        }
        assert(eviction_cut(*self, *self, self.hdrs().len() as int));
    }

    /// Takes one page from the allocator while an allocation is being
    /// built; the page is free, owned by nobody, and in bounds.
    fn take_page(&mut self) -> (p: u32)
        requires
            old(self).base_wf(),
            old(self).spec_free_pages() >= 1,
        ensures
            final(self).base_wf(),
            final(self).hdrs() == old(self).hdrs(),
            final(self).buffer@ == old(self).buffer@,
            final(self).next_gen == old(self).next_gen,
            final(self).spec_capacity() == old(self).spec_capacity(),
            final(self).spec_free_pages() == old(self).spec_free_pages() - 1,
            old(self).allocator.free_set().contains(p as int),
            final(self).allocator.free_set() =~= old(self).allocator.free_set().remove(p as int),
            p < old(self).spec_capacity(),
            forall|k: int| 0 <= k < old(self).hdrs().len() ==> !(#[trigger] old(self).hdrs()[k].owns(
                p as int,
            )),
    {
        let r = self.allocator.allocate();
        match r {
            Some(p) => {
                proof {
                    assert forall|k: int| 0 <= k < self.hdrs().len() implies !(
                    #[trigger] self.hdrs()[k].owns(p as int)) by {
                        if self.hdrs()[k].owns(p as int) {
                            assert(!old(self).allocator.free_set().contains(p as int));
                        }
                    }
                }
                p
            },
            None => {
                proof {
                    assert(false);
                }
                vstd::pervasive::unreached()
            },
        }
    }

    /// Tears down the allocation at LRU position `pos`: unlinks it, then
    /// frees its data pages in reverse index order, its indirection pages
    /// in reverse, and the header page last.
    #[verifier::rlimit(100)]
    fn deallocate_at(&mut self, pos: usize)
        requires
            old(self).wf(),
            pos < old(self).hdrs().len(),
            old(self).hdrs()[pos as int].use_count == 0,
        ensures
            final(self).wf(),
            final(self).hdrs() == old(self).hdrs().remove(pos as int),
            final(self).buffer@ == old(self).buffer@,
            final(self).next_gen == old(self).next_gen,
            final(self).spec_capacity() == old(self).spec_capacity(),
            final(self).spec_free_pages() == old(self).spec_free_pages() + old(self).hdrs()[
                pos as int].total_pages(),
    {
        let ghost entry = *self;
        let ghost victim = entry.hdrs()[pos as int];
        let header = self.use_page_lru.unlink(pos);
        proof {
            assert(self.hdrs() =~= entry.hdrs().remove(pos as int));
            assert(entry.hdrs()[pos as int].wf(entry.spec_capacity()));
        }
        let ghost all = victim.spec_all_pages();
        // data pages, in reverse
        let mut i: usize = header.data_map.len();
        while i > 0
            invariant
                i <= header.data_map@.len(),
                header == victim,
                victim == entry.hdrs()[pos as int],
                self.buffer == entry.buffer,
                self.use_page_lru@ == entry.hdrs().remove(pos as int),
                self.next_gen == entry.next_gen,
                self.allocator.wf(),
                self.allocator.spec_capacity() == entry.spec_capacity(),
                victim.wf(entry.spec_capacity()),
                pos < entry.hdrs().len(),
                entry.wf(),
                self.allocator.spec_free_count() == entry.spec_free_pages() + (
                header.data_map@.len() - i),
                forall|p: int|
                    self.allocator.free_set().contains(p) <==> entry.allocator.free_set().contains(
                        p,
                    ) || exists|k: int|
                        i <= k < header.data_map@.len() && (#[trigger] header.data_map@[k]) as int
                            == p,
            decreases i,
        {
            i = i - 1;
            let page = header.data_map[i];
            proof {
                assert(victim.spec_all_pages()[1 + victim.rel_map@.len() + i] == page);
                assert(victim.owns(page as int));
                assert(entry.hdrs()[pos as int].owns(page as int));
                assert(!entry.allocator.free_set().contains(page as int));
                if exists|k: int|
                    i + 1 <= k < header.data_map@.len() && (#[trigger] header.data_map@[k]) as int
                        == page as int {
                    let k = choose|k: int|
                        i + 1 <= k < header.data_map@.len() && (
                        #[trigger] header.data_map@[k]) as int == page as int;
                    assert(victim.spec_all_pages()[1 + victim.rel_map@.len() + k]
                        == victim.spec_all_pages()[1 + victim.rel_map@.len() + i]);
                    assert(false);
                }
            }
            let ghost before = self.allocator.free_set();
            self.allocator.free(page);
            proof {
                assert forall|p: int| self.allocator.free_set().contains(p) implies (
                entry.allocator.free_set().contains(p) || exists|k: int|
                    i <= k < header.data_map@.len() && (#[trigger] header.data_map@[k]) as int
                        == p) by {
                    if p == page as int {
                        assert((header.data_map@[i as int]) as int == p);
                    } else {
                        assert(before.contains(p));
                        if !entry.allocator.free_set().contains(p) {
                            let k = choose|k: int|
                                i + 1 <= k < header.data_map@.len() && (
                                #[trigger] header.data_map@[k]) as int == p;
                            assert((header.data_map@[k]) as int == p);
                        }
                    }
                }
                assert forall|p: int|
                    entry.allocator.free_set().contains(p) || exists|k: int|
                        i <= k < header.data_map@.len() && (#[trigger] header.data_map@[k]) as int
                            == p implies self.allocator.free_set().contains(p) by {
                    if entry.allocator.free_set().contains(p) {
                        assert(before.contains(p));
                    } else {
                        let k = choose|k: int|
                            i <= k < header.data_map@.len() && (
                            #[trigger] header.data_map@[k]) as int == p;
                        if k == i as int {
                            assert(p == page as int);
                        } else {
                            assert(before.contains(p));
                        }
                    }
                }
            }
        }
        proof {
            assert forall|p: int| self.allocator.free_set().contains(p) implies (
            entry.allocator.free_set().contains(p) || (exists|k: int|
                0 <= k < header.data_map@.len() && (#[trigger] header.data_map@[k]) as int == p)
                || (exists|k: int|
                header.rel_map@.len() <= k < header.rel_map@.len() && (
                #[trigger] header.rel_map@[k]) as int == p)) by {
                if !entry.allocator.free_set().contains(p) {
                    let k = choose|k: int|
                        0 <= k < header.data_map@.len() && (#[trigger] header.data_map@[k]) as int
                            == p;
                    assert((header.data_map@[k]) as int == p);
                }
            }
            assert forall|p: int|
                (entry.allocator.free_set().contains(p) || (exists|k: int|
                    0 <= k < header.data_map@.len() && (#[trigger] header.data_map@[k]) as int
                        == p) || (exists|k: int|
                    header.rel_map@.len() <= k < header.rel_map@.len() && (
                    #[trigger] header.rel_map@[k]) as int == p)) implies self.allocator.free_set()
                .contains(p) by {
                if !entry.allocator.free_set().contains(p) {
                    if exists|k: int|
                        0 <= k < header.data_map@.len() && (#[trigger] header.data_map@[k]) as int
                            == p {
                        let k = choose|k: int|
                            0 <= k < header.data_map@.len() && (
                            #[trigger] header.data_map@[k]) as int == p;
                        assert((header.data_map@[k]) as int == p);
                    }
                }
            }
        }
        // indirection pages, in reverse
        let mut j: usize = header.rel_map.len();
        while j > 0
            invariant
                j <= header.rel_map@.len(),
                header == victim,
                victim == entry.hdrs()[pos as int],
                self.buffer == entry.buffer,
                self.use_page_lru@ == entry.hdrs().remove(pos as int),
                self.next_gen == entry.next_gen,
                self.allocator.wf(),
                self.allocator.spec_capacity() == entry.spec_capacity(),
                victim.wf(entry.spec_capacity()),
                pos < entry.hdrs().len(),
                entry.wf(),
                self.allocator.spec_free_count() == entry.spec_free_pages()
                    + header.data_map@.len() + (header.rel_map@.len() - j),
                forall|p: int|
                    self.allocator.free_set().contains(p) <==> entry.allocator.free_set().contains(
                        p,
                    ) || (exists|k: int|
                        0 <= k < header.data_map@.len() && (#[trigger] header.data_map@[k]) as int
                            == p) || (exists|k: int|
                        j <= k < header.rel_map@.len() && (#[trigger] header.rel_map@[k]) as int
                            == p),
            decreases j,
        {
            j = j - 1;
            let page = header.rel_map[j];
            proof {
                assert(victim.spec_all_pages()[1 + j] == page);
                assert(victim.owns(page as int));
                assert(entry.hdrs()[pos as int].owns(page as int));
                assert(!entry.allocator.free_set().contains(page as int));
                if exists|k: int|
                    0 <= k < header.data_map@.len() && (#[trigger] header.data_map@[k]) as int
                        == page as int {
                    let k = choose|k: int|
                        0 <= k < header.data_map@.len() && (#[trigger] header.data_map@[k]) as int
                            == page as int;
                    assert(victim.spec_all_pages()[1 + victim.rel_map@.len() + k]
                        == victim.spec_all_pages()[1 + j]);
                    assert(false);
                }
                if exists|k: int|
                    j + 1 <= k < header.rel_map@.len() && (#[trigger] header.rel_map@[k]) as int
                        == page as int {
                    let k = choose|k: int|
                        j + 1 <= k < header.rel_map@.len() && (#[trigger] header.rel_map@[k]) as int
                            == page as int;
                    assert(victim.spec_all_pages()[1 + k] == victim.spec_all_pages()[1 + j]);
                    assert(false);
                }
            }
            let ghost before = self.allocator.free_set();
            self.allocator.free(page);
            proof {
                assert forall|p: int| self.allocator.free_set().contains(p) implies (
                entry.allocator.free_set().contains(p) || (exists|k: int|
                    0 <= k < header.data_map@.len() && (#[trigger] header.data_map@[k]) as int
                        == p) || (exists|k: int|
                    j <= k < header.rel_map@.len() && (#[trigger] header.rel_map@[k]) as int
                        == p)) by {
                    if p == page as int {
                        assert((header.rel_map@[j as int]) as int == p);
                    } else {
                        assert(before.contains(p));
                        if !entry.allocator.free_set().contains(p) {
                            if exists|k: int|
                                0 <= k < header.data_map@.len() && (
                                #[trigger] header.data_map@[k]) as int == p {
                                let k = choose|k: int|
                                    0 <= k < header.data_map@.len() && (
                                    #[trigger] header.data_map@[k]) as int == p;
                                assert((header.data_map@[k]) as int == p);
                            } else {
                                let k = choose|k: int|
                                    j + 1 <= k < header.rel_map@.len() && (
                                    #[trigger] header.rel_map@[k]) as int == p;
                                assert((header.rel_map@[k]) as int == p);
                            }
                        }
                    }
                }
                assert forall|p: int|
                    entry.allocator.free_set().contains(p) || (exists|k: int|
                        0 <= k < header.data_map@.len() && (#[trigger] header.data_map@[k]) as int
                            == p) || (exists|k: int|
                        j <= k < header.rel_map@.len() && (#[trigger] header.rel_map@[k]) as int
                            == p) implies self.allocator.free_set().contains(p) by {
                    if entry.allocator.free_set().contains(p) {
                        assert(before.contains(p));
                    } else if exists|k: int|
                        0 <= k < header.data_map@.len() && (#[trigger] header.data_map@[k]) as int
                            == p {
                        assert(before.contains(p));
                    } else {
                        let k = choose|k: int|
                            j <= k < header.rel_map@.len() && (
                            #[trigger] header.rel_map@[k]) as int == p;
                        if k == j as int {
                            assert(p == page as int);
                        } else {
                            assert(before.contains(p));
                        }
                    }
                }
            }
        }
        // the header page, last
        proof {
            assert(victim.spec_all_pages()[0] == victim.header_page);
            assert(victim.owns(victim.header_page as int));
            assert(entry.hdrs()[pos as int].owns(victim.header_page as int));
            assert(!entry.allocator.free_set().contains(victim.header_page as int));
            if exists|k: int|
                0 <= k < header.data_map@.len() && (#[trigger] header.data_map@[k]) as int
                    == victim.header_page as int {
                let k = choose|k: int|
                    0 <= k < header.data_map@.len() && (#[trigger] header.data_map@[k]) as int
                        == victim.header_page as int;
                assert(victim.spec_all_pages()[1 + victim.rel_map@.len() + k]
                    == victim.spec_all_pages()[0]);
                assert(false);
            }
            if exists|k: int|
                0 <= k < header.rel_map@.len() && (#[trigger] header.rel_map@[k]) as int
                    == victim.header_page as int {
                let k = choose|k: int|
                    0 <= k < header.rel_map@.len() && (#[trigger] header.rel_map@[k]) as int
                        == victim.header_page as int;
                assert(victim.spec_all_pages()[1 + k] == victim.spec_all_pages()[0]);
                assert(false);
            }
        }
        let ghost before_hdr = self.allocator.free_set();
        self.allocator.free(header.header_page);
        proof {
            assert forall|p: int| self.allocator.free_set().contains(p) implies (
            entry.allocator.free_set().contains(p) || victim.owns(p)) by {
                if p == victim.header_page as int {
                    assert(victim.spec_all_pages()[0] as int == p);
                } else {
                    assert(before_hdr.contains(p));
                    if !entry.allocator.free_set().contains(p) {
                        if exists|k: int|
                            0 <= k < header.data_map@.len() && (
                            #[trigger] header.data_map@[k]) as int == p {
                            let k = choose|k: int|
                                0 <= k < header.data_map@.len() && (
                                #[trigger] header.data_map@[k]) as int == p;
                            assert(victim.spec_all_pages()[1 + victim.rel_map@.len() + k] as int
                                == p);
                        } else {
                            let k = choose|k: int|
                                0 <= k < header.rel_map@.len() && (
                                #[trigger] header.rel_map@[k]) as int == p;
                            assert(victim.spec_all_pages()[1 + k] as int == p);
                        }
                    }
                }
            }
            lemma_pages_sum_remove(entry.hdrs(), pos as int);
            // every page the victim owned is now free; everything a
            // survivor owns was not free before and is none of the
            // victim's pages, so it is not free now either
            assert forall|k: int, p: int|
                0 <= k < self.hdrs().len() && (#[trigger] self.hdrs()[k].owns(p))
                    implies !self.allocator.free_set().contains(p) by {
                let korig = if k < pos as int {
                    k
                } else {
                    k + 1
                };
                assert(self.hdrs()[k] == entry.hdrs()[korig]);
                assert(entry.hdrs()[korig].owns(p));
                assert(!entry.allocator.free_set().contains(p));
                if self.allocator.free_set().contains(p) {
                    assert(victim.owns(p));
                    assert(korig != pos as int);
                    assert(false);
                }
            }
            assert forall|k1: int, k2: int|
                0 <= k1 < self.hdrs().len() && 0 <= k2 < self.hdrs().len() && k1 != k2 implies (
            #[trigger] self.hdrs()[k1]).gen != (#[trigger] self.hdrs()[k2]).gen by {
                let korig1 = if k1 < pos as int {
                    k1
                } else {
                    k1 + 1
                };
                let korig2 = if k2 < pos as int {
                    k2
                } else {
                    k2 + 1
                };
                assert(self.hdrs()[k1] == entry.hdrs()[korig1]);
                assert(self.hdrs()[k2] == entry.hdrs()[korig2]);
            }
            assert forall|k1: int, k2: int, p: int|
                0 <= k1 < self.hdrs().len() && 0 <= k2 < self.hdrs().len() && k1 != k2 implies !((
            #[trigger] self.hdrs()[k1].owns(p)) && (#[trigger] self.hdrs()[k2].owns(p))) by {
                let korig1 = if k1 < pos as int {
                    k1
                } else {
                    k1 + 1
                };
                let korig2 = if k2 < pos as int {
                    k2
                } else {
                    k2 + 1
                };
                assert(self.hdrs()[k1] == entry.hdrs()[korig1]);
                assert(self.hdrs()[k2] == entry.hdrs()[korig2]);
            }
            assert forall|k: int| 0 <= k < self.hdrs().len() implies (#[trigger] self.hdrs()[k]).wf(
                self.spec_capacity(),
            ) by {
                let korig = if k < pos as int {
                    k
                } else {
                    k + 1
                };
                assert(self.hdrs()[k] == entry.hdrs()[korig]);
            }
            assert forall|k: int| 0 <= k < self.hdrs().len() implies (
            #[trigger] self.hdrs()[k]).gen < self.next_gen by {
                let korig = if k < pos as int {
                    k
                } else {
                    k + 1
                };
                assert(self.hdrs()[k] == entry.hdrs()[korig]);
            }
        }
    }
}


/// Translates page-level freshness facts about an allocation's parts into
/// facts about its assembled page list.
proof fn lemma_header_fresh(
    header: AllocatedPage,
    cap: int,
    free: Set<int>,
    hdrs: Seq<AllocatedPage>,
)
    requires
        header.data_map@.len() == header.data_pages,
        header.rel_map@.len() == if header.data_pages <= EMBED_MAP_LEN {
            0int
        } else {
            (header.data_pages + PAGE_MAP_LEN - 1) as int / (PAGE_MAP_LEN as int)
        },
        header.total_pages() <= cap,
        header.header_page < cap,
        !free.contains(header.header_page as int),
        forall|kh: int| 0 <= kh < hdrs.len() ==> !(#[trigger] hdrs[kh].owns(
            header.header_page as int,
        )),
        forall|k: int| 0 <= k < header.rel_map@.len() ==> (#[trigger] header.rel_map@[k]) < cap,
        forall|k: int|
            0 <= k < header.rel_map@.len() ==> !free.contains((#[trigger] header.rel_map@[k]) as int),
        forall|k: int|
            0 <= k < header.rel_map@.len() ==> (#[trigger] header.rel_map@[k])
                != header.header_page,
        forall|k1: int, k2: int|
            0 <= k1 < header.rel_map@.len() && 0 <= k2 < header.rel_map@.len() && k1 != k2 ==> (
            #[trigger] header.rel_map@[k1]) != (#[trigger] header.rel_map@[k2]),
        forall|k: int, kh: int|
            0 <= k < header.rel_map@.len() && 0 <= kh < hdrs.len() ==> !(#[trigger] hdrs[kh].owns(
                (#[trigger] header.rel_map@[k]) as int,
            )),
        forall|k: int| 0 <= k < header.data_map@.len() ==> (#[trigger] header.data_map@[k]) < cap,
        forall|k: int|
            0 <= k < header.data_map@.len() ==> !free.contains((
            #[trigger] header.data_map@[k]) as int),
        forall|k: int|
            0 <= k < header.data_map@.len() ==> (#[trigger] header.data_map@[k])
                != header.header_page,
        forall|k1: int, k2: int|
            0 <= k1 < header.data_map@.len() && 0 <= k2 < header.rel_map@.len() ==> (
            #[trigger] header.data_map@[k1]) != (#[trigger] header.rel_map@[k2]),
        forall|k1: int, k2: int|
            0 <= k1 < header.data_map@.len() && 0 <= k2 < header.data_map@.len() && k1 != k2 ==> (
            #[trigger] header.data_map@[k1]) != (#[trigger] header.data_map@[k2]),
        forall|k: int, kh: int|
            0 <= k < header.data_map@.len() && 0 <= kh < hdrs.len() ==> !(#[trigger] hdrs[kh].owns(
                (#[trigger] header.data_map@[k]) as int,
            )),
    ensures
        header.wf(cap),
        forall|j: int|
            0 <= j < header.spec_all_pages().len() ==> !free.contains((
            #[trigger] header.spec_all_pages()[j]) as int),
        forall|j: int, kh: int|
            0 <= j < header.spec_all_pages().len() && 0 <= kh < hdrs.len() ==> !(
            #[trigger] hdrs[kh].owns((#[trigger] header.spec_all_pages()[j]) as int)),
{
    let a = header.spec_all_pages();
    let mlen = header.rel_map@.len() as int;
    let dlen = header.data_map@.len() as int;
    assert(a.len() == 1 + mlen + dlen);
    assert forall|j: int| 0 <= j < a.len() implies !free.contains((#[trigger] a[j]) as int)
        && a[j] < cap && (forall|kh: int| 0 <= kh < hdrs.len() ==> !(#[trigger] hdrs[kh].owns(
        a[j] as int,
    ))) by {
        if j == 0 {
            assert(a[j] == header.header_page);
        } else if j <= mlen {
            assert(a[j] == header.rel_map@[j - 1]);
        } else {
            assert(a[j] == header.data_map@[j - 1 - mlen]);
        }
    }
    assert forall|k1: int, k2: int|
        0 <= k1 < a.len() && 0 <= k2 < a.len() && k1 != k2 implies a[k1] != a[k2] by {
        if k1 == 0 {
            assert(a[k1] == header.header_page);
        } else if k1 <= mlen {
            assert(a[k1] == header.rel_map@[k1 - 1]);
        } else {
            assert(a[k1] == header.data_map@[k1 - 1 - mlen]);
        }
        if k2 == 0 {
            assert(a[k2] == header.header_page);
        } else if k2 <= mlen {
            assert(a[k2] == header.rel_map@[k2 - 1]);
        } else {
            assert(a[k2] == header.data_map@[k2 - 1 - mlen]);
        }
    }
}

impl PageManager {
    /// Re-establishes the manager invariant after a fresh allocation was
    /// linked in at the LRU front.
    proof fn lemma_install_wf(pre: PageManager, post: PageManager, header: AllocatedPage)
        requires
            pre.base_wf(),
            post.hdrs() == seq![header] + pre.hdrs(),
            post.buffer == pre.buffer,
            post.allocator == pre.allocator,
            post.next_gen == pre.next_gen,
            header.wf(post.spec_capacity()),
            header.gen < post.next_gen,
            forall|k: int| 0 <= k < pre.hdrs().len() ==> (#[trigger] pre.hdrs()[k]).gen
                != header.gen,
            forall|j: int|
                0 <= j < header.spec_all_pages().len() ==> !post.allocator.free_set().contains((
                #[trigger] header.spec_all_pages()[j]) as int),
            forall|j: int, kh: int|
                0 <= j < header.spec_all_pages().len() && 0 <= kh < pre.hdrs().len() ==> !(
                #[trigger] pre.hdrs()[kh].owns((#[trigger] header.spec_all_pages()[j]) as int)),
            post.spec_free_pages() + pages_sum(post.hdrs()) == post.spec_capacity(),
        ensures
            post.wf(),
    {
        assert forall|k: int| 0 <= k < post.hdrs().len() implies (#[trigger] post.hdrs()[k]).wf(
            post.spec_capacity(),
        ) by {
            if k > 0 {
                assert(post.hdrs()[k] == pre.hdrs()[k - 1]);
            }
        }
        assert forall|k1: int, k2: int|
            0 <= k1 < post.hdrs().len() && 0 <= k2 < post.hdrs().len() && k1 != k2 implies (
        #[trigger] post.hdrs()[k1]).gen != (#[trigger] post.hdrs()[k2]).gen by {
            if k1 > 0 && k2 > 0 {
                assert(post.hdrs()[k1] == pre.hdrs()[k1 - 1]);
                assert(post.hdrs()[k2] == pre.hdrs()[k2 - 1]);
            } else {
                let knz = if k1 == 0 {
                    k2
                } else {
                    k1
                };
                assert(post.hdrs()[knz] == pre.hdrs()[knz - 1]);
            }
        }
        assert forall|k: int| 0 <= k < post.hdrs().len() implies (
        #[trigger] post.hdrs()[k]).gen < post.next_gen by {
            if k > 0 {
                assert(post.hdrs()[k] == pre.hdrs()[k - 1]);
            }
        }
        assert forall|k1: int, k2: int, p: int|
            0 <= k1 < post.hdrs().len() && 0 <= k2 < post.hdrs().len() && k1 != k2 implies !((
        #[trigger] post.hdrs()[k1].owns(p)) && (#[trigger] post.hdrs()[k2].owns(p))) by {
            if post.hdrs()[k1].owns(p) && post.hdrs()[k2].owns(p) {
                let knz = if k1 == 0 {
                    k2
                } else {
                    k1
                };
                if k1 == 0 || k2 == 0 {
                    assert(post.hdrs()[0] == header);
                    assert(post.hdrs()[knz] == pre.hdrs()[knz - 1]);
                    assert(header.owns(p));
                    assert(pre.hdrs()[knz - 1].owns(p));
                    let ka = choose|k: int|
                        0 <= k < header.spec_all_pages().len() && (
                        #[trigger] header.spec_all_pages()[k]) as int == p;
                    assert(!(pre.hdrs()[knz - 1].owns((header.spec_all_pages()[ka]) as int)));
                    assert(false);
                } else {
                    assert(post.hdrs()[k1] == pre.hdrs()[k1 - 1]);
                    assert(post.hdrs()[k2] == pre.hdrs()[k2 - 1]);
                }
            }
        }
        assert forall|k: int, p: int|
            0 <= k < post.hdrs().len() && (#[trigger] post.hdrs()[k].owns(p))
                implies !post.allocator.free_set().contains(p) by {
            if k == 0 {
                assert(post.hdrs()[0] == header);
                let ka = choose|kk: int|
                    0 <= kk < header.spec_all_pages().len() && (
                    #[trigger] header.spec_all_pages()[kk]) as int == p;
                assert(!post.allocator.free_set().contains(
                    (header.spec_all_pages()[ka]) as int,
                ));
            } else {
                assert(post.hdrs()[k] == pre.hdrs()[k - 1]);
                assert(pre.hdrs()[k - 1].owns(p));
            }
        }
    }

    proof fn lemma_update_wf(pre: PageManager, post: PageManager, k: int, x: AllocatedPage)
        requires
            pre.wf(),
            0 <= k < pre.hdrs().len(),
            post.hdrs() == pre.hdrs().update(k, x),
            post.buffer == pre.buffer,
            post.allocator == pre.allocator,
            post.next_gen == pre.next_gen,
            x.gen == pre.hdrs()[k].gen,
            x.header_page == pre.hdrs()[k].header_page,
            x.rel_map == pre.hdrs()[k].rel_map,
            x.data_map == pre.hdrs()[k].data_map,
            x.data_pages == pre.hdrs()[k].data_pages,
        ensures
            post.wf(),
    {
        lemma_pages_sum_update(pre.hdrs(), k, x);
        assert(x.total_pages() == pre.hdrs()[k].total_pages());
        assert(x.spec_all_pages() =~= pre.hdrs()[k].spec_all_pages());
        assert(x.wf(post.spec_capacity())) by {
            assert(pre.hdrs()[k].wf(pre.spec_capacity()));
        }
        assert forall|kk: int| 0 <= kk < post.hdrs().len() implies (#[trigger] post.hdrs()[kk]).wf(
            post.spec_capacity(),
        ) by {
            if kk != k {
                assert(post.hdrs()[kk] == pre.hdrs()[kk]);
            }
        }
        assert forall|k1: int, k2: int, p: int|
            0 <= k1 < post.hdrs().len() && 0 <= k2 < post.hdrs().len() && k1 != k2 implies !((
        #[trigger] post.hdrs()[k1].owns(p)) && (#[trigger] post.hdrs()[k2].owns(p))) by {
            if post.hdrs()[k1].owns(p) && post.hdrs()[k2].owns(p) {
                assert(pre.hdrs()[k1].owns(p)) by {
                    if k1 == k {
                        assert(x.spec_all_pages() =~= pre.hdrs()[k].spec_all_pages());
                    }
                }
                assert(pre.hdrs()[k2].owns(p)) by {
                    if k2 == k {
                        assert(x.spec_all_pages() =~= pre.hdrs()[k].spec_all_pages());
                    }
                }
            }
        }
        assert forall|kk: int, p: int|
            0 <= kk < post.hdrs().len() && (#[trigger] post.hdrs()[kk].owns(p))
                implies !post.allocator.free_set().contains(p) by {
            assert(pre.hdrs()[kk].owns(p)) by {
                if kk == k {
                    assert(x.spec_all_pages() =~= pre.hdrs()[k].spec_all_pages());
                }
            }
        }
        assert forall|k1: int, k2: int|
            0 <= k1 < post.hdrs().len() && 0 <= k2 < post.hdrs().len() && k1 != k2 implies (
        #[trigger] post.hdrs()[k1]).gen != (#[trigger] post.hdrs()[k2]).gen by {
            assert(post.hdrs()[k1].gen == pre.hdrs()[k1].gen);
            assert(post.hdrs()[k2].gen == pre.hdrs()[k2].gen);
        }
        assert forall|kk: int| 0 <= kk < post.hdrs().len() implies (
        #[trigger] post.hdrs()[kk]).gen < post.next_gen by {
            assert(post.hdrs()[kk].gen == pre.hdrs()[kk].gen);
        }
    }

    /// The LRU position of the allocation `gen`, if it is resident.
    fn find_pos(&self, gen: u64) -> (r: Option<usize>)
        ensures
            match r {
                Some(i) => i < self.hdrs().len() && self.hdrs()[i as int].gen == gen,
                None => forall|k: int|
                    0 <= k < self.hdrs().len() ==> (#[trigger] self.hdrs()[k]).gen != gen,
            },
    {
        let n = self.use_page_lru.len();
        let mut k: usize = 0;
        while k < n
            invariant
                n == self.hdrs().len(),
                k <= n,
                forall|kk: int|
                    0 <= kk < k ==> (#[trigger] self.hdrs()[kk]).gen != gen,
            decreases n - k,
        {
            if self.use_page_lru.get(k).gen == gen {
                return Some(k);
            }
            k = k + 1;
        }
        None
    }

    /// Walks the LRU from the tail, skipping pinned allocations and
    /// tearing down unused ones, until `lwm` more pages are free or no
    /// victim remains.
    fn free_old_pages(&mut self, lwm: usize) -> (r: bool)
        requires
            old(self).wf(),
            lwm >= 1,
        ensures
            final(self).wf(),
            final(self).spec_capacity() == old(self).spec_capacity(),
            final(self).buffer@ == old(self).buffer@,
            final(self).next_gen == old(self).next_gen,
            forall|g: u64| #[trigger] final(self).live(g) ==> old(self).live(g),
            forall|g: u64|
                old(self).live(g) && old(self).spec_use_count(g) > 0 ==> #[trigger] final(self).live(g),
            forall|g: u64|
                #[trigger] final(self).live(g) ==> final(self).contents(g) == old(self).contents(
                    g,
                ) && final(self).spec_use_count(g) == old(self).spec_use_count(g) && final(self).spec_payload_len(g) == old(self).spec_payload_len(g),
            r ==> final(self).spec_free_pages() >= old(self).spec_free_pages() + lwm,
            !r ==> final(self).spec_free_pages() < old(self).spec_free_pages() + lwm && (forall|
                g: u64,
            |
                #[trigger] final(self).live(g) ==> final(self).spec_use_count(g) > 0),
            exists|cut: int| #[trigger] eviction_cut(*old(self), *final(self), cut) && 0 <= cut,
    {
        let ghost entry = *self;
        let mut iter = self.use_page_lru.iter_reverse_mut();
        let mut freed: u64 = 0;
        loop
            invariant
                entry == *old(self),
                entry.wf(),
                lwm >= 1,
                self.wf(),
                self.hdrs().len() <= entry.hdrs().len(),
                self.spec_capacity() == entry.spec_capacity(),
                self.buffer@ == entry.buffer@,
                self.next_gen == entry.next_gen,
                iter.next() <= self.hdrs().len(),
                freed == self.spec_free_pages() - entry.spec_free_pages(),
                freed < lwm as u64,
                forall|k: int|
                    iter.next() <= k < self.hdrs().len() ==> (#[trigger] self.hdrs()[k]).use_count
                        > 0,
                self.hdrs().subrange(0, iter.next() as int) =~= entry.hdrs().subrange(
                    0,
                    iter.next() as int,
                ),
                forall|g: u64|
                    entry.live(g) && entry.spec_use_count(g) == 0 ==> ((#[trigger] self.live(g))
                        <==> entry.idx(g) < iter.next()),
                forall|g: u64| #[trigger] self.live(g) ==> entry.live(g),
                forall|g: u64|
                    entry.live(g) && entry.spec_use_count(g) > 0 ==> #[trigger] self.live(g),
                forall|g: u64|
                    #[trigger] self.live(g) ==> self.contents(g) == entry.contents(g)
                        && self.spec_use_count(g) == entry.spec_use_count(g)
                        && self.spec_payload_len(g) == entry.spec_payload_len(g),
            decreases iter.next(),
        {
            let len = self.use_page_lru.len();
            let step = iter.step(len);
            match step {
                None => {
                    proof {
                        assert forall|g: u64| #[trigger] self.live(g) implies self.spec_use_count(
                            g,
                        ) > 0 by {
                            self.lemma_idx(g);
                        }
                        assert(eviction_cut(entry, *self, 0));
                    }
                    return false;
                },
                Some(pos) => {
                    let used = self.use_page_lru.get(pos).is_used();
                    proof {
                        // the element at the cursor is untouched from entry
                        assert(self.hdrs()[pos as int] == entry.hdrs()[pos as int]) by {
                            assert(self.hdrs().subrange(0, pos + 1)[pos as int]
                                == entry.hdrs().subrange(0, pos + 1)[pos as int]);
                        }
                        entry.lemma_idx(self.hdrs()[pos as int].gen);
                        assert(entry.idx(self.hdrs()[pos as int].gen) == pos as int);
                        assert(self.live(self.hdrs()[pos as int].gen));
                        self.lemma_idx(self.hdrs()[pos as int].gen);
                        assert(self.spec_use_count(self.hdrs()[pos as int].gen)
                            == self.hdrs()[pos as int].use_count) by {
                            assert(self.idx(self.hdrs()[pos as int].gen) == pos as int);
                        }
                    }
                    if !used {
                        let ghost pre = *self;
                        let pages = self.use_page_lru.get(pos).all_pages();
                        self.deallocate_at(pos);
                        proof {
                            PageManager::lemma_remove_preserves(pre, *self, pos as int);
                            assert forall|g: u64|
                                entry.live(g) && entry.spec_use_count(g) > 0 implies
                                #[trigger] self.live(g) by {
                                assert(pre.live(g));
                                assert(pre.spec_use_count(g) > 0);
                                assert(g != pre.hdrs()[pos as int].gen) by {
                                    pre.lemma_idx(g);
                                    if g == pre.hdrs()[pos as int].gen {
                                        assert(pre.idx(g) == pos as int);
                                    }
                                }
                            }
                            assert(freed + pages as u64 == self.spec_free_pages()
                                - entry.spec_free_pages());
                            lemma_pages_sum_nonneg(self.hdrs());
                            self.allocator.lemma_free_subset_capacity();
                        }
                        proof {
                            let vg = pre.hdrs()[pos as int].gen;
                            assert(entry.spec_use_count(vg) == 0);
                            assert(!self.live(vg));
                            assert(self.hdrs().subrange(0, pos as int) =~= entry.hdrs().subrange(
                                0,
                                pos as int,
                            )) by {
                                assert forall|k: int| 0 <= k < pos as int implies self.hdrs()[k]
                                    == entry.hdrs()[k] by {
                                    assert(self.hdrs()[k] == pre.hdrs()[k]);
                                    assert(pre.hdrs().subrange(0, pos + 1)[k]
                                        == entry.hdrs().subrange(0, pos + 1)[k]);
                                }
                            }
                            assert forall|g: u64|
                                entry.live(g) && entry.spec_use_count(g) == 0 implies ((
                            #[trigger] self.live(g)) <==> entry.idx(g) < pos as int) by {
                                entry.lemma_idx(g);
                                if g == vg {
                                    assert(entry.idx(g) == pos as int);
                                } else {
                                    if entry.idx(g) < pos as int {
                                        assert(pre.live(g) <==> entry.idx(g) < pos + 1);
                                        assert(self.live(g));
                                    } else {
                                        assert(entry.idx(g) >= pos + 1);
                                        assert(!pre.live(g));
                                        if self.live(g) {
                                            assert(pre.live(g));
                                        }
                                    }
                                }
                            }
                        }
                        freed = freed + (pages as u64);
                        if freed >= lwm as u64 {
                            proof {
                                assert(eviction_cut(entry, *self, pos as int));
                            }
                            return true;
                        }
                    }
                },
            }
        }
    }

    /// Allocates a region able to hold `bytes` payload bytes, evicting
    /// least-recently-used unused allocations when the free pages do not
    /// suffice.  Returns a weak reference, so the allocation can be evicted
    /// the moment no strong reference pins it.
    #[verifier::rlimit(100)]
    pub fn allocate(&mut self, bytes: usize) -> (r: Option<WeakRefPage>)
        requires
            old(self).wf(),
        ensures
            final(self).wf(),
            final(self).spec_capacity() == old(self).spec_capacity(),
            forall|g: u64|
                old(self).live(g) && old(self).spec_use_count(g) > 0 ==> #[trigger] final(self).live(g),
            forall|g: u64|
                #[trigger] final(self).live(g) && old(self).live(g) ==> final(self).contents(g)
                    == old(self).contents(g) && final(self).spec_use_count(g) == old(self).spec_use_count(g) && final(self).spec_payload_len(g) == old(self).spec_payload_len(g),
            (old(self).spec_free_pages() >= spec_need_pages(bytes as int) && !old(self).gen_exhausted()) ==> (r is Some && final(self).spec_free_pages() == old(self).spec_free_pages() - spec_need_pages(bytes as int) && (forall|g: u64|
                #[trigger] old(self).live(g) ==> final(self).live(g))),
            exists|cut: int| #[trigger] eviction_cut(*old(self), *final(self), cut) && 0 <= cut,
            final(self).spec_generations_used() == old(self).spec_generations_used() + (
            if r is Some {
                1int
            } else {
                0int
            }),
            match r {
                Some(w) => {
                    &&& spec_need_pages(bytes as int) <= old(self).spec_capacity()
                    &&& !old(self).live(w.spec_gen())
                    &&& final(self).live(w.spec_gen())
                    &&& final(self).idx(w.spec_gen()) == 0
                    &&& final(self).spec_use_count(w.spec_gen()) == 0
                    &&& final(self).spec_payload_len(w.spec_gen()) == spec_payload_len_for(
                        bytes as int,
                    )
                    &&& spec_payload_len_for(bytes as int) >= bytes
                    &&& final(self).spec_total_pages(w.spec_gen()) == spec_need_pages(
                        bytes as int,
                    )
                    &&& (final(self).spec_is_embed(w.spec_gen()) <==> bytes <= EMBED_SIZE)
                    &&& final(self).spec_data_page_count(w.spec_gen()) == spec_data_pages(
                        bytes as int,
                    )
                    &&& forall|g: u64|
                        #[trigger] final(self).live(g) && g != w.spec_gen() ==> old(self).live(g)
                },
                None => {
                    &&& forall|g: u64| #[trigger] final(self).live(g) ==> old(self).live(g)
                    &&& (spec_need_pages(bytes as int) > old(self).spec_capacity() || (final(self).spec_free_pages() < spec_need_pages(bytes as int) && (forall|g: u64|
                        #[trigger] final(self).live(g) ==> final(self).spec_use_count(g) > 0))
                        || old(self).gen_exhausted())
                },
            },
    {
        proof {
            lemma_payload_len_for_covers(bytes as int);
            if spec_need_pages(bytes as int) <= old(self).spec_free_pages() {
                lemma_pages_sum_nonneg(self.hdrs());
            }
        }
        if self.next_gen == u64::MAX {
            proof {
                self.lemma_identity_cut();
            }
            return None;
        }
        let cap = self.capacity_pages();
        let need64 = AllocatedPage::need_pages(bytes);
        if need64 > cap as u64 {
            proof {
                self.lemma_identity_cut();
            }
            return None;
        }
        let need: usize = need64 as usize;
        let free = self.free_pages();
        if need > free {
            if !self.free_old_pages(need - free) {
                return None;
            }
        } else {
            proof {
                self.lemma_identity_cut();
            }
        }
        let ghost entry = *self;
        proof {
            self.lemma_wf_base();
        }
        let (d, m) = AllocatedPage::calc_page_count(bytes);
        let header_page = self.take_page();
        let mut rel_map: Vec<u32> = Vec::new();
        while rel_map.len() < m
            invariant
                self.base_wf(),
                self.hdrs() == entry.hdrs(),
                self.buffer@ == entry.buffer@,
                self.next_gen == entry.next_gen,
                rel_map@.len() <= m,
                1 + m + d == need,
                need <= entry.spec_free_pages(),
                self.spec_capacity() == entry.spec_capacity(),
                self.spec_free_pages() == entry.spec_free_pages() - 1 - rel_map@.len(),
                header_page < self.spec_capacity(),
                !self.allocator.free_set().contains(header_page as int),
                forall|k: int|
                    0 <= k < self.hdrs().len() ==> !(#[trigger] self.hdrs()[k].owns(
                        header_page as int,
                    )),
                forall|k: int|
                    0 <= k < rel_map@.len() ==> (#[trigger] rel_map@[k]) < self.spec_capacity(),
                forall|k: int|
                    0 <= k < rel_map@.len() ==> !self.allocator.free_set().contains((
                    #[trigger] rel_map@[k]) as int),
                forall|k: int| 0 <= k < rel_map@.len() ==> (#[trigger] rel_map@[k]) != header_page,
                forall|k1: int, k2: int|
                    0 <= k1 < rel_map@.len() && 0 <= k2 < rel_map@.len() && k1 != k2 ==> (
                    #[trigger] rel_map@[k1]) != (#[trigger] rel_map@[k2]),
                forall|k: int, kh: int|
                    0 <= k < rel_map@.len() && 0 <= kh < self.hdrs().len() ==> !(
                    #[trigger] self.hdrs()[kh].owns((#[trigger] rel_map@[k]) as int)),
            decreases m - rel_map@.len(),
        {
            let p = self.take_page();
            rel_map.push(p);
        }
        let mut data_map: Vec<u32> = Vec::new();
        while data_map.len() < d
            invariant
                self.base_wf(),
                self.hdrs() == entry.hdrs(),
                self.buffer@ == entry.buffer@,
                self.next_gen == entry.next_gen,
                rel_map@.len() == m,
                data_map@.len() <= d,
                1 + m + d == need,
                need <= entry.spec_free_pages(),
                self.spec_capacity() == entry.spec_capacity(),
                self.spec_free_pages() == entry.spec_free_pages() - 1 - m - data_map@.len(),
                header_page < self.spec_capacity(),
                !self.allocator.free_set().contains(header_page as int),
                forall|k: int|
                    0 <= k < self.hdrs().len() ==> !(#[trigger] self.hdrs()[k].owns(
                        header_page as int,
                    )),
                forall|k: int|
                    0 <= k < rel_map@.len() ==> (#[trigger] rel_map@[k]) < self.spec_capacity(),
                forall|k: int|
                    0 <= k < rel_map@.len() ==> !self.allocator.free_set().contains((
                    #[trigger] rel_map@[k]) as int),
                forall|k: int| 0 <= k < rel_map@.len() ==> (#[trigger] rel_map@[k]) != header_page,
                forall|k1: int, k2: int|
                    0 <= k1 < rel_map@.len() && 0 <= k2 < rel_map@.len() && k1 != k2 ==> (
                    #[trigger] rel_map@[k1]) != (#[trigger] rel_map@[k2]),
                forall|k: int, kh: int|
                    0 <= k < rel_map@.len() && 0 <= kh < self.hdrs().len() ==> !(
                    #[trigger] self.hdrs()[kh].owns((#[trigger] rel_map@[k]) as int)),
                forall|k: int|
                    0 <= k < data_map@.len() ==> (#[trigger] data_map@[k]) < self.spec_capacity(),
                forall|k: int|
                    0 <= k < data_map@.len() ==> !self.allocator.free_set().contains((
                    #[trigger] data_map@[k]) as int),
                forall|k: int|
                    0 <= k < data_map@.len() ==> (#[trigger] data_map@[k]) != header_page,
                forall|k1: int, k2: int|
                    0 <= k1 < data_map@.len() && 0 <= k2 < rel_map@.len() ==> (
                    #[trigger] data_map@[k1]) != (#[trigger] rel_map@[k2]),
                forall|k1: int, k2: int|
                    0 <= k1 < data_map@.len() && 0 <= k2 < data_map@.len() && k1 != k2 ==> (
                    #[trigger] data_map@[k1]) != (#[trigger] data_map@[k2]),
                forall|k: int, kh: int|
                    0 <= k < data_map@.len() && 0 <= kh < self.hdrs().len() ==> !(
                    #[trigger] self.hdrs()[kh].owns((#[trigger] data_map@[k]) as int)),
            decreases d - data_map@.len(),
        {
            let p = self.take_page();
            data_map.push(p);
        }
        let gen = self.next_gen;
        self.next_gen = self.next_gen + 1;
        let ghost pre = *self;
        let header = AllocatedPage {
            header_page,
            rel_map,
            data_map,
            data_pages: d as u32,
            use_count: 0,
            gen,
        };
        proof {
            assert(header.spec_all_pages() =~= seq![header_page] + header.rel_map@
                + header.data_map@);
            assert(header.total_pages() == need);
            lemma_header_fresh(header, self.spec_capacity(), self.allocator.free_set(), self.hdrs());
        }
        self.use_page_lru.push_front(header);
        proof {
            PageManager::lemma_push_preserves(pre, *self, header);
            assert(self.hdrs().drop_first() =~= pre.hdrs());
            assert(pages_sum(self.hdrs()) == header.total_pages() + pages_sum(pre.hdrs()));
            assert(pages_sum(pre.hdrs()) == pages_sum(entry.hdrs()));
            PageManager::lemma_install_wf(pre, *self, header);
            assert forall|g: u64|
                #[trigger] self.live(g) && entry.live(g) implies self.contents(g)
                    == entry.contents(g) && self.spec_use_count(g) == entry.spec_use_count(g)
                    && self.spec_payload_len(g) == entry.spec_payload_len(g) by {
                entry.lemma_idx(g);
                assert(g != gen) by {
                    if g == gen {
                        assert(entry.hdrs()[entry.idx(g)].gen < gen);
                    }
                }
                assert(pre.live(g) && pre.idx(g) == entry.idx(g)) by {
                    pre.lemma_idx(g);
                }
            }
            assert forall|g: u64|
                old(self).live(g) && old(self).spec_use_count(g) > 0 implies #[trigger] self.live(
                    g,
                ) by {
                assert(entry.live(g));
                assert(pre.live(g)) by {
                    entry.lemma_idx(g);
                }
            }
            let ghost c = choose|cut: int| #[trigger] eviction_cut(*old(self), entry, cut) && 0
                <= cut;
            assert forall|g: u64|
                old(self).live(g) && old(self).spec_use_count(g) == 0 implies ((
            #[trigger] self.live(g)) <==> old(self).idx(g) < c) by {
                assert(g != gen) by {
                    if g == gen {
                        old(self).lemma_idx(g);
                        assert(old(self).hdrs()[old(self).idx(g)].gen < entry.next_gen);
                    }
                }
                assert(entry.live(g) <==> old(self).idx(g) < c);
                if entry.live(g) {
                    entry.lemma_idx(g);
                    assert(pre.live(g));
                    assert(self.live(g));
                } else {
                    if self.live(g) {
                        assert(pre.live(g));
                        assert(entry.live(g));
                    }
                }
            }
            assert(eviction_cut(*old(self), *self, c));
            assert forall|g: u64|
                #[trigger] self.live(g) && old(self).live(g) implies self.contents(g) == old(self).contents(g) && self.spec_use_count(g) == old(self).spec_use_count(g)
                    && self.spec_payload_len(g) == old(self).spec_payload_len(g) by {
                assert(entry.live(g)) by {
                    if !entry.live(g) {
                        assert(g != gen) by {
                            if g == gen {
                                old(self).lemma_idx(g);
                                assert(old(self).hdrs()[old(self).idx(g)].gen < entry.next_gen);
                            }
                        }
                        assert(pre.live(g)) by {
                            if self.live(g) && g != gen {
                                assert(pre.live(g));
                            }
                        }
                        assert(false);
                    }
                }
            }
        }
        Some(WeakRefPage { gen })
    }

    /// Gives the strong reference back; the allocation's use count drops
    /// by exactly one, and nothing else changes.
    pub fn release(&mut self, r: RefPage)
        requires
            old(self).wf(),
            old(self).live(r.spec_gen()),
            old(self).spec_use_count(r.spec_gen()) >= 1,
        ensures
            final(self).wf(),
            final(self).spec_capacity() == old(self).spec_capacity(),
            final(self).spec_free_pages() == old(self).spec_free_pages(),
            forall|g: u64| #[trigger] final(self).live(g) <==> old(self).live(g),
            forall|g: u64|
                #[trigger] final(self).live(g) ==> final(self).contents(g) == old(self).contents(
                    g,
                ) && final(self).spec_payload_len(g) == old(self).spec_payload_len(g),
            forall|g: u64|
                #[trigger] final(self).live(g) && g != r.spec_gen() ==> final(self).spec_use_count(g) == old(self).spec_use_count(g),
            final(self).spec_use_count(r.spec_gen()) == old(self).spec_use_count(r.spec_gen())
                - 1,
            final(self).spec_generations_used() == old(self).spec_generations_used(),
    {
        proof {
            self.lemma_idx(r.spec_gen());
        }
        let pos = match self.find_pos(r.gen) {
            Some(i) => i,
            None => {
                proof {
                    assert(false);
                }
                vstd::pervasive::unreached()
            },
        };
        let ghost pre = *self;
        proof {
            assert(pos as int == pre.idx(r.spec_gen()));
        }
        let h = self.use_page_lru.get_mut(pos);
        let ghost oldh = *h;
        h.dec_use();
        proof {
            let ghost x = AllocatedPage { use_count: (oldh.use_count - 1) as u32, ..oldh };
            assert(self.hdrs() == pre.hdrs().update(pos as int, x));
            PageManager::lemma_update_wf(pre, *self, pos as int, x);
            PageManager::lemma_update_preserves(pre, *self, pos as int, x);
        }
    }
}

impl WeakRefPage {
    /// Upgrades to a strong reference if the allocation is still resident;
    /// refuses once it was evicted.
    pub fn upgrade(&self, pm: &mut PageManager) -> (r: Option<RefPage>)
        requires
            old(pm).wf(),
            old(pm).live(self.spec_gen()) ==> old(pm).spec_use_count(self.spec_gen())
                < u32::MAX,
        ensures
            final(pm).wf(),
            final(pm).spec_capacity() == old(pm).spec_capacity(),
            final(pm).spec_free_pages() == old(pm).spec_free_pages(),
            forall|g: u64| #[trigger] final(pm).live(g) <==> old(pm).live(g),
            forall|g: u64|
                #[trigger] final(pm).live(g) ==> final(pm).contents(g) == old(pm).contents(g)
                    && final(pm).spec_payload_len(g) == old(pm).spec_payload_len(g),
            forall|g: u64|
                #[trigger] final(pm).live(g) && g != self.spec_gen() ==> final(pm).spec_use_count(g) == old(pm).spec_use_count(g),
            match r {
                Some(rp) => {
                    &&& rp.spec_gen() == self.spec_gen()
                    &&& old(pm).live(self.spec_gen())
                    &&& final(pm).spec_use_count(self.spec_gen()) == old(pm).spec_use_count(
                        self.spec_gen(),
                    ) + 1
                },
                None => !old(pm).live(self.spec_gen()) && *final(pm) == *old(pm),
            },
            final(pm).spec_generations_used() == old(pm).spec_generations_used(),
    {
        let pos = match pm.find_pos(self.gen) {
            Some(i) => i,
            None => {
                proof {
                    if old(pm).live(self.spec_gen()) {
                        old(pm).lemma_idx(self.spec_gen());
                    }
                }
                return None;
            },
        };
        proof {
            pm.lemma_idx(self.spec_gen());
            assert(pos as int == pm.idx(self.spec_gen()));
        }
        let ghost pre = *pm;
        let h = pm.use_page_lru.get_mut(pos);
        let ghost oldh = *h;
        h.inc_use();
        proof {
            let ghost x = AllocatedPage { use_count: (oldh.use_count + 1) as u32, ..oldh };
            assert(pm.hdrs() == pre.hdrs().update(pos as int, x));
            PageManager::lemma_update_wf(pre, *pm, pos as int, x);
            PageManager::lemma_update_preserves(pre, *pm, pos as int, x);
        }
        Some(RefPage { gen: self.gen })
    }
}


proof fn lemma_data_contents_len(b: Seq<Seq<u8>>, m: Seq<u32>)
    requires
        forall|k: int| 0 <= k < m.len() ==> ((#[trigger] m[k]) as int) < b.len(),
        forall|k: int| 0 <= k < m.len() ==> b[(#[trigger] m[k]) as int].len() == PAGE_SIZE,
    ensures
        data_contents(b, m).len() == m.len() * (PAGE_SIZE as int),
    decreases m.len(),
{
    if m.len() > 0 {
        assert forall|k: int| 0 <= k < m.drop_first().len() implies ((
        #[trigger] m.drop_first()[k]) as int) < b.len() && b[(m.drop_first()[k]) as int].len()
            == PAGE_SIZE by {
            assert(m.drop_first()[k] == m[k + 1]);
        }
        lemma_data_contents_len(b, m.drop_first());
        assert(m.len() * (PAGE_SIZE as int) == (PAGE_SIZE as int) + m.drop_first().len() * (
        PAGE_SIZE as int)) by (nonlinear_arith)
            requires
                m.len() == m.drop_first().len() + 1,
        ;
    }
}

proof fn lemma_data_contents_index(b: Seq<Seq<u8>>, m: Seq<u32>, n: int, o: int)
    requires
        forall|k: int| 0 <= k < m.len() ==> ((#[trigger] m[k]) as int) < b.len(),
        forall|k: int| 0 <= k < m.len() ==> b[(#[trigger] m[k]) as int].len() == PAGE_SIZE,
        0 <= n < m.len(),
        0 <= o < PAGE_SIZE,
    ensures
        0 <= n * (PAGE_SIZE as int) + o < data_contents(b, m).len(),
        data_contents(b, m)[n * (PAGE_SIZE as int) + o] == b[m[n] as int][o],
    decreases n,
{
    lemma_data_contents_len(b, m);
    assert(0 <= n * (PAGE_SIZE as int) + o < m.len() * (PAGE_SIZE as int)) by (nonlinear_arith)
        requires
            0 <= n < m.len(),
            0 <= o < PAGE_SIZE,
    ;
    if n == 0 {
        assert(data_contents(b, m)[o] == b[m[0] as int][o]);
    } else {
        assert forall|k: int| 0 <= k < m.drop_first().len() implies ((
        #[trigger] m.drop_first()[k]) as int) < b.len() && b[(m.drop_first()[k]) as int].len()
            == PAGE_SIZE by {
            assert(m.drop_first()[k] == m[k + 1]);
        }
        lemma_data_contents_index(b, m.drop_first(), n - 1, o);
        assert(m.drop_first()[n - 1] == m[n]);
        assert(n * (PAGE_SIZE as int) + o - PAGE_SIZE == (n - 1) * (PAGE_SIZE as int) + o)
            by (nonlinear_arith);
        assert(data_contents(b, m)[n * (PAGE_SIZE as int) + o] == data_contents(
            b,
            m.drop_first(),
        )[(n - 1) * (PAGE_SIZE as int) + o]);
    }
}

proof fn lemma_data_contents_frame(b1: Seq<Seq<u8>>, b2: Seq<Seq<u8>>, m: Seq<u32>)
    requires
        forall|k: int| 0 <= k < m.len() ==> ((#[trigger] m[k]) as int) < b1.len(),
        b2.len() == b1.len(),
        forall|k: int| 0 <= k < m.len() ==> b2[(#[trigger] m[k]) as int] == b1[(m[k]) as int],
    ensures
        data_contents(b2, m) == data_contents(b1, m),
    decreases m.len(),
{
    if m.len() > 0 {
        assert forall|k: int| 0 <= k < m.drop_first().len() implies ((
        #[trigger] m.drop_first()[k]) as int) < b1.len() && b2[(m.drop_first()[k]) as int] == b1[(
        m.drop_first()[k]) as int] by {
            assert(m.drop_first()[k] == m[k + 1]);
        }
        lemma_data_contents_frame(b1, b2, m.drop_first());
    }
}

impl PageManager {
    /// Free-count conservation at the steady state: when no allocation is
    /// resident, every page of the arena is free again.
    pub proof fn lemma_all_free_when_empty(&self)
        requires
            self.wf(),
            forall|g: u64| !self.live(g),
        ensures
            self.spec_free_pages() == self.spec_capacity(),
    {
        if self.hdrs().len() > 0 {
            assert(self.live(self.hdrs()[0].gen));
        }
        assert(pages_sum(self.hdrs()) == 0);
    }

    /// Pages consumed by the resident allocations in all: headers,
    /// indirection and data.
    pub closed spec fn spec_allocated_pages(&self) -> int {
        pages_sum(self.hdrs())
    }

    /// Pages the allocation `gen` consumes: header, indirection, data.
    pub closed spec fn spec_total_pages(&self, gen: u64) -> int {
        self.hdrs()[self.idx(gen)].total_pages()
    }

    /// Free-count conservation: free pages and allocated pages always
    /// account for the whole arena.
    pub proof fn lemma_conservation(&self)
        requires
            self.wf(),
        ensures
            self.spec_free_pages() + self.spec_allocated_pages() == self.spec_capacity(),
            self.spec_allocated_pages() >= 0,
            self.spec_free_pages() >= 0,
    {
        lemma_pages_sum_nonneg(self.hdrs());
    }

    /// A resident allocation's page total, layout and data-page count are
    /// determined by its payload capacity, so they carry across every
    /// operation that preserves the payload.
    pub proof fn lemma_total_determined(&self, gen: u64)
        requires
            self.wf(),
            self.live(gen),
        ensures
            self.spec_total_pages(gen) == spec_total_for_payload(self.spec_payload_len(gen)),
            self.spec_is_embed(gen) <==> self.spec_payload_len(gen) == EMBED_SIZE,
            self.spec_data_page_count(gen) == if self.spec_is_embed(gen) {
                0int
            } else {
                self.spec_payload_len(gen) / (PAGE_SIZE as int)
            },
    {
        self.lemma_idx(gen);
        let h = self.hdrs()[self.idx(gen)];
        assert(h.wf(self.spec_capacity()));
        if h.is_embed() {
        } else {
            assert(h.data_pages >= 1);
            assert((h.data_pages as int) * (PAGE_SIZE as int) / (PAGE_SIZE as int)
                == h.data_pages as int) by (nonlinear_arith)
                requires
                    0 < PAGE_SIZE,
            ;
            assert((h.data_pages as int) * (PAGE_SIZE as int) >= PAGE_SIZE as int)
                by (nonlinear_arith)
                requires
                    h.data_pages >= 1,
                    0 < PAGE_SIZE,
            ;
        }
    }

    /// A resident allocation consumes at least one page, and at most all
    /// the allocated pages.
    pub proof fn lemma_live_total(&self, gen: u64)
        requires
            self.wf(),
            self.live(gen),
        ensures
            1 <= self.spec_total_pages(gen),
            self.spec_total_pages(gen) <= self.spec_allocated_pages(),
    {
        self.lemma_idx(gen);
        let k = self.idx(gen);
        lemma_pages_sum_remove(self.hdrs(), k);
        lemma_pages_sum_nonneg(self.hdrs().remove(k));
    }

    /// Two distinct resident allocations together consume at most the
    /// allocated pages.
    pub proof fn lemma_live_pair(&self, g1: u64, g2: u64)
        requires
            self.wf(),
            self.live(g1),
            self.live(g2),
            g1 != g2,
        ensures
            self.spec_total_pages(g1) + self.spec_total_pages(g2)
                <= self.spec_allocated_pages(),
            1 <= self.spec_total_pages(g1),
            1 <= self.spec_total_pages(g2),
    {
        self.lemma_idx(g1);
        self.lemma_idx(g2);
        let k1 = self.idx(g1);
        let k2 = self.idx(g2);
        lemma_pages_sum_remove(self.hdrs(), k1);
        let rest = self.hdrs().remove(k1);
        let k2r = if k2 < k1 {
            k2
        } else {
            k2 - 1
        };
        assert(rest[k2r] == self.hdrs()[k2]);
        lemma_pages_sum_remove(rest, k2r);
        lemma_pages_sum_nonneg(rest.remove(k2r));
    }

    /// Three distinct resident allocations together consume at most the
    /// allocated pages.
    pub proof fn lemma_live_triple(&self, g1: u64, g2: u64, g3: u64)
        requires
            self.wf(),
            self.live(g1),
            self.live(g2),
            self.live(g3),
            g1 != g2,
            g1 != g3,
            g2 != g3,
        ensures
            self.spec_total_pages(g1) + self.spec_total_pages(g2) + self.spec_total_pages(g3)
                <= self.spec_allocated_pages(),
    {
        self.lemma_idx(g1);
        self.lemma_idx(g2);
        self.lemma_idx(g3);
        let k1 = self.idx(g1);
        let k2 = self.idx(g2);
        let k3 = self.idx(g3);
        lemma_pages_sum_remove(self.hdrs(), k1);
        let rest = self.hdrs().remove(k1);
        let k2r = if k2 < k1 {
            k2
        } else {
            k2 - 1
        };
        let k3r = if k3 < k1 {
            k3
        } else {
            k3 - 1
        };
        assert(rest[k2r] == self.hdrs()[k2]);
        assert(rest[k3r] == self.hdrs()[k3]);
        lemma_pages_sum_remove(rest, k2r);
        let rest2 = rest.remove(k2r);
        let k3rr = if k3r < k2r {
            k3r
        } else {
            k3r - 1
        };
        assert(rest2[k3rr] == self.hdrs()[k3]);
        lemma_pages_sum_remove(rest2, k3rr);
        lemma_pages_sum_nonneg(rest2.remove(k3rr));
    }

    /// A resident allocation's use count is never negative.
    pub proof fn lemma_use_count_nonneg(&self, gen: u64)
        requires
            self.wf(),
            self.live(gen),
        ensures
            self.spec_use_count(gen) >= 0,
    {
        self.lemma_idx(gen);
    }

    /// An allocation's contents are exactly as long as its payload.
    pub proof fn lemma_contents_len(&self, gen: u64)
        requires
            self.wf(),
            self.live(gen),
        ensures
            self.contents(gen).len() == self.spec_payload_len(gen),
    {
        self.lemma_idx(gen);
        let h = self.hdrs()[self.idx(gen)];
        assert(h.wf(self.spec_capacity()));
        if h.is_embed() {
            assert(h.spec_all_pages()[0] == h.header_page);
        } else {
            assert forall|k: int| 0 <= k < h.data_map@.len() implies ((
            #[trigger] h.data_map@[k]) as int) < self.buffer@.len() && self.buffer@[(
            h.data_map@[k]) as int].len() == PAGE_SIZE by {
                assert(h.spec_all_pages()[1 + h.rel_map@.len() + k] == h.data_map@[k]);
            }
            lemma_data_contents_len(self.buffer@, h.data_map@);
        }
    }

    /// The payload capacity of the allocation `gen`, in bytes.
    pub fn payload_len(&self, r: &RefPage) -> (n: usize)
        requires
            self.wf(),
            self.live(r.spec_gen()),
        ensures
            n == self.spec_payload_len(r.spec_gen()),
    {
        proof {
            self.lemma_idx(r.spec_gen());
        }
        let pos = match self.find_pos(r.gen) {
            Some(i) => i,
            None => {
                proof {
                    assert(false);
                }
                vstd::pervasive::unreached()
            },
        };
        let h = self.use_page_lru.get(pos);
        proof {
            assert(pos as int == self.idx(r.spec_gen()));
            assert(h.wf(self.spec_capacity()));
        }
        if h.data_pages == 0 {
            EMBED_SIZE
        } else {
            proof {
                assert(h.spec_all_pages()[0] == h.header_page);
                assert((h.data_pages as int) <= h.total_pages() - 1);
                assert((h.data_pages as int) * (PAGE_SIZE as int) <= self.spec_capacity() * (
                PAGE_SIZE as int)) by (nonlinear_arith)
                    requires
                        0 <= (h.data_pages as int) <= self.spec_capacity(),
                        0 < PAGE_SIZE,
                ;
            }
            (h.data_pages as usize) * PAGE_SIZE
        }
    }

    /// Moves the allocation `gen` to the LRU front: the read-through side
    /// effect that keeps hot allocations away from the eviction tail.
    fn touch(&mut self, gen: u64)
        requires
            old(self).wf(),
            old(self).live(gen),
        ensures
            final(self).wf(),
            final(self).spec_capacity() == old(self).spec_capacity(),
            final(self).spec_free_pages() == old(self).spec_free_pages(),
            final(self).buffer@ == old(self).buffer@,
            final(self).next_gen == old(self).next_gen,
            forall|g: u64| #[trigger] final(self).live(g) <==> old(self).live(g),
            forall|g: u64|
                #[trigger] final(self).live(g) ==> final(self).contents(g) == old(self).contents(
                    g,
                ) && final(self).spec_use_count(g) == old(self).spec_use_count(g) && final(self).spec_payload_len(g) == old(self).spec_payload_len(g),
            final(self).idx(gen) == 0,
            forall|g: u64|
                #[trigger] final(self).live(g) && g != gen ==> final(self).idx(g) == (if old(self).idx(g) < old(self).idx(gen) {
                    old(self).idx(g) + 1
                } else {
                    old(self).idx(g)
                }),
            final(self).spec_generations_used() == old(self).spec_generations_used(),
    {
        proof {
            self.lemma_idx(gen);
        }
        let pos = match self.find_pos(gen) {
            Some(i) => i,
            None => {
                proof {
                    assert(false);
                }
                vstd::pervasive::unreached()
            },
        };
        let ghost pre = *self;
        let h = self.use_page_lru.unlink(pos);
        let ghost mid = *self;
        proof {
            assert(mid.hdrs() =~= pre.hdrs().remove(pos as int));
            lemma_pages_sum_remove(pre.hdrs(), pos as int);
        }
        self.use_page_lru.push_front(h);
        proof {
            assert(self.hdrs() =~= seq![h] + pre.hdrs().remove(pos as int));
            assert(self.hdrs().drop_first() =~= pre.hdrs().remove(pos as int));
            assert(pages_sum(self.hdrs()) == h.total_pages() + pages_sum(
                pre.hdrs().remove(pos as int),
            ));
            PageManager::lemma_remove_preserves(pre, mid, pos as int);
            assert forall|k: int| 0 <= k < mid.hdrs().len() implies (#[trigger] mid.hdrs()[k]).gen
                != h.gen by {
                let korig = if k < pos as int {
                    k
                } else {
                    k + 1
                };
                assert(mid.hdrs()[k] == pre.hdrs()[korig]);
            }
            PageManager::lemma_push_preserves(mid, *self, h);
            assert(h.wf(self.spec_capacity()));
            {
                assert forall|j: int|
                    0 <= j < h.spec_all_pages().len() implies !self.allocator.free_set().contains(
                        (#[trigger] h.spec_all_pages()[j]) as int,
                    ) by {
                    assert(pre.hdrs()[pos as int].owns((h.spec_all_pages()[j]) as int));
                }
                assert forall|j: int, kh: int|
                    0 <= j < h.spec_all_pages().len() && 0 <= kh < mid.hdrs().len() implies !(
                    #[trigger] mid.hdrs()[kh].owns((#[trigger] h.spec_all_pages()[j]) as int)) by {
                    let korig = if kh < pos as int {
                        kh
                    } else {
                        kh + 1
                    };
                    assert(mid.hdrs()[kh] == pre.hdrs()[korig]);
                    assert(pre.hdrs()[pos as int].owns((h.spec_all_pages()[j]) as int));
                }
            }
            PageManager::lemma_install_wf(mid, *self, h);
            assert forall|g: u64| #[trigger] self.live(g) implies pre.live(g) && self.contents(g)
                == pre.contents(g) && self.spec_use_count(g) == pre.spec_use_count(g)
                && self.spec_payload_len(g) == pre.spec_payload_len(g) by {
                if g == h.gen {
                    pre.lemma_idx(g);
                    assert(pre.idx(g) == pos as int);
                } else {
                    assert(mid.live(g));
                }
            }
            assert forall|g: u64| pre.live(g) implies #[trigger] self.live(g) by {
                if g != h.gen {
                    assert(mid.live(g));
                }
            }
            assert(self.idx(gen) == 0) by {
                self.lemma_idx(gen);
                assert(self.hdrs()[0].gen == h.gen);
                assert(h.gen == gen);
            }
            assert forall|g: u64| #[trigger] self.live(g) && g != gen implies self.idx(g) == (
            if pre.idx(g) < pre.idx(gen) {
                pre.idx(g) + 1
            } else {
                pre.idx(g)
            }) by {
                pre.lemma_idx(g);
                self.lemma_idx(g);
                let k = pre.idx(g);
                assert(k != pos as int) by {
                    if k == pos as int {
                        assert(pre.hdrs()[k].gen == gen);
                    }
                }
                if k < pos as int {
                    assert(mid.hdrs()[k] == pre.hdrs()[k]);
                    assert(self.hdrs()[k + 1] == mid.hdrs()[k]);
                    assert(self.hdrs()[k + 1].gen == g);
                    assert(self.idx(g) == k + 1);
                } else {
                    assert(mid.hdrs()[k - 1] == pre.hdrs()[k]);
                    assert(self.hdrs()[k] == mid.hdrs()[k - 1]);
                    assert(self.hdrs()[k].gen == g);
                    assert(self.idx(g) == k);
                }
            }
        }
    }
}


impl PageManager {
    /// Copies `len` payload bytes out of the allocation `r` pins, starting
    /// at byte `from`.  Reading through a strong reference moves the
    /// allocation to the LRU front.
    pub fn read_range(&mut self, r: &RefPage, from: usize, len: usize) -> (out: Vec<u8>)
        requires
            old(self).wf(),
            old(self).live(r.spec_gen()),
            from + len <= old(self).spec_payload_len(r.spec_gen()),
        ensures
            final(self).wf(),
            final(self).spec_capacity() == old(self).spec_capacity(),
            final(self).spec_free_pages() == old(self).spec_free_pages(),
            forall|g: u64| #[trigger] final(self).live(g) <==> old(self).live(g),
            forall|g: u64|
                #[trigger] final(self).live(g) ==> final(self).contents(g) == old(self).contents(
                    g,
                ) && final(self).spec_use_count(g) == old(self).spec_use_count(g) && final(self).spec_payload_len(g) == old(self).spec_payload_len(g),
            final(self).idx(r.spec_gen()) == 0,
            forall|g: u64|
                #[trigger] final(self).live(g) && g != r.spec_gen() ==> final(self).idx(g) == (
                if old(self).idx(g) < old(self).idx(r.spec_gen()) {
                    old(self).idx(g) + 1
                } else {
                    old(self).idx(g)
                }),
            final(self).spec_generations_used() == old(self).spec_generations_used(),
            out@ == old(self).contents(r.spec_gen()).subrange(from as int, from + len),
    {
        let ghost gen = r.spec_gen();
        self.touch(r.gen);
        let ghost snap = *self;
        proof {
            assert(self.live(gen));
            assert(self.spec_payload_len(gen) == old(self).spec_payload_len(gen));
            assert(self.contents(gen) == old(self).contents(gen));
            self.lemma_idx(gen);
            self.lemma_contents_len(gen);
        }
        let hpos = match self.find_pos(r.gen) {
            Some(i) => i,
            None => {
                proof {
                    assert(false);
                }
                vstd::pervasive::unreached()
            },
        };
        proof {
            assert(hpos as int == self.idx(gen));
            assert(self.hdrs()[hpos as int].wf(self.spec_capacity()));
        }
        let ghost c = self.contents(gen);
        let ghost hh = self.hdrs()[hpos as int];
        let ghost dm = hh.data_map@;
        if self.use_page_lru.get(hpos).data_pages == 0 {
            proof {
                assert(hh.spec_all_pages()[0] == hh.header_page);
            }
            let hp = self.use_page_lru.get(hpos).header_page;
            let out = self.buffer.read_range(hp as usize, HEADER_BYTES + from, len);
            proof {
                assert(out@ =~= c.subrange(from as int, from + len));
            }
            out
        } else {
            proof {
                assert forall|k: int| 0 <= k < dm.len() implies ((#[trigger] dm[k]) as int)
                    < self.buffer@.len() && self.buffer@[(dm[k]) as int].len() == PAGE_SIZE by {
                    assert(hh.spec_all_pages()[1 + hh.rel_map@.len() + k] == dm[k]);
                }
                lemma_data_contents_len(self.buffer@, dm);
            }
            let mut out: Vec<u8> = Vec::new();
            while out.len() < len
                invariant
                    *self == snap,
                    self.wf(),
                    self.live(gen),
                    hpos as int == self.idx(gen),
                    hpos < self.hdrs().len(),
                    hh == self.hdrs()[hpos as int],
                    hh.wf(self.spec_capacity()),
                    !hh.is_embed(),
                    dm == hh.data_map@,
                    c == self.contents(gen),
                    c.len() == self.spec_payload_len(gen),
                    c.len() == dm.len() * (PAGE_SIZE as int),
                    from + len <= c.len(),
                    out@.len() <= len,
                    out@ == c.subrange(from as int, from + out@.len()),
                    forall|k: int| 0 <= k < dm.len() ==> ((#[trigger] dm[k]) as int)
                        < self.buffer@.len(),
                    forall|k: int| 0 <= k < dm.len() ==> self.buffer@[(#[trigger] dm[k]) as int]
                        .len() == PAGE_SIZE,
                decreases len - out@.len(),
            {
                let pos_byte = from + out.len();
                let n = pos_byte / PAGE_SIZE;
                let off = pos_byte % PAGE_SIZE;
                proof {
                    vstd::arithmetic::div_mod::lemma_fundamental_div_mod(
                        pos_byte as int,
                        PAGE_SIZE as int,
                    );
                    assert(n < dm.len()) by {
                        if n as int >= dm.len() {
                            assert((PAGE_SIZE as int) * (n as int) >= dm.len() * (
                            PAGE_SIZE as int)) by (nonlinear_arith)
                                requires
                                    n as int >= dm.len(),
                                    0 < PAGE_SIZE,
                            ;
                        }
                    }
                }
                let rest = len - out.len();
                let chunk = if PAGE_SIZE - off < rest {
                    PAGE_SIZE - off
                } else {
                    rest
                };
                let page = self.use_page_lru.get(hpos).data_map[n];
                let mut part = self.buffer.read_range(page as usize, off, chunk);
                proof {
                    assert forall|t: int| 0 <= t < chunk implies part@[t] == c[pos_byte + t] by {
                        lemma_data_contents_index(self.buffer@, dm, n as int, off + t);
                        assert(part@[t] == self.buffer@[(dm[n as int]) as int][off + t]);
                        assert((n as int) * (PAGE_SIZE as int) == (PAGE_SIZE as int) * (n as int))
                            by (nonlinear_arith);
                    }
                    assert(out@ + part@ =~= c.subrange(from as int, from + out@.len() + chunk));
                }
                out.append(&mut part);
            }
            proof {
                assert(out@ =~= c.subrange(from as int, from + len));
            }
            out
        }
    }
}


impl PageManager {
    /// Overwrites payload bytes of the allocation `r` pins, starting at
    /// byte `from`.  Other allocations' contents are untouched.
    #[verifier::rlimit(100)]
    pub fn write_range(&mut self, r: &RefPage, from: usize, data: &Vec<u8>)
        requires
            old(self).wf(),
            old(self).live(r.spec_gen()),
            from + data@.len() <= old(self).spec_payload_len(r.spec_gen()),
        ensures
            final(self).wf(),
            final(self).spec_capacity() == old(self).spec_capacity(),
            final(self).spec_free_pages() == old(self).spec_free_pages(),
            forall|g: u64| #[trigger] final(self).live(g) <==> old(self).live(g),
            forall|g: u64|
                #[trigger] final(self).live(g) ==> final(self).spec_use_count(g) == old(
                    self,
                ).spec_use_count(g) && final(self).spec_payload_len(g) == old(
                    self,
                ).spec_payload_len(g),
            forall|g: u64|
                #[trigger] final(self).live(g) && g != r.spec_gen() ==> final(self).contents(g)
                    == old(self).contents(g),
            final(self).idx(r.spec_gen()) == 0,
            forall|g: u64|
                #[trigger] final(self).live(g) && g != r.spec_gen() ==> final(self).idx(g) == (
                if old(self).idx(g) < old(self).idx(r.spec_gen()) {
                    old(self).idx(g) + 1
                } else {
                    old(self).idx(g)
                }),
            final(self).spec_generations_used() == old(self).spec_generations_used(),
            final(self).contents(r.spec_gen()) =~= old(self).contents(r.spec_gen()).subrange(
                0,
                from as int,
            ) + data@ + old(self).contents(r.spec_gen()).subrange(
                from + data@.len(),
                old(self).spec_payload_len(r.spec_gen()),
            ),
    {
        let ghost gen = r.spec_gen();
        self.touch(r.gen);
        let ghost snap = *self;
        proof {
            assert(self.live(gen));
            assert(self.spec_payload_len(gen) == old(self).spec_payload_len(gen));
            assert(self.contents(gen) == old(self).contents(gen));
            self.lemma_idx(gen);
            self.lemma_contents_len(gen);
        }
        let hpos = match self.find_pos(r.gen) {
            Some(i) => i,
            None => {
                proof {
                    assert(false);
                }
                vstd::pervasive::unreached()
            },
        };
        proof {
            assert(hpos as int == self.idx(gen));
            assert(self.hdrs()[hpos as int].wf(self.spec_capacity()));
        }
        let ghost c0 = self.contents(gen);
        let ghost hh = self.hdrs()[hpos as int];
        let ghost dm = hh.data_map@;
        if self.use_page_lru.get(hpos).data_pages == 0 {
            proof {
                assert(hh.spec_all_pages()[0] == hh.header_page);
            }
            let hp = self.use_page_lru.get(hpos).header_page;
            let ghost bpre = self.buffer@;
            self.buffer.write_range(hp as usize, HEADER_BYTES + from, data);
            proof {
                assert(self.hdrs() == snap.hdrs());
                self.lemma_write_aftermath(snap, gen, hpos as int);
                assert(self.contents(gen) =~= c0.subrange(0, from as int) + data@ + c0.subrange(
                    from + data@.len(),
                    c0.len() as int,
                ));
            }
        } else {
            proof {
                assert forall|k: int| 0 <= k < dm.len() implies ((#[trigger] dm[k]) as int)
                    < self.buffer@.len() && self.buffer@[(dm[k]) as int].len() == PAGE_SIZE by {
                    assert(hh.spec_all_pages()[1 + hh.rel_map@.len() + k] == dm[k]);
                }
                lemma_data_contents_len(self.buffer@, dm);
            }
            let mut done: usize = 0;
            while done < data.len()
                invariant
                    self.wf(),
                    self.live(gen),
                    self.hdrs() == snap.hdrs(),
                    self.allocator == snap.allocator,
                    self.next_gen == snap.next_gen,
                    self.buffer@.len() == snap.buffer@.len(),
                    snap.wf(),
                    hpos as int == self.idx(gen),
                    hpos as int == snap.idx(gen),
                    hpos < self.hdrs().len(),
                    hh == self.hdrs()[hpos as int],
                    hh.wf(self.spec_capacity()),
                    !hh.is_embed(),
                    dm == hh.data_map@,
                    c0 == snap.contents(gen),
                    c0.len() == snap.spec_payload_len(gen),
                    c0.len() == dm.len() * (PAGE_SIZE as int),
                    from + data@.len() <= c0.len(),
                    done <= data@.len(),
                    forall|k: int| 0 <= k < dm.len() ==> ((#[trigger] dm[k]) as int)
                        < self.buffer@.len(),
                    forall|k: int| 0 <= k < dm.len() ==> self.buffer@[(#[trigger] dm[k]) as int]
                        .len() == PAGE_SIZE,
                    forall|p: int|
                        0 <= p < self.buffer@.len() && !hh.owns(p) ==> self.buffer@[p]
                            == snap.buffer@[p],
                    self.contents(gen).len() == c0.len(),
                    self.contents(gen) =~= c0.subrange(0, from as int) + data@.subrange(
                        0,
                        done as int,
                    ) + c0.subrange(from + done, c0.len() as int),
                decreases data@.len() - done,
            {
                let pos_byte = from + done;
                let n = pos_byte / PAGE_SIZE;
                let off = pos_byte % PAGE_SIZE;
                proof {
                    vstd::arithmetic::div_mod::lemma_fundamental_div_mod(
                        pos_byte as int,
                        PAGE_SIZE as int,
                    );
                    assert(n < dm.len()) by {
                        if n as int >= dm.len() {
                            assert((PAGE_SIZE as int) * (n as int) >= dm.len() * (
                            PAGE_SIZE as int)) by (nonlinear_arith)
                                requires
                                    n as int >= dm.len(),
                                    0 < PAGE_SIZE,
                            ;
                        }
                    }
                }
                let rest = data.len() - done;
                let chunk = if PAGE_SIZE - off < rest {
                    PAGE_SIZE - off
                } else {
                    rest
                };
                // the piece of `data` for this page
                let mut part: Vec<u8> = Vec::new();
                let mut t: usize = 0;
                while t < chunk
                    invariant
                        t <= chunk,
                        data@.len() <= usize::MAX,
                        done <= data@.len(),
                        chunk <= data@.len(),
                        done + chunk <= data@.len(),
                        part@ == data@.subrange(done as int, done + t),
                    decreases chunk - t,
                {
                    part.push(data[done + t]);
                    t = t + 1;
                    assert(part@ =~= data@.subrange(done as int, done + t));
                }
                let page = self.use_page_lru.get(hpos).data_map[n];
                let ghost bpre = self.buffer@;
                let ghost cpre = self.contents(gen);
                self.buffer.write_range(page as usize, off, &part);
                proof {
                    assert(hh.spec_all_pages()[1 + hh.rel_map@.len() + n] == dm[n as int]);
                    // pages other than dm[n] are unchanged
                    assert forall|p: int|
                        0 <= p < self.buffer@.len() && !hh.owns(p) implies self.buffer@[p]
                            == snap.buffer@[p] by {
                        if p != page as int {
                            assert(self.buffer@[p] == bpre[p]);
                        } else {
                            assert(hh.owns(page as int));
                        }
                    }
                    // contents of this allocation, byte by byte
                    assert forall|i: int| 0 <= i < c0.len() implies self.contents(gen)[i] == (
                    if pos_byte <= i < pos_byte + chunk {
                        data@[i - from]
                    } else {
                        cpre[i]
                    }) by {
                        lemma_data_contents_len(self.buffer@, dm);
                        let ni = i / (PAGE_SIZE as int);
                        let oi = i % (PAGE_SIZE as int);
                        vstd::arithmetic::div_mod::lemma_fundamental_div_mod(i, PAGE_SIZE as int);
                        assert(ni < dm.len()) by {
                            if ni >= dm.len() {
                                assert((PAGE_SIZE as int) * ni >= dm.len() * (PAGE_SIZE as int))
                                    by (nonlinear_arith)
                                    requires
                                        ni >= dm.len(),
                                        0 < PAGE_SIZE,
                                ;
                            }
                        }
                        assert(0 <= ni) by {
                            vstd::arithmetic::div_mod::lemma_div_pos_is_pos(i, PAGE_SIZE as int);
                        }
                        lemma_data_contents_index(self.buffer@, dm, ni, oi);
                        lemma_data_contents_index(bpre, dm, ni, oi);
                        assert(ni * (PAGE_SIZE as int) + oi == i) by (nonlinear_arith)
                            requires
                                i == (PAGE_SIZE as int) * ni + oi,
                        ;
                        if ni == n as int {
                            assert(i == (n as int) * (PAGE_SIZE as int) + oi) by (nonlinear_arith)
                                requires
                                    i == (PAGE_SIZE as int) * ni + oi,
                                    ni == n as int,
                            ;
                            assert(pos_byte == (PAGE_SIZE as int) * (n as int) + off);
                            if off <= oi < off + chunk {
                                assert(self.buffer@[(dm[ni]) as int][oi] == part@[oi - off]);
                                assert(i - pos_byte == oi - off);
                            } else {
                                assert(self.buffer@[(dm[ni]) as int][oi] == bpre[(
                                dm[ni]) as int][oi]);
                            }
                        } else {
                            assert(dm[ni] != dm[n as int]) by {
                                assert(hh.spec_all_pages()[1 + hh.rel_map@.len() + ni]
                                    == dm[ni]);
                            }
                            assert(self.buffer@[(dm[ni]) as int] == bpre[(dm[ni]) as int]);
                        }
                    }
                    let ghost target = c0.subrange(0, from as int) + data@.subrange(
                        0,
                        (done + chunk) as int,
                    ) + c0.subrange(from + done + chunk, c0.len() as int);
                    assert(self.contents(gen).len() == c0.len()) by {
                        lemma_data_contents_len(self.buffer@, dm);
                    }
                    assert(target.len() == c0.len());
                    assert forall|i: int| 0 <= i < c0.len() implies self.contents(gen)[i]
                        == target[i] by {
                        if i < from {
                            assert(target[i] == c0[i]);
                            assert(cpre[i] == c0[i]);
                        } else if i < from + done {
                            assert(target[i] == data@[i - from]);
                            assert(cpre[i] == data@[i - from]);
                        } else if i < from + done + chunk {
                            assert(target[i] == data@[i - from]);
                        } else {
                            assert(target[i] == c0[i]);
                            assert(cpre[i] == c0[i]);
                        }
                    }
                    assert(self.contents(gen) =~= target);
                }
                done = done + chunk;
            }
            proof {
                self.lemma_write_aftermath(snap, gen, hpos as int);
                assert(data@.subrange(0, data@.len() as int) =~= data@);
            }
        }
        proof {
            assert forall|g: u64| #[trigger] self.live(g) && g != gen implies self.contents(g)
                == old(self).contents(g) by {
                assert(snap.live(g));
            }
        }
    }

    /// After bytes were written only to pages the allocation at `hpos`
    /// owns, every other allocation's contents are unchanged.
    proof fn lemma_write_aftermath(&self, snap: PageManager, gen: u64, hpos: int)
        requires
            snap.wf(),
            self.base_wf(),
            self.hdrs() == snap.hdrs(),
            self.allocator == snap.allocator,
            self.next_gen == snap.next_gen,
            self.buffer@.len() == snap.buffer@.len(),
            snap.live(gen),
            hpos == snap.idx(gen),
            forall|p: int|
                0 <= p < self.buffer@.len() && !snap.hdrs()[hpos].owns(p) ==> self.buffer@[p]
                    == snap.buffer@[p],
        ensures
            self.wf(),
            forall|g: u64| #[trigger] self.live(g) <==> snap.live(g),
            forall|g: u64|
                #[trigger] self.live(g) ==> self.spec_use_count(g) == snap.spec_use_count(g)
                    && self.spec_payload_len(g) == snap.spec_payload_len(g),
            forall|g: u64|
                #[trigger] self.live(g) && g != gen ==> self.contents(g) == snap.contents(g),
    {
        snap.lemma_idx(gen);
        assert forall|g: u64| #[trigger] self.live(g) && g != gen implies self.contents(g)
            == snap.contents(g) by {
            self.lemma_idx(g);
            snap.lemma_idx(g);
            assert(self.idx(g) == snap.idx(g));
            let h = snap.hdrs()[snap.idx(g)];
            assert(h.wf(snap.spec_capacity()));
            assert(self.idx(g) != hpos) by {
                if self.idx(g) == hpos {
                    assert(snap.hdrs()[hpos].gen == gen);
                }
            }
            if h.is_embed() {
                assert(h.spec_all_pages()[0] == h.header_page);
                assert(h.owns(h.header_page as int));
                assert(!snap.hdrs()[hpos].owns(h.header_page as int));
                assert(self.buffer@[h.header_page as int] == snap.buffer@[h.header_page as int]);
            } else {
                assert forall|k: int| 0 <= k < h.data_map@.len() implies ((
                #[trigger] h.data_map@[k]) as int) < snap.buffer@.len() && self.buffer@[(
                h.data_map@[k]) as int] == snap.buffer@[(h.data_map@[k]) as int] by {
                    assert(h.spec_all_pages()[1 + h.rel_map@.len() + k] == h.data_map@[k]);
                    assert(h.owns((h.data_map@[k]) as int));
                    assert(!snap.hdrs()[hpos].owns((h.data_map@[k]) as int));
                }
                lemma_data_contents_frame(snap.buffer@, self.buffer@, h.data_map@);
            }
        }
    }
}


/// A cursor over the successive page-aligned slices of an allocation,
/// starting inside page `n` at `offset`.
pub struct SliceIter {
    gen: u64,
    n: usize,
    offset: usize,
}

/// The mutable counterpart of `SliceIter`: walks the same geometry, for
/// callers that fill the payload page by page.
pub struct SliceIterMut {
    gen: u64,
    n: usize,
    offset: usize,
}

impl SliceIter {
    pub closed spec fn spec_gen(&self) -> u64 {
        self.gen
    }

    pub closed spec fn spec_n(&self) -> int {
        self.n as int
    }

    pub closed spec fn spec_offset(&self) -> int {
        self.offset as int
    }
}

impl SliceIterMut {
    pub closed spec fn spec_gen(&self) -> u64 {
        self.gen
    }

    pub closed spec fn spec_n(&self) -> int {
        self.n as int
    }

    pub closed spec fn spec_offset(&self) -> int {
        self.offset as int
    }
}

impl PageManager {
    /// Whether the allocation's payload embeds in its header page.
    pub closed spec fn spec_is_embed(&self, gen: u64) -> bool {
        self.hdrs()[self.idx(gen)].is_embed()
    }

    /// The allocation's data-page count.
    pub closed spec fn spec_data_page_count(&self, gen: u64) -> int {
        self.hdrs()[self.idx(gen)].data_pages as int
    }

    /// The next page-aligned slice of the allocation's payload, or nothing
    /// once the cursor is past the last slice.
    pub fn next_slice(&self, it: &mut SliceIter) -> (r: Option<Vec<u8>>)
        requires
            self.wf(),
            self.live(old(it).spec_gen()),
        ensures
            final(it).spec_gen() == old(it).spec_gen(),
            match r {
                Some(v) => {
                    &&& final(it).spec_n() == old(it).spec_n() + 1
                    &&& final(it).spec_offset() == 0
                    &&& if self.spec_is_embed(old(it).spec_gen()) {
                        &&& old(it).spec_n() == 0
                        &&& old(it).spec_offset() <= EMBED_SIZE
                        &&& v@ == self.contents(old(it).spec_gen()).subrange(
                            old(it).spec_offset(),
                            EMBED_SIZE as int,
                        )
                    } else {
                        &&& old(it).spec_n() < self.spec_data_page_count(old(it).spec_gen())
                        &&& old(it).spec_offset() < PAGE_SIZE
                        &&& v@ == self.contents(old(it).spec_gen()).subrange(
                            old(it).spec_n() * (PAGE_SIZE as int) + old(it).spec_offset(),
                            (old(it).spec_n() + 1) * (PAGE_SIZE as int),
                        )
                    }
                },
                None => {
                    &&& *final(it) == *old(it)
                    &&& if self.spec_is_embed(old(it).spec_gen()) {
                        old(it).spec_n() > 0 || old(it).spec_offset() > EMBED_SIZE
                    } else {
                        old(it).spec_n() >= self.spec_data_page_count(old(it).spec_gen())
                            || old(it).spec_offset() >= PAGE_SIZE
                    }
                },
            },
    {
        let ghost gen = it.gen;
        proof {
            self.lemma_idx(gen);
            self.lemma_contents_len(gen);
        }
        let hpos = match self.find_pos(it.gen) {
            Some(i) => i,
            None => {
                proof {
                    assert(false);
                }
                vstd::pervasive::unreached()
            },
        };
        proof {
            assert(hpos as int == self.idx(gen));
            assert(self.hdrs()[hpos as int].wf(self.spec_capacity()));
        }
        let ghost hh = self.hdrs()[hpos as int];
        let h_data_pages = self.use_page_lru.get(hpos).data_pages;
        if h_data_pages == 0 {
            if it.n == 0 && it.offset <= EMBED_SIZE {
                proof {
                    assert(hh.spec_all_pages()[0] == hh.header_page);
                }
                let hp = self.use_page_lru.get(hpos).header_page;
                let v = self.buffer.read_range(
                    hp as usize,
                    HEADER_BYTES + it.offset,
                    EMBED_SIZE - it.offset,
                );
                proof {
                    assert(v@ =~= self.contents(gen).subrange(
                        it.offset as int,
                        EMBED_SIZE as int,
                    ));
                }
                it.n = 1;
                it.offset = 0;
                Some(v)
            } else {
                None
            }
        } else {
            if it.n < h_data_pages as usize && it.offset < PAGE_SIZE {
                proof {
                    assert forall|k: int| 0 <= k < hh.data_map@.len() implies ((
                    #[trigger] hh.data_map@[k]) as int) < self.buffer@.len() && self.buffer@[(
                    hh.data_map@[k]) as int].len() == PAGE_SIZE by {
                        assert(hh.spec_all_pages()[1 + hh.rel_map@.len() + k] == hh.data_map@[k]);
                    }
                }
                let page = self.use_page_lru.get(hpos).data_map[it.n];
                let v = self.buffer.read_range(page as usize, it.offset, PAGE_SIZE - it.offset);
                proof {
                    let n = it.n as int;
                    let c = self.contents(gen);
                    lemma_data_contents_len(self.buffer@, hh.data_map@);
                    assert((n + 1) * (PAGE_SIZE as int) == n * (PAGE_SIZE as int) + (
                    PAGE_SIZE as int)) by (nonlinear_arith);
                    assert((n + 1) * (PAGE_SIZE as int) <= hh.data_map@.len() * (
                    PAGE_SIZE as int)) by (nonlinear_arith)
                        requires
                            n + 1 <= hh.data_map@.len(),
                            0 < PAGE_SIZE,
                    ;
                    assert(n * (PAGE_SIZE as int) >= 0) by (nonlinear_arith)
                        requires
                            n >= 0,
                            0 < PAGE_SIZE,
                    ;
                    assert forall|t: int| 0 <= t < PAGE_SIZE - it.spec_offset() implies v@[t]
                        == c[n * (PAGE_SIZE as int) + it.spec_offset() + t] by {
                        lemma_data_contents_index(
                            self.buffer@,
                            hh.data_map@,
                            n,
                            it.spec_offset() + t,
                        );
                    }
                    assert(v@ =~= c.subrange(
                        n * (PAGE_SIZE as int) + it.spec_offset(),
                        (n + 1) * (PAGE_SIZE as int),
                    ));
                }
                it.n = it.n + 1;
                it.offset = 0;
                Some(v)
            } else {
                None
            }
        }
    }
}


impl RefPage {
    /// Begins iterating page-aligned slices from byte offset `from`; the
    /// read-through moves the allocation to the LRU front.
    pub fn get_slices(&self, pm: &mut PageManager, from: usize) -> (r: SliceIter)
        requires
            old(pm).wf(),
            old(pm).live(self.spec_gen()),
        ensures
            final(pm).wf(),
            final(pm).spec_capacity() == old(pm).spec_capacity(),
            final(pm).spec_free_pages() == old(pm).spec_free_pages(),
            forall|g: u64| #[trigger] final(pm).live(g) <==> old(pm).live(g),
            forall|g: u64|
                #[trigger] final(pm).live(g) ==> final(pm).contents(g) == old(pm).contents(g)
                    && final(pm).spec_use_count(g) == old(pm).spec_use_count(g) && final(pm).spec_payload_len(g) == old(pm).spec_payload_len(g),
            final(pm).idx(self.spec_gen()) == 0,
            forall|g: u64|
                #[trigger] final(pm).live(g) && g != self.spec_gen() ==> final(pm).idx(g) == (
                if old(pm).idx(g) < old(pm).idx(self.spec_gen()) {
                    old(pm).idx(g) + 1
                } else {
                    old(pm).idx(g)
                }),
            final(pm).spec_generations_used() == old(pm).spec_generations_used(),
            r.spec_gen() == self.spec_gen(),
            r.spec_n() == from as int / (PAGE_SIZE as int),
            r.spec_offset() == from as int % (PAGE_SIZE as int),
    {
        pm.touch(self.gen);
        SliceIter { gen: self.gen, n: from / PAGE_SIZE, offset: from % PAGE_SIZE }
    }

    /// The mutable counterpart of `get_slices`: the same geometry, for
    /// filling the payload page by page.
    pub fn get_slices_mut(&self, pm: &mut PageManager, from: usize) -> (r: SliceIterMut)
        requires
            old(pm).wf(),
            old(pm).live(self.spec_gen()),
        ensures
            final(pm).wf(),
            final(pm).spec_capacity() == old(pm).spec_capacity(),
            final(pm).spec_free_pages() == old(pm).spec_free_pages(),
            forall|g: u64| #[trigger] final(pm).live(g) <==> old(pm).live(g),
            forall|g: u64|
                #[trigger] final(pm).live(g) ==> final(pm).contents(g) == old(pm).contents(g)
                    && final(pm).spec_use_count(g) == old(pm).spec_use_count(g) && final(pm).spec_payload_len(g) == old(pm).spec_payload_len(g),
            final(pm).idx(self.spec_gen()) == 0,
            forall|g: u64|
                #[trigger] final(pm).live(g) && g != self.spec_gen() ==> final(pm).idx(g) == (
                if old(pm).idx(g) < old(pm).idx(self.spec_gen()) {
                    old(pm).idx(g) + 1
                } else {
                    old(pm).idx(g)
                }),
            final(pm).spec_generations_used() == old(pm).spec_generations_used(),
            r.spec_gen() == self.spec_gen(),
            r.spec_n() == from as int / (PAGE_SIZE as int),
            r.spec_offset() == from as int % (PAGE_SIZE as int),
    {
        pm.touch(self.gen);
        SliceIterMut { gen: self.gen, n: from / PAGE_SIZE, offset: from % PAGE_SIZE }
    }
}

impl PageManager {
    /// The length of the next slice a mutable cursor would yield, advancing
    /// the cursor; or nothing once past the last slice.
    pub fn next_slice_len(&self, it: &mut SliceIterMut) -> (r: Option<usize>)
        requires
            self.wf(),
            self.live(old(it).spec_gen()),
        ensures
            final(it).spec_gen() == old(it).spec_gen(),
            match r {
                Some(n) => {
                    &&& final(it).spec_n() == old(it).spec_n() + 1
                    &&& final(it).spec_offset() == 0
                    &&& if self.spec_is_embed(old(it).spec_gen()) {
                        old(it).spec_n() == 0 && old(it).spec_offset() <= EMBED_SIZE && n
                            == EMBED_SIZE - old(it).spec_offset()
                    } else {
                        old(it).spec_n() < self.spec_data_page_count(old(it).spec_gen()) && old(
                            it,
                        ).spec_offset() < PAGE_SIZE && n == PAGE_SIZE - old(it).spec_offset()
                    }
                },
                None => {
                    &&& *final(it) == *old(it)
                    &&& if self.spec_is_embed(old(it).spec_gen()) {
                        old(it).spec_n() > 0 || old(it).spec_offset() > EMBED_SIZE
                    } else {
                        old(it).spec_n() >= self.spec_data_page_count(old(it).spec_gen())
                            || old(it).spec_offset() >= PAGE_SIZE
                    }
                },
            },
    {
        let ghost gen = it.gen;
        proof {
            self.lemma_idx(gen);
        }
        let hpos = match self.find_pos(it.gen) {
            Some(i) => i,
            None => {
                proof {
                    assert(false);
                }
                vstd::pervasive::unreached()
            },
        };
        proof {
            assert(hpos as int == self.idx(gen));
        }
        let h_data_pages = self.use_page_lru.get(hpos).data_pages;
        if h_data_pages == 0 {
            if it.n == 0 && it.offset <= EMBED_SIZE {
                let n = EMBED_SIZE - it.offset;
                it.n = 1;
                it.offset = 0;
                Some(n)
            } else {
                None
            }
        } else {
            if it.n < h_data_pages as usize && it.offset < PAGE_SIZE {
                let n = PAGE_SIZE - it.offset;
                it.n = it.n + 1;
                it.offset = 0;
                Some(n)
            } else {
                None
            }
        }
    }
}

} // verus!\n