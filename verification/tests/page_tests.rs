use showfs::buffer::Buffer;
use showfs::link::LinkHead;
use showfs::page::AllocatedPage;
use showfs::page::PageManager;
use showfs::PAGE_SIZE;

#[test]
fn test_buffer() {
    let mut b = Buffer::new(1);
    b.write_range(0, 0, &vec![0x10u8]);
    let s = b.read_range(0, 0, 1);
    assert_eq!(s[0], 0x10);
}

#[test]
fn test_link() {
    let mut l = LinkHead::<usize>::new();
    assert!(l.is_empty());

    l.push_front(0);
    l.push_front(1);
    l.push_front(2);

    assert_eq!(*l.get(0), 2);

    l.unlink(0);
    assert_eq!(*l.get(0), 1);

    let mut it = l.iter_reverse_mut();
    let mut values: Vec<usize> = Vec::new();
    loop {
        match it.step(l.len()) {
            Some(pos) => values.push(*l.get(pos)),
            None => break,
        }
    }
    assert_eq!(values, vec![0, 1]);
}

fn count_slices(m: &mut PageManager, weak: &showfs::page::WeakRefPage) -> usize {
    let strong = weak.upgrade(m).unwrap();
    let mut it = strong.get_slices(m, 0);
    let mut count = 0;
    loop {
        match m.next_slice(&mut it) {
            Some(_) => count += 1,
            None => break,
        }
    }
    m.release(strong);
    count
}

#[test]
fn test_iterate() {
    let e = AllocatedPage::embed_map_len();
    let max = (10 + e) * PAGE_SIZE;
    let mut m = PageManager::new(max);
    {
        let embed = m.allocate(PAGE_SIZE / 2).unwrap();
        assert_eq!(count_slices(&mut m, &embed), 1);
    }
    {
        let direct = m.allocate(10 * PAGE_SIZE).unwrap();
        assert_eq!(count_slices(&mut m, &direct), 10);
    }
    {
        let relative = m.allocate((5 + e) * PAGE_SIZE).unwrap();
        assert_eq!(count_slices(&mut m, &relative), 5 + e);
    }
}

#[test]
fn test_allocate() {
    let mut m = PageManager::new(10 * PAGE_SIZE);
    let p1 = m.allocate(1 * PAGE_SIZE);
    let p2 = m.allocate(2 * PAGE_SIZE);
    assert!(p1.is_some());
    assert!(p2.is_some());
    let p1 = p1.unwrap();
    let p2 = p2.unwrap();
    {
        let p1s = p1.upgrade(&mut m);
        let p2s = p2.upgrade(&mut m);
        assert!(p1s.is_some());
        assert!(p2s.is_some());
        let p3 = m.allocate(9 * PAGE_SIZE);
        assert!(p3.is_none());
        m.release(p1s.unwrap());
        m.release(p2s.unwrap());
    }
    let p4 = m.allocate(9 * PAGE_SIZE);
    assert!(p4.is_some());
    assert!(p1.upgrade(&mut m).is_none());
    assert!(p2.upgrade(&mut m).is_none());
}

#[test]
fn test_ref_page() {
    let magic = [0xdu8, 0xe, 0xa, 0xd, 0xb, 0xe, 0xe, 0xf];
    let mut m = PageManager::new(10 * PAGE_SIZE);
    let p2 = m.allocate(9 * PAGE_SIZE).unwrap();
    {
        let p = p2.upgrade(&mut m).unwrap();
        let total = m.payload_len(&p);
        let mut pattern: Vec<u8> = Vec::new();
        for i in 0..total {
            pattern.push(magic[i % magic.len()]);
        }
        m.write_range(&p, 0, &pattern);
        m.release(p);
    }
    let p1 = p2.upgrade(&mut m).unwrap();
    let mut it = p1.get_slices(&mut m, 0);
    let mut off = 0usize;
    loop {
        match m.next_slice(&mut it) {
            Some(s) => {
                for (t, x) in s.iter().enumerate() {
                    assert_eq!(*x, magic[(off + t) % magic.len()]);
                }
                off += s.len();
            }
            None => break,
        }
    }
    assert_eq!(off, 9 * PAGE_SIZE);
    m.release(p1);
}

#[test]
fn free_count_conservation() {
    let m = PageManager::new(10 * PAGE_SIZE);
    assert_eq!(m.free_pages(), m.capacity_pages());
    assert_eq!(m.free_pages(), 10);
}

#[test]
fn allocate_counts_header_pages() {
    let mut m = PageManager::new(10 * PAGE_SIZE);
    let _w = m.allocate(1 * PAGE_SIZE).unwrap();
    // one data page plus the header page
    assert_eq!(m.free_pages(), 8);
}

#[test]
fn sizing_formulas() {
    let e = AllocatedPage::embed_map_len();
    assert_eq!(e, (PAGE_SIZE - 48) / 4);
    assert_eq!(AllocatedPage::embed_size(), PAGE_SIZE - 48);

    // embedded payload: no data pages at all
    assert_eq!(AllocatedPage::calc_page_count(AllocatedPage::embed_size()), (0, 0));
    // one byte more: one data page
    assert_eq!(AllocatedPage::calc_page_count(AllocatedPage::embed_size() + 1), (1, 0));
    // largest direct allocation
    assert_eq!(AllocatedPage::calc_page_count(e * PAGE_SIZE), (e, 0));
    // first relative allocation
    assert_eq!(AllocatedPage::calc_page_count((e + 1) * PAGE_SIZE), (e + 1, 1));
    // a full indirection page and one more
    assert_eq!(AllocatedPage::calc_page_count(1025 * PAGE_SIZE), (1025, 2));

    assert_eq!(AllocatedPage::need_pages(1), 1);
    assert_eq!(AllocatedPage::need_pages(PAGE_SIZE), 2);
    assert_eq!(AllocatedPage::need_pages(10 * PAGE_SIZE), 11);
}

#[test]
fn slice_geometry() {
    let mut m = PageManager::new(10 * PAGE_SIZE);

    let w = m.allocate(100).unwrap();
    let p = w.upgrade(&mut m).unwrap();
    // an embedded payload is one slice: the header page's tail
    let mut it = p.get_slices_mut(&mut m, 100);
    assert_eq!(m.next_slice_len(&mut it), Some(AllocatedPage::embed_size() - 100));
    assert_eq!(m.next_slice_len(&mut it), None);
    m.release(p);

    let w2 = m.allocate(2 * PAGE_SIZE).unwrap();
    let p2 = w2.upgrade(&mut m).unwrap();
    assert_eq!(m.payload_len(&p2), 2 * PAGE_SIZE);
    let mut it2 = p2.get_slices_mut(&mut m, 100);
    assert_eq!(m.next_slice_len(&mut it2), Some(PAGE_SIZE - 100));
    assert_eq!(m.next_slice_len(&mut it2), Some(PAGE_SIZE));
    assert_eq!(m.next_slice_len(&mut it2), None);
    m.release(p2);
}

#[test]
fn read_back_what_was_written() {
    let mut m = PageManager::new(10 * PAGE_SIZE);
    let w = m.allocate(3 * PAGE_SIZE).unwrap();
    let p = w.upgrade(&mut m).unwrap();
    // a write straddling a page boundary reads back intact
    let data: Vec<u8> = (0..600u32).map(|x| (x % 251) as u8).collect();
    m.write_range(&p, PAGE_SIZE - 300, &data);
    let back = m.read_range(&p, PAGE_SIZE - 300, 600);
    assert_eq!(back, data);
    // bytes before the write are untouched zeros (the arena starts zeroed)
    let before = m.read_range(&p, PAGE_SIZE - 301, 1);
    assert_eq!(before, vec![0u8]);
    m.release(p);
}
