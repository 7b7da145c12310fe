use showfs::fs::Error;
use showfs::fs::SeekFrom;
use showfs::memfile::MemFile;
use showfs::page::PageManager;
use showfs::reader::Cache;
use showfs::reader::MemberReader;
use showfs::PAGE_SIZE;

fn pseudo_random(len: usize) -> Vec<u8> {
    let mut v = Vec::with_capacity(len);
    let mut state: u64 = 0x2545f4914f6cdd1d;
    for _ in 0..len {
        state = state.wrapping_mul(6364136223846793005).wrapping_add(1442695040888963407);
        v.push((state >> 33) as u8);
    }
    v
}

fn read_to_end(
    r: &mut MemberReader,
    cache: &mut Cache<showfs::memfile::MemStream>,
    pm: &mut PageManager,
) -> Vec<u8> {
    let mut out = Vec::new();
    loop {
        let v = r.read(cache, pm, 64 * 1024).unwrap();
        if v.is_empty() {
            break;
        }
        out.extend(v);
    }
    out
}

#[test]
fn reader_test_read() {
    let mut pm = PageManager::new(10 * 1024 * 1024);
    let v = pseudo_random(2 * 1024 * 1024);
    let file = MemFile::new(v.clone());
    let mut cache = Cache::new(&file);

    // first read
    {
        let mut r = cache.make_reader(&mut pm, &file).unwrap();
        let out = read_to_end(&mut r, &mut cache, &mut pm);
        assert_eq!(out.len(), 2 * 1024 * 1024);
        assert_eq!(v, out);
        r.close(&mut pm);
    }
    // second read: served from the loaded state, no second open
    {
        let mut r = cache.make_reader(&mut pm, &file).unwrap();
        let out = read_to_end(&mut r, &mut cache, &mut pm);
        assert_eq!(out.len(), 2 * 1024 * 1024);
        assert_eq!(v, out);
        assert_eq!(cache.open_count(), 1);
        r.close(&mut pm);
    }
}

#[test]
fn two_readers_share_one_loading() {
    let mut pm = PageManager::new(64 * PAGE_SIZE);
    let v = pseudo_random(2 * PAGE_SIZE);
    let file = MemFile::new(v.clone());
    let mut cache = Cache::new(&file);

    let mut r1 = cache.make_reader(&mut pm, &file).unwrap();
    let first = r1.read(&mut cache, &mut pm, PAGE_SIZE).unwrap();
    assert_eq!(first.len(), PAGE_SIZE);
    assert_eq!(&first[..], &v[..PAGE_SIZE]);

    // the member is still loading: the second reader joins it and
    // no second open of the member happens
    let mut r2 = cache.make_reader(&mut pm, &file).unwrap();
    assert_eq!(cache.open_count(), 1);

    let p = r2.seek(SeekFrom::Start(PAGE_SIZE as u64)).unwrap();
    assert_eq!(p, PAGE_SIZE as u64);
    let second = r2.read(&mut cache, &mut pm, PAGE_SIZE).unwrap();
    assert_eq!(second.len(), PAGE_SIZE);
    assert_eq!(&second[..], &v[PAGE_SIZE..]);

    assert_eq!(cache.open_count(), 1);
    r1.close(&mut pm);
    r2.close(&mut pm);
}

#[test]
fn budget_below_member_size_is_out_of_memory() {
    let mut pm = PageManager::new(2 * PAGE_SIZE);
    let v = pseudo_random(5 * PAGE_SIZE);
    let file = MemFile::new(v);
    let mut cache = Cache::new(&file);
    let r = cache.make_reader(&mut pm, &file);
    assert!(matches!(r, Err(Error::OutOfMemory)));
}

#[test]
fn eviction_makes_room_for_reading() {
    let mut pm = PageManager::new(20 * PAGE_SIZE);
    // an unused allocation that pressure can evict
    let old = pm.allocate(10 * PAGE_SIZE).unwrap();
    assert!(old.upgrade(&mut pm).is_some_and(|p| {
        pm.release(p);
        true
    }));

    let v = pseudo_random(10 * PAGE_SIZE);
    let file = MemFile::new(v.clone());
    let mut cache = Cache::new(&file);
    let mut r = cache.make_reader(&mut pm, &file).unwrap();
    let out = read_to_end(&mut r, &mut cache, &mut pm);
    assert_eq!(out, v);
    r.close(&mut pm);

    // the old allocation went to make room
    assert!(old.upgrade(&mut pm).is_none());
}

#[test]
fn random_access_reads_cover_the_member() {
    let mut pm = PageManager::new(64 * PAGE_SIZE);
    let v = pseudo_random(3 * PAGE_SIZE + 123);
    let file = MemFile::new(v.clone());
    let mut cache = Cache::new(&file);
    let mut r = cache.make_reader(&mut pm, &file).unwrap();

    // decreasing offsets, gathered back in offset order
    let cuts = [0usize, 1000, PAGE_SIZE, 2 * PAGE_SIZE + 77, v.len()];
    let mut parts: Vec<Vec<u8>> = vec![Vec::new(); cuts.len() - 1];
    for k in (0..cuts.len() - 1).rev() {
        r.seek(SeekFrom::Start(cuts[k] as u64)).unwrap();
        let mut part = Vec::new();
        while part.len() < cuts[k + 1] - cuts[k] {
            let v2 = r
                .read(&mut cache, &mut pm, cuts[k + 1] - cuts[k] - part.len())
                .unwrap();
            assert!(!v2.is_empty());
            part.extend(v2);
        }
        parts[k] = part;
    }
    let mut out = Vec::new();
    for p in parts {
        out.extend(p);
    }
    assert_eq!(out, v);
    r.close(&mut pm);
}

#[test]
fn seek_rejects_before_zero() {
    let mut pm = PageManager::new(8 * PAGE_SIZE);
    let v = pseudo_random(100);
    let file = MemFile::new(v);
    let mut cache = Cache::new(&file);
    let mut r = cache.make_reader(&mut pm, &file).unwrap();

    assert!(matches!(r.seek(SeekFrom::End(-101)), Err(Error::InvalidArgument)));
    assert!(matches!(r.seek(SeekFrom::Current(-1)), Err(Error::InvalidArgument)));
    let p = r.seek(SeekFrom::End(-100)).unwrap();
    assert_eq!(p, 0);
    let p = r.seek(SeekFrom::End(10)).unwrap();
    assert_eq!(p, 110);
    let v2 = r.read(&mut cache, &mut pm, 10).unwrap();
    assert!(v2.is_empty());
    r.close(&mut pm);
}

#[test]
fn empty_member_reads_empty() {
    let mut pm = PageManager::new(8 * PAGE_SIZE);
    let file = MemFile::new(Vec::new());
    let mut cache = Cache::new(&file);
    let mut r = cache.make_reader(&mut pm, &file).unwrap();
    let v = r.read(&mut cache, &mut pm, 16).unwrap();
    assert!(v.is_empty());
    r.close(&mut pm);
}

#[test]
fn repeated_reads_over_budget_complete() {
    // five members totalling far more than the budget; reading them all,
    // repeatedly, never runs out of memory because unused allocations
    // are evicted
    let mut pm = PageManager::new(20 * PAGE_SIZE);
    let members: Vec<Vec<u8>> = (0..5)
        .map(|k| pseudo_random(8 * PAGE_SIZE + k * 7))
        .collect();
    let files: Vec<MemFile> = members.iter().map(|v| MemFile::new(v.clone())).collect();
    let mut caches: Vec<Cache<showfs::memfile::MemStream>> =
        files.iter().map(Cache::new).collect();
    for _round in 0..3 {
        for k in 0..5 {
            let mut r = caches[k].make_reader(&mut pm, &files[k]).unwrap();
            let out = read_to_end(&mut r, &mut caches[k], &mut pm);
            assert_eq!(out, members[k]);
            r.close(&mut pm);
            // a second open demotes the finished loading state, dropping
            // its pin so the allocation becomes evictable
            let r2 = caches[k].make_reader(&mut pm, &files[k]).unwrap();
            r2.close(&mut pm);
        }
    }
}
