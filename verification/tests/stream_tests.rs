use showfs::buffered::round_to_page_size;
use showfs::buffered::BufferedReader;
use showfs::fs::Error;
use showfs::fs::File;
use showfs::fs::SeekFrom;
use showfs::memfile::MemFile;
use showfs::wrapper::Archive;
use showfs::wrapper::BlockCursor;
use showfs::wrapper::DecoderAction;
use showfs::wrapper::DecoderStatus;
use showfs::wrapper::Proxy;
use showfs::PAGE_SIZE;

fn pseudo_random(len: usize) -> Vec<u8> {
    let mut v = Vec::with_capacity(len);
    let mut state: u64 = 0x9e3779b97f4a7c15;
    for _ in 0..len {
        state = state.wrapping_mul(6364136223846793005).wrapping_add(1442695040888963407);
        v.push((state >> 33) as u8);
    }
    v
}

#[test]
fn buffer_test_read() {
    let v = pseudo_random(2 * 1024 * 1024);
    let stream = MemFile::new(v.clone()).open().unwrap();
    let mut r = BufferedReader::new(stream);
    let mut out: Vec<u8> = Vec::new();
    loop {
        let chunk = r.read(64 * 1024).unwrap();
        if chunk.is_empty() {
            break;
        }
        out.extend(chunk);
    }
    assert_eq!(out.len(), 2 * 1024 * 1024);
    assert_eq!(v, out);
}

#[test]
fn buffered_reader_restarts_from_zero() {
    let v = pseudo_random(3 * PAGE_SIZE + 17);
    let stream = MemFile::new(v.clone()).open().unwrap();
    let mut r = BufferedReader::new(stream);
    // read past the start, then seek back and read again
    let first = r.read(2 * PAGE_SIZE).unwrap();
    assert_eq!(&first[..], &v[..2 * PAGE_SIZE]);
    let p = r.seek(SeekFrom::Start(10)).unwrap();
    assert_eq!(p, 10);
    let again = r.read(100).unwrap();
    assert_eq!(&again[..], &v[10..110]);
    assert!(matches!(r.seek(SeekFrom::End(0)), Err(Error::InvalidArgument)));
}

#[test]
fn page_rounding() {
    assert_eq!(round_to_page_size(0), 0);
    assert_eq!(round_to_page_size(1), PAGE_SIZE);
    assert_eq!(round_to_page_size(PAGE_SIZE), PAGE_SIZE);
    assert_eq!(round_to_page_size(PAGE_SIZE + 1), 2 * PAGE_SIZE);
}

#[test]
fn entry_walk_state_machine() {
    let mut a = Archive::new();
    assert!(!a.at_eof());
    assert_eq!(a.next_entry_action(DecoderStatus::Normal), DecoderAction::Accept);
    assert_eq!(a.next_entry_action(DecoderStatus::Warn), DecoderAction::AcceptLogged);
    assert_eq!(a.next_entry_action(DecoderStatus::Retry), DecoderAction::Again);
    assert_eq!(a.next_entry_action(DecoderStatus::Fatal), DecoderAction::Fail);
    assert!(!a.at_eof());
    assert_eq!(a.next_entry_action(DecoderStatus::Eof), DecoderAction::Finish);
    assert!(a.at_eof());
    // the end is sticky
    assert_eq!(a.next_entry_action(DecoderStatus::Normal), DecoderAction::Finish);
}

#[test]
fn block_cursor_zero_fills_sparse_gaps() {
    let mut c = BlockCursor::new();
    assert!(c.needs_block());

    // a block whose logical offset jumps past the read position
    c.set_block(10, 5);
    assert!(!c.needs_block());
    assert_eq!(c.fill_gap(100), 10);
    assert_eq!(c.fill_gap(100), 0);
    let (begin, l) = c.take_from_block(100);
    assert_eq!(begin, 0);
    assert_eq!(l, 5);
    assert!(c.needs_block());

    c.set_eof();
    assert!(!c.needs_block());
}

#[test]
fn block_cursor_seeks() {
    let mut c = BlockCursor::new();
    assert_eq!(c.seek(SeekFrom::Start(3)).unwrap(), 3);
    assert_eq!(c.seek(SeekFrom::Current(4)).unwrap(), 7);
    assert!(matches!(c.seek(SeekFrom::Current(-8)), Err(Error::InvalidArgument)));
    assert_eq!(c.seek(SeekFrom::Current(-7)).unwrap(), 0);
    assert!(matches!(c.seek(SeekFrom::End(0)), Err(Error::InvalidArgument)));
}

#[test]
fn proxy_tracks_position() {
    let v = pseudo_random(100);
    let stream = MemFile::new(v.clone()).open().unwrap();
    let mut p = Proxy::new(stream);
    let chunk = p.read().unwrap();
    assert_eq!(chunk.len(), 100);
    assert_eq!(&chunk[..], &v[..]);
    let end = p.read().unwrap();
    assert!(end.is_empty());
}

#[test]
fn proxy_skips_forward() {
    let v = pseudo_random(100);
    let stream = MemFile::new(v.clone()).open().unwrap();
    let mut p = Proxy::new(stream);
    let skipped = p.skip(40).unwrap();
    assert_eq!(skipped, 40);
    let rest = p.read().unwrap();
    assert_eq!(&rest[..], &v[40..]);
    let pos = p.seek(SeekFrom::Start(0)).unwrap();
    assert_eq!(pos, 0);
    let again = p.read().unwrap();
    assert_eq!(&again[..], &v[..]);
}
