use showfs::archive::build_listing;
use showfs::archive::lookup_listing;
use showfs::archive::next_child;
use showfs::archive::paths_eq;
use showfs::archive::to_entry_attr;
use showfs::archive::to_file_kind;
use showfs::archive::view_archive;
use showfs::archive::ArchiveViewer;
use showfs::archive::ArchivedFile;
use showfs::archive::DirEntry;
use showfs::archive::RawEntry;
use showfs::fs::Attr;
use showfs::fs::Error;
use showfs::fs::FileKind;
use showfs::fs::TimeSpec;

fn dir_attr() -> Attr {
    let t = TimeSpec { sec: 7, nsec: 3 };
    Attr {
        ino: 0,
        size: 0,
        blocks: 0,
        atime: t,
        mtime: t,
        ctime: t,
        crtime: t,
        kind: FileKind::Directory,
        perm: 0o755,
        nlink: 0,
        uid: 1,
        gid: 2,
        rdev: 0,
        flags: 0,
    }
}

fn children_names(dents: &Vec<DirEntry>, parent: &Vec<Vec<u8>>) -> Vec<Vec<u8>> {
    let mut names = Vec::new();
    let mut start = 0;
    loop {
        match next_child(dents, parent, start) {
            Some(k) => {
                names.push(dents[k].path.last().unwrap().clone());
                start = k + 1;
            }
            None => break,
        }
    }
    names
}

#[test]
fn listing_two_members() {
    let entries = vec![
        RawEntry { path: vec![b"large".to_vec()], size: 1000, filetype: 0o100644 },
        RawEntry { path: vec![b"small".to_vec()], size: 10, filetype: 0o100644 },
    ];
    let attr = dir_attr();
    let dents = build_listing(&entries, &attr);

    // root plus the two members
    assert_eq!(dents.len(), 3);
    let mut names = children_names(&dents, &Vec::new());
    names.sort();
    assert_eq!(names, vec![b"large".to_vec(), b"small".to_vec()]);
    for name in [b"large".to_vec(), b"small".to_vec()] {
        let k = lookup_listing(&dents, &vec![name]).unwrap();
        assert_eq!(dents[k].attr.kind, FileKind::RegularFile);
    }
}

#[test]
fn listing_synthesizes_parents() {
    let entries = vec![
        RawEntry { path: vec![b"a".to_vec(), b"b".to_vec(), b"c.txt".to_vec()], size: 5, filetype: 0o100644 },
        RawEntry { path: vec![b"a".to_vec(), b"d.txt".to_vec()], size: 6, filetype: 0o100644 },
    ];
    let attr = dir_attr();
    let dents = build_listing(&entries, &attr);

    // root, a, a/b, a/b/c.txt, a/d.txt
    assert_eq!(dents.len(), 5);

    let a = lookup_listing(&dents, &vec![b"a".to_vec()]).unwrap();
    assert_eq!(dents[a].attr.kind, FileKind::Directory);
    let ab = lookup_listing(&dents, &vec![b"a".to_vec(), b"b".to_vec()]).unwrap();
    assert_eq!(dents[ab].attr.kind, FileKind::Directory);

    let under_a = children_names(&dents, &vec![b"a".to_vec()]);
    assert_eq!(under_a.len(), 2);

    assert!(matches!(
        lookup_listing(&dents, &vec![b"missing".to_vec()]),
        Err(Error::NotFound)
    ));
}

#[test]
fn listing_suppresses_duplicate_directories() {
    let entries = vec![
        RawEntry { path: vec![b"d".to_vec()], size: 0, filetype: 0o040755 },
        RawEntry { path: vec![b"d".to_vec()], size: 0, filetype: 0o040755 },
        RawEntry { path: vec![b"d".to_vec(), b"f".to_vec()], size: 1, filetype: 0o100644 },
    ];
    let attr = dir_attr();
    let dents = build_listing(&entries, &attr);
    // root, d, d/f — the duplicate directory is suppressed
    assert_eq!(dents.len(), 3);
}

#[test]
fn file_kind_mapping() {
    assert_eq!(to_file_kind(0o100644), FileKind::RegularFile);
    assert_eq!(to_file_kind(0o040755), FileKind::Directory);
    assert_eq!(to_file_kind(0o120777), FileKind::Symlink);
    assert_eq!(to_file_kind(0o060000), FileKind::BlockDevice);
    assert_eq!(to_file_kind(0o020000), FileKind::CharDevice);
    assert_eq!(to_file_kind(0o010000), FileKind::NamedPipe);
    // unknown bits default to a regular file
    assert_eq!(to_file_kind(0), FileKind::RegularFile);
    assert_eq!(to_file_kind(0o140000), FileKind::RegularFile);
}

#[test]
fn entry_attr_projection() {
    let base = dir_attr();
    let a = to_entry_attr(5000, 0o100644, &base);
    assert_eq!(a.size, 5000);
    assert_eq!(a.blocks, 2);
    assert_eq!(a.kind, FileKind::RegularFile);
    assert_eq!(a.ino, 0);
    assert_eq!(a.uid, 1);
    assert_eq!(a.gid, 2);
    assert_eq!(a.mtime, base.mtime);

    let z = to_entry_attr(0, 0o100644, &base);
    assert_eq!(z.size, 0);
    assert_eq!(z.blocks, 0);
}

#[test]
fn archive_name_recognition() {
    assert!(view_archive(&b"a.zip".to_vec()));
    assert!(view_archive(&b"A.RAR".to_vec()));
    assert!(view_archive(&b"x.tar.Zip".to_vec()));
    assert!(!view_archive(&b"a.tar".to_vec()));
    assert!(!view_archive(&b"a.zipx".to_vec()));
    assert!(!view_archive(&b".zip".to_vec()));
    assert!(!view_archive(&b"zip".to_vec()));
    assert!(!view_archive(&b"".to_vec()));

    let viewer = ArchiveViewer::new(1024 * 1024);
    assert!(viewer.is_archive(&b"photos.RaR".to_vec()));
    assert!(!viewer.is_archive(&b"notes.txt".to_vec()));
}

#[test]
fn paths_compare_by_components() {
    let a = vec![b"x".to_vec(), b"y".to_vec()];
    let b = vec![b"x".to_vec(), b"y".to_vec()];
    let c = vec![b"x".to_vec(), b"z".to_vec()];
    let d = vec![b"x".to_vec()];
    assert!(paths_eq(&a, &b));
    assert!(!paths_eq(&a, &c));
    assert!(!paths_eq(&a, &d));
}

#[test]
fn archived_file_metadata() {
    let attr = to_entry_attr(9, 0o100644, &dir_attr());
    let f = ArchivedFile::new(attr, vec![b"sub".to_vec(), b"leaf".to_vec()]);
    assert_eq!(f.name(), b"leaf".to_vec());
    let got = f.getattr().unwrap();
    assert_eq!(got.size, 9);
}
