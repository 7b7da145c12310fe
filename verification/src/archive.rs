//! The archive view: recognizing archive files by extension, the memoized
//! directory listing an archive projects (with synthetic parent
//! directories), lookup and readdir over it, and the file-type mapping
//! from POSIX mode bits.

use vstd::prelude::*;

verus! {

use crate::PAGE_SIZE;
use crate::fs::Attr;
use crate::fs::Error;
use crate::fs::FileKind;
use crate::page::PageManager;

/// The mask of the file-type bits in a POSIX mode.
pub const MODE_TYPE_MASK: u32 = 0o170000;

pub const MODE_SYMLINK: u32 = 0o120000;

pub const MODE_REGULAR: u32 = 0o100000;

pub const MODE_BLOCK_DEVICE: u32 = 0o060000;

pub const MODE_DIRECTORY: u32 = 0o040000;

pub const MODE_CHAR_DEVICE: u32 = 0o020000;

pub const MODE_NAMED_PIPE: u32 = 0o010000;

/// The entry kind a POSIX mode maps to; unknown bits default to a regular
/// file.
pub open spec fn spec_file_kind(m: u32) -> FileKind {
    if m & MODE_TYPE_MASK == MODE_SYMLINK {
        FileKind::Symlink
    } else if m & MODE_TYPE_MASK == MODE_REGULAR {
        FileKind::RegularFile
    } else if m & MODE_TYPE_MASK == MODE_BLOCK_DEVICE {
        FileKind::BlockDevice
    } else if m & MODE_TYPE_MASK == MODE_DIRECTORY {
        FileKind::Directory
    } else if m & MODE_TYPE_MASK == MODE_CHAR_DEVICE {
        FileKind::CharDevice
    } else if m & MODE_TYPE_MASK == MODE_NAMED_PIPE {
        FileKind::NamedPipe
    } else {
        FileKind::RegularFile
    }
}

/// Maps POSIX mode bits to an entry kind.
pub fn to_file_kind(m: u32) -> (r: FileKind)
    ensures
        r == spec_file_kind(m),
{
    let t = m & MODE_TYPE_MASK;
    if t == MODE_SYMLINK {
        FileKind::Symlink
    } else if t == MODE_REGULAR {
        FileKind::RegularFile
    } else if t == MODE_BLOCK_DEVICE {
        FileKind::BlockDevice
    } else if t == MODE_DIRECTORY {
        FileKind::Directory
    } else if t == MODE_CHAR_DEVICE {
        FileKind::CharDevice
    } else if t == MODE_NAMED_PIPE {
        FileKind::NamedPipe
    } else {
        FileKind::RegularFile
    }
}

/// The attribute record an archive entry projects: the entry's size and
/// kind over the archive file's own times and ownership.
pub open spec fn spec_entry_attr(size: i64, filetype: u32, base: Attr) -> Attr {
    Attr {
        ino: 0,
        size: size as u64,
        blocks: ((size + PAGE_SIZE - 1) / (PAGE_SIZE as int)) as u64,
        atime: base.atime,
        mtime: base.mtime,
        ctime: base.ctime,
        crtime: base.crtime,
        kind: spec_file_kind(filetype),
        perm: base.perm,
        nlink: 0,
        uid: base.uid,
        gid: base.gid,
        rdev: base.rdev,
        flags: 0,
    }
}

/// Builds an archive entry's attribute record.
pub fn to_entry_attr(size: i64, filetype: u32, base: &Attr) -> (r: Attr)
    requires
        0 <= size,
    ensures
        r == spec_entry_attr(size, filetype, *base),
{
    Attr {
        ino: 0,
        size: size as u64,
        blocks: ((size as u64) + (PAGE_SIZE as u64 - 1)) / (PAGE_SIZE as u64),
        atime: base.atime,
        mtime: base.mtime,
        ctime: base.ctime,
        crtime: base.crtime,
        kind: to_file_kind(filetype),
        perm: base.perm,
        nlink: 0,
        uid: base.uid,
        gid: base.gid,
        rdev: base.rdev,
        flags: 0,
    }
}

/// The lowercase form of an ASCII byte.
pub open spec fn spec_lower(c: u8) -> u8 {
    if 65 <= c <= 90 {
        (c + 32) as u8
    } else {
        c
    }
}

/// Whether a file name carries a recognized archive extension: the bytes
/// after the name's last dot, case-folded, are `zip` or `rar`, and the dot
/// is neither the first byte nor absent.
pub open spec fn spec_is_archive_name(s: Seq<u8>) -> bool {
    &&& s.len() >= 5
    &&& s[s.len() - 4] == 46u8
    &&& {
        let a = spec_lower(s[s.len() - 3]);
        let b = spec_lower(s[s.len() - 2]);
        let c = spec_lower(s[s.len() - 1]);
        (a == 122 && b == 105 && c == 112) || (a == 114 && b == 97 && c == 114)
    }
}

/// Decides whether a file of this name is viewed as an archive directory.
pub fn view_archive(name: &Vec<u8>) -> (r: bool)
    ensures
        r == spec_is_archive_name(name@),
{
    if name.len() < 5 {
        return false;
    }
    let n = name.len();
    if name[n - 4] != 46 {
        return false;
    }
    let a = lower_byte(name[n - 3]);
    let b = lower_byte(name[n - 2]);
    let c = lower_byte(name[n - 1]);
    (a == 122 && b == 105 && c == 112) || (a == 114 && b == 97 && c == 114)
}

fn lower_byte(c: u8) -> (r: u8)
    ensures
        r == spec_lower(c),
{
    if 65 <= c && c <= 90 {
        c + 32
    } else {
        c
    }
}

/// One entry as the decoder reports it: its path, in components, its size,
/// and its POSIX mode bits.
pub struct RawEntry {
    pub path: Vec<Vec<u8>>,
    pub size: i64,
    pub filetype: u32,
}

/// One row of an archive's materialized directory listing.
pub struct DirEntry {
    pub attr: Attr,
    pub path: Vec<Vec<u8>>,
}

/// A path's view: its components as byte sequences.
pub open spec fn pview(p: Seq<Vec<u8>>) -> Seq<Seq<u8>> {
    Seq::new(p.len(), |i: int| p[i]@)
}

/// Whether the listing holds an entry at exactly this path.
pub open spec fn listing_has(dents: Seq<DirEntry>, p: Seq<Seq<u8>>) -> bool {
    exists|k: int| 0 <= k < dents.len() && pview((#[trigger] dents[k]).path@) == p
}

/// Compares two component paths.
pub fn paths_eq(a: &Vec<Vec<u8>>, b: &Vec<Vec<u8>>) -> (r: bool)
    ensures
        r == (pview(a@) == pview(b@)),
{
    if a.len() != b.len() {
        proof {
            assert(pview(a@).len() != pview(b@).len());
        }
        return false;
    }
    let n = a.len();
    let mut i: usize = 0;
    while i < n
        invariant
            i <= n,
            n == a@.len(),
            n == b@.len(),
            forall|k: int| 0 <= k < i ==> (#[trigger] a@[k])@ == b@[k]@,
        decreases n - i,
    {
        let mut j: usize = 0;
        let ca = &a[i];
        let cb = &b[i];
        if ca.len() != cb.len() {
            proof {
                if pview(a@) == pview(b@) {
                    assert(pview(a@).len() == a@.len());
                    assert(pview(a@)[i as int] == a@[i as int]@);
                    assert(pview(b@)[i as int] == b@[i as int]@);
                    assert(pview(a@)[i as int] == pview(b@)[i as int]);
                    assert(a@[i as int]@ == b@[i as int]@);
                    assert(false);
                }
            }
            return false;
        }
        let m = ca.len();
        while j < m
            invariant
                j <= m,
                i < n,
                n == a@.len(),
                n == b@.len(),
                *ca == a@[i as int],
                *cb == b@[i as int],
                m == ca@.len(),
                m == cb@.len(),
                forall|k: int| 0 <= k < j ==> ca@[k] == cb@[k],
            decreases m - j,
        {
            if ca[j] != cb[j] {
                proof {
                    if pview(a@) == pview(b@) {
                        assert(pview(a@)[i as int] == a@[i as int]@);
                        assert(pview(b@)[i as int] == b@[i as int]@);
                        assert(pview(a@)[i as int] == pview(b@)[i as int]);
                        assert(a@[i as int]@ == b@[i as int]@);
                        assert(a@[i as int]@[j as int] == b@[i as int]@[j as int]);
                        assert(false);
                    }
                }
                return false;
            }
            j = j + 1;
        }
        proof {
            assert(ca@ =~= cb@);
        }
        i = i + 1;
    }
    proof {
        assert(pview(a@) =~= pview(b@));
    }
    true
}

/// Copies a path's first `n` components.
fn path_prefix(p: &Vec<Vec<u8>>, n: usize) -> (r: Vec<Vec<u8>>)
    requires
        n <= p@.len(),
    ensures
        pview(r@) == pview(p@).subrange(0, n as int),
{
    let mut out: Vec<Vec<u8>> = Vec::new();
    let mut i: usize = 0;
    while i < n
        invariant
            i <= n,
            n <= p@.len(),
            pview(out@) =~= pview(p@).subrange(0, i as int),
        decreases n - i,
    {
        let mut c: Vec<u8> = Vec::new();
        let src = &p[i];
        let mut j: usize = 0;
        while j < src.len()
            invariant
                j <= src@.len(),
                i < n <= p@.len(),
                *src == p@[i as int],
                c@ =~= src@.subrange(0, j as int),
            decreases src@.len() - j,
        {
            c.push(src[j]);
            j = j + 1;
        }
        proof {
            assert(c@ =~= src@);
        }
        let ghost preout = out@;
        out.push(c);
        proof {
            assert(pview(preout).len() == preout.len());
            assert(pview(preout) == pview(p@).subrange(0, i as int));
            assert(preout.len() == i as int);
            assert(out@.len() == i + 1);
            assert forall|k: int| 0 <= k < out@.len() implies pview(out@)[k] == pview(
                p@,
            ).subrange(0, i + 1)[k] by {
                if k < i {
                    assert(out@[k] == preout[k]);
                    assert(pview(preout)[k] == pview(p@).subrange(0, i as int)[k]);
                } else {
                    assert(out@[k]@ == p@[i as int]@);
                }
            }
            assert(pview(out@) =~= pview(p@).subrange(0, i + 1));
        }
        i = i + 1;
    }
    proof {
        assert(pview(out@) =~= pview(p@).subrange(0, n as int));
    }
    out
}

/// Whether some listing path equals `p`.
fn listing_contains(dents: &Vec<DirEntry>, p: &Vec<Vec<u8>>) -> (r: bool)
    ensures
        r == listing_has(dents@, pview(p@)),
{
    let mut k: usize = 0;
    while k < dents.len()
        invariant
            k <= dents@.len(),
            forall|i: int| 0 <= i < k ==> pview((#[trigger] dents@[i]).path@) != pview(p@),
        decreases dents@.len() - k,
    {
        if paths_eq(&dents[k].path, p) {
            return true;
        }
        k = k + 1;
    }
    false
}

/// The row stands for a synthesized intermediate directory: the archive's
/// own attributes at a strict ancestor of some entry's path.
pub open spec fn row_is_synthesized(d: DirEntry, entries: Seq<RawEntry>, self_attr: Attr) -> bool {
    d.attr == self_attr && exists|j: int, n: int|
        0 <= j < entries.len() && 0 <= n < entries[j].path@.len() && pview(d.path@)
            == #[trigger] pview(entries[j].path@).subrange(0, n)
}

/// The row is exactly entry `j`'s projection: its path and its attribute
/// record over the archive's own attributes.
pub open spec fn row_projects(d: DirEntry, entries: Seq<RawEntry>, j: int, self_attr: Attr) -> bool {
    &&& 0 <= j < entries.len()
    &&& pview(d.path@) == pview(entries[j].path@)
    &&& d.attr == spec_entry_attr(entries[j].size, entries[j].filetype, self_attr)
}

/// Every row is a synthesized ancestor directory or the projection of an
/// entry before `bound`: the listing holds nothing else.
pub open spec fn rows_originate(
    dents: Seq<DirEntry>,
    entries: Seq<RawEntry>,
    bound: int,
    self_attr: Attr,
) -> bool {
    forall|k: int|
        0 <= k < dents.len() ==> (row_is_synthesized(#[trigger] dents[k], entries, self_attr)
            || exists|j: int| 0 <= j < bound && #[trigger] row_projects(
            dents[k],
            entries,
            j,
            self_attr,
        ))
}

/// Two non-directory rows share a path only when two distinct entries
/// carry that path: each non-directory entry contributes one row.
pub open spec fn file_rows_from_distinct_entries(
    dents: Seq<DirEntry>,
    entries: Seq<RawEntry>,
    self_attr: Attr,
) -> bool {
    forall|k1: int, k2: int|
        0 <= k1 < dents.len() && 0 <= k2 < dents.len() && k1 != k2 && pview(
            (#[trigger] dents[k1]).path@,
        ) == pview((#[trigger] dents[k2]).path@) && dents[k1].attr.kind != FileKind::Directory
            && dents[k2].attr.kind != FileKind::Directory ==> exists|j1: int, j2: int|
            j1 != j2 && #[trigger] row_projects(dents[k1], entries, j1, self_attr)
                && #[trigger] row_projects(dents[k2], entries, j2, self_attr)
}

proof fn lemma_originate_mono(
    dents: Seq<DirEntry>,
    entries: Seq<RawEntry>,
    b1: int,
    b2: int,
    self_attr: Attr,
)
    requires
        rows_originate(dents, entries, b1, self_attr),
        b1 <= b2,
    ensures
        rows_originate(dents, entries, b2, self_attr),
{
    assert forall|k: int| 0 <= k < dents.len() implies (row_is_synthesized(
        #[trigger] dents[k],
        entries,
        self_attr,
    ) || exists|j: int| 0 <= j < b2 && #[trigger] row_projects(
        dents[k],
        entries,
        j,
        self_attr,
    )) by {
        if !row_is_synthesized(dents[k], entries, self_attr) {
            let j = choose|j: int|
                0 <= j < b1 && #[trigger] row_projects(dents[k], entries, j, self_attr);
            assert(row_projects(dents[k], entries, j, self_attr));
        }
    }
}

/// Materializes an archive's directory listing from its entries: each
/// entry's attribute record is projected over the archive file's own
/// attributes, every implicit intermediate directory (archives often store
/// only leaf paths) is synthesized with the archive's attributes, and
/// duplicate directory paths are suppressed.
pub fn build_listing(entries: &Vec<RawEntry>, self_attr: &Attr) -> (r: Vec<DirEntry>)
    requires
        self_attr.kind == FileKind::Directory,
        forall|j: int| 0 <= j < entries@.len() ==> 0 <= (#[trigger] entries@[j]).size,
    ensures
        // every entry's own path is present
        forall|j: int|
            0 <= j < entries@.len() ==> listing_has(r@, pview((#[trigger] entries@[j]).path@)),
        // every strict ancestor of an entry's path is present
        forall|j: int, n: int|
            0 <= j < entries@.len() && 0 <= n < entries@[j].path@.len() ==> #[trigger] listing_has(
                r@,
                pview(entries@[j].path@).subrange(0, n),
            ),
        // directory rows are unique by path
        forall|k1: int, k2: int|
            0 <= k1 < r@.len() && 0 <= k2 < r@.len() && k1 != k2 && (
            #[trigger] r@[k1]).attr.kind == FileKind::Directory && (#[trigger] r@[k2]).attr.kind
                == FileKind::Directory ==> pview(r@[k1].path@) != pview(r@[k2].path@),
        // every row is a synthesized ancestor directory or exactly one
        // entry's projection: no phantom rows
        rows_originate(r@, entries@, entries@.len() as int, *self_attr),
        file_rows_from_distinct_entries(r@, entries@, *self_attr),
{
    let mut dents: Vec<DirEntry> = Vec::new();
    let mut i: usize = 0;
    while i < entries.len()
        invariant
            i <= entries@.len(),
            self_attr.kind == FileKind::Directory,
            forall|j: int| 0 <= j < entries@.len() ==> 0 <= (#[trigger] entries@[j]).size,
            forall|j: int|
                0 <= j < i ==> listing_has(dents@, pview((#[trigger] entries@[j]).path@)),
            forall|j: int, n: int|
                0 <= j < i && 0 <= n < entries@[j].path@.len() ==> #[trigger] listing_has(
                    dents@,
                    pview(entries@[j].path@).subrange(0, n),
                ),
            forall|k1: int, k2: int|
                0 <= k1 < dents@.len() && 0 <= k2 < dents@.len() && k1 != k2 && (
                #[trigger] dents@[k1]).attr.kind == FileKind::Directory && (
                #[trigger] dents@[k2]).attr.kind == FileKind::Directory ==> pview(
                    dents@[k1].path@,
                ) != pview(dents@[k2].path@),
            rows_originate(dents@, entries@, i as int, *self_attr),
            file_rows_from_distinct_entries(dents@, entries@, *self_attr),
        decreases entries@.len() - i,
    {
        let ent = &entries[i];
        let attr = to_entry_attr(ent.size, ent.filetype, self_attr);
        // synthesize the ancestors, outermost first
        let mut n: usize = 0;
        while n < ent.path.len()
            invariant
                n <= ent.path@.len(),
                ent == entries@[i as int],
                i < entries@.len(),
                self_attr.kind == FileKind::Directory,
                forall|j: int|
                    0 <= j < i ==> listing_has(dents@, pview((#[trigger] entries@[j]).path@)),
                forall|j: int, nn: int|
                    0 <= j < i && 0 <= nn < entries@[j].path@.len() ==> #[trigger] listing_has(
                        dents@,
                        pview(entries@[j].path@).subrange(0, nn),
                    ),
                forall|nn: int|
                    0 <= nn < n ==> #[trigger] listing_has(
                        dents@,
                        pview(ent.path@).subrange(0, nn),
                    ),
                forall|k1: int, k2: int|
                    0 <= k1 < dents@.len() && 0 <= k2 < dents@.len() && k1 != k2 && (
                    #[trigger] dents@[k1]).attr.kind == FileKind::Directory && (
                    #[trigger] dents@[k2]).attr.kind == FileKind::Directory ==> pview(
                        dents@[k1].path@,
                    ) != pview(dents@[k2].path@),
                rows_originate(dents@, entries@, i as int, *self_attr),
                file_rows_from_distinct_entries(dents@, entries@, *self_attr),
            decreases ent.path@.len() - n,
        {
            let parent = path_prefix(&ent.path, n);
            if !listing_contains(&dents, &parent) {
                let ghost pre = dents@;
                dents.push(DirEntry { attr: *self_attr, path: parent });
                proof {
                    assert forall|p: Seq<Seq<u8>>| listing_has(pre, p) implies #[trigger] listing_has(
                        dents@,
                        p,
                    ) by {
                        let k = choose|k: int|
                            0 <= k < pre.len() && pview((#[trigger] pre[k]).path@) == p;
                        assert(pview(dents@[k].path@) == p);
                    }
                    assert(pview(dents@[pre.len() as int].path@) == pview(ent.path@).subrange(
                        0,
                        n as int,
                    ));
                    assert(listing_has(dents@, pview(ent.path@).subrange(0, n as int)));
                    assert(row_is_synthesized(dents@[pre.len() as int], entries@, *self_attr)) by {
                        assert(pview(dents@[pre.len() as int].path@) == pview(
                            entries@[i as int].path@,
                        ).subrange(0, n as int));
                    }
                    assert(rows_originate(dents@, entries@, i as int, *self_attr)) by {
                        assert forall|k: int| 0 <= k < dents@.len() implies (row_is_synthesized(
                            #[trigger] dents@[k],
                            entries@,
                            *self_attr,
                        ) || exists|j: int| 0 <= j < i as int && #[trigger] row_projects(
                            dents@[k],
                            entries@,
                            j,
                            *self_attr,
                        )) by {
                            if k < pre.len() {
                                assert(dents@[k] == pre[k]);
                            }
                        }
                    }
                    assert(file_rows_from_distinct_entries(dents@, entries@, *self_attr)) by {
                        assert forall|k1: int, k2: int|
                            0 <= k1 < dents@.len() && 0 <= k2 < dents@.len() && k1 != k2 && pview(
                                (#[trigger] dents@[k1]).path@,
                            ) == pview((#[trigger] dents@[k2]).path@) && dents@[k1].attr.kind
                                != FileKind::Directory && dents@[k2].attr.kind
                                != FileKind::Directory implies exists|j1: int, j2: int|
                            j1 != j2 && #[trigger] row_projects(
                                dents@[k1],
                                entries@,
                                j1,
                                *self_attr,
                            ) && #[trigger] row_projects(
                                dents@[k2],
                                entries@,
                                j2,
                                *self_attr,
                            ) by {
                            assert(k1 != pre.len() as int && k2 != pre.len() as int);
                            assert(dents@[k1] == pre[k1]);
                            assert(dents@[k2] == pre[k2]);
                            let (j1, j2) = choose|j1: int, j2: int|
                                j1 != j2 && #[trigger] row_projects(
                                    pre[k1],
                                    entries@,
                                    j1,
                                    *self_attr,
                                ) && #[trigger] row_projects(pre[k2], entries@, j2, *self_attr);
                            assert(row_projects(dents@[k1], entries@, j1, *self_attr));
                            assert(row_projects(dents@[k2], entries@, j2, *self_attr));
                        }
                    }
                    assert forall|k1: int, k2: int|
                        0 <= k1 < dents@.len() && 0 <= k2 < dents@.len() && k1 != k2 && (
                        #[trigger] dents@[k1]).attr.kind == FileKind::Directory && (
                        #[trigger] dents@[k2]).attr.kind == FileKind::Directory implies pview(
                        dents@[k1].path@) != pview(dents@[k2].path@) by {
                        if k1 == pre.len() as int || k2 == pre.len() as int {
                            let ko = if k1 == pre.len() as int {
                                k2
                            } else {
                                k1
                            };
                            if pview(dents@[ko].path@) == pview(ent.path@).subrange(0, n as int) {
                                assert(listing_has(pre, pview(ent.path@).subrange(0, n as int)));
                            }
                        }
                    }
                }
            }
            n = n + 1;
        }
        // the entry itself; duplicate directory paths are suppressed
        let is_dir = match attr.kind {
            FileKind::Directory => true,
            _ => false,
        };
        let push_it = if is_dir {
            !listing_contains(&dents, &ent.path)
        } else {
            true
        };
        if push_it {
            let own = path_prefix(&ent.path, ent.path.len());
            let ghost pre = dents@;
            proof {
                assert(pview(own@) =~= pview(ent.path@));
            }
            dents.push(DirEntry { attr, path: own });
            proof {
                assert forall|p: Seq<Seq<u8>>| listing_has(pre, p) implies #[trigger] listing_has(
                    dents@,
                    p,
                ) by {
                    let k = choose|k: int|
                        0 <= k < pre.len() && pview((#[trigger] pre[k]).path@) == p;
                    assert(pview(dents@[k].path@) == p);
                }
                assert(pview(dents@[pre.len() as int].path@) == pview(ent.path@));
                assert(listing_has(dents@, pview(ent.path@)));
                assert(row_projects(dents@[pre.len() as int], entries@, i as int, *self_attr));
                assert(rows_originate(dents@, entries@, i as int + 1, *self_attr)) by {
                    assert forall|k: int| 0 <= k < dents@.len() implies (row_is_synthesized(
                        #[trigger] dents@[k],
                        entries@,
                        *self_attr,
                    ) || exists|j: int| 0 <= j < i as int + 1 && #[trigger] row_projects(
                        dents@[k],
                        entries@,
                        j,
                        *self_attr,
                    )) by {
                        if k < pre.len() {
                            assert(dents@[k] == pre[k]);
                            if !row_is_synthesized(pre[k], entries@, *self_attr) {
                                let j = choose|j: int|
                                    0 <= j < i as int && #[trigger] row_projects(
                                        pre[k],
                                        entries@,
                                        j,
                                        *self_attr,
                                    );
                                assert(row_projects(dents@[k], entries@, j, *self_attr));
                            }
                        } else {
                            assert(row_projects(dents@[k], entries@, i as int, *self_attr));
                        }
                    }
                }
                assert(file_rows_from_distinct_entries(dents@, entries@, *self_attr)) by {
                    assert forall|k1: int, k2: int|
                        0 <= k1 < dents@.len() && 0 <= k2 < dents@.len() && k1 != k2 && pview(
                            (#[trigger] dents@[k1]).path@,
                        ) == pview((#[trigger] dents@[k2]).path@) && dents@[k1].attr.kind
                            != FileKind::Directory && dents@[k2].attr.kind != FileKind::Directory
                        implies exists|j1: int, j2: int|
                        j1 != j2 && #[trigger] row_projects(dents@[k1], entries@, j1, *self_attr)
                            && #[trigger] row_projects(
                            dents@[k2],
                            entries@,
                            j2,
                            *self_attr,
                        ) by {
                        if k1 == pre.len() as int || k2 == pre.len() as int {
                            let ko = if k1 == pre.len() as int {
                                k2
                            } else {
                                k1
                            };
                            let kn = pre.len() as int;
                            assert(dents@[ko] == pre[ko]);
                            assert(!row_is_synthesized(pre[ko], entries@, *self_attr)) by {
                                if row_is_synthesized(pre[ko], entries@, *self_attr) {
                                    assert(pre[ko].attr.kind == FileKind::Directory);
                                }
                            }
                            let j0 = choose|j: int|
                                0 <= j < i as int && #[trigger] row_projects(
                                    pre[ko],
                                    entries@,
                                    j,
                                    *self_attr,
                                );
                            assert(row_projects(dents@[ko], entries@, j0, *self_attr));
                            assert(row_projects(dents@[kn], entries@, i as int, *self_attr));
                            assert(j0 != i as int);
                        } else {
                            assert(dents@[k1] == pre[k1]);
                            assert(dents@[k2] == pre[k2]);
                            let (j1, j2) = choose|j1: int, j2: int|
                                j1 != j2 && #[trigger] row_projects(
                                    pre[k1],
                                    entries@,
                                    j1,
                                    *self_attr,
                                ) && #[trigger] row_projects(pre[k2], entries@, j2, *self_attr);
                            assert(row_projects(dents@[k1], entries@, j1, *self_attr));
                            assert(row_projects(dents@[k2], entries@, j2, *self_attr));
                        }
                    }
                }
                assert forall|k1: int, k2: int|
                    0 <= k1 < dents@.len() && 0 <= k2 < dents@.len() && k1 != k2 && (
                    #[trigger] dents@[k1]).attr.kind == FileKind::Directory && (
                    #[trigger] dents@[k2]).attr.kind == FileKind::Directory implies pview(
                    dents@[k1].path@) != pview(dents@[k2].path@) by {
                    if k1 == pre.len() as int || k2 == pre.len() as int {
                        let ko = if k1 == pre.len() as int {
                            k2
                        } else {
                            k1
                        };
                        if pview(dents@[ko].path@) == pview(ent.path@) {
                            assert(listing_has(pre, pview(ent.path@)));
                        }
                    }
                }
            }
        }
        proof {
            assert(listing_has(dents@, pview(ent.path@)));
            if rows_originate(dents@, entries@, i as int, *self_attr) {
                lemma_originate_mono(dents@, entries@, i as int, i as int + 1, *self_attr);
            }
        }
        i = i + 1;
    }
    dents
}

/// Scans the listing for the entry at `path`, front to back.
pub fn lookup_listing(dents: &Vec<DirEntry>, path: &Vec<Vec<u8>>) -> (r: Result<usize, Error>)
    ensures
        match r {
            Ok(k) => k < dents@.len() && pview(dents@[k as int].path@) == pview(path@) && forall|
                i: int,
            | 0 <= i < k ==> pview((#[trigger] dents@[i]).path@) != pview(path@),
            Err(e) => (e matches Error::NotFound) && !listing_has(dents@, pview(path@)),
        },
{
    let mut k: usize = 0;
    while k < dents.len()
        invariant
            k <= dents@.len(),
            forall|i: int| 0 <= i < k ==> pview((#[trigger] dents@[i]).path@) != pview(path@),
        decreases dents@.len() - k,
    {
        if paths_eq(&dents[k].path, path) {
            return Ok(k);
        }
        k = k + 1;
    }
    Err(Error::NotFound)
}

/// Whether listing row `k` is a direct child of the directory at `parent`.
pub open spec fn is_child_of(d: DirEntry, parent: Seq<Seq<u8>>) -> bool {
    pview(d.path@).len() == parent.len() + 1 && pview(d.path@).subrange(
        0,
        parent.len() as int,
    ) == parent
}

/// Finds the next listing row, at `start` or later, that is a direct child
/// of `parent` — the readdir iteration step.
pub fn next_child(dents: &Vec<DirEntry>, parent: &Vec<Vec<u8>>, start: usize) -> (r: Option<
    usize,
>)
    ensures
        match r {
            Some(k) => start <= k < dents@.len() && is_child_of(dents@[k as int], pview(parent@))
                && forall|i: int|
                start <= i < k ==> !is_child_of(#[trigger] dents@[i], pview(parent@)),
            None => forall|i: int|
                start <= i < dents@.len() ==> !is_child_of(#[trigger] dents@[i], pview(parent@)),
        },
{
    let mut k: usize = start;
    while k < dents.len()
        invariant
            start <= k,
            k <= dents@.len() || k == start,
            forall|i: int| start <= i < k ==> !is_child_of(#[trigger] dents@[i], pview(parent@)),
        decreases dents@.len() - k,
    {
        let d = &dents[k];
        if d.path.len() >= 1 && d.path.len() - 1 == parent.len() {
            let pref = path_prefix(&d.path, parent.len());
            if paths_eq(&pref, parent) {
                return Some(k);
            }
        }
        k = k + 1;
    }
    None
}

/// The archive viewer: owns the page pool all archive views share and
/// recognizes which files to substitute with their directory projection.
pub struct ArchiveViewer {
    page_manager: PageManager,
}

impl ArchiveViewer {
    pub closed spec fn pm(&self) -> PageManager {
        self.page_manager
    }

    /// A viewer whose page pool holds `max_bytes`, rounded up to pages.
    pub fn new(max_bytes: usize) -> (r: ArchiveViewer)
        requires
            max_bytes + PAGE_SIZE <= usize::MAX,
            (max_bytes + PAGE_SIZE - 1) as int / (PAGE_SIZE as int) <= u32::MAX,
        ensures
            r.pm().wf(),
            r.pm().spec_free_pages() == r.pm().spec_capacity(),
            forall|g: u64| !r.pm().live(g),
    {
        ArchiveViewer { page_manager: PageManager::new(max_bytes) }
    }

    /// Whether an entry of this name is substituted by its archive view.
    pub fn is_archive(&self, name: &Vec<u8>) -> (r: bool)
        ensures
            r == spec_is_archive_name(name@),
    {
        view_archive(name)
    }

    /// The shared page pool.
    pub fn page_manager(&mut self) -> (r: &mut PageManager)
        ensures
            *r == old(self).pm(),
            final(self).pm() == *final(r),
    {
        &mut self.page_manager
    }
}

/// The descriptor of one archive member: its projected attributes and its
/// path inside the archive.
pub struct ArchivedFile {
    pub attr: Attr,
    pub path: Vec<Vec<u8>>,
}

impl ArchivedFile {
    pub fn new(attr: Attr, path: Vec<Vec<u8>>) -> (r: ArchivedFile)
        ensures
            r.attr == attr,
            r.path == path,
    {
        ArchivedFile { attr, path }
    }

    /// The member's attribute record.
    pub fn getattr(&self) -> (r: Result<Attr, Error>)
        ensures
            r matches Ok(a) && a == self.attr,
    {
        Ok(self.attr)
    }

    /// The member's own name: its last path component, empty at the root.
    pub fn name(&self) -> (r: Vec<u8>)
        ensures
            self.path@.len() > 0 ==> r@ == pview(self.path@)[self.path@.len() - 1],
            self.path@.len() == 0 ==> r@ == Seq::<u8>::empty(),
    {
        if self.path.len() == 0 {
            return Vec::new();
        }
        let src = &self.path[self.path.len() - 1];
        let mut out: Vec<u8> = Vec::new();
        let mut j: usize = 0;
        while j < src.len()
            invariant
                j <= src@.len(),
                self.path@.len() > 0,
                *src == self.path@[self.path@.len() - 1],
                out@ =~= src@.subrange(0, j as int),
            decreases src@.len() - j,
        {
            out.push(src[j]);
            j = j + 1;
        }
        proof {
            assert(out@ =~= src@);
        }
        out
    }
}

} // verus!
