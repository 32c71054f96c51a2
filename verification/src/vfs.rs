//! The inode layer of the file system: directories as lists of entries that
//! name inodes, and the link count of each inode.
use vstd::prelude::*;

verus! {

/// Longest file name a directory entry holds.
pub const NAME_LENGTH_LIMIT: usize = 27;

/// Status of a file as the file system reports it.
#[derive(Clone, Copy, Debug, PartialEq, Eq, Structural)]
pub struct Fstat {
    /// Number of directory entries that name the file.
    pub ref_count: u32,
    /// Whether the file is a directory.
    pub is_dir: bool,
    /// Inode number.
    pub inode_id: usize,
}

/// An entry of a directory: a name and the inode it names.
pub struct DirEntry {
    pub name: Vec<u8>,
    pub inode_id: u32,
}

/// What the file system keeps of one inode: its kind, its link count, for
/// a directory its entries in order, and for a regular file its contents.
pub struct DiskInode {
    pub is_dir: bool,
    pub ref_count: u32,
    pub entries: Vec<DirEntry>,
    pub data: Vec<u8>,
}

/// The inodes of a file system, by inode number; inode 0 is the root
/// directory.
pub struct EasyFileSystem {
    pub inodes: Vec<DiskInode>,
}

/// A directory entry as a pair of name and inode number.
pub open spec fn entry_view(e: DirEntry) -> (Seq<u8>, u32) {
    (e.name@, e.inode_id)
}

/// The entries of a directory as pairs of name and inode number.
pub open spec fn entries_view(es: Seq<DirEntry>) -> Seq<(Seq<u8>, u32)> {
    es.map_values(|e: DirEntry| entry_view(e))
}

/// Whether no two entries carry the same name.
pub open spec fn names_distinct(es: Seq<(Seq<u8>, u32)>) -> bool {
    forall|j1: int, j2: int| 0 <= j1 < j2 < es.len() ==> #[trigger] es[j1].0 != #[trigger] es[j2].0
}

/// Adding an entry with a name that is not there keeps names distinct.
proof fn lemma_distinct_push(es: Seq<(Seq<u8>, u32)>, e: (Seq<u8>, u32))
    requires
        names_distinct(es),
        find_pos(es, e.0) is None,
    ensures
        names_distinct(es.push(e)),
{
    lemma_find_pos(es, e.0);
    let es1 = es.push(e);
    assert forall|j1: int, j2: int| 0 <= j1 < j2 < es1.len() implies #[trigger] es1[j1].0 != #[trigger] es1[j2].0 by {
        if j2 == es.len() {
            assert(es1[j1] == es[j1]);
        } else {
            assert(es1[j1] == es[j1] && es1[j2] == es[j2]);
        }
    }
}

/// Removing entry `i` keeps names distinct, and its name no longer occurs.
proof fn lemma_distinct_remove(es: Seq<(Seq<u8>, u32)>, i: int)
    requires
        names_distinct(es),
        0 <= i < es.len(),
    ensures
        names_distinct(es.remove(i)),
        find_pos(es.remove(i), es[i].0) is None,
{
    let es1 = es.remove(i);
    assert forall|j1: int, j2: int| 0 <= j1 < j2 < es1.len() implies #[trigger] es1[j1].0 != #[trigger] es1[j2].0 by {
        let a = if j1 < i { j1 } else { j1 + 1 };
        let b = if j2 < i { j2 } else { j2 + 1 };
        assert(es1[j1] == es[a] && es1[j2] == es[b]);
        assert(es[a].0 != es[b].0);
    }
    lemma_find_pos(es1, es[i].0);
    if find_pos(es1, es[i].0) is Some {
        let k = find_pos(es1, es[i].0)->0;
        let a = if k < i { k } else { k + 1 };
        assert(es1[k] == es[a]);
        if a < i {
            assert(es[a].0 != es[i].0);
        } else {
            assert(es[i].0 != es[a].0);
        }
    }
}

/// Position of the first entry named `name`, if any.
pub open spec fn find_pos(entries: Seq<(Seq<u8>, u32)>, name: Seq<u8>) -> Option<int>
    decreases entries.len(),
{
    if entries.len() == 0 {
        None
    } else if entries[0].0 == name {
        Some(0)
    } else {
        match find_pos(entries.drop_first(), name) {
            Some(i) => Some(i + 1),
            None => None,
        }
    }
}

/// `find_pos` finds the first entry with the name, or shows there is none.
pub proof fn lemma_find_pos(entries: Seq<(Seq<u8>, u32)>, name: Seq<u8>)
    ensures
        match find_pos(entries, name) {
            Some(i) => {
                &&& 0 <= i < entries.len()
                &&& entries[i].0 == name
                &&& forall|j: int| 0 <= j < i ==> (#[trigger] entries[j]).0 != name
            },
            None => forall|j: int| 0 <= j < entries.len() ==> (#[trigger] entries[j]).0 != name,
        },
    decreases entries.len(),
{
    if entries.len() > 0 && entries[0].0 != name {
        lemma_find_pos(entries.drop_first(), name);
        match find_pos(entries.drop_first(), name) {
            Some(i) => {
                assert forall|j: int| 0 <= j < i + 1 implies (#[trigger] entries[j]).0 != name by {
                    if j > 0 {
                        assert(entries[j] == entries.drop_first()[j - 1]);
                    }
                }
            },
            None => {
                assert forall|j: int| 0 <= j < entries.len() implies (#[trigger] entries[j]).0
                    != name by {
                    if j > 0 {
                        assert(entries[j] == entries.drop_first()[j - 1]);
                    }
                }
            },
        }
    }
}

/// Whether two byte strings are equal.
fn bytes_equal(a: &Vec<u8>, b: &[u8]) -> (r: bool)
    ensures
        r == (a@ == b@),
{
    if a.len() != b.len() {
        return false;
    }
    let mut i: usize = 0;
    while i < a.len()
        invariant
            a@.len() == b@.len(),
            i <= a@.len(),
            forall|j: int| 0 <= j < i ==> a@[j] == b@[j],
        decreases a@.len() - i,
    {
        if a[i] != b[i] {
            return false;
        }
        i = i + 1;
    }
    assert(a@ =~= b@);
    true
}

/// Copy of a byte string.
fn copy_bytes(b: &[u8]) -> (r: Vec<u8>)
    ensures
        r@ == b@,
{
    let mut v: Vec<u8> = Vec::new();
    let mut i: usize = 0;
    while i < b.len()
        invariant
            i <= b@.len(),
            v@ == b@.subrange(0, i as int),
        decreases b@.len() - i,
    {
        v.push(b[i]);
        proof {
            assert(b@.subrange(0, i + 1) =~= b@.subrange(0, i as int).push(b@[i as int]));
        }
        i = i + 1;
    }
    assert(b@.subrange(0, b@.len() as int) =~= b@);
    v
}

/// `fs1` is consistent when it only changed the entries of directory `d`,
/// added inodes without entries, and keeps `d` consistent.
proof fn lemma_wf_after_change(fs0: EasyFileSystem, fs1: EasyFileSystem, d: int)
    requires
        fs0.wf(),
        0 <= d < fs0.inodes@.len(),
        fs1.inodes@.len() >= fs0.inodes@.len(),
        fs1.inodes@[0].is_dir,
        forall|k: int|
            0 <= k < fs0.inodes@.len() && k != d ==> #[trigger] fs1.inodes@[k].entries@
                == fs0.inodes@[k].entries@,
        forall|k: int|
            fs0.inodes@.len() <= k < fs1.inodes@.len() ==> #[trigger] fs1.inodes@[k].entries@.len()
                == 0,
        forall|j: int|
            0 <= j < fs1.inodes@[d].entries@.len() ==> (#[trigger] fs1.inodes@[d].entries@[j]).inode_id
                < fs1.inodes@.len(),
        names_distinct(fs1.entries_of(d)),
    ensures
        fs1.wf(),
{
    assert forall|i: int, j: int|
        0 <= i < fs1.inodes@.len() && 0 <= j < fs1.inodes@[i].entries@.len() implies (
        #[trigger] fs1.inodes@[i].entries@[j]).inode_id < fs1.inodes@.len() by {
        if i != d && i < fs0.inodes@.len() {
            assert(fs1.inodes@[i].entries@[j] == fs0.inodes@[i].entries@[j]);
        }
    }
    assert forall|i: int| 0 <= i < fs1.inodes@.len() implies names_distinct(
        #[trigger] fs1.entries_of(i),
    ) by {
        if i != d && i < fs0.inodes@.len() {
            assert(fs1.entries_of(i) == fs0.entries_of(i));
        } else if i != d {
            assert(fs1.entries_of(i).len() == 0);
        }
    }
}

/// `fs1` is consistent when it holds the same inodes as `fs0` but for
/// their kinds' contents: the same entries everywhere.
proof fn lemma_wf_same_entries(fs0: EasyFileSystem, fs1: EasyFileSystem)
    requires
        fs0.wf(),
        fs1.inodes@.len() == fs0.inodes@.len(),
        fs1.inodes@[0].is_dir,
        forall|k: int| 0 <= k < fs0.inodes@.len() ==> #[trigger] fs1.inodes@[k].entries@ == fs0.inodes@[k].entries@,
    ensures
        fs1.wf(),
{
    assert(fs1.inodes@[0].entries@ == fs0.inodes@[0].entries@);
    assert(fs1.entries_of(0) == fs0.entries_of(0));
    lemma_wf_after_change(fs0, fs1, 0);
}

impl EasyFileSystem {
    /// The entries of inode `i`, as pairs of name and inode number.
    pub open spec fn entries_of(&self, i: int) -> Seq<(Seq<u8>, u32)> {
        entries_view(self.inodes@[i].entries@)
    }

    /// Whether the inodes are consistent: the root exists and is a
    /// directory, every entry names an existing inode, and no directory
    /// holds a name twice.
    pub open spec fn wf(&self) -> bool {
        &&& self.inodes@.len() >= 1
        &&& self.inodes@[0].is_dir
        &&& forall|i: int, j: int|
            0 <= i < self.inodes@.len() && 0 <= j < self.inodes@[i].entries@.len() ==> (
            #[trigger] self.inodes@[i].entries@[j]).inode_id < self.inodes@.len()
        &&& forall|i: int| 0 <= i < self.inodes@.len() ==> names_distinct(#[trigger] self.entries_of(i))
    }

    /// A file system with an empty root directory.
    pub fn new() -> (r: Self)
        ensures
            r.wf(),
            r.inodes@.len() == 1,
            r.inodes@[0].is_dir,
            r.inodes@[0].ref_count == 1,
            r.inodes@[0].entries@.len() == 0,
            r.inodes@[0].data@.len() == 0,
    {
        let mut inodes: Vec<DiskInode> = Vec::new();
        inodes.push(DiskInode { is_dir: true, ref_count: 1, entries: Vec::new(), data: Vec::new() });
        EasyFileSystem { inodes }
    }
}

/// Where a name was found: the inode it names and the index of its entry.
pub struct NodePos {
    pub file_inode_id: u32,
    pub dir_entry_index: usize,
}

/// An inode of a file system, by number.
#[derive(Clone, Copy, Debug, PartialEq, Eq, Structural)]
pub struct Inode {
    pub inode_id: usize,
}

/// Whether `fs1` differs from `fs0` at most in inode `i`.
pub open spec fn others_unchanged(fs0: EasyFileSystem, fs1: EasyFileSystem, i: int) -> bool {
    &&& fs1.inodes@.len() >= fs0.inodes@.len()
    &&& forall|k: int| 0 <= k < fs0.inodes@.len() && k != i ==> #[trigger] fs1.inodes@[k] == fs0.inodes@[k]
}

/// `fs1` is `fs0` after a file `name` was created in directory `d`: a new
/// last inode, a file with one link, named by a new entry at the end of `d`.
pub open spec fn file_created(fs0: EasyFileSystem, fs1: EasyFileSystem, d: int, name: Seq<u8>) -> bool {
    let n = fs0.inodes@.len();
    &&& fs1.inodes@.len() == n + 1
    &&& !fs1.inodes@[n as int].is_dir
    &&& fs1.inodes@[n as int].ref_count == 1
    &&& fs1.inodes@[n as int].entries@.len() == 0
    &&& fs1.inodes@[n as int].data@.len() == 0
    &&& fs1.entries_of(d) == fs0.entries_of(d).push((name, n as u32))
    &&& fs1.inodes@[d].is_dir == fs0.inodes@[d].is_dir
    &&& fs1.inodes@[d].ref_count == fs0.inodes@[d].ref_count
    &&& others_unchanged(fs0, fs1, d)
}

/// `fs1` is `fs0` after an entry `name` for inode `t` was added at the end
/// of directory `d`, and `t` gained a link.
pub open spec fn link_added(
    fs0: EasyFileSystem,
    fs1: EasyFileSystem,
    d: int,
    name: Seq<u8>,
    t: u32,
) -> bool {
    &&& fs1.inodes@.len() == fs0.inodes@.len()
    &&& fs1.entries_of(d) == fs0.entries_of(d).push((name, t))
    &&& fs1.inodes@[t as int].ref_count == fs0.inodes@[t as int].ref_count + 1
    &&& forall|k: int| #![auto] 0 <= k < fs0.inodes@.len() ==> fs1.inodes@[k].is_dir == fs0.inodes@[k].is_dir
    &&& forall|k: int|
        0 <= k < fs0.inodes@.len() && k != t ==> #[trigger] fs1.inodes@[k].ref_count
            == fs0.inodes@[k].ref_count
    &&& forall|k: int|
        0 <= k < fs0.inodes@.len() && k != d ==> #[trigger] fs1.entries_of(k) == fs0.entries_of(k)
    &&& forall|k: int| 0 <= k < fs0.inodes@.len() ==> #[trigger] fs1.inodes@[k].data@ == fs0.inodes@[k].data@
}

/// `fs1` is `fs0` after entry `i` of directory `d` was removed: its name
/// no longer resolves, the inode it named lost a link, and an inode left
/// without links loses its contents.
pub open spec fn link_dropped(fs0: EasyFileSystem, fs1: EasyFileSystem, d: int, i: int) -> bool {
    let es = fs0.entries_of(d);
    let t = es[i].1 as int;
    &&& fs1.inodes@.len() == fs0.inodes@.len()
    &&& fs1.entries_of(d) == es.remove(i)
    &&& find_pos(fs1.entries_of(d), es[i].0) is None
    &&& fs1.inodes@[t].ref_count == fs0.inodes@[t].ref_count - 1
    &&& forall|k: int| #![auto] 0 <= k < fs0.inodes@.len() ==> fs1.inodes@[k].is_dir == fs0.inodes@[k].is_dir
    &&& forall|k: int|
        0 <= k < fs0.inodes@.len() && k != t ==> #[trigger] fs1.inodes@[k].ref_count
            == fs0.inodes@[k].ref_count
    &&& forall|k: int|
        0 <= k < fs0.inodes@.len() && k != d ==> #[trigger] fs1.entries_of(k) == fs0.entries_of(k)
    &&& fs1.inodes@[t].data@ == if fs0.inodes@[t].ref_count == 1 {
        Seq::<u8>::empty()
    } else {
        fs0.inodes@[t].data@
    }
    &&& forall|k: int| 0 <= k < fs0.inodes@.len() && k != t ==> #[trigger] fs1.inodes@[k].data@ == fs0.inodes@[k].data@
}

/// The bytes that a read of at most `len` bytes at `offset` gets from the
/// contents `data`: none when `offset` is at or past the end.
pub open spec fn read_range(data: Seq<u8>, offset: int, len: int) -> Seq<u8> {
    if offset >= data.len() {
        Seq::empty()
    } else if offset + len <= data.len() {
        data.subrange(offset, offset + len)
    } else {
        data.subrange(offset, data.len() as int)
    }
}

/// `data` grown with zero bytes to `size` bytes, when it is shorter.
pub open spec fn grown(data: Seq<u8>, size: int) -> Seq<u8> {
    if size <= data.len() {
        data
    } else {
        data + Seq::new((size - data.len()) as nat, |j: int| 0u8)
    }
}

/// The contents `data` after `buf` was written at `offset`: grown to reach
/// the end of the write, then overwritten from `offset` on.
pub open spec fn written(data: Seq<u8>, offset: int, buf: Seq<u8>) -> Seq<u8> {
    let g = grown(data, offset + buf.len());
    g.subrange(0, offset) + buf + g.subrange(offset + buf.len(), g.len() as int)
}

/// `fs1` is `fs0` with the contents of inode `i` replaced by `d`.
pub open spec fn data_replaced(fs0: EasyFileSystem, fs1: EasyFileSystem, i: int, d: Seq<u8>) -> bool {
    &&& fs1.inodes@.len() == fs0.inodes@.len()
    &&& forall|k: int| 0 <= k < fs0.inodes@.len() && k != i ==> #[trigger] fs1.inodes@[k] == fs0.inodes@[k]
    &&& fs1.inodes@[i].is_dir == fs0.inodes@[i].is_dir
    &&& fs1.inodes@[i].ref_count == fs0.inodes@[i].ref_count
    &&& fs1.inodes@[i].entries@ == fs0.inodes@[i].entries@
    &&& fs1.inodes@[i].data@ == d
}

/// A read at the offset of a write, as long as the write, gives back the
/// bytes written.
pub proof fn lemma_read_after_write_at(data: Seq<u8>, offset: int, buf: Seq<u8>)
    requires
        0 <= offset,
    ensures
        read_range(written(data, offset, buf), offset, buf.len() as int) == buf,
{
    let g = grown(data, offset + buf.len());
    let w = written(data, offset, buf);
    assert(w.len() == g.len());
    if buf.len() > 0 {
        assert(w.subrange(offset, offset + buf.len()) =~= buf);
    } else {
        assert(read_range(w, offset, 0) =~= Seq::<u8>::empty());
    }
}

/// A write leaves the bytes outside its range as they were, and those past
/// the old end that it did not write are zero.
pub proof fn lemma_write_keeps_other_bytes(data: Seq<u8>, offset: int, buf: Seq<u8>, j: int)
    requires
        0 <= offset,
        0 <= j < written(data, offset, buf).len(),
        !(offset <= j < offset + buf.len()),
    ensures
        j < data.len() ==> written(data, offset, buf)[j] == data[j],
        j >= data.len() ==> written(data, offset, buf)[j] == 0,
{
    let g = grown(data, offset + buf.len());
    let w = written(data, offset, buf);
    assert(w[j] == g[j]);
}

/// After a file is cleared, a read gets nothing.
pub proof fn lemma_read_after_clear(offset: int, len: int)
    requires
        0 <= offset,
    ensures
        read_range(Seq::<u8>::empty(), offset, len).len() == 0,
{
}

impl Inode {
    /// The inode with number `inode_id`.
    pub fn new(inode_id: usize) -> (r: Self)
        ensures
            r.inode_id == inode_id,
    {
        Inode { inode_id }
    }

    /// Where `name` lies in this directory, if it does.
    fn find_inode_pos(&self, fs: &EasyFileSystem, name: &[u8]) -> (r: Option<NodePos>)
        requires
            self.inode_id < fs.inodes@.len(),
        ensures
            match find_pos(fs.entries_of(self.inode_id as int), name@) {
                Some(i) => r matches Some(p) && p.dir_entry_index == i && p.file_inode_id == fs.entries_of(
                    self.inode_id as int,
                )[i].1,
                None => r is None,
            },
    {
        let dir = &fs.inodes[self.inode_id];
        let ghost es = fs.entries_of(self.inode_id as int);
        proof {
            lemma_find_pos(es, name@);
        }
        let mut i: usize = 0;
        while i < dir.entries.len()
            invariant
                es == entries_view(dir.entries@),
                es == fs.entries_of(self.inode_id as int),
                i <= dir.entries@.len(),
                forall|j: int| 0 <= j < i ==> (#[trigger] es[j]).0 != name@,
                match find_pos(es, name@) {
                    Some(k) => {
                        &&& 0 <= k < es.len()
                        &&& es[k].0 == name@
                        &&& forall|j: int| 0 <= j < k ==> (#[trigger] es[j]).0 != name@
                    },
                    None => forall|j: int| 0 <= j < es.len() ==> (#[trigger] es[j]).0 != name@,
                },
            decreases dir.entries@.len() - i,
        {
            if bytes_equal(&dir.entries[i].name, name) {
                proof {
                    assert(es[i as int] == entry_view(dir.entries@[i as int]));
                    assert(es[i as int].0 == name@);
                    match find_pos(es, name@) {
                        Some(k) => {
                            if k > i {
                                assert(es[i as int].0 != name@);
                            }
                            if k < i {
                                assert(es[k].0 != name@);
                            }
                        },
                        None => {
                            assert(es[i as int].0 != name@);
                        },
                    }
                }
                return Some(NodePos { file_inode_id: dir.entries[i].inode_id, dir_entry_index: i });
            }
            i = i + 1;
        }
        None
    }

    /// The inode that `name` names in this directory, if any.
    pub fn find(&self, fs: &EasyFileSystem, name: &[u8]) -> (r: Option<Inode>)
        requires
            self.inode_id < fs.inodes@.len(),
        ensures
            r == match find_pos(fs.entries_of(self.inode_id as int), name@) {
                Some(i) => Some(Inode { inode_id: fs.entries_of(self.inode_id as int)[i].1 as usize }),
                None => None,
            },
    {
        match self.find_inode_pos(fs, name) {
            Some(pos) => Some(Inode::new(pos.file_inode_id as usize)),
            None => None,
        }
    }

    /// Whether `name` is in this directory.
    fn exist(&self, fs: &EasyFileSystem, name: &[u8]) -> (r: bool)
        requires
            self.inode_id < fs.inodes@.len(),
        ensures
            r == find_pos(fs.entries_of(self.inode_id as int), name@) is Some,
    {
        self.find_inode_pos(fs, name).is_some()
    }

    /// Creates a file named `name` in this directory: a new inode with one
    /// link, named by a new entry at the end of the directory; none when
    /// the name is taken.
    pub fn create(&self, fs: &mut EasyFileSystem, name: &[u8]) -> (r: Option<Inode>)
        requires
            old(fs).wf(),
            self.inode_id < old(fs).inodes@.len(),
            old(fs).inodes@[self.inode_id as int].is_dir,
            name@.len() <= NAME_LENGTH_LIMIT,
            old(fs).inodes@.len() < u32::MAX,
        ensures
            final(fs).wf(),
            ({
                let d = self.inode_id as int;
                let es = old(fs).entries_of(d);
                let n = old(fs).inodes@.len();
                if find_pos(es, name@) is Some {
                    &&& r is None
                    &&& *final(fs) == *old(fs)
                } else {
                    &&& r == Some(Inode { inode_id: n as usize })
                    &&& file_created(*old(fs), *final(fs), d, name@)
                }
            }),
    {
        if self.exist(fs, name) {
            return None;
        }
        let ghost fs0 = *fs;
        let new_inode_id = fs.inodes.len();
        fs.inodes.push(DiskInode { is_dir: false, ref_count: 1, entries: Vec::new(), data: Vec::new() });
        let dirent = DirEntry { name: copy_bytes(name), inode_id: new_inode_id as u32 };
        fs.inodes[self.inode_id].entries.push(dirent);
        proof {
            let d = self.inode_id as int;
            assert(fs.entries_of(d) =~= fs0.entries_of(d).push((name@, new_inode_id as u32)));
            lemma_distinct_push(fs0.entries_of(d), (name@, new_inode_id as u32));
            assert forall|j: int| 0 <= j < fs.inodes@[d].entries@.len() implies (
                #[trigger] fs.inodes@[d].entries@[j]).inode_id < fs.inodes@.len() by {
                if j < fs0.inodes@[d].entries@.len() {
                    assert(fs.inodes@[d].entries@[j] == fs0.inodes@[d].entries@[j]);
                }
            }
            lemma_wf_after_change(fs0, *fs, d);
            assert forall|k: int| 0 <= k < fs0.inodes@.len() && k != d implies #[trigger] fs.inodes@[k] == fs0.inodes@[k] by {}
        }
        Some(Inode::new(new_inode_id))
    }

    /// Adds an entry `name` for inode `inode_id` at the end of this
    /// directory; the inode gains a link.
    fn add_dir_entry(&self, fs: &mut EasyFileSystem, name: &[u8], inode_id: u32)
        requires
            old(fs).wf(),
            self.inode_id < old(fs).inodes@.len(),
            (inode_id as int) < old(fs).inodes@.len(),
            old(fs).inodes@[inode_id as int].ref_count < u32::MAX,
            find_pos(old(fs).entries_of(self.inode_id as int), name@) is None,
        ensures
            final(fs).wf(),
            link_added(*old(fs), *final(fs), self.inode_id as int, name@, inode_id),
    {
        let ghost fs0 = *fs;
        fs.inodes[inode_id as usize].ref_count += 1;
        let dirent = DirEntry { name: copy_bytes(name), inode_id };
        fs.inodes[self.inode_id].entries.push(dirent);
        proof {
            let d = self.inode_id as int;
            let t = inode_id as int;
            assert(fs.entries_of(d) =~= fs0.entries_of(d).push((name@, inode_id)));
            lemma_distinct_push(fs0.entries_of(d), (name@, inode_id));
            assert forall|j: int| 0 <= j < fs.inodes@[d].entries@.len() implies (
                #[trigger] fs.inodes@[d].entries@[j]).inode_id < fs.inodes@.len() by {
                if j < fs0.inodes@[d].entries@.len() {
                    assert(fs.inodes@[d].entries@[j] == fs0.inodes@[d].entries@[j]);
                }
            }
            assert forall|k: int| 0 <= k < fs0.inodes@.len() && k != d implies #[trigger] fs.inodes@[k].entries@
                == fs0.inodes@[k].entries@ by {}
            lemma_wf_after_change(fs0, *fs, d);
        }
    }

    /// Creates a link: an entry `new_name` in this directory for the inode
    /// that `old_name` names. 0, or -1 when `new_name` is taken or
    /// `old_name` is not there.
    pub fn linkat(&self, fs: &mut EasyFileSystem, new_name: &[u8], old_name: &[u8]) -> (r: i32)
        requires
            old(fs).wf(),
            self.inode_id < old(fs).inodes@.len(),
            old(fs).inodes@[self.inode_id as int].is_dir,
            find_pos(old(fs).entries_of(self.inode_id as int), old_name@) matches Some(i)
                ==> old(fs).inodes@[old(fs).entries_of(self.inode_id as int)[i].1 as int].ref_count
                < u32::MAX,
        ensures
            final(fs).wf(),
            ({
                let es = old(fs).entries_of(self.inode_id as int);
                if find_pos(es, new_name@) is Some || find_pos(es, old_name@) is None {
                    r == -1 && *final(fs) == *old(fs)
                } else {
                    &&& r == 0
                    &&& link_added(
                        *old(fs),
                        *final(fs),
                        self.inode_id as int,
                        new_name@,
                        es[find_pos(es, old_name@)->0].1,
                    )
                }
            }),
    {
        if self.exist(fs, new_name) {
            return -1;
        }
        match self.find_inode_pos(fs, old_name) {
            Some(node_pos) => {
                proof {
                    let es = fs.entries_of(self.inode_id as int);
                    let i = node_pos.dir_entry_index as int;
                    lemma_find_pos(es, old_name@);
                    assert(es[i] == entry_view(fs.inodes@[self.inode_id as int].entries@[i]));
                }
                self.add_dir_entry(fs, new_name, node_pos.file_inode_id);
                0
            },
            None => -1,
        }
    }

    /// Removes the link `name` from this directory: its entry goes, and
    /// the inode loses a link (and its contents with its last link). -1 when
    /// `name` is not there.
    fn drop_dir_entry(&self, fs: &mut EasyFileSystem, name: &[u8]) -> (r: i32)
        requires
            old(fs).wf(),
            self.inode_id < old(fs).inodes@.len(),
            find_pos(old(fs).entries_of(self.inode_id as int), name@) matches Some(i)
                ==> old(fs).inodes@[old(fs).entries_of(self.inode_id as int)[i].1 as int].ref_count
                >= 1,
        ensures
            final(fs).wf(),
            ({
                let es = old(fs).entries_of(self.inode_id as int);
                match find_pos(es, name@) {
                    None => r == -1 && *final(fs) == *old(fs),
                    Some(i) => r == 0 && link_dropped(
                        *old(fs),
                        *final(fs),
                        self.inode_id as int,
                        i,
                    ),
                }
            }),
    {
        let node_pos = self.find_inode_pos(fs, name);
        match node_pos {
            None => -1,
            Some(file_pos) => {
                let ghost fs0 = *fs;
                let ghost d = self.inode_id as int;
                let ghost i = file_pos.dir_entry_index as int;
                proof {
                    lemma_find_pos(fs0.entries_of(d), name@);
                    assert(fs0.entries_of(d)[i] == entry_view(fs0.inodes@[d].entries@[i]));
                }
                let t = file_pos.file_inode_id as usize;
                fs.inodes[t].ref_count -= 1;
                if fs.inodes[t].ref_count == 0 {
                    fs.inodes[t].data = Vec::new();
                }
                let _removed = fs.inodes[self.inode_id].entries.remove(file_pos.dir_entry_index);
                proof {
                    assert(fs.entries_of(d) =~= fs0.entries_of(d).remove(i));
                    lemma_distinct_remove(fs0.entries_of(d), i);
                    assert forall|j: int| 0 <= j < fs.inodes@[d].entries@.len() implies (
                        #[trigger] fs.inodes@[d].entries@[j]).inode_id < fs.inodes@.len() by {
                        if j < i {
                            assert(fs.inodes@[d].entries@[j] == fs0.inodes@[d].entries@[j]);
                        } else {
                            assert(fs.inodes@[d].entries@[j] == fs0.inodes@[d].entries@[j + 1]);
                        }
                    }
                    assert forall|k: int| 0 <= k < fs0.inodes@.len() && k != d implies #[trigger] fs.inodes@[k].entries@
                        == fs0.inodes@[k].entries@ by {}
                    lemma_wf_after_change(fs0, *fs, d);
                }
                0
            },
        }
    }

    /// Removes the link `path` from this directory (see `drop_dir_entry`).
    pub fn unlink_at(&self, fs: &mut EasyFileSystem, path: &[u8]) -> (r: i32)
        requires
            old(fs).wf(),
            self.inode_id < old(fs).inodes@.len(),
            find_pos(old(fs).entries_of(self.inode_id as int), path@) matches Some(i)
                ==> old(fs).inodes@[old(fs).entries_of(self.inode_id as int)[i].1 as int].ref_count
                >= 1,
        ensures
            final(fs).wf(),
            ({
                let es = old(fs).entries_of(self.inode_id as int);
                match find_pos(es, path@) {
                    None => r == -1 && *final(fs) == *old(fs),
                    Some(i) => r == 0 && link_dropped(
                        *old(fs),
                        *final(fs),
                        self.inode_id as int,
                        i,
                    ),
                }
            }),
    {
        self.drop_dir_entry(fs, path)
    }

    /// Grows the contents of this file with zero bytes to `new_size` bytes;
    /// a file that is already that long stays as it is.
    fn increase_size(&self, fs: &mut EasyFileSystem, new_size: usize)
        requires
            old(fs).wf(),
            self.inode_id < old(fs).inodes@.len(),
        ensures
            final(fs).wf(),
            data_replaced(
                *old(fs),
                *final(fs),
                self.inode_id as int,
                grown(old(fs).inodes@[self.inode_id as int].data@, new_size as int),
            ),
    {
        let ghost fs0 = *fs;
        let ghost i = self.inode_id as int;
        let ghost d0 = fs0.inodes@[i].data@;
        let mut size = fs.inodes[self.inode_id].data.len();
        while size < new_size
            invariant
                self.inode_id == i,
                0 <= i < fs0.inodes@.len(),
                size == fs.inodes@[i].data@.len(),
                d0.len() <= size,
                size <= new_size || size == d0.len(),
                fs.inodes@[i].data@ == d0 + Seq::new((size - d0.len()) as nat, |j: int| 0u8),
                fs.inodes@.len() == fs0.inodes@.len(),
                forall|k: int| 0 <= k < fs0.inodes@.len() && k != i ==> #[trigger] fs.inodes@[k] == fs0.inodes@[k],
                fs.inodes@[i].is_dir == fs0.inodes@[i].is_dir,
                fs.inodes@[i].ref_count == fs0.inodes@[i].ref_count,
                fs.inodes@[i].entries@ == fs0.inodes@[i].entries@,
            decreases new_size - size,
        {
            fs.inodes[self.inode_id].data.push(0);
            proof {
                assert(fs.inodes@[i].data@ =~= d0 + Seq::new((size + 1 - d0.len()) as nat, |j: int| 0u8));
            }
            size = size + 1;
        }
        proof {
            if new_size <= d0.len() {
                assert(fs.inodes@[i].data@ =~= d0);
            }
            assert(fs.inodes@[i].data@ =~= grown(d0, new_size as int));
            lemma_wf_same_entries(fs0, *fs);
        }
    }

    /// Reads the contents of this file from `offset` into `buf`, as many
    /// bytes as fit and as the file has; returns how many were read.
    pub fn read_at(&self, fs: &EasyFileSystem, offset: usize, buf: &mut [u8]) -> (n: usize)
        requires
            self.inode_id < fs.inodes@.len(),
            !fs.inodes@[self.inode_id as int].is_dir,
        ensures
            ({
                let got = read_range(
                    fs.inodes@[self.inode_id as int].data@,
                    offset as int,
                    old(buf)@.len() as int,
                );
                &&& n == got.len()
                &&& final(buf)@.len() == old(buf)@.len()
                &&& final(buf)@.subrange(0, n as int) == got
                &&& final(buf)@.subrange(n as int, old(buf)@.len() as int) == old(buf)@.subrange(
                    n as int,
                    old(buf)@.len() as int,
                )
            }),
    {
        let data = &fs.inodes[self.inode_id].data;
        let size = data.len();
        if offset >= size {
            proof {
                assert(buf@.subrange(0, 0) =~= Seq::<u8>::empty());
            }
            return 0;
        }
        let n: usize = if buf.len() <= size - offset {
            buf.len()
        } else {
            size - offset
        };
        let ghost b0 = buf@;
        let mut i: usize = 0;
        while i < n
            invariant
                n <= b0.len(),
                size == data@.len(),
                offset + n <= size,
                i <= n,
                buf@.len() == b0.len(),
                forall|j: int| 0 <= j < i ==> buf@[j] == data@[offset + j],
                forall|j: int| i <= j < b0.len() ==> buf@[j] == b0[j],
            decreases n - i,
        {
            buf[i] = data[offset + i];
            i = i + 1;
        }
        proof {
            let got = read_range(data@, offset as int, b0.len() as int);
            assert(buf@.subrange(0, n as int) =~= got);
            assert(buf@.subrange(n as int, b0.len() as int) =~= b0.subrange(n as int, b0.len() as int));
        }
        n
    }

    /// Writes `buf` into this file at `offset`, growing the file with zero
    /// bytes to reach the end of the write; returns the number of bytes
    /// written.
    pub fn write_at(&self, fs: &mut EasyFileSystem, offset: usize, buf: &[u8]) -> (n: usize)
        requires
            old(fs).wf(),
            self.inode_id < old(fs).inodes@.len(),
            !old(fs).inodes@[self.inode_id as int].is_dir,
            offset + buf@.len() <= u32::MAX,
        ensures
            final(fs).wf(),
            n == buf@.len(),
            data_replaced(
                *old(fs),
                *final(fs),
                self.inode_id as int,
                written(old(fs).inodes@[self.inode_id as int].data@, offset as int, buf@),
            ),
    {
        let ghost fs0 = *fs;
        let ghost i = self.inode_id as int;
        let ghost d0 = fs0.inodes@[i].data@;
        let end = offset + buf.len();
        self.increase_size(fs, end);
        let ghost g = fs.inodes@[i].data@;
        let mut k: usize = 0;
        while k < buf.len()
            invariant
                self.inode_id == i,
                0 <= i < fs0.inodes@.len(),
                end == offset + buf@.len(),
                g == grown(d0, end as int),
                g.len() >= end,
                k <= buf@.len(),
                fs.inodes@[i].data@.len() == g.len(),
                forall|j: int| 0 <= j < g.len() && !(offset <= j < offset + k) ==> #[trigger] fs.inodes@[i].data@[j] == g[j],
                forall|j: int| offset <= j < offset + k ==> #[trigger] fs.inodes@[i].data@[j] == buf@[j - offset],
                fs.wf(),
                data_replaced(fs0, *fs, i, fs.inodes@[i].data@),
            decreases buf@.len() - k,
        {
            let ghost before = *fs;
            fs.inodes[self.inode_id].data.set(offset + k, buf[k]);
            proof {
                lemma_wf_same_entries(before, *fs);
            }
            k = k + 1;
        }
        proof {
            assert(fs.inodes@[i].data@ =~= written(d0, offset as int, buf@));
        }
        buf.len()
    }

    /// Empties this inode: a file loses its contents, a directory its
    /// entries.
    pub fn clear(&self, fs: &mut EasyFileSystem)
        requires
            old(fs).wf(),
            self.inode_id < old(fs).inodes@.len(),
        ensures
            final(fs).wf(),
            final(fs).inodes@.len() == old(fs).inodes@.len(),
            forall|k: int|
                0 <= k < old(fs).inodes@.len() && k != self.inode_id ==> #[trigger] final(fs).inodes@[k]
                    == old(fs).inodes@[k],
            final(fs).inodes@[self.inode_id as int].is_dir == old(fs).inodes@[self.inode_id as int].is_dir,
            final(fs).inodes@[self.inode_id as int].ref_count == old(
                fs,
            ).inodes@[self.inode_id as int].ref_count,
            final(fs).inodes@[self.inode_id as int].entries@.len() == 0,
            final(fs).inodes@[self.inode_id as int].data@.len() == 0,
    {
        let ghost fs0 = *fs;
        let ghost i = self.inode_id as int;
        fs.inodes[self.inode_id].data = Vec::new();
        fs.inodes[self.inode_id].entries = Vec::new();
        proof {
            assert(fs.entries_of(i) =~= Seq::<(Seq<u8>, u32)>::empty());
            assert forall|k: int| 0 <= k < fs0.inodes@.len() && k != i implies #[trigger] fs.inodes@[k].entries@
                == fs0.inodes@[k].entries@ by {}
            lemma_wf_after_change(fs0, *fs, i);
        }
    }

    /// Status of this inode: its link count, kind and number.
    pub fn fstat(&self, fs: &EasyFileSystem) -> (r: Fstat)
        requires
            self.inode_id < fs.inodes@.len(),
        ensures
            r == (Fstat {
                ref_count: fs.inodes@[self.inode_id as int].ref_count,
                is_dir: fs.inodes@[self.inode_id as int].is_dir,
                inode_id: self.inode_id,
            }),
    {
        let disk_inode = &fs.inodes[self.inode_id];
        Fstat { ref_count: disk_inode.ref_count, is_dir: disk_inode.is_dir, inode_id: self.inode_id }
    }

    /// The names of the entries of this directory, in order.
    pub fn ls(&self, fs: &EasyFileSystem) -> (r: Vec<Vec<u8>>)
        requires
            self.inode_id < fs.inodes@.len(),
        ensures
            r@.len() == fs.entries_of(self.inode_id as int).len(),
            forall|i: int|
                0 <= i < r@.len() ==> (#[trigger] r@[i])@ == fs.entries_of(self.inode_id as int)[i].0,
    {
        let dir = &fs.inodes[self.inode_id];
        let mut v: Vec<Vec<u8>> = Vec::new();
        let mut i: usize = 0;
        while i < dir.entries.len()
            invariant
                i <= dir.entries@.len(),
                v@.len() == i,
                dir == fs.inodes@[self.inode_id as int],
                forall|k: int| 0 <= k < i ==> (#[trigger] v@[k])@ == dir.entries@[k].name@,
            decreases dir.entries@.len() - i,
        {
            v.push(copy_bytes(dir.entries[i].name.as_slice()));
            i = i + 1;
        }
        v
    }
}

/// Number of entries that name inode `t`.
pub open spec fn count_links(es: Seq<(Seq<u8>, u32)>, t: u32) -> nat
    decreases es.len(),
{
    if es.len() == 0 {
        0
    } else {
        count_links(es.drop_last(), t) + if es.last().1 == t {
            1nat
        } else {
            0
        }
    }
}

/// A file system whose only directory with entries is the root, where
/// every inode but the root has as many links as root entries name it.
pub open spec fn link_counts_exact(fs: EasyFileSystem) -> bool {
    &&& fs.wf()
    &&& fs.inodes@.len() <= u32::MAX
    &&& forall|k: int| 1 <= k < fs.inodes@.len() ==> #[trigger] fs.inodes@[k].entries@.len() == 0
    &&& forall|t: int|
        1 <= t < fs.inodes@.len() ==> #[trigger] fs.inodes@[t].ref_count == count_links(
            fs.entries_of(0),
            t as u32,
        )
}

proof fn lemma_count_push(es: Seq<(Seq<u8>, u32)>, e: (Seq<u8>, u32), t: u32)
    ensures
        count_links(es.push(e), t) == count_links(es, t) + if e.1 == t {
            1nat
        } else {
            0
        },
{
    assert(es.push(e).drop_last() =~= es);
}

proof fn lemma_count_remove(es: Seq<(Seq<u8>, u32)>, i: int, t: u32)
    requires
        0 <= i < es.len(),
    ensures
        count_links(es.remove(i), t) + (if es[i].1 == t {
            1nat
        } else {
            0
        }) == count_links(es, t),
    decreases es.len(),
{
    if i == es.len() - 1 {
        assert(es.remove(i) =~= es.drop_last());
    } else {
        lemma_count_remove(es.drop_last(), i, t);
        assert(es.remove(i).drop_last() =~= es.drop_last().remove(i));
        assert(es.remove(i).last() == es.last());
    }
}

proof fn lemma_count_bound(es: Seq<(Seq<u8>, u32)>, t: u32)
    requires
        forall|j: int| 0 <= j < es.len() ==> (#[trigger] es[j]).1 != t,
    ensures
        count_links(es, t) == 0,
    decreases es.len(),
{
    if es.len() > 0 {
        assert(es.last() == es[es.len() - 1]);
        lemma_count_bound(es.drop_last(), t);
    }
}

/// Creating a file in the root keeps every link count equal to the number
/// of entries naming the inode.
pub proof fn lemma_create_keeps_link_counts(fs0: EasyFileSystem, fs1: EasyFileSystem, name: Seq<u8>)
    requires
        link_counts_exact(fs0),
        fs0.inodes@.len() < u32::MAX,
        file_created(fs0, fs1, 0, name),
        fs1.wf(),
    ensures
        link_counts_exact(fs1),
{
    let n = fs0.inodes@.len();
    let es0 = fs0.entries_of(0);
    assert forall|t: int| 1 <= t < fs1.inodes@.len() implies #[trigger] fs1.inodes@[t].ref_count
        == count_links(fs1.entries_of(0), t as u32) by {
        lemma_count_push(es0, (name, n as u32), t as u32);
        if t == n {
            assert forall|j: int| 0 <= j < es0.len() implies (#[trigger] es0[j]).1 != t as u32 by {
                assert(es0[j] == entry_view(fs0.inodes@[0].entries@[j]));
            }
            lemma_count_bound(es0, t as u32);
        } else {
            assert(fs1.inodes@[t] == fs0.inodes@[t]);
        }
    }
    assert forall|k: int| 1 <= k < fs1.inodes@.len() implies #[trigger] fs1.inodes@[k].entries@.len()
        == 0 by {
        if k < n {
            assert(fs1.inodes@[k] == fs0.inodes@[k]);
        }
    }
}

/// Adding a link in the root keeps every link count equal to the number of
/// entries naming the inode.
pub proof fn lemma_link_keeps_link_counts(
    fs0: EasyFileSystem,
    fs1: EasyFileSystem,
    name: Seq<u8>,
    t: u32,
)
    requires
        link_counts_exact(fs0),
        1 <= t < fs0.inodes@.len(),
        link_added(fs0, fs1, 0, name, t),
        fs1.wf(),
    ensures
        link_counts_exact(fs1),
{
    let es0 = fs0.entries_of(0);
    assert forall|k: int| 1 <= k < fs1.inodes@.len() implies #[trigger] fs1.inodes@[k].entries@.len()
        == 0 by {
        assert(fs1.entries_of(k) == fs0.entries_of(k));
        assert(fs0.inodes@[k].entries@.len() == 0);
    }
    assert forall|u: int| 1 <= u < fs1.inodes@.len() implies #[trigger] fs1.inodes@[u].ref_count
        == count_links(fs1.entries_of(0), u as u32) by {
        lemma_count_push(es0, (name, t), u as u32);
        assert(fs0.inodes@[u].ref_count == count_links(es0, u as u32));
    }
}

/// Removing a root entry keeps every link count equal to the number of
/// entries naming the inode.
pub proof fn lemma_unlink_keeps_link_counts(fs0: EasyFileSystem, fs1: EasyFileSystem, i: int)
    requires
        link_counts_exact(fs0),
        0 <= i < fs0.entries_of(0).len(),
        link_dropped(fs0, fs1, 0, i),
        fs1.wf(),
    ensures
        link_counts_exact(fs1),
{
    let es0 = fs0.entries_of(0);
    assert forall|k: int| 1 <= k < fs1.inodes@.len() implies #[trigger] fs1.inodes@[k].entries@.len()
        == 0 by {
        assert(fs1.entries_of(k) == fs0.entries_of(k));
        assert(fs0.inodes@[k].entries@.len() == 0);
    }
    assert forall|u: int| 1 <= u < fs1.inodes@.len() implies #[trigger] fs1.inodes@[u].ref_count
        == count_links(fs1.entries_of(0), u as u32) by {
        lemma_count_remove(es0, i, u as u32);
        assert(fs0.inodes@[u].ref_count == count_links(es0, u as u32));
    }
}

} // verus!
