use vstd::prelude::*;
use crate::directory::{Directory, Entry, has_path, lookup, map_of, path_index, unique_keys, upsert,
    usage};
use crate::directory::{lemma_has_path_map_of, lemma_lookup_map_of, lemma_map_of_upsert,
    lemma_upsert_unique, lemma_usage_take_le, lemma_usage_take_succ};
use crate::error::DirError;
use crate::file_slice::{FileSlice, HasLen};
use crate::owned_bytes::OwnedBytes;

verus! {

/// The namespace store backing a `RAMDirectory`: published entries in
/// insertion order, at most one per path.
pub struct InnerDirectory {
    files: Vec<(String, FileSlice)>,
}

impl InnerDirectory {
    /// The published entries, each a path with the bytes filed under it.
    pub closed spec fn entries(&self) -> Seq<Entry> {
        self.files@.map_values(|pr: (String, FileSlice)| (pr.0@, pr.1@))
    }

    pub open spec fn inv(&self) -> bool {
        unique_keys(self.entries())
    }

    pub fn new() -> (d: InnerDirectory)
        ensures
            d.inv(),
            d.entries() == Seq::<Entry>::empty(),
    {
        let d = InnerDirectory { files: Vec::new() };
        proof {
            assert(d.entries() =~= Seq::<Entry>::empty());
        }
        d
    }

    /// The position of `path` in the store, when present.
    fn find(&self, path: &str) -> (r: Option<usize>)
        ensures
            r matches Some(i) ==> 0 <= i < self.entries().len() && self.entries()[i as int].0
                == path@,
            r is None ==> !has_path(self.entries(), path@),
    {
        let needle: String = path.to_owned();
        let n = self.files.len();
        let mut i: usize = 0;
        while i < n
            invariant
                i <= n,
                n == self.files@.len(),
                n == self.entries().len(),
                needle@ == path@,
                forall|j: int| 0 <= j < i ==> (#[trigger] self.entries()[j]).0 != path@,
            decreases n - i,
        {
            if self.files[i].0 == needle {
                assert(self.entries()[i as int].0 == path@);
                return Some(i);
            }
            assert(self.entries()[i as int].0 != path@);
            i = i + 1;
        }
        proof {
            if has_path(self.entries(), path@) {
                let j = choose|j: int|
                    0 <= j < self.entries().len() && (#[trigger] self.entries()[j]).0 == path@;
                assert(self.entries()[j].0 != path@);
            }
        }
        None
    }

    /// Publishes `data` as the full content of `path` in one step.
    pub fn write(&mut self, path: &str, data: &[u8]) -> (existed: bool)
        requires
            old(self).inv(),
        ensures
            final(self).inv(),
            final(self).entries() == upsert(old(self).entries(), path@, data@),
            existed == has_path(old(self).entries(), path@),
    {
        let data_vec: Vec<u8> = vstd::slice::slice_to_vec(data);
        let slice = FileSlice::new(OwnedBytes::new(data_vec));
        proof {
            lemma_upsert_unique(old(self).entries(), path@, data@);
        }
        match self.find(path) {
            Some(i) => {
                proof {
                    assert(has_path(self.entries(), path@));
                    let p = path_index(self.entries(), path@);
                    assert(0 <= p < self.entries().len() && self.entries()[p].0 == path@);
                    assert(p == i as int);
                }
                let entry = vstd::std_specs::vec::vec_index_mut(&mut self.files, i);
                entry.1 = slice;
                proof {
                    assert(self.entries() =~= old(self).entries().update(
                        i as int,
                        (path@, data@),
                    ));
                }
                true
            },
            None => {
                let owned_path: String = path.to_owned();
                self.files.push((owned_path, slice));
                proof {
                    assert(self.entries() =~= old(self).entries().push((path@, data@)));
                }
                false
            },
        }
    }

    /// Opens the content filed under `path`, sharing the stored slice.
    pub fn open_read(&self, path: &str) -> (r: Result<FileSlice, DirError>)
        requires
            self.inv(),
        ensures
            r is Ok <==> has_path(self.entries(), path@),
            r matches Ok(s) ==> s@ == lookup(self.entries(), path@),
            r matches Err(e) ==> e == DirError::NotFound,
    {
        match self.find(path) {
            Some(i) => {
                let s = self.files[i].1.clone();
                proof {
                    assert(has_path(self.entries(), path@));
                    let p = path_index(self.entries(), path@);
                    assert(0 <= p < self.entries().len() && self.entries()[p].0 == path@);
                    assert(p == i as int);
                    assert(s@ == self.entries()[i as int].1);
                }
                Ok(s)
            },
            None => Err(DirError::NotFound),
        }
    }

    /// Whether some entry is filed under `path`.
    pub fn path_exists(&self, path: &str) -> (r: bool)
        ensures
            r == has_path(self.entries(), path@),
    {
        match self.find(path) {
            Some(i) => {
                proof {
                    assert(has_path(self.entries(), path@));
                }
                true
            },
            None => false,
        }
    }

    /// The sum of the lengths of all published entries.
    pub fn total_mem_usage(&self) -> (n: usize)
        requires
            usage(self.entries()) <= usize::MAX,
        ensures
            n == usage(self.entries()),
    {
        let m = self.files.len();
        let mut total: usize = 0;
        let mut i: usize = 0;
        while i < m
            invariant
                i <= m,
                m == self.files@.len(),
                m == self.entries().len(),
                usage(self.entries()) <= usize::MAX,
                total == usage(self.entries().take(i as int)),
            decreases m - i,
        {
            proof {
                lemma_usage_take_succ(self.entries(), i as int);
                lemma_usage_take_le(self.entries(), i as int + 1);
            }
            let entry_len = self.files[i].1.len();
            total = total + entry_len;
            i = i + 1;
        }
        proof {
            assert(self.entries().take(m as int) =~= self.entries());
        }
        total
    }
}

/// The staging writer handed out by a write-open: bytes accumulate privately
/// in an in-memory cursor and reach the directory only at an explicit flush.
/// A writer must be flushed before it is discarded; the `flushed` flag says
/// whether bytes are staged that the directory has not seen.
pub struct VecWriter {
    path: String,
    data: Vec<u8>,
    is_flushed: bool,
}

impl VecWriter {
    /// The path this writer publishes to.
    pub closed spec fn path_spec(&self) -> Seq<char> {
        self.path@
    }

    /// The privately staged bytes.
    pub closed spec fn staged(&self) -> Seq<u8> {
        self.data@
    }

    /// Whether everything written so far has been published.
    pub closed spec fn flushed(&self) -> bool {
        self.is_flushed
    }

    /// A fresh writer: nothing staged, so nothing is unpublished yet.
    pub fn new(path: String) -> (w: VecWriter)
        ensures
            w.path_spec() == path@,
            w.staged() == Seq::<u8>::empty(),
            w.flushed(),
    {
        VecWriter { path, data: Vec::new(), is_flushed: true }
    }

    /// Stages `buf` after the bytes already staged. Nothing becomes visible
    /// to readers of the directory until the flush.
    pub fn write(&mut self, buf: &[u8]) -> (r: Result<usize, DirError>)
        ensures
            r matches Ok(n) && n == buf@.len(),
            final(self).staged() == old(self).staged() + buf@,
            final(self).path_spec() == old(self).path_spec(),
            !final(self).flushed(),
    {
        self.is_flushed = false;
        self.data.extend_from_slice(buf);
        Ok(buf.len())
    }

    /// Publishes the full staged buffer as the path's entry in one step and
    /// marks this writer safe to discard.
    pub fn flush<D: Directory>(&mut self, directory: &mut D) -> (r: Result<(), DirError>)
        requires
            old(directory).inv(),
        ensures
            r is Ok,
            final(self).path_spec() == old(self).path_spec(),
            final(self).staged() == old(self).staged(),
            final(self).flushed(),
            final(directory).inv(),
            final(directory).entries() == upsert(
                old(directory).entries(),
                old(self).path_spec(),
                old(self).staged(),
            ),
            final(directory).files() == old(directory).files().insert(
                old(self).path_spec(),
                old(self).staged(),
            ),
    {
        self.is_flushed = true;
        let _existed = directory.write(self.path.as_str(), self.data.as_slice());
        Ok(())
    }

    /// Whether everything written so far has been published.
    pub fn is_flushed(&self) -> (b: bool)
        ensures
            b == self.flushed(),
    {
        self.is_flushed
    }
}

/// The in-memory storage backend: a namespace of paths mapped to byte
/// content, where a write-open reserves the path at once and a flush
/// publishes the staged bytes as one atomic replacement.
pub struct RAMDirectory {
    fs: InnerDirectory,
}

impl RAMDirectory {
    /// A fresh, empty directory.
    pub fn create() -> (d: RAMDirectory)
        ensures
            d.inv(),
            d.entries() == Seq::<Entry>::empty(),
            d.files() == Map::<Seq<char>, Seq<u8>>::empty(),
    {
        let d = RAMDirectory { fs: InnerDirectory::new() };
        proof {
            assert(d.files() =~= Map::<Seq<char>, Seq<u8>>::empty());
        }
        d
    }

    /// The sum of the lengths of all currently published entries.
    pub fn total_mem_usage(&self) -> (n: usize)
        requires
            usage(self.entries()) <= usize::MAX,
        ensures
            n == usage(self.entries()),
    {
        self.fs.total_mem_usage()
    }

    /// Re-writes every published entry into `dest`, one write-open, write
    /// and flush per entry. Succeeds exactly when no path published here was
    /// already present in `dest`; on the first collision it stops with
    /// `AlreadyExists`, and entries already copied stay copied.
    pub fn persist<D: Directory>(&self, dest: &mut D) -> (r: Result<(), DirError>)
        requires
            self.inv(),
            old(dest).inv(),
        ensures
            final(dest).inv(),
            r is Ok <==> self.files().dom().disjoint(old(dest).files().dom()),
            r is Ok ==> final(dest).files() == old(dest).files().union_prefer_right(self.files()),
            r matches Err(e) ==> e == DirError::AlreadyExists,
            r is Err ==> exists|i: int|
                0 <= i <= self.entries().len() && final(dest).files() == old(
                    dest,
                ).files().union_prefer_right(#[trigger] map_of(self.entries().take(i))),
    {
        proof {
            self.inv_unique_keys();
        }
        let n = self.fs.files.len();
        let mut i: usize = 0;
        while i < n
            invariant
                i <= n,
                n == self.fs.files@.len(),
                n == self.entries().len(),
                self.inv(),
                unique_keys(self.entries()),
                dest.inv(),
                dest.files() == old(dest).files().union_prefer_right(
                    map_of(self.entries().take(i as int)),
                ),
                forall|j: int| 0 <= j < i ==> !old(dest).files().contains_key(
                    (#[trigger] self.entries()[j]).0,
                ),
            decreases n - i,
        {
            let ghost pre_files = dest.files();
            let ghost path_spec = self.entries()[i as int].0;
            let path_ref: &str = self.fs.files[i].0.as_str();
            match dest.open_write(path_ref) {
                Ok(mut writer) => {
                    proof {
                        // the path was fresh in `dest` as the copy found it
                        lemma_has_path_map_of(self.entries().take(i as int), path_spec);
                        if has_path(self.entries().take(i as int), path_spec) {
                            let j = choose|j: int|
                                0 <= j < self.entries().take(i as int).len() && (#[trigger] self
                                    .entries().take(i as int)[j]).0 == path_spec;
                            assert(self.entries()[j].0 == self.entries()[i as int].0);
                        }
                    }
                    let bytes = match self.fs.files[i].1.read_bytes() {
                        Ok(b) => b,
                        Err(_) => {
                            proof {
                                assert(false);
                            }
                            OwnedBytes::empty()
                        },
                    };
                    let _write_result = writer.write(bytes.as_slice());
                    let _flush_result = writer.flush(dest);
                    proof {
                        assert(self.entries().take(i as int + 1).drop_last() =~= self.entries()
                            .take(i as int));
                        assert(map_of(self.entries().take(i as int + 1)) == map_of(
                            self.entries().take(i as int),
                        ).insert(path_spec, self.entries()[i as int].1));
                        assert(dest.files() =~= old(dest).files().union_prefer_right(
                            map_of(self.entries().take(i as int + 1)),
                        ));
                    }
                    i = i + 1;
                },
                Err(e) => {
                    proof {
                        // the collision cannot be with an entry copied earlier,
                        // those paths are distinct from this one
                        assert(pre_files.contains_key(path_spec));
                        lemma_has_path_map_of(self.entries().take(i as int), path_spec);
                        if has_path(self.entries().take(i as int), path_spec) {
                            let j = choose|j: int|
                                0 <= j < self.entries().take(i as int).len() && (#[trigger] self
                                    .entries().take(i as int)[j]).0 == path_spec;
                            assert(self.entries()[j].0 == self.entries()[i as int].0);
                        }
                        assert(old(dest).files().contains_key(path_spec));
                        assert(has_path(self.entries(), path_spec));
                        lemma_has_path_map_of(self.entries(), path_spec);
                        assert(self.files().dom().contains(path_spec));
                        assert(!self.files().dom().disjoint(old(dest).files().dom()));
                        // the failed write-open left `dest` as it stood: the
                        // entries copied so far are exactly what it holds
                        assert(dest.files() == old(dest).files().union_prefer_right(
                            map_of(self.entries().take(i as int)),
                        ));
                    }
                    return Err(e);
                },
            }
        }
        proof {
            assert(self.entries().take(n as int) =~= self.entries());
            assert forall|k: Seq<char>|
                self.files().dom().contains(k) implies !old(dest).files().dom().contains(k) by {
                lemma_has_path_map_of(self.entries(), k);
                let j = choose|j: int|
                    0 <= j < self.entries().len() && (#[trigger] self.entries()[j]).0 == k;
            }
        }
        Ok(())
    }
}

impl Default for RAMDirectory {
    fn default() -> (d: RAMDirectory)
        ensures
            d.inv(),
            d.entries() == Seq::<Entry>::empty(),
            d.files() == Map::<Seq<char>, Seq<u8>>::empty(),
    {
        RAMDirectory::create()
    }
}

impl Directory for RAMDirectory {
    closed spec fn entries(&self) -> Seq<Entry> {
        self.fs.entries()
    }

    closed spec fn inv(&self) -> bool {
        self.fs.inv()
    }

    proof fn inv_unique_keys(&self) {
    }

    fn get_file_handle(&self, path: &str) -> (r: Result<FileSlice, DirError>) {
        let r = self.fs.open_read(path);
        proof {
            lemma_has_path_map_of(self.entries(), path@);
            if has_path(self.entries(), path@) {
                lemma_lookup_map_of(self.entries(), path@);
            }
        }
        r
    }

    fn path_exists(&self, path: &str) -> (r: bool) {
        let r = self.fs.path_exists(path);
        proof {
            lemma_has_path_map_of(self.entries(), path@);
        }
        r
    }

    fn write(&mut self, path: &str, data: &[u8]) -> (existed: bool) {
        let existed = self.fs.write(path, data);
        proof {
            lemma_upsert_unique(old(self).entries(), path@, data@);
            lemma_map_of_upsert(old(self).entries(), path@, data@);
            lemma_has_path_map_of(old(self).entries(), path@);
        }
        existed
    }

    fn open_write(&mut self, path: &str) -> (r: Result<VecWriter, DirError>) {
        proof {
            lemma_has_path_map_of(self.entries(), path@);
        }
        if self.fs.path_exists(path) {
            Err(DirError::AlreadyExists)
        } else {
            let writer = VecWriter::new(path.to_owned());
            let empty_buf: Vec<u8> = Vec::new();
            let _existed = self.fs.write(path, empty_buf.as_slice());
            proof {
                assert(empty_buf@ =~= Seq::<u8>::empty());
                lemma_upsert_unique(old(self).entries(), path@, Seq::<u8>::empty());
                lemma_map_of_upsert(old(self).entries(), path@, Seq::<u8>::empty());
            }
            Ok(writer)
        }
    }
}

} // verus!
