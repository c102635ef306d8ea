use vstd::prelude::*;
use crate::error::DirError;
use crate::file_slice::FileSlice;
use crate::ram_directory::VecWriter;

verus! {

/// One published namespace entry: a path and the byte content filed under it.
pub type Entry = (Seq<char>, Seq<u8>);

/// No two entries share a path.
pub open spec fn unique_keys(s: Seq<Entry>) -> bool {
    forall|i: int, j: int| 0 <= i < j < s.len() ==> (#[trigger] s[i]).0 != (#[trigger] s[j]).0
}

/// Some entry is filed under `path`.
pub open spec fn has_path(s: Seq<Entry>, path: Seq<char>) -> bool {
    exists|i: int| 0 <= i < s.len() && (#[trigger] s[i]).0 == path
}

/// The position of the entry filed under `path`, when there is one.
pub open spec fn path_index(s: Seq<Entry>, path: Seq<char>) -> int {
    choose|i: int| 0 <= i < s.len() && (#[trigger] s[i]).0 == path
}

/// The content filed under `path`, when there is an entry for it.
pub open spec fn lookup(s: Seq<Entry>, path: Seq<char>) -> Seq<u8> {
    s[path_index(s, path)].1
}

/// Publishing `data` under `path`: replaces the entry in place when the path
/// is already present, appends a new entry otherwise.
pub open spec fn upsert(s: Seq<Entry>, path: Seq<char>, data: Seq<u8>) -> Seq<Entry> {
    if has_path(s, path) {
        s.update(path_index(s, path), (path, data))
    } else {
        s.push((path, data))
    }
}

/// The entries read as a finite map from path to content.
pub open spec fn map_of(s: Seq<Entry>) -> Map<Seq<char>, Seq<u8>>
    decreases s.len(),
{
    if s.len() == 0 {
        Map::empty()
    } else {
        map_of(s.drop_last()).insert(s.last().0, s.last().1)
    }
}

/// The sum of the content lengths of all entries.
pub open spec fn usage(s: Seq<Entry>) -> nat
    decreases s.len(),
{
    if s.len() == 0 {
        0
    } else {
        usage(s.drop_last()) + s.last().1.len()
    }
}

/// Capability over a namespace of paths mapped to byte content.
///
/// The namespace is modelled twice: `entries` gives the published entries in
/// storage order, and `files` reads them as a map. `inv` is the backend's
/// internal well-formedness; every operation preserves it.
pub trait Directory: Sized {
    /// The published entries, in storage order.
    spec fn entries(&self) -> Seq<Entry>;

    /// Internal well-formedness of the backend.
    spec fn inv(&self) -> bool;

    /// The published namespace as a map.
    open spec fn files(&self) -> Map<Seq<char>, Seq<u8>> {
        map_of(self.entries())
    }

    /// A well-formed directory never files two entries under one path.
    proof fn inv_unique_keys(&self)
        requires
            self.inv(),
        ensures
            unique_keys(self.entries()),
    ;

    /// Acquires a read handle on the content published under `path`.
    fn get_file_handle(&self, path: &str) -> (r: Result<FileSlice, DirError>)
        requires
            self.inv(),
        ensures
            r is Ok <==> self.files().contains_key(path@),
            r matches Ok(s) ==> s@ == self.files()[path@],
            r matches Err(e) ==> e == DirError::NotFound,
    ;

    /// Opens the content published under `path` as a slice.
    fn open_read(&self, path: &str) -> (r: Result<FileSlice, DirError>)
        requires
            self.inv(),
        ensures
            r is Ok <==> self.files().contains_key(path@),
            r matches Ok(s) ==> s@ == self.files()[path@],
            r matches Err(e) ==> e == DirError::NotFound,
    {
        match self.get_file_handle(path) {
            Ok(handle) => Ok(FileSlice::new(handle)),
            Err(e) => Err(e),
        }
    }

    /// Whether `path` currently has published content.
    fn path_exists(&self, path: &str) -> (r: bool)
        requires
            self.inv(),
        ensures
            r == self.files().contains_key(path@),
    ;

    /// Publishes `data` as the full content of `path`, replacing any previous
    /// content in one step; reports whether the path was already present.
    fn write(&mut self, path: &str, data: &[u8]) -> (existed: bool)
        requires
            old(self).inv(),
        ensures
            final(self).inv(),
            final(self).entries() == upsert(old(self).entries(), path@, data@),
            final(self).files() == old(self).files().insert(path@, data@),
            existed == old(self).files().contains_key(path@),
    ;

    /// Opens `path` for writing. A fresh path is reserved at once by
    /// publishing an empty entry, and the returned writer stages bytes
    /// privately until its flush. Fails with `AlreadyExists` when the path
    /// already held content, leaving that content untouched.
    fn open_write(&mut self, path: &str) -> (r: Result<VecWriter, DirError>)
        requires
            old(self).inv(),
        ensures
            final(self).inv(),
            r is Ok <==> !old(self).files().contains_key(path@),
            r is Ok ==> final(self).entries() == upsert(
                old(self).entries(),
                path@,
                Seq::<u8>::empty(),
            ) && final(self).files() == old(self).files().insert(path@, Seq::<u8>::empty()),
            r matches Ok(w) ==> w.path_spec() == path@ && w.staged() == Seq::<u8>::empty()
                && w.flushed(),
            r is Err ==> final(self).entries() == old(self).entries() && final(self).files()
                == old(self).files(),
            r matches Err(e) ==> e == DirError::AlreadyExists,
    ;

    /// Reads the full content published under `path` into a fresh vector.
    fn atomic_read(&self, path: &str) -> (r: Result<Vec<u8>, DirError>)
        requires
            self.inv(),
        ensures
            r is Ok <==> self.files().contains_key(path@),
            r matches Ok(v) ==> v@ == self.files()[path@],
            r matches Err(e) ==> e == DirError::NotFound,
    {
        match self.open_read(path) {
            Ok(slice) => match slice.read_bytes() {
                Ok(bytes) => Ok(vstd::slice::slice_to_vec(bytes.as_slice())),
                Err(_) => {
                    proof {
                        assert(false);
                    }
                    Err(DirError::NotFound)
                },
            },
            Err(e) => Err(e),
        }
    }
}

/// `upsert` keeps the entries well-formed, and occupies exactly the old
/// paths plus the written one.
pub proof fn lemma_upsert_unique(s: Seq<Entry>, path: Seq<char>, data: Seq<u8>)
    requires
        unique_keys(s),
    ensures
        unique_keys(upsert(s, path, data)),
        forall|q: Seq<char>| has_path(upsert(s, path, data), q) <==> (has_path(s, q) || q
            == path),
{
    let t = upsert(s, path, data);
    if has_path(s, path) {
        let i = path_index(s, path);
        assert(0 <= i < s.len() && s[i].0 == path);
        assert(forall|j: int| 0 <= j < t.len() ==> (#[trigger] t[j]).0 == s[j].0);
        assert forall|q: Seq<char>| has_path(t, q) implies (has_path(s, q) || q == path) by {
            let j = choose|j: int| 0 <= j < t.len() && (#[trigger] t[j]).0 == q;
            assert(s[j].0 == q);
        }
        assert forall|q: Seq<char>| has_path(s, q) || q == path implies has_path(t, q) by {
            if has_path(s, q) {
                let j = choose|j: int| 0 <= j < s.len() && (#[trigger] s[j]).0 == q;
                assert(t[j].0 == q);
            } else {
                assert(t[i].0 == q);
            }
        }
    } else {
        assert(forall|j: int| 0 <= j < s.len() ==> (#[trigger] t[j]) == s[j]);
        assert(t[s.len() as int].0 == path);
        assert forall|q: Seq<char>| has_path(t, q) implies (has_path(s, q) || q == path) by {
            let j = choose|j: int| 0 <= j < t.len() && (#[trigger] t[j]).0 == q;
            if j < s.len() {
                assert(s[j].0 == q);
            }
        }
        assert forall|q: Seq<char>| has_path(s, q) || q == path implies has_path(t, q) by {
            if has_path(s, q) {
                let j = choose|j: int| 0 <= j < s.len() && (#[trigger] s[j]).0 == q;
                assert(t[j].0 == q);
            } else {
                assert(t[s.len() as int].0 == q);
            }
        }
    }
}

proof fn lemma_map_of_update(s: Seq<Entry>, i: int, path: Seq<char>, data: Seq<u8>)
    requires
        unique_keys(s),
        0 <= i < s.len(),
        s[i].0 == path,
    ensures
        map_of(s.update(i, (path, data))) == map_of(s).insert(path, data),
    decreases s.len(),
{
    let t = s.update(i, (path, data));
    if i == s.len() - 1 {
        assert(t.drop_last() =~= s.drop_last());
        assert(map_of(t) == map_of(s.drop_last()).insert(path, data));
        assert(map_of(s.drop_last()).insert(path, data) =~= map_of(s).insert(path, data));
    } else {
        assert(t.drop_last() =~= s.drop_last().update(i, (path, data)));
        assert(unique_keys(s.drop_last())) by {
            assert(forall|a: int| 0 <= a < s.len() - 1 ==> #[trigger] s.drop_last()[a] == s[a]);
        }
        assert(s.drop_last()[i].0 == path);
        lemma_map_of_update(s.drop_last(), i, path, data);
        assert(s.last().0 != path);
        assert(map_of(t) == map_of(s.drop_last()).insert(path, data).insert(
            s.last().0,
            s.last().1,
        ));
        assert(map_of(s.drop_last()).insert(path, data).insert(s.last().0, s.last().1)
            =~= map_of(s).insert(path, data));
    }
}

/// Publishing one entry changes the namespace map by exactly one binding.
pub proof fn lemma_map_of_upsert(s: Seq<Entry>, path: Seq<char>, data: Seq<u8>)
    requires
        unique_keys(s),
    ensures
        map_of(upsert(s, path, data)) == map_of(s).insert(path, data),
{
    if has_path(s, path) {
        let i = path_index(s, path);
        assert(0 <= i < s.len() && s[i].0 == path);
        lemma_map_of_update(s, i, path, data);
    } else {
        let t = s.push((path, data));
        assert(t.drop_last() =~= s);
        assert(map_of(t) == map_of(s).insert(path, data));
    }
}

/// A path is occupied exactly when the namespace map holds a binding for it.
pub proof fn lemma_has_path_map_of(s: Seq<Entry>, path: Seq<char>)
    ensures
        has_path(s, path) <==> map_of(s).contains_key(path),
    decreases s.len(),
{
    if s.len() == 0 {
        assert(!has_path(s, path));
    } else {
        lemma_has_path_map_of(s.drop_last(), path);
        if has_path(s, path) {
            let i = choose|i: int| 0 <= i < s.len() && (#[trigger] s[i]).0 == path;
            if i < s.len() - 1 {
                assert(s.drop_last()[i].0 == path);
                assert(has_path(s.drop_last(), path));
            }
            assert(map_of(s).contains_key(path));
        }
        if map_of(s).contains_key(path) {
            if path == s.last().0 {
                assert(s[s.len() - 1].0 == path);
            } else {
                let i = choose|i: int|
                    0 <= i < s.drop_last().len() && (#[trigger] s.drop_last()[i]).0 == path;
                assert(s[i].0 == path);
            }
            assert(has_path(s, path));
        }
    }
}

/// For a well-formed namespace, the map agrees with positional lookup.
pub proof fn lemma_lookup_map_of(s: Seq<Entry>, path: Seq<char>)
    requires
        unique_keys(s),
        has_path(s, path),
    ensures
        map_of(s).contains_key(path),
        map_of(s)[path] == lookup(s, path),
    decreases s.len(),
{
    lemma_has_path_map_of(s, path);
    let i = path_index(s, path);
    assert(0 <= i < s.len() && s[i].0 == path);
    if s.last().0 == path {
        assert(i == s.len() - 1);
        assert(map_of(s)[path] == s.last().1);
    } else {
        assert(i < s.len() - 1);
        assert(s.drop_last()[i].0 == path);
        assert(has_path(s.drop_last(), path));
        assert(unique_keys(s.drop_last())) by {
            assert(forall|a: int| 0 <= a < s.len() - 1 ==> #[trigger] s.drop_last()[a] == s[a]);
        }
        lemma_lookup_map_of(s.drop_last(), path);
        let j = path_index(s.drop_last(), path);
        assert(0 <= j < s.drop_last().len() && s.drop_last()[j].0 == path);
        assert(s[j].0 == path);
        assert(j == i);
        assert(lookup(s.drop_last(), path) == lookup(s, path));
        assert(map_of(s)[path] == map_of(s.drop_last())[path]);
    }
}

/// After publishing, the path holds exactly the published bytes.
pub proof fn lemma_lookup_upsert(s: Seq<Entry>, path: Seq<char>, data: Seq<u8>)
    requires
        unique_keys(s),
    ensures
        has_path(upsert(s, path, data), path),
        lookup(upsert(s, path, data), path) == data,
{
    let t = upsert(s, path, data);
    lemma_upsert_unique(s, path, data);
    if has_path(s, path) {
        let i = path_index(s, path);
        assert(0 <= i < s.len() && s[i].0 == path);
        assert(t[i].0 == path);
    } else {
        assert(t[s.len() as int].0 == path);
    }
    let j = path_index(t, path);
    assert(0 <= j < t.len() && t[j].0 == path);
    if has_path(s, path) {
        let i = path_index(s, path);
        assert(forall|a: int| 0 <= a < t.len() && a != i ==> #[trigger] t[a] == s[a]);
        assert(j == i);
    } else {
        assert(forall|a: int| 0 <= a < s.len() ==> #[trigger] t[a] == s[a]);
        assert(j == s.len());
    }
}

proof fn lemma_usage_update(s: Seq<Entry>, i: int, x: Entry)
    requires
        0 <= i < s.len(),
    ensures
        usage(s.update(i, x)) + s[i].1.len() == usage(s) + x.1.len(),
    decreases s.len(),
{
    let t = s.update(i, x);
    if i == s.len() - 1 {
        assert(t.drop_last() =~= s.drop_last());
    } else {
        assert(t.drop_last() =~= s.drop_last().update(i, x));
        lemma_usage_update(s.drop_last(), i, x);
        assert(t.last() == s.last());
    }
}

/// How publishing changes the total size of the namespace: the new content's
/// length is added and the replaced content's length (when the path was
/// already present) is taken out, so overwriting never double-counts.
pub proof fn lemma_usage_upsert(s: Seq<Entry>, path: Seq<char>, data: Seq<u8>)
    requires
        unique_keys(s),
    ensures
        has_path(s, path) ==> usage(upsert(s, path, data)) + lookup(s, path).len() == usage(s)
            + data.len(),
        !has_path(s, path) ==> usage(upsert(s, path, data)) == usage(s) + data.len(),
{
    if has_path(s, path) {
        let i = path_index(s, path);
        assert(0 <= i < s.len() && s[i].0 == path);
        lemma_usage_update(s, i, (path, data));
    } else {
        let t = s.push((path, data));
        assert(t.drop_last() =~= s);
    }
}

/// Summing the first `i + 1` entries adds entry `i` to the first `i`.
pub proof fn lemma_usage_take_succ(s: Seq<Entry>, i: int)
    requires
        0 <= i < s.len(),
    ensures
        usage(s.take(i + 1)) == usage(s.take(i)) + s[i].1.len(),
{
    assert(s.take(i + 1).drop_last() =~= s.take(i));
    assert(s.take(i + 1).last() == s[i]);
}

/// A prefix of the entries never sums to more than the whole.
pub proof fn lemma_usage_take_le(s: Seq<Entry>, i: int)
    requires
        0 <= i <= s.len(),
    ensures
        usage(s.take(i)) <= usage(s),
    decreases s.len() - i,
{
    if i == s.len() {
        assert(s.take(i) =~= s);
    } else {
        lemma_usage_take_succ(s, i);
        lemma_usage_take_le(s, i + 1);
    }
}

/// Writing bytes to a path, flushing, then reading the path back yields
/// exactly the bytes written: the reservation publishes an empty entry and
/// the flush replaces it with the full staged content.
pub proof fn lemma_write_flush_read_round_trip(
    entries: Seq<Entry>,
    path: Seq<char>,
    data: Seq<u8>,
)
    requires
        unique_keys(entries),
    ensures
        ({
            let reserved = upsert(entries, path, Seq::<u8>::empty());
            let published = upsert(reserved, path, data);
            &&& map_of(published).contains_key(path)
            &&& map_of(published)[path] == data
        }),
{
    let reserved = upsert(entries, path, Seq::<u8>::empty());
    lemma_upsert_unique(entries, path, Seq::<u8>::empty());
    lemma_map_of_upsert(entries, path, Seq::<u8>::empty());
    lemma_map_of_upsert(reserved, path, data);
}

/// Opening a path for writing occupies it at once, and it stays occupied
/// after the flush; a second write-open, before or after that flush, thus
/// finds the path already bound and must fail with `AlreadyExists`. A
/// write-open on a path never bound succeeds, since the namespace map holds
/// no binding for it.
pub proof fn lemma_reservation_blocks_second_writer(
    entries: Seq<Entry>,
    path: Seq<char>,
    data: Seq<u8>,
)
    requires
        unique_keys(entries),
    ensures
        map_of(upsert(entries, path, Seq::<u8>::empty())).contains_key(path),
        map_of(upsert(upsert(entries, path, Seq::<u8>::empty()), path, data)).contains_key(path),
{
    lemma_write_flush_read_round_trip(entries, path, data);
    lemma_map_of_upsert(entries, path, Seq::<u8>::empty());
}

/// While a write is in progress the namespace never shows a partial prefix
/// of the staged bytes: before the flush the path holds the reserved empty
/// entry, and after the flush it holds the full content, nothing in between.
pub proof fn lemma_no_partial_content_visible(
    entries: Seq<Entry>,
    path: Seq<char>,
    data: Seq<u8>,
)
    requires
        unique_keys(entries),
    ensures
        map_of(upsert(entries, path, Seq::<u8>::empty()))[path] == Seq::<u8>::empty(),
        map_of(upsert(upsert(entries, path, Seq::<u8>::empty()), path, data))[path] == data,
{
    lemma_write_flush_read_round_trip(entries, path, data);
    lemma_map_of_upsert(entries, path, Seq::<u8>::empty());
}

/// Writing and flushing a fresh path grows the total memory usage by exactly
/// that path's byte length; publishing over an existing path replaces its
/// contribution instead of double-counting it.
pub proof fn lemma_usage_accounting(entries: Seq<Entry>, path: Seq<char>, data: Seq<u8>)
    requires
        unique_keys(entries),
    ensures
        !has_path(entries, path) ==> usage(
            upsert(upsert(entries, path, Seq::<u8>::empty()), path, data),
        ) == usage(entries) + data.len(),
        has_path(entries, path) ==> usage(upsert(entries, path, data)) + lookup(
            entries,
            path,
        ).len() == usage(entries) + data.len(),
{
    lemma_usage_upsert(entries, path, data);
    if !has_path(entries, path) {
        let reserved = upsert(entries, path, Seq::<u8>::empty());
        lemma_usage_upsert(entries, path, Seq::<u8>::empty());
        lemma_upsert_unique(entries, path, Seq::<u8>::empty());
        lemma_lookup_upsert(entries, path, Seq::<u8>::empty());
        lemma_usage_upsert(reserved, path, data);
    }
}

} // verus!
