use vstd::prelude::*;
use std::sync::Arc;
use crate::error::DirError;
use crate::owned_bytes::OwnedBytes;

verus! {

/// Anything that can report a length in bytes.
pub trait HasLen {
    spec fn spec_len(&self) -> nat;

    fn len(&self) -> (n: usize)
        ensures
            n as nat == self.spec_len(),
    ;
}

/// Capability to produce bytes for an arbitrary range, plus a total length.
///
/// Implemented by plain byte buffers and by `FileSlice` itself, which makes
/// slices recursively composable: a slice may serve as the handle behind
/// another slice.
pub trait FileHandle: HasLen {
    /// The full byte content this handle can produce.
    spec fn file_content(&self) -> Seq<u8>;

    /// The reported length is the length of the content.
    proof fn content_len(&self)
        ensures
            self.spec_len() == self.file_content().len(),
    ;

    /// Materializes the bytes of `range` into an `OwnedBytes`. The in-memory
    /// handles never fail this call.
    fn read_bytes(&self, range: core::ops::Range<usize>) -> (r: Result<OwnedBytes, DirError>)
        requires
            range.start <= range.end <= self.file_content().len(),
        ensures
            r matches Ok(b) && b@ == self.file_content().subrange(
                range.start as int,
                range.end as int,
            ),
    ;

    /// Converts this handle into the shared form stored by a `FileSlice`.
    fn into_handle(self) -> (h: AnyHandle) where Self: Sized
        ensures
            h.content() == self.file_content(),
    ;
}

/// The concrete handles a `FileSlice` can be backed by: a byte buffer, or
/// another slice (recursive composition).
pub enum AnyHandle {
    Bytes(OwnedBytes),
    Slice(Box<FileSlice>),
}

/// A lazy, shareable view: a shared handle plus a half-open byte range over
/// that handle's content. Sub-slicing is O(1) — it clones the handle
/// reference and composes ranges additively, so nesting never accumulates
/// indirection beyond one reference hop.
pub struct FileSlice {
    data: Arc<AnyHandle>,
    start: usize,
    end: usize,
}

impl AnyHandle {
    /// The full content behind this handle.
    pub open spec fn content(self) -> Seq<u8>
        decreases self,
    {
        match self {
            AnyHandle::Bytes(b) => b@,
            AnyHandle::Slice(s) => s.bytes_spec(),
        }
    }

    /// Materializes `[start, end)` of the content, resolving nested slices
    /// down to the backing buffer without copying.
    pub fn read_range(&self, start: usize, end: usize) -> (r: Result<OwnedBytes, DirError>)
        requires
            start <= end <= self.content().len(),
        ensures
            r matches Ok(b) && b@ == self.content().subrange(start as int, end as int),
        decreases *self,
    {
        match self {
            AnyHandle::Bytes(b) => Ok(b.slice(start..end)),
            AnyHandle::Slice(fs) => {
                proof {
                    use_type_invariant(&**fs);
                }
                let r = (*fs.data).read_range(fs.start + start, fs.start + end);
                proof {
                    assert((*fs.data).content().subrange(
                        fs.start + start,
                        fs.start + end,
                    ) =~= self.content().subrange(start as int, end as int));
                }
                r
            },
        }
    }
}

impl FileSlice {
    #[verifier::type_invariant]
    spec fn wf(self) -> bool {
        self.start <= self.end <= (*self.data).content().len()
    }

    /// The bytes this slice views, as a sub-range of its handle's content.
    pub closed spec fn bytes_spec(self) -> Seq<u8>
        decreases self,
    {
        (*self.data).content().subrange(self.start as int, self.end as int)
    }

    /// Wraps a handle, viewing the full extent the handle reports.
    pub fn new<H: FileHandle>(file_handle: H) -> (s: FileSlice)
        ensures
            s@ == file_handle.file_content(),
    {
        let num_bytes = file_handle.len();
        proof {
            file_handle.content_len();
        }
        let s = FileSlice::new_with_num_bytes(file_handle, num_bytes);
        proof {
            assert(s@ =~= file_handle.file_content());
        }
        s
    }

    /// Wraps a handle, viewing only its first `num_bytes` bytes.
    pub fn new_with_num_bytes<H: FileHandle>(file_handle: H, num_bytes: usize) -> (s: FileSlice)
        requires
            num_bytes as nat <= file_handle.file_content().len(),
        ensures
            s@ == file_handle.file_content().subrange(0, num_bytes as int),
    {
        FileSlice { data: Arc::new(file_handle.into_handle()), start: 0, end: num_bytes }
    }

    /// Returns the sub-slice of `bytes_range`, sharing the same handle.
    pub fn slice(&self, bytes_range: core::ops::Range<usize>) -> (s: FileSlice)
        requires
            bytes_range.start <= bytes_range.end <= self@.len(),
        ensures
            s@ == self@.subrange(bytes_range.start as int, bytes_range.end as int),
    {
        proof {
            use_type_invariant(&*self);
        }
        let s = FileSlice {
            data: self.data.clone(),
            start: self.start + bytes_range.start,
            end: self.start + bytes_range.end,
        };
        proof {
            assert(s@ =~= self@.subrange(bytes_range.start as int, bytes_range.end as int));
        }
        s
    }

    /// The canonical zero-length slice, usable as a placeholder.
    pub fn empty() -> (s: FileSlice)
        ensures
            s@ == Seq::<u8>::empty(),
    {
        let s = FileSlice::new(OwnedBytes::empty());
        proof {
            assert(s@ =~= Seq::<u8>::empty());
        }
        s
    }

    /// Materializes the full current view.
    pub fn read_bytes(&self) -> (r: Result<OwnedBytes, DirError>)
        ensures
            r matches Ok(b) && b@ == self@,
    {
        proof {
            use_type_invariant(&*self);
        }
        let r = (*self.data).read_range(self.start, self.end);
        r
    }

    /// Materializes only `range` of the view, without building an
    /// intermediate slice; equivalent to `slice(range).read_bytes()`.
    pub fn read_bytes_slice(&self, range: core::ops::Range<usize>) -> (r: Result<
        OwnedBytes,
        DirError,
    >)
        requires
            range.start <= range.end <= self@.len(),
        ensures
            r matches Ok(b) && b@ == self@.subrange(range.start as int, range.end as int),
    {
        proof {
            use_type_invariant(&*self);
        }
        let r = (*self.data).read_range(self.start + range.start, self.start + range.end);
        proof {
            assert((*self.data).content().subrange(
                self.start + range.start,
                self.start + range.end,
            ) =~= self@.subrange(range.start as int, range.end as int));
        }
        r
    }

    /// Partitions into `(left, right)` at `left_len`, without reading bytes.
    pub fn split(self, left_len: usize) -> (r: (FileSlice, FileSlice))
        requires
            left_len <= self@.len(),
        ensures
            r.0@ == self@.subrange(0, left_len as int),
            r.1@ == self@.subrange(left_len as int, self@.len() as int),
    {
        let left = self.slice_to(left_len);
        let right = self.slice_from(left_len);
        (left, right)
    }

    /// Partitions so that the right part holds the last `right_len` bytes.
    pub fn split_from_end(self, right_len: usize) -> (r: (FileSlice, FileSlice))
        requires
            right_len <= self@.len(),
        ensures
            r.0@ == self@.subrange(0, self@.len() - right_len),
            r.1@ == self@.subrange(self@.len() - right_len, self@.len() as int),
    {
        let left_len = self.len() - right_len;
        self.split(left_len)
    }

    /// The sub-slice from `from_offset` to the end.
    pub fn slice_from(&self, from_offset: usize) -> (s: FileSlice)
        requires
            from_offset <= self@.len(),
        ensures
            s@ == self@.subrange(from_offset as int, self@.len() as int),
    {
        let n = self.len();
        self.slice(from_offset..n)
    }

    /// The sub-slice of the first `to_offset` bytes.
    pub fn slice_to(&self, to_offset: usize) -> (s: FileSlice)
        requires
            to_offset <= self@.len(),
        ensures
            s@ == self@.subrange(0, to_offset as int),
    {
        self.slice(0..to_offset)
    }
}

impl View for FileSlice {
    type V = Seq<u8>;

    closed spec fn view(&self) -> Seq<u8> {
        self.bytes_spec()
    }
}

impl Clone for FileSlice {
    /// Cloning shares the handle: only a reference count moves.
    fn clone(&self) -> (r: Self)
        ensures
            r == *self,
    {
        proof {
            use_type_invariant(&*self);
        }
        FileSlice { data: self.data.clone(), start: self.start, end: self.end }
    }
}

impl HasLen for FileSlice {
    open spec fn spec_len(&self) -> nat {
        self@.len()
    }

    fn len(&self) -> (n: usize)
        ensures
            n as nat == self.spec_len(),
    {
        proof {
            use_type_invariant(&*self);
        }
        self.end - self.start
    }
}

impl FileHandle for FileSlice {
    open spec fn file_content(&self) -> Seq<u8> {
        self@
    }

    proof fn content_len(&self) {
    }

    fn read_bytes(&self, range: core::ops::Range<usize>) -> (r: Result<OwnedBytes, DirError>) {
        self.read_bytes_slice(range)
    }

    fn into_handle(self) -> (h: AnyHandle) {
        AnyHandle::Slice(Box::new(self))
    }
}

impl HasLen for OwnedBytes {
    open spec fn spec_len(&self) -> nat {
        self@.len()
    }

    fn len(&self) -> (n: usize)
        ensures
            n as nat == self.spec_len(),
    {
        OwnedBytes::len(self)
    }
}

impl FileHandle for OwnedBytes {
    open spec fn file_content(&self) -> Seq<u8> {
        self@
    }

    proof fn content_len(&self) {
    }

    fn read_bytes(&self, range: core::ops::Range<usize>) -> (r: Result<OwnedBytes, DirError>) {
        Ok(self.slice(range))
    }

    fn into_handle(self) -> (h: AnyHandle) {
        AnyHandle::Bytes(self)
    }
}

impl HasLen for AnyHandle {
    open spec fn spec_len(&self) -> nat {
        self.content().len()
    }

    fn len(&self) -> (n: usize)
        ensures
            n as nat == self.spec_len(),
    {
        match self {
            AnyHandle::Bytes(b) => OwnedBytes::len(b),
            AnyHandle::Slice(s) => (**s).len(),
        }
    }
}

impl FileHandle for AnyHandle {
    open spec fn file_content(&self) -> Seq<u8> {
        self.content()
    }

    proof fn content_len(&self) {
    }

    fn read_bytes(&self, range: core::ops::Range<usize>) -> (r: Result<OwnedBytes, DirError>) {
        self.read_range(range.start, range.end)
    }

    fn into_handle(self) -> (h: AnyHandle) {
        self
    }
}

/// Splitting a view at any point partitions its content: the left part holds
/// the first `k` bytes, the right part the rest, and their concatenation is
/// the original content.
pub proof fn lemma_split_concat(s: Seq<u8>, k: int)
    requires
        0 <= k <= s.len(),
    ensures
        s.subrange(0, k) + s.subrange(k, s.len() as int) == s,
{
    assert(s.subrange(0, k) + s.subrange(k, s.len() as int) =~= s);
}

/// Slicing a view over its full range keeps the content unchanged, whatever
/// the internal representation of the view is.
pub proof fn lemma_full_slice_identity(s: Seq<u8>)
    ensures
        s.subrange(0, s.len() as int) == s,
{
    assert(s.subrange(0, s.len() as int) =~= s);
}

} // verus!
