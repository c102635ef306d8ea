use tantivy::{AnyHandle, FileHandle, FileSlice, HasLen, OwnedBytes};

#[test]
fn test_file_slice() {
    let file_slice = FileSlice::new(OwnedBytes::new(b"abcdef".to_vec()));
    assert_eq!(file_slice.len(), 6);
    assert_eq!(
        file_slice.slice_from(2).read_bytes().unwrap().as_slice(),
        b"cdef"
    );
    assert_eq!(
        file_slice.slice_to(2).read_bytes().unwrap().as_slice(),
        b"ab"
    );
    assert_eq!(
        file_slice
            .slice_from(1)
            .slice_to(2)
            .read_bytes()
            .unwrap()
            .as_slice(),
        b"bc"
    );
    {
        let (left, right) = file_slice.clone().split(0);
        assert_eq!(left.read_bytes().unwrap().as_slice(), b"");
        assert_eq!(right.read_bytes().unwrap().as_slice(), b"abcdef");
    }
    {
        let (left, right) = file_slice.clone().split(2);
        assert_eq!(left.read_bytes().unwrap().as_slice(), b"ab");
        assert_eq!(right.read_bytes().unwrap().as_slice(), b"cdef");
    }
    {
        let (left, right) = file_slice.clone().split_from_end(0);
        assert_eq!(left.read_bytes().unwrap().as_slice(), b"abcdef");
        assert_eq!(right.read_bytes().unwrap().as_slice(), b"");
    }
    {
        let (left, right) = file_slice.clone().split_from_end(2);
        assert_eq!(left.read_bytes().unwrap().as_slice(), b"abcd");
        assert_eq!(right.read_bytes().unwrap().as_slice(), b"ef");
    }
}

#[test]
fn test_file_slice_trait_slice_len() {
    let handle: AnyHandle = OwnedBytes::new(b"abc".to_vec()).into_handle();
    assert_eq!(handle.len(), 3);
}

#[test]
fn test_slice_simple_read() {
    let slice = FileSlice::new(OwnedBytes::new(b"abcdef".to_vec()));
    assert_eq!(slice.len(), 6);
    assert_eq!(slice.read_bytes().unwrap().as_slice(), b"abcdef");
    assert_eq!(slice.slice(1..4).read_bytes().unwrap().as_slice(), b"bcd");
}

#[test]
fn test_slice_read_slice() {
    let slice_deref = FileSlice::new(OwnedBytes::new(b"abcdef".to_vec()));
    assert_eq!(
        slice_deref.read_bytes_slice(1..4).unwrap().as_slice(),
        b"bcd"
    );
}

#[test]
fn slice_then_read_equals_direct_sub_indexing() {
    // slicing [a, b) then reading yields exactly the bytes at [a, b)
    let content = b"0123456789".to_vec();
    let slice = FileSlice::new(OwnedBytes::new(content.clone()));
    for a in 0..content.len() {
        for b in a..content.len() {
            let read = slice.slice(a..b).read_bytes().unwrap();
            assert_eq!(read.as_slice(), &content[a..b]);
        }
    }
}

#[test]
fn split_partitions_content() {
    // the halves' lengths add up and their concatenation is the original
    let content = b"abcdefgh".to_vec();
    for k in 0..=content.len() {
        let slice = FileSlice::new(OwnedBytes::new(content.clone()));
        let total = slice.len();
        let (left, right) = slice.split(k);
        assert_eq!(left.len(), k);
        assert_eq!(right.len(), total - k);
        let mut joined = left.read_bytes().unwrap().as_slice().to_vec();
        joined.extend_from_slice(right.read_bytes().unwrap().as_slice());
        assert_eq!(joined, content);
    }
}

#[test]
fn full_range_slice_keeps_content() {
    let slice = FileSlice::new(OwnedBytes::new(b"abcdef".to_vec()));
    let full = slice.slice(0..slice.len());
    assert_eq!(
        full.read_bytes().unwrap().as_slice(),
        slice.read_bytes().unwrap().as_slice()
    );
}

#[test]
fn file_slice_empty_is_zero_length() {
    let empty = FileSlice::empty();
    assert_eq!(empty.len(), 0);
    assert_eq!(empty.read_bytes().unwrap().as_slice(), b"");
}

#[test]
fn file_slice_composes_recursively() {
    // a slice wrapped as the handle of another slice reads the same bytes
    let inner = FileSlice::new(OwnedBytes::new(b"abcdef".to_vec()));
    let middle = inner.slice(1..5);
    let rewrapped = FileSlice::new(middle);
    assert_eq!(rewrapped.len(), 4);
    assert_eq!(rewrapped.read_bytes().unwrap().as_slice(), b"bcde");
    assert_eq!(
        rewrapped.slice(1..3).read_bytes().unwrap().as_slice(),
        b"cd"
    );
}
