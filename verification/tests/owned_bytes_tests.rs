use tantivy::{DirError, OwnedBytes};

#[test]
fn test_owned_bytes_debug() {
    let short_bytes = OwnedBytes::new(b"abcd".to_vec());
    assert_eq!(
        short_bytes.debug_string(),
        "OwnedBytes([97, 98, 99, 100], len=4)"
    );

    let long_bytes = OwnedBytes::new(b"abcdefghijklmnopq".to_vec());
    assert_eq!(
        long_bytes.debug_string(),
        "OwnedBytes([97, 98, 99, 100, 101, 102, 103, 104, 105, 106], len=17)"
    );
}

#[test]
fn test_owned_bytes_read() {
    let mut bytes = OwnedBytes::new(b"abcdefghiklmnopqrstuvwxyz".to_vec());
    {
        let mut buf: Vec<u8> = vec![0u8; 5];
        bytes.read_exact(&mut buf).unwrap();
        assert_eq!(buf.as_slice(), b"abcde");
        assert_eq!(bytes.as_slice(), b"fghiklmnopqrstuvwxyz");
    }
    {
        let mut buf: Vec<u8> = vec![0u8; 2];
        bytes.read_exact(&mut buf).unwrap();
        assert_eq!(buf.as_slice(), b"fg");
        assert_eq!(bytes.as_slice(), b"hiklmnopqrstuvwxyz");
    }
}

#[test]
fn test_owned_bytes_read_right_at_the_end() {
    let mut bytes = OwnedBytes::new(b"abcde".to_vec());
    let mut buf: Vec<u8> = vec![0u8; 5];
    assert_eq!(bytes.read(&mut buf), 5);
    assert_eq!(buf.as_slice(), b"abcde");
    assert_eq!(bytes.as_slice(), b"");
    assert_eq!(bytes.read(&mut buf), 0);
    assert_eq!(buf.as_slice(), b"abcde");
}

#[test]
fn test_owned_bytes_read_incomplete() {
    let mut bytes = OwnedBytes::new(b"abcde".to_vec());
    let mut buf: Vec<u8> = vec![0u8; 7];
    assert_eq!(bytes.read(&mut buf), 5);
    assert_eq!(&buf.as_slice()[..5], b"abcde");
    assert_eq!(bytes.read(&mut buf), 0);
}

#[test]
fn test_owned_bytes_read_to_end() {
    let mut bytes = OwnedBytes::new(b"abcde".to_vec());
    let mut buf: Vec<u8> = Vec::new();
    bytes.read_to_end(&mut buf);
    assert_eq!(buf.as_slice(), b"abcde".as_ref());
}

#[test]
fn test_owned_bytes_read_u8() {
    let mut bytes = OwnedBytes::new(b"\xFF".to_vec());
    assert_eq!(bytes.read_u8(), u8::MAX);
    assert_eq!(bytes.len(), 0);
}

#[test]
fn test_owned_bytes_read_u64() {
    let mut bytes = OwnedBytes::new(b"\0\xFF\xFF\xFF\xFF\xFF\xFF\xFF".to_vec());
    assert_eq!(bytes.read_u64(), u64::MAX - 255);
    assert_eq!(bytes.len(), 0);
}

#[test]
fn test_owned_bytes_split() {
    let bytes = OwnedBytes::new(b"abcdefghi".to_vec());
    let (left, right) = bytes.split(3);
    assert_eq!(left.as_slice(), b"abc");
    assert_eq!(right.as_slice(), b"defghi");
}

#[test]
fn test_owned_bytes_split_boundary() {
    let bytes = OwnedBytes::new(b"abcdefghi".to_vec());
    {
        let (left, right) = bytes.clone().split(0);
        assert_eq!(left.as_slice(), b"");
        assert_eq!(right.as_slice(), b"abcdefghi");
    }
    {
        let (left, right) = bytes.split(9);
        assert_eq!(left.as_slice(), b"abcdefghi");
        assert_eq!(right.as_slice(), b"");
    }
}

#[test]
fn owned_bytes_empty_has_no_content() {
    let bytes = OwnedBytes::empty();
    assert_eq!(bytes.len(), 0);
    assert!(bytes.is_empty());
    assert_eq!(bytes.as_slice(), b"");
}

#[test]
fn owned_bytes_read_exact_short_reports_io_error() {
    let mut bytes = OwnedBytes::new(b"ab".to_vec());
    let mut buf: Vec<u8> = vec![0u8; 4];
    assert_eq!(bytes.read_exact(&mut buf), Err(DirError::Io));
    assert_eq!(&buf.as_slice()[..2], b"ab");
    assert!(bytes.is_empty());
}

#[test]
fn owned_bytes_slice_is_zero_copy_view() {
    let bytes = OwnedBytes::new(b"abcdef".to_vec());
    let middle = bytes.slice(2..5);
    assert_eq!(middle.as_slice(), b"cde");
    // the original view is untouched
    assert_eq!(bytes.as_slice(), b"abcdef");
}

#[test]
fn owned_bytes_advance_narrows_only_this_view() {
    let mut bytes = OwnedBytes::new(b"abcdef".to_vec());
    let other = bytes.clone();
    bytes.advance(4);
    assert_eq!(bytes.as_slice(), b"ef");
    assert_eq!(other.as_slice(), b"abcdef");
}

#[test]
fn owned_bytes_debug_string_nine_bytes() {
    let bytes = OwnedBytes::new(b"abcdefghi".to_vec());
    assert_eq!(
        bytes.debug_string(),
        "OwnedBytes([97, 98, 99, 100, 101, 102, 103, 104, 105], len=9)"
    );
}
