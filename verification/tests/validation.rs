use str_list::list::{MalformedEncoding, StrListBuf};

#[test]
fn from_bytes_accepts_well_formed_input() {
    let bytes = vec![b'a', 0xff, b'b', b'b', 0xff];
    let buf = StrListBuf::from_bytes(bytes).unwrap();
    let mut it = buf.as_str_list().iter();
    assert_eq!(it.next(), Some("a"));
    assert_eq!(it.next(), Some("bb"));
    assert_eq!(it.next(), None);
}

#[test]
fn from_bytes_accepts_empty_input() {
    let buf = StrListBuf::from_bytes(Vec::new()).unwrap();
    assert!(buf.is_empty());
}

#[test]
fn from_bytes_accepts_empty_elements() {
    let bytes = vec![0xff, 0xff];
    let buf = StrListBuf::from_bytes(bytes).unwrap();
    let mut it = buf.as_str_list().iter();
    assert_eq!(it.next(), Some(""));
    assert_eq!(it.next(), Some(""));
    assert_eq!(it.next(), None);
}

#[test]
fn from_bytes_rejects_trailing_fragment() {
    // A buffer truncated mid-element: payload without its delimiter.
    let bytes = vec![b'a'];
    assert!(matches!(StrListBuf::from_bytes(bytes), Err(MalformedEncoding)));
    let bytes2 = vec![b'a', 0xff, b'x'];
    assert!(matches!(StrListBuf::from_bytes(bytes2), Err(MalformedEncoding)));
}

#[test]
fn from_bytes_rejects_invalid_utf8_payload() {
    // 0xc3 starts a two-byte sequence, but 0x28 is not a continuation byte.
    let bytes = vec![0xc3, 0x28, 0xff];
    assert!(matches!(StrListBuf::from_bytes(bytes), Err(MalformedEncoding)));
    // A lone continuation byte is not UTF-8 either.
    let bytes2 = vec![0x80, 0xff];
    assert!(matches!(StrListBuf::from_bytes(bytes2), Err(MalformedEncoding)));
}

#[test]
fn from_bytes_accepts_multibyte_payload() {
    let mut bytes = "héllo".as_bytes().to_vec();
    bytes.push(0xff);
    let buf = StrListBuf::from_bytes(bytes).unwrap();
    let mut it = buf.as_str_list().iter();
    assert_eq!(it.next(), Some("héllo"));
    assert_eq!(it.next(), None);
}
