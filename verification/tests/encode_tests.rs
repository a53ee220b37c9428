use simple_redis::{
    BulkString, RespArray, RespEncode, RespFrame, RespMap, RespNull, RespNullArray,
    RespNullBulkString, RespSet, SimpleError, SimpleString,
};

#[test]
fn test_simple_string_encode() {
    let frame: RespFrame = SimpleString::new(b"OK".to_vec()).into();
    assert_eq!(frame.encode(), b"+OK\r\n".to_vec());
}

#[test]
fn test_error_encode() {
    let frame: RespFrame = SimpleError::new(b"Error message".to_vec()).into();
    assert_eq!(frame.encode(), b"-Error message\r\n".to_vec());
}

#[test]
fn integer_test_integer_encode() {
    let frame: RespFrame = 1i64.into();
    assert_eq!(frame.encode(), b":1\r\n".to_vec());

    let frame: RespFrame = 123i64.into();
    assert_eq!(frame.encode(), b":123\r\n".to_vec());

    let frame: RespFrame = (-123i64).into();
    assert_eq!(frame.encode(), b":-123\r\n".to_vec());
}

#[test]
fn test_integer_encode_extremes() {
    let frame: RespFrame = i64::MIN.into();
    assert_eq!(frame.encode(), b":-9223372036854775808\r\n".to_vec());
    let frame: RespFrame = i64::MAX.into();
    assert_eq!(frame.encode(), b":9223372036854775807\r\n".to_vec());
    let frame: RespFrame = 0i64.into();
    assert_eq!(frame.encode(), b":0\r\n".to_vec());
}

#[test]
fn test_bulk_string_encode() {
    let frame: RespFrame = BulkString::new(b"hello".to_vec()).into();
    assert_eq!(frame.encode(), b"$5\r\nhello\r\n".to_vec());
}

#[test]
fn test_null_bulk_string_encode() {
    assert_eq!(RespNullBulkString.encode(), b"$-1\r\n".to_vec());
}

#[test]
fn test_array_encode() {
    let frame: RespFrame = RespArray::new(vec![
        SimpleString::new(b"OK".to_vec()).into(),
        123i64.into(),
        BulkString::new(b"hello".to_vec()).into(),
    ])
    .into();
    assert_eq!(frame.encode(), b"*3\r\n+OK\r\n:123\r\n$5\r\nhello\r\n".to_vec());
}

#[test]
fn test_null_array_encode() {
    assert_eq!(RespNullArray.encode(), b"*-1\r\n".to_vec());
}

#[test]
fn test_null_encode() {
    let frame: RespFrame = RespNull.into();
    assert_eq!(frame.encode(), b"_\r\n".to_vec());
}

#[test]
fn test_boolean_encode() {
    let frame = RespFrame::from(true);
    assert_eq!(frame.encode(), b"#t\r\n".to_vec());

    let frame: RespFrame = false.into();
    assert_eq!(frame.encode(), b"#f\r\n".to_vec());
}

#[test]
fn test_double_encode() {
    // the double payload is the rendered decimal text, sign included
    let frame = RespFrame::Double(b"+123.456".to_vec());
    assert_eq!(frame.encode(), b",+123.456\r\n".to_vec());

    let frame = RespFrame::Double(b"-123.456".to_vec());
    assert_eq!(frame.encode(), b",-123.456\r\n".to_vec());

    let frame = RespFrame::Double(b"+1.23456e8".to_vec());
    assert_eq!(frame.encode(), b",+1.23456e8\r\n".to_vec());

    let frame = RespFrame::Double(b"-1.23456e-9".to_vec());
    assert_eq!(frame.encode(), b",-1.23456e-9\r\n".to_vec());
}

#[test]
fn test_map_encode() {
    let mut map = RespMap::new();
    map.insert(
        b"hello".to_vec(),
        BulkString::new(b"world".to_vec()).into(),
    );
    map.insert(b"foo".to_vec(), RespFrame::Double(b"-123456.789".to_vec()));

    let frame: RespFrame = map.into();
    assert_eq!(
        frame.encode(),
        b"%2\r\n+foo\r\n,-123456.789\r\n+hello\r\n$5\r\nworld\r\n".to_vec()
    );
}

#[test]
fn test_map_insert_replaces() {
    let mut map = RespMap::new();
    map.insert(b"k".to_vec(), 1i64.into());
    map.insert(b"k".to_vec(), 2i64.into());
    assert_eq!(map.len(), 1);
    let frame: RespFrame = map.into();
    assert_eq!(frame.encode(), b"%1\r\n+k\r\n:2\r\n".to_vec());
}

#[test]
fn test_set_encode() {
    let frame: RespFrame = RespSet::new(vec![
        RespArray::new(vec![1234i64.into(), true.into()]).into(),
        BulkString::new(b"world".to_vec()).into(),
    ])
    .into();
    assert_eq!(
        frame.encode(),
        b"~2\r\n*2\r\n:1234\r\n#t\r\n$5\r\nworld\r\n".to_vec()
    );
}
