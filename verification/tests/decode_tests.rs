use bytes::BytesMut;
use simple_redis::resp::decode::{calc_total_length, find_crlf, parse_length};
use simple_redis::{
    BulkString, RespArray, RespDecode, RespEncode, RespError, RespFrame, RespMap, RespNull,
    RespSet, SimpleError, SimpleString,
};

#[test]
fn test_resp_frame_decode() {
    let mut buf = BytesMut::new();
    buf.extend_from_slice(b"+OK\r\n");
    let frame = RespFrame::decode(&mut buf).unwrap();
    assert_eq!(frame, SimpleString::new(b"OK".to_vec()).into());

    buf.extend_from_slice(b"-Error message\r\n");
    let frame = RespFrame::decode(&mut buf).unwrap();
    assert_eq!(frame, SimpleError::new(b"Error message".to_vec()).into());

    buf.extend_from_slice(b":1000\r\n");
    let frame = RespFrame::decode(&mut buf).unwrap();
    assert_eq!(frame, 1000i64.into());

    buf.extend_from_slice(b"$5\r\nhello\r\n");
    let frame = RespFrame::decode(&mut buf).unwrap();
    assert_eq!(frame, BulkString::new(b"hello".to_vec()).into());

    buf.extend_from_slice(b"$-1\r\n");
    let frame = RespFrame::decode(&mut buf).unwrap();
    assert_eq!(frame, BulkString::new(vec![]).into());

    buf.extend_from_slice(b"*2\r\n$4\r\necho\r\n$5\r\nhello\r\n");
    let frame = RespFrame::decode(&mut buf).unwrap();
    assert_eq!(
        frame,
        RespArray::new(vec![
            BulkString::new(b"echo".to_vec()).into(),
            BulkString::new(b"hello".to_vec()).into()
        ])
        .into()
    );

    buf.extend_from_slice(b"*-1\r\n");
    let frame = RespFrame::decode(&mut buf).unwrap();
    assert_eq!(frame, RespArray::new(vec![]).into());

    buf.extend_from_slice(b"_\r\n");
    let frame = RespFrame::decode(&mut buf).unwrap();
    assert_eq!(frame, RespNull.into());

    buf.extend_from_slice(b"#t\r\n");
    let frame = RespFrame::decode(&mut buf).unwrap();
    assert_eq!(frame, true.into());

    buf.extend_from_slice(b"#f\r\n");
    let frame = RespFrame::decode(&mut buf).unwrap();
    assert_eq!(frame, false.into());

    buf.extend_from_slice(b",1.23\r\n");
    let frame = RespFrame::decode(&mut buf).unwrap();
    assert_eq!(frame, RespFrame::Double(b"1.23".to_vec()));

    buf.extend_from_slice(b"%2\r\n+hello\r\n$5\r\nworld\r\n+foo\r\n$3\r\nbar\r\n");
    let frame = RespMap::decode(&mut buf).unwrap();
    let mut map = RespMap::new();
    map.insert(
        b"hello".to_vec(),
        BulkString::new(b"world".to_vec()).into(),
    );
    map.insert(b"foo".to_vec(), BulkString::new(b"bar".to_vec()).into());
    assert_eq!(frame, map);
}

#[test]
fn test_integer_decode() {
    let mut buf = BytesMut::new();
    buf.extend_from_slice(b":123\r\n");

    let frame = i64::decode(&mut buf).unwrap();
    assert_eq!(frame, 123);

    buf.extend_from_slice(b":-123\r\n");

    let frame = i64::decode(&mut buf).unwrap();
    assert_eq!(frame, -123);
}

#[test]
fn test_calc_array_length() {
    let buf = b"*2\r\n$3\r\nset\r\n$5\r\nhello\r\n";
    let (end, len) = parse_length(buf, b"*").unwrap();
    let total_len = calc_total_length(buf, end, len, b"*").unwrap();
    assert_eq!(total_len, buf.len());

    let buf = b"*2\r\n$3\r\nset\r\n";
    let (end, len) = parse_length(buf, b"*").unwrap();
    let ret = calc_total_length(buf, end, len, b"*");
    assert_eq!(ret.unwrap_err(), RespError::NotComplete);
}

#[test]
fn test_incomplete_leaves_buffer_untouched() {
    let mut buf = BytesMut::new();
    buf.extend_from_slice(b"*2\r\n$3\r\nget");
    let r = RespFrame::decode(&mut buf);
    assert_eq!(r.unwrap_err(), RespError::NotComplete);
    assert_eq!(&buf[..], b"*2\r\n$3\r\nget");
}

#[test]
fn test_incremental_decode_bytewise() {
    let encoded = RespFrame::from(RespArray::new(vec![
        BulkString::new(b"get".to_vec()).into(),
        BulkString::new(b"hello".to_vec()).into(),
    ]))
    .encode();
    let mut buf = BytesMut::new();
    for (i, b) in encoded.iter().enumerate() {
        buf.extend_from_slice(&[*b]);
        if i + 1 < encoded.len() {
            assert_eq!(RespFrame::decode(&mut buf).unwrap_err(), RespError::NotComplete);
            assert_eq!(buf.len(), i + 1);
        }
    }
    let frame = RespFrame::decode(&mut buf).unwrap();
    assert_eq!(
        frame,
        RespArray::new(vec![
            BulkString::new(b"get".to_vec()).into(),
            BulkString::new(b"hello".to_vec()).into(),
        ])
        .into()
    );
    assert_eq!(buf.len(), 0);
}

#[test]
fn test_expect_length() {
    let buf = b"$5\r\nhello\r\n";
    assert_eq!(RespFrame::expect_length(buf).unwrap(), buf.len());
    assert_eq!(BulkString::expect_length(buf).unwrap(), buf.len());

    let buf = b"*2\r\n$4\r\necho\r\n$5\r\nhello\r\n";
    assert_eq!(RespFrame::expect_length(buf).unwrap(), buf.len());
    assert_eq!(RespArray::expect_length(buf).unwrap(), buf.len());

    // every strict prefix of the frame reports "not complete"
    for i in 0..buf.len() {
        assert_eq!(
            RespFrame::expect_length(&buf[..i]).unwrap_err(),
            RespError::NotComplete
        );
    }
}

#[test]
fn test_round_trip_all_shapes() {
    let mut map = RespMap::new();
    map.insert(b"a".to_vec(), 1i64.into());
    map.insert(b"b".to_vec(), BulkString::new(b"x".to_vec()).into());
    let frames: Vec<RespFrame> = vec![
        SimpleString::new(b"OK".to_vec()).into(),
        SimpleError::new(b"bad".to_vec()).into(),
        (-42i64).into(),
        BulkString::new(b"bytes".to_vec()).into(),
        RespArray::new(vec![1i64.into(), true.into()]).into(),
        RespNull.into(),
        false.into(),
        RespFrame::Double(b"3.25".to_vec()),
        map.into(),
        RespSet::new(vec![2i64.into()]).into(),
    ];
    for f in frames {
        let expected = f.clone();
        let encoded = f.encode();
        let mut buf = BytesMut::new();
        buf.extend_from_slice(&encoded);
        let decoded = RespFrame::decode(&mut buf).unwrap();
        assert_eq!(decoded, expected);
        assert_eq!(buf.len(), 0);
    }
}

#[test]
fn test_decode_errors() {
    let mut buf = BytesMut::new();
    buf.extend_from_slice(b"!oops\r\n");
    assert_eq!(
        RespFrame::decode(&mut buf).unwrap_err(),
        RespError::InvalidFrameType
    );

    let mut buf = BytesMut::new();
    buf.extend_from_slice(b":12a\r\n");
    assert_eq!(
        RespFrame::decode(&mut buf).unwrap_err(),
        RespError::ParseIntError
    );

    let mut buf = BytesMut::new();
    buf.extend_from_slice(b"$-2\r\n");
    assert_eq!(
        RespFrame::decode(&mut buf).unwrap_err(),
        RespError::InvalidFrameLength(-2)
    );

    let mut buf = BytesMut::new();
    buf.extend_from_slice(b"$3\r\nabcX\n");
    assert_eq!(
        RespFrame::decode(&mut buf).unwrap_err(),
        RespError::InvalidFrameLength(3)
    );

    let mut buf = BytesMut::new();
    buf.extend_from_slice(b",nan\r\n");
    assert_eq!(
        RespFrame::decode(&mut buf).unwrap_err(),
        RespError::ParseFloatError
    );
}

#[test]
fn test_find_crlf() {
    let buf = b"+ab\r\ncd\r\n";
    assert_eq!(find_crlf(buf, 1), Some(3));
    assert_eq!(find_crlf(buf, 2), Some(7));
    assert_eq!(find_crlf(buf, 3), None);
    assert_eq!(find_crlf(b"+ab", 1), None);
}

#[test]
fn test_typed_decode() {
    let mut buf = BytesMut::new();
    buf.extend_from_slice(b"+OK\r\n");
    assert_eq!(
        SimpleString::decode(&mut buf).unwrap(),
        SimpleString::new(b"OK".to_vec())
    );

    buf.extend_from_slice(b"-bad\r\n");
    assert_eq!(
        SimpleError::decode(&mut buf).unwrap(),
        SimpleError::new(b"bad".to_vec())
    );

    buf.extend_from_slice(b"$2\r\nhi\r\n");
    assert_eq!(
        BulkString::decode(&mut buf).unwrap(),
        BulkString::new(b"hi".to_vec())
    );

    buf.extend_from_slice(b"_\r\n");
    assert_eq!(RespNull::decode(&mut buf).unwrap(), RespNull);

    buf.extend_from_slice(b"#t\r\n");
    assert!(bool::decode(&mut buf).unwrap());

    buf.extend_from_slice(b"~1\r\n:7\r\n");
    let set = RespSet::decode(&mut buf).unwrap();
    assert_eq!(set, RespSet::new(vec![7i64.into()]));

    // a typed decoder refuses a frame of another shape without consuming it
    buf.extend_from_slice(b":1\r\n");
    assert_eq!(
        RespArray::decode(&mut buf).unwrap_err(),
        RespError::InvalidFrameType
    );
    assert_eq!(&buf[..], b":1\r\n");
    assert_eq!(i64::decode(&mut buf).unwrap(), 1);
}
