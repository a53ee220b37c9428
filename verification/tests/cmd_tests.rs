use bytes::BytesMut;
use simple_redis::{
    Backend, BulkString, Command, CommandError, Echo, Get, RespArray, RespDecode, RespFrame,
    SAdd, SetCmd, SimpleString, Unrecognized,
};

fn ok_frame() -> RespFrame {
    SimpleString::new(b"OK".to_vec()).into()
}

#[test]
fn test_echo_from_resp_array() {
    let mut buf = BytesMut::new();
    buf.extend_from_slice(b"*2\r\n$4\r\necho\r\n$5\r\nhello\r\n");

    let frame = RespArray::decode(&mut buf).unwrap();

    let result = Echo::try_from(frame).unwrap();
    assert_eq!(result.message, b"hello".to_vec());
}

#[test]
fn test_echo_command() {
    let command = Echo::try_from(RespArray::new(vec![
        BulkString::new(b"echo".to_vec()).into(),
        BulkString::new(b"hello".to_vec()).into(),
    ]))
    .unwrap();
    assert_eq!(command.message, b"hello".to_vec());

    let backend = Backend::new();
    let result = command.execute(&backend);
    assert_eq!(result, RespFrame::BulkString(BulkString::new(b"hello".to_vec())));
}

#[test]
fn test_get_from_resp_array() {
    let mut buf = BytesMut::new();
    buf.extend_from_slice(b"*2\r\n$3\r\nget\r\n$5\r\nhello\r\n");

    let frame = RespArray::decode(&mut buf).unwrap();

    let result = Get::try_from(frame).unwrap();
    assert_eq!(result.key, b"hello".to_vec());
}

#[test]
fn test_set_from_resp_array() {
    let mut buf = BytesMut::new();
    buf.extend_from_slice(b"*3\r\n$3\r\nset\r\n$5\r\nhello\r\n$5\r\nworld\r\n");

    let frame = RespArray::decode(&mut buf).unwrap();

    let result = SetCmd::try_from(frame).unwrap();
    assert_eq!(result.key, b"hello".to_vec());
    assert_eq!(result.value, RespFrame::BulkString(BulkString::new(b"world".to_vec())));
}

#[test]
fn test_sadd_from_resp_array() {
    let mut buf = BytesMut::new();
    buf.extend_from_slice(b"*4\r\n$4\r\nsadd\r\n$3\r\nset\r\n$5\r\nhello\r\n$5\r\nworld\r\n");

    let frame = RespArray::decode(&mut buf).unwrap();

    let result = SAdd::try_from(frame).unwrap();
    assert_eq!(result.key, b"set".to_vec());
    assert_eq!(result.members, vec![b"hello".to_vec(), b"world".to_vec()]);
}

#[test]
fn test_sadd_command() {
    let mut backend = Backend::new();
    let cmd = SAdd {
        key: b"set".to_vec(),
        members: vec![b"hello".to_vec(), b"world".to_vec()],
    };
    let frame = cmd.execute(&mut backend);
    assert_eq!(frame, RespFrame::Integer(2));
}

#[test]
fn test_unrecognized_command() {
    let mut buf = BytesMut::new();
    buf.extend_from_slice(b"*1\r\n$3\r\nfoo\r\n");

    let frame = RespArray::decode(&mut buf).unwrap();

    let result = Unrecognized::try_from(frame).unwrap();
    assert_eq!(result.execute(&Backend::new()), ok_frame());
}

#[test]
fn test_command_dispatch_case_insensitive() {
    let frame: RespFrame = RespArray::new(vec![
        BulkString::new(b"GeT".to_vec()).into(),
        BulkString::new(b"k".to_vec()).into(),
    ])
    .into();
    let mut backend = Backend::new();
    let cmd = Command::try_from(frame).unwrap();
    let reply = cmd.execute(&mut backend);
    assert_eq!(reply, RespFrame::Null(simple_redis::RespNull));
}

#[test]
fn test_command_must_be_array() {
    let frame: RespFrame = 1i64.into();
    assert_eq!(
        Command::try_from(frame).unwrap_err(),
        CommandError::InvalidCommand
    );
}

#[test]
fn test_command_arity_and_shape_errors() {
    // wrong arity for GET
    let frame = RespArray::new(vec![BulkString::new(b"get".to_vec()).into()]);
    assert_eq!(Get::try_from(frame).unwrap_err(), CommandError::InvalidArgument);

    // wrong name for GET
    let frame = RespArray::new(vec![
        BulkString::new(b"got".to_vec()).into(),
        BulkString::new(b"k".to_vec()).into(),
    ]);
    assert_eq!(Get::try_from(frame).unwrap_err(), CommandError::InvalidCommand);

    // key must be a bulk string
    let frame = RespArray::new(vec![
        BulkString::new(b"get".to_vec()).into(),
        1i64.into(),
    ]);
    assert_eq!(Get::try_from(frame).unwrap_err(), CommandError::InvalidArgument);

    // key must be UTF-8
    let frame = RespArray::new(vec![
        BulkString::new(b"get".to_vec()).into(),
        BulkString::new(vec![0xffu8, 0xfe]).into(),
    ]);
    assert_eq!(Get::try_from(frame).unwrap_err(), CommandError::Utf8Error);
}

#[test]
fn test_hash_commands() {
    let mut backend = Backend::new();
    let hset: RespFrame = RespArray::new(vec![
        BulkString::new(b"hset".to_vec()).into(),
        BulkString::new(b"h".to_vec()).into(),
        BulkString::new(b"f".to_vec()).into(),
        BulkString::new(b"v".to_vec()).into(),
    ])
    .into();
    let cmd = Command::try_from(hset).unwrap();
    assert_eq!(cmd.execute(&mut backend), ok_frame());

    let hget: RespFrame = RespArray::new(vec![
        BulkString::new(b"hget".to_vec()).into(),
        BulkString::new(b"h".to_vec()).into(),
        BulkString::new(b"f".to_vec()).into(),
    ])
    .into();
    let cmd = Command::try_from(hget).unwrap();
    assert_eq!(
        cmd.execute(&mut backend),
        RespFrame::BulkString(BulkString::new(b"v".to_vec()))
    );

    let hgetall: RespFrame = RespArray::new(vec![
        BulkString::new(b"hgetall".to_vec()).into(),
        BulkString::new(b"h".to_vec()).into(),
    ])
    .into();
    let cmd = Command::try_from(hgetall).unwrap();
    let reply = cmd.execute(&mut backend);
    assert_eq!(
        reply,
        RespArray::new(vec![
            BulkString::new(b"f".to_vec()).into(),
            BulkString::new(b"v".to_vec()).into(),
        ])
        .into()
    );

    let hmget: RespFrame = RespArray::new(vec![
        BulkString::new(b"hmget".to_vec()).into(),
        BulkString::new(b"h".to_vec()).into(),
        BulkString::new(b"f".to_vec()).into(),
        BulkString::new(b"missing".to_vec()).into(),
    ])
    .into();
    let cmd = Command::try_from(hmget).unwrap();
    let reply = cmd.execute(&mut backend);
    assert_eq!(
        reply,
        RespArray::new(vec![
            BulkString::new(b"v".to_vec()).into(),
            RespFrame::Null(simple_redis::RespNull),
        ])
        .into()
    );

    // HMGET on an entirely absent hash: one Null per requested field
    let hmget: RespFrame = RespArray::new(vec![
        BulkString::new(b"hmget".to_vec()).into(),
        BulkString::new(b"nohash".to_vec()).into(),
        BulkString::new(b"a".to_vec()).into(),
        BulkString::new(b"b".to_vec()).into(),
    ])
    .into();
    let cmd = Command::try_from(hmget).unwrap();
    let reply = cmd.execute(&mut backend);
    assert_eq!(
        reply,
        RespArray::new(vec![
            RespFrame::Null(simple_redis::RespNull),
            RespFrame::Null(simple_redis::RespNull),
        ])
        .into()
    );
}

#[test]
fn test_sadd_idempotent_and_sismember() {
    let mut backend = Backend::new();
    let sadd = |backend: &mut Backend| {
        let frame: RespFrame = RespArray::new(vec![
            BulkString::new(b"sadd".to_vec()).into(),
            BulkString::new(b"k".to_vec()).into(),
            BulkString::new(b"m".to_vec()).into(),
        ])
        .into();
        Command::try_from(frame).unwrap().execute(backend)
    };
    let sismember = |backend: &mut Backend| {
        let frame: RespFrame = RespArray::new(vec![
            BulkString::new(b"sismember".to_vec()).into(),
            BulkString::new(b"k".to_vec()).into(),
            BulkString::new(b"m".to_vec()).into(),
        ])
        .into();
        Command::try_from(frame).unwrap().execute(backend)
    };
    assert_eq!(sadd(&mut backend), RespFrame::Integer(1));
    assert_eq!(sismember(&mut backend), RespFrame::Integer(1));
    assert_eq!(sadd(&mut backend), RespFrame::Integer(0));
    assert_eq!(sismember(&mut backend), RespFrame::Integer(1));
}

#[test]
fn test_store_namespaces_are_disjoint() {
    let mut backend = Backend::new();
    backend.set(b"k".to_vec(), RespFrame::Integer(1));
    backend.hset(b"k".to_vec(), b"f".to_vec(), RespFrame::Integer(2));
    let added = backend.sadd(b"k".to_vec(), vec![b"m".to_vec()]);
    assert_eq!(added, 1);
    assert_eq!(backend.get(&b"k".to_vec()), Some(RespFrame::Integer(1)));
    assert_eq!(
        backend.hget(&b"k".to_vec(), &b"f".to_vec()),
        Some(RespFrame::Integer(2))
    );
    assert!(backend.sismember(&b"k".to_vec(), &b"m".to_vec()));
}

#[test]
fn test_sadd_with_no_members_creates_the_set() {
    let mut backend = Backend::new();
    assert_eq!(backend.sadd(b"e".to_vec(), vec![]), 0);
    assert!(!backend.sismember(&b"e".to_vec(), &b"m".to_vec()));
    assert_eq!(backend.sadd(b"e".to_vec(), vec![b"m".to_vec()]), 1);
    assert!(backend.sismember(&b"e".to_vec(), &b"m".to_vec()));
}

#[test]
fn test_hmget_try_from_requires_fields() {
    let frame = RespArray::new(vec![BulkString::new(b"hmget".to_vec()).into()]);
    assert_eq!(
        simple_redis::HMGet::try_from(frame).unwrap_err(),
        CommandError::InvalidArgument
    );
}
