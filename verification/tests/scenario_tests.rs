//! End-to-end request handling: bytes in, command through the store, bytes
//! out, exactly as one connection would see them.

use bytes::BytesMut;
use simple_redis::{Backend, Command, RespDecode, RespEncode, RespFrame};

fn handle(backend: &mut Backend, request: &[u8]) -> Vec<u8> {
    let mut buf = BytesMut::new();
    buf.extend_from_slice(request);
    let frame = RespFrame::decode(&mut buf).unwrap();
    assert_eq!(buf.len(), 0);
    let cmd = Command::try_from(frame).unwrap();
    let reply = cmd.execute(backend);
    reply.encode()
}

#[test]
fn scenario_get_on_empty_store() {
    let mut backend = Backend::new();
    let out = handle(&mut backend, b"*2\r\n$3\r\nget\r\n$5\r\nhello\r\n");
    assert_eq!(out, b"_\r\n".to_vec());
}

#[test]
fn scenario_set_then_get() {
    let mut backend = Backend::new();
    let out = handle(
        &mut backend,
        b"*3\r\n$3\r\nset\r\n$5\r\nhello\r\n$5\r\nworld\r\n",
    );
    assert_eq!(out, b"+OK\r\n".to_vec());
    let out = handle(&mut backend, b"*2\r\n$3\r\nget\r\n$5\r\nhello\r\n");
    assert_eq!(out, b"$5\r\nworld\r\n".to_vec());
}

#[test]
fn scenario_hset_then_hget() {
    let mut backend = Backend::new();
    let out = handle(
        &mut backend,
        b"*4\r\n$4\r\nhset\r\n$1\r\nh\r\n$1\r\nf\r\n$1\r\nv\r\n",
    );
    assert_eq!(out, b"+OK\r\n".to_vec());
    let out = handle(&mut backend, b"*3\r\n$4\r\nhget\r\n$1\r\nh\r\n$1\r\nf\r\n");
    assert_eq!(out, b"$1\r\nv\r\n".to_vec());
}

#[test]
fn scenario_sadd_twice() {
    let mut backend = Backend::new();
    let req = b"*4\r\n$4\r\nsadd\r\n$1\r\ns\r\n$1\r\na\r\n$1\r\nb\r\n";
    let out = handle(&mut backend, req);
    assert_eq!(out, b":2\r\n".to_vec());
    let out = handle(&mut backend, req);
    assert_eq!(out, b":0\r\n".to_vec());
}

#[test]
fn scenario_echo() {
    let mut backend = Backend::new();
    let out = handle(&mut backend, b"*2\r\n$4\r\necho\r\n$5\r\nhello\r\n");
    assert_eq!(out, b"$5\r\nhello\r\n".to_vec());
}

#[test]
fn scenario_unknown_command() {
    let mut backend = Backend::new();
    let out = handle(&mut backend, b"*1\r\n$3\r\nfoo\r\n");
    assert_eq!(out, b"+OK\r\n".to_vec());
}

#[test]
fn scenario_incomplete_request_keeps_buffer() {
    let mut buf = BytesMut::new();
    buf.extend_from_slice(b"*2\r\n$3\r\nget");
    let r = RespFrame::decode(&mut buf);
    assert!(r.is_err());
    assert_eq!(&buf[..], b"*2\r\n$3\r\nget");
}
