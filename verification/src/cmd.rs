//! The command layer: parsing a decoded array frame into a typed command and
//! executing it against the store.  Command names are matched without regard
//! to ASCII case; arity, argument shape and UTF-8 validity are checked before
//! execution, which itself never fails.

use vstd::prelude::*;

use crate::backend::{members_added, members_newly_added, set_at, Backend, StoreView};
use crate::resp::frame::{
    views_of, BulkString, FrameView, RespArray, RespFrame, RespNull, SimpleString,
};
use crate::resp::RespError;
use vstd::utf8::valid_utf8;

verus! {

/// Errors of command parsing.  Parsing is the only place a command can fail:
/// execution itself is total.
#[derive(Debug, PartialEq, Eq, Structural)]
pub enum CommandError {
    /// The frame is not an array, or its first element does not name the
    /// expected command.
    InvalidCommand,
    /// Wrong arity or an argument of the wrong shape.
    InvalidArgument,
    /// A codec error carried through.
    RespError(RespError),
    /// A key, field, member or message that must be text is not UTF-8.
    Utf8Error,
}

/// A byte folded to ASCII lower case.
pub open spec fn ascii_lower_byte(c: u8) -> u8 {
    if 65 <= c <= 90 {
        (c + 32) as u8
    } else {
        c
    }
}

/// A byte string folded to ASCII lower case.
pub open spec fn ascii_lower(b: Seq<u8>) -> Seq<u8> {
    b.map_values(|c: u8| ascii_lower_byte(c))
}

/// True when the frame is a bulk string naming `name`, compared without
/// regard to ASCII case.
pub open spec fn is_cmd_name(v: FrameView, name: Seq<u8>) -> bool {
    v is Bulk && ascii_lower(v->Bulk_0) == name
}

/// True when the frame is a bulk string holding valid UTF-8 text.
pub open spec fn bulk_utf8(v: FrameView) -> bool {
    v is Bulk && valid_utf8(v->Bulk_0)
}

/// The bytes of `get`.
pub open spec fn name_get() -> Seq<u8> {
    seq![103u8, 101u8, 116u8]
}

/// The bytes of `set`.
pub open spec fn name_set() -> Seq<u8> {
    seq![115u8, 101u8, 116u8]
}

/// The bytes of `hget`.
pub open spec fn name_hget() -> Seq<u8> {
    seq![104u8, 103u8, 101u8, 116u8]
}

/// The bytes of `hset`.
pub open spec fn name_hset() -> Seq<u8> {
    seq![104u8, 115u8, 101u8, 116u8]
}

/// The bytes of `hgetall`.
pub open spec fn name_hgetall() -> Seq<u8> {
    seq![104u8, 103u8, 101u8, 116u8, 97u8, 108u8, 108u8]
}

/// The bytes of `hmget`.
pub open spec fn name_hmget() -> Seq<u8> {
    seq![104u8, 109u8, 103u8, 101u8, 116u8]
}

/// The bytes of `sadd`.
pub open spec fn name_sadd() -> Seq<u8> {
    seq![115u8, 97u8, 100u8, 100u8]
}

/// The bytes of `sismember`.
pub open spec fn name_sismember() -> Seq<u8> {
    seq![115u8, 105u8, 115u8, 109u8, 101u8, 109u8, 98u8, 101u8, 114u8]
}

/// The bytes of `echo`.
pub open spec fn name_echo() -> Seq<u8> {
    seq![101u8, 99u8, 104u8, 111u8]
}

/// The `OK` reply.
pub open spec fn ok_reply() -> FrameView {
    FrameView::Simple(seq![79u8, 75u8])
}

/// Build the `+OK` reply frame.
pub(crate) fn resp_ok() -> (r: RespFrame)
    ensures
        r@ == ok_reply(),
{
    let mut v: Vec<u8> = Vec::new();
    v.push(79u8);
    v.push(75u8);
    proof {
        assert(v@ =~= seq![79u8, 75u8]);
    }
    let r = RespFrame::SimpleString(SimpleString(v));
    r
}

/// Relies on core::str::from_utf8: it succeeds exactly on valid UTF-8 input.
#[verifier::external_body]
fn utf8_ok(b: &[u8]) -> (r: bool)
    ensures
        r == valid_utf8(b@),
{
    core::str::from_utf8(b).is_ok()
}

/// Compare `a`, folded to ASCII lower case, against `name`.
fn name_matches(a: &[u8], name: &[u8]) -> (r: bool)
    ensures
        r == (ascii_lower(a@) == name@),
{
    let n = a.len();
    if n != name.len() {
        proof {
            assert(ascii_lower(a@).len() == a@.len());
        }
        return false;
    }
    let mut i: usize = 0;
    while i < n
        invariant
            i <= n,
            n == a@.len(),
            n == name@.len(),
            forall|j: int| 0 <= j < i ==> ascii_lower(a@)[j] == name@[j],
        decreases n - i,
    {
        let c = a[i];
        let lc: u8 = if c >= 65u8 && c <= 90u8 {
            c + 32
        } else {
            c
        };
        proof {
            assert(ascii_lower(a@)[i as int] == ascii_lower_byte(a@[i as int]));
        }
        if lc != name[i] {
            return false;
        }
        i = i + 1;
    }
    proof {
        assert(ascii_lower(a@) =~= name@);
    }
    true
}

/// Check that the array has `n_args` arguments after its name (unless
/// `n_args` is `usize::MAX`, which means any number) and that its first
/// element is a bulk string naming `name`, without regard to ASCII case.
pub fn validate_command(value: &RespArray, name: &[u8], n_args: usize) -> (r: Result<
    (),
    CommandError,
>)
    ensures
        match r {
            Ok(()) => {
                &&& n_args != usize::MAX ==> value@.len() == n_args + 1
                &&& value@.len() >= 1
                &&& is_cmd_name(value@[0], name@)
            },
            Err(CommandError::InvalidArgument) => n_args != usize::MAX && value@.len() != n_args
                + 1,
            Err(CommandError::InvalidCommand) => (n_args == usize::MAX || value@.len() == n_args
                + 1) && (value@.len() < 1 || !is_cmd_name(value@[0], name@)),
            Err(_) => false,
        },
{
    if n_args != usize::MAX && value.0.len() != n_args + 1 {
        return Err(CommandError::InvalidArgument);
    }
    if value.0.len() < 1 {
        return Err(CommandError::InvalidCommand);
    }
    proof {
        assert(value@[0] == value.0@[0]@);
    }
    match &value.0[0] {
        RespFrame::BulkString(b) => {
            if name_matches(b.0.as_slice(), name) {
                Ok(())
            } else {
                Err(CommandError::InvalidCommand)
            }
        },
        _ => Err(CommandError::InvalidCommand),
    }
}

/// The arguments of the array from position `start` on.
pub fn extract_args(value: RespArray, start: usize) -> (r: Result<Vec<RespFrame>, CommandError>)
    ensures
        r is Ok,
        views_of(r->Ok_0@) == if start <= value@.len() {
            value@.skip(start as int)
        } else {
            Seq::<FrameView>::empty()
        },
{
    let mut v = value.0;
    if start >= v.len() {
        proof {
            if start <= v@.len() {
                assert(views_of(Seq::<RespFrame>::empty()) =~= views_of(v@).skip(start as int));
            } else {
                assert(views_of(Seq::<RespFrame>::empty()) =~= Seq::<FrameView>::empty());
            }
        }
        return Ok(Vec::new());
    }
    let ghost orig = v@;
    let tail = v.split_off(start);
    proof {
        assert(views_of(tail@) =~= views_of(orig).skip(start as int));
    }
    Ok(tail)
}

/// The GET command: read one key from the string namespace.
#[derive(Debug)]
pub struct Get {
    pub key: Vec<u8>,
}

/// The SET command: store any frame under one key.
#[derive(Debug)]
pub struct SetCmd {
    pub key: Vec<u8>,
    pub value: RespFrame,
}

/// The HGET command: read one field of one hash.
#[derive(Debug)]
pub struct HGet {
    pub key: Vec<u8>,
    pub field: Vec<u8>,
}

/// The HSET command: write one field of one hash.
#[derive(Debug)]
pub struct HSet {
    pub key: Vec<u8>,
    pub field: Vec<u8>,
    pub value: RespFrame,
}

/// The HGETALL command: snapshot one hash.
#[derive(Debug)]
pub struct HGetAll {
    pub key: Vec<u8>,
}

/// The HMGET command: read several fields of one hash.
#[derive(Debug)]
pub struct HMGet {
    pub key: Vec<u8>,
    pub fields: Vec<Vec<u8>>,
}

/// The SADD command: add members to one set.
#[derive(Debug)]
pub struct SAdd {
    pub key: Vec<u8>,
    pub members: Vec<Vec<u8>>,
}

/// The SISMEMBER command: test one member of one set.
#[derive(Debug)]
pub struct SIsMember {
    pub key: Vec<u8>,
    pub member: Vec<u8>,
}

/// The ECHO command: return its message.
#[derive(Debug)]
pub struct Echo {
    pub message: Vec<u8>,
}

/// Any command whose name is not recognized; it executes to a no-op `OK`.
#[derive(Debug)]
pub struct Unrecognized;

/// The views of a sequence of byte-string arguments.
pub open spec fn arg_views(s: Seq<Vec<u8>>) -> Seq<Seq<u8>> {
    Seq::new(s.len(), |i: int| s[i]@)
}

/// True when every element of `a` from `from` on is a bulk string of valid
/// UTF-8 text.
pub open spec fn all_text(a: Seq<FrameView>, from: int) -> bool {
    forall|i: int| from <= i < a.len() ==> bulk_utf8(#[trigger] a[i])
}

/// What parsing GET from an argument array yields.
pub open spec fn parses_get(a: Seq<FrameView>, r: Result<Get, CommandError>) -> bool {
    match r {
        Ok(c) => a.len() == 2 && is_cmd_name(a[0], name_get()) && bulk_utf8(a[1]) && c.key@
            == a[1]->Bulk_0,
        Err(CommandError::InvalidArgument) => a.len() != 2 || (is_cmd_name(a[0], name_get())
            && !(a[1] is Bulk)),
        Err(CommandError::InvalidCommand) => a.len() == 2 && !is_cmd_name(a[0], name_get()),
        Err(CommandError::Utf8Error) => a.len() == 2 && is_cmd_name(a[0], name_get())
            && a[1] is Bulk && !valid_utf8(a[1]->Bulk_0),
        Err(_) => false,
    }
}

impl Get {
    /// Parse `GET key`.
    pub fn try_from(value: RespArray) -> (r: Result<Get, CommandError>)
        ensures
            parses_get(value@, r),
    {
        let ghost a = value@;
        let mut name: Vec<u8> = Vec::new();
        name.push(103u8);
        name.push(101u8);
        name.push(116u8);
        proof {
            assert(name@ =~= name_get());
        }
        match validate_command(&value, name.as_slice(), 1) {
            Err(e) => {
                return Err(e);
            },
            Ok(()) => {},
        }
        let mut args = match extract_args(value, 1) {
            Ok(v) => v,
            Err(_) => {
                return Err(CommandError::InvalidArgument);
            },
        };
        proof {
            assert(views_of(args@).len() == 1);
            assert(views_of(args@)[0] == a[1]);
            assert(args@[0]@ == a[1]);
        }
        let first = args.remove(0);
        match first {
            RespFrame::BulkString(b) => {
                if utf8_ok(b.0.as_slice()) {
                    Ok(Get { key: b.0 })
                } else {
                    Err(CommandError::Utf8Error)
                }
            },
            _ => Err(CommandError::InvalidArgument),
        }
    }

    /// Run GET: the stored frame, or Null when the key is absent.
    pub fn execute(self, backend: &Backend) -> (r: RespFrame)
        ensures
            r@ == if backend@.strings.dom().contains(self.key@) {
                backend@.strings[self.key@]
            } else {
                FrameView::Null
            },
    {
        match backend.get(&self.key) {
            Some(v) => v,
            None => RespFrame::Null(RespNull),
        }
    }
}

/// What parsing SET from an argument array yields.
pub open spec fn parses_set(a: Seq<FrameView>, r: Result<SetCmd, CommandError>) -> bool {
    match r {
        Ok(c) => a.len() == 3 && is_cmd_name(a[0], name_set()) && bulk_utf8(a[1]) && c.key@
            == a[1]->Bulk_0 && c.value@ == a[2],
        Err(CommandError::InvalidArgument) => a.len() != 3 || (is_cmd_name(a[0], name_set())
            && !(a[1] is Bulk)),
        Err(CommandError::InvalidCommand) => a.len() == 3 && !is_cmd_name(a[0], name_set()),
        Err(CommandError::Utf8Error) => a.len() == 3 && is_cmd_name(a[0], name_set())
            && a[1] is Bulk && !valid_utf8(a[1]->Bulk_0),
        Err(_) => false,
    }
}

impl SetCmd {
    /// Parse `SET key value`.
    pub fn try_from(value: RespArray) -> (r: Result<SetCmd, CommandError>)
        ensures
            parses_set(value@, r),
    {
        let ghost a = value@;
        let mut name: Vec<u8> = Vec::new();
        name.push(115u8);
        name.push(101u8);
        name.push(116u8);
        proof {
            assert(name@ =~= name_set());
        }
        match validate_command(&value, name.as_slice(), 2) {
            Err(e) => {
                return Err(e);
            },
            Ok(()) => {},
        }
        let mut args = match extract_args(value, 1) {
            Ok(v) => v,
            Err(_) => {
                return Err(CommandError::InvalidArgument);
            },
        };
        proof {
            assert(views_of(args@).len() == 2);
            assert(views_of(args@)[0] == a[1]);
            assert(views_of(args@)[1] == a[2]);
            assert(args@[0]@ == a[1]);
            assert(args@[1]@ == a[2]);
        }
        let first = args.remove(0);
        let second = args.remove(0);
        match first {
            RespFrame::BulkString(b) => {
                if utf8_ok(b.0.as_slice()) {
                    Ok(SetCmd { key: b.0, value: second })
                } else {
                    Err(CommandError::Utf8Error)
                }
            },
            _ => Err(CommandError::InvalidArgument),
        }
    }

    /// Run SET: store the value and reply `OK`.
    pub fn execute(self, backend: &mut Backend) -> (r: RespFrame)
        ensures
            final(backend)@.strings == old(backend)@.strings.insert(self.key@, self.value@),
            final(backend)@.hashes == old(backend)@.hashes,
            final(backend)@.sets == old(backend)@.sets,
            r@ == ok_reply(),
    {
        backend.set(self.key, self.value);
        resp_ok()
    }
}

/// What parsing ECHO from an argument array yields.
pub open spec fn parses_echo(a: Seq<FrameView>, r: Result<Echo, CommandError>) -> bool {
    match r {
        Ok(c) => a.len() == 2 && is_cmd_name(a[0], name_echo()) && bulk_utf8(a[1]) && c.message@
            == a[1]->Bulk_0,
        Err(CommandError::InvalidArgument) => a.len() != 2 || (is_cmd_name(a[0], name_echo())
            && !(a[1] is Bulk)),
        Err(CommandError::InvalidCommand) => a.len() == 2 && !is_cmd_name(a[0], name_echo()),
        Err(CommandError::Utf8Error) => a.len() == 2 && is_cmd_name(a[0], name_echo())
            && a[1] is Bulk && !valid_utf8(a[1]->Bulk_0),
        Err(_) => false,
    }
}

impl Echo {
    /// Parse `ECHO message`.
    pub fn try_from(value: RespArray) -> (r: Result<Echo, CommandError>)
        ensures
            parses_echo(value@, r),
    {
        let ghost a = value@;
        let mut name: Vec<u8> = Vec::new();
        name.push(101u8);
        name.push(99u8);
        name.push(104u8);
        name.push(111u8);
        proof {
            assert(name@ =~= name_echo());
        }
        match validate_command(&value, name.as_slice(), 1) {
            Err(e) => {
                return Err(e);
            },
            Ok(()) => {},
        }
        let mut args = match extract_args(value, 1) {
            Ok(v) => v,
            Err(_) => {
                return Err(CommandError::InvalidArgument);
            },
        };
        proof {
            assert(views_of(args@).len() == 1);
            assert(views_of(args@)[0] == a[1]);
            assert(args@[0]@ == a[1]);
        }
        let first = args.remove(0);
        match first {
            RespFrame::BulkString(b) => {
                if utf8_ok(b.0.as_slice()) {
                    Ok(Echo { message: b.0 })
                } else {
                    Err(CommandError::Utf8Error)
                }
            },
            _ => Err(CommandError::InvalidArgument),
        }
    }

    /// Run ECHO: the message comes straight back as a bulk string.
    pub fn execute(self, _backend: &Backend) -> (r: RespFrame)
        ensures
            r@ == FrameView::Bulk(self.message@),
    {
        RespFrame::BulkString(BulkString(self.message))
    }
}

impl Unrecognized {
    /// Any array parses as the no-op command.
    pub fn try_from(_value: RespArray) -> (r: Result<Unrecognized, CommandError>)
        ensures
            r == Ok::<Unrecognized, CommandError>(Unrecognized),
    {
        Ok(Unrecognized)
    }

    /// Run an unrecognized command: a successful no-op.
    pub fn execute(self, _backend: &Backend) -> (r: RespFrame)
        ensures
            r@ == ok_reply(),
    {
        resp_ok()
    }
}
/// What parsing HGET from an argument array yields.
pub open spec fn parses_hget(a: Seq<FrameView>, r: Result<HGet, CommandError>) -> bool {
    match r {
        Ok(c) => a.len() == 3 && is_cmd_name(a[0], name_hget()) && bulk_utf8(a[1]) && bulk_utf8(
            a[2],
        ) && c.key@ == a[1]->Bulk_0 && c.field@ == a[2]->Bulk_0,
        Err(CommandError::InvalidArgument) => a.len() != 3 || (is_cmd_name(a[0], name_hget()) && (
        !(a[1] is Bulk) || !(a[2] is Bulk))),
        Err(CommandError::InvalidCommand) => a.len() == 3 && !is_cmd_name(a[0], name_hget()),
        Err(CommandError::Utf8Error) => a.len() == 3 && is_cmd_name(a[0], name_hget())
            && a[1] is Bulk && a[2] is Bulk && !(valid_utf8(a[1]->Bulk_0) && valid_utf8(
            a[2]->Bulk_0,
        )),
        Err(_) => false,
    }
}

impl HGet {
    /// Parse `HGET key field`.
    pub fn try_from(value: RespArray) -> (r: Result<HGet, CommandError>)
        ensures
            parses_hget(value@, r),
    {
        let ghost a = value@;
        let mut name: Vec<u8> = Vec::new();
        name.push(104u8);
        name.push(103u8);
        name.push(101u8);
        name.push(116u8);
        proof {
            assert(name@ =~= name_hget());
        }
        match validate_command(&value, name.as_slice(), 2) {
            Err(e) => {
                return Err(e);
            },
            Ok(()) => {},
        }
        let mut args = match extract_args(value, 1) {
            Ok(v) => v,
            Err(_) => {
                return Err(CommandError::InvalidArgument);
            },
        };
        proof {
            assert(views_of(args@).len() == 2);
            assert(views_of(args@)[0] == a[1]);
            assert(views_of(args@)[1] == a[2]);
            assert(args@[0]@ == a[1]);
            assert(args@[1]@ == a[2]);
        }
        let first = args.remove(0);
        let second = args.remove(0);
        match (first, second) {
            (RespFrame::BulkString(k), RespFrame::BulkString(f)) => {
                if !utf8_ok(k.0.as_slice()) {
                    return Err(CommandError::Utf8Error);
                }
                if !utf8_ok(f.0.as_slice()) {
                    return Err(CommandError::Utf8Error);
                }
                Ok(HGet { key: k.0, field: f.0 })
            },
            _ => Err(CommandError::InvalidArgument),
        }
    }

    /// Run HGET: the field's frame, or Null when hash or field is absent.
    pub fn execute(self, backend: &Backend) -> (r: RespFrame)
        ensures
            r@ == lookup_hash(backend@, self.key@, self.field@),
    {
        match backend.hget(&self.key, &self.field) {
            Some(v) => v,
            None => RespFrame::Null(RespNull),
        }
    }
}

/// The frame HGET and HMGET produce for one field: the stored frame, or Null
/// when the hash or the field is absent.
pub open spec fn lookup_hash(pre: StoreView, k: Seq<u8>, f: Seq<u8>) -> FrameView {
    if pre.hashes.dom().contains(k) && pre.hashes[k].dom().contains(f) {
        pre.hashes[k][f]
    } else {
        FrameView::Null
    }
}

/// What parsing HSET from an argument array yields.
pub open spec fn parses_hset(a: Seq<FrameView>, r: Result<HSet, CommandError>) -> bool {
    match r {
        Ok(c) => a.len() == 4 && is_cmd_name(a[0], name_hset()) && bulk_utf8(a[1]) && bulk_utf8(
            a[2],
        ) && c.key@ == a[1]->Bulk_0 && c.field@ == a[2]->Bulk_0 && c.value@ == a[3],
        Err(CommandError::InvalidArgument) => a.len() != 4 || (is_cmd_name(a[0], name_hset()) && (
        !(a[1] is Bulk) || !(a[2] is Bulk))),
        Err(CommandError::InvalidCommand) => a.len() == 4 && !is_cmd_name(a[0], name_hset()),
        Err(CommandError::Utf8Error) => a.len() == 4 && is_cmd_name(a[0], name_hset())
            && a[1] is Bulk && a[2] is Bulk && !(valid_utf8(a[1]->Bulk_0) && valid_utf8(
            a[2]->Bulk_0,
        )),
        Err(_) => false,
    }
}

impl HSet {
    /// Parse `HSET key field value`.
    pub fn try_from(value: RespArray) -> (r: Result<HSet, CommandError>)
        ensures
            parses_hset(value@, r),
    {
        let ghost a = value@;
        let mut name: Vec<u8> = Vec::new();
        name.push(104u8);
        name.push(115u8);
        name.push(101u8);
        name.push(116u8);
        proof {
            assert(name@ =~= name_hset());
        }
        match validate_command(&value, name.as_slice(), 3) {
            Err(e) => {
                return Err(e);
            },
            Ok(()) => {},
        }
        let mut args = match extract_args(value, 1) {
            Ok(v) => v,
            Err(_) => {
                return Err(CommandError::InvalidArgument);
            },
        };
        proof {
            assert(views_of(args@).len() == 3);
            assert(views_of(args@)[0] == a[1]);
            assert(views_of(args@)[1] == a[2]);
            assert(views_of(args@)[2] == a[3]);
            assert(args@[0]@ == a[1]);
            assert(args@[1]@ == a[2]);
            assert(args@[2]@ == a[3]);
        }
        let first = args.remove(0);
        let second = args.remove(0);
        let third = args.remove(0);
        match (first, second) {
            (RespFrame::BulkString(k), RespFrame::BulkString(f)) => {
                if !utf8_ok(k.0.as_slice()) {
                    return Err(CommandError::Utf8Error);
                }
                if !utf8_ok(f.0.as_slice()) {
                    return Err(CommandError::Utf8Error);
                }
                Ok(HSet { key: k.0, field: f.0, value: third })
            },
            _ => Err(CommandError::InvalidArgument),
        }
    }

    /// Run HSET: create the hash when absent, write the field, reply `OK`.
    pub fn execute(self, backend: &mut Backend) -> (r: RespFrame)
        ensures
            ({
                let before = old(backend)@.hashes;
                let inner = if before.dom().contains(self.key@) {
                    before[self.key@]
                } else {
                    Map::<Seq<u8>, FrameView>::empty()
                };
                final(backend)@.hashes == before.insert(
                    self.key@,
                    inner.insert(self.field@, self.value@),
                )
            }),
            final(backend)@.strings == old(backend)@.strings,
            final(backend)@.sets == old(backend)@.sets,
            r@ == ok_reply(),
    {
        backend.hset(self.key, self.field, self.value);
        resp_ok()
    }
}

/// What parsing HGETALL from an argument array yields.
pub open spec fn parses_hgetall(a: Seq<FrameView>, r: Result<HGetAll, CommandError>) -> bool {
    match r {
        Ok(c) => a.len() == 2 && is_cmd_name(a[0], name_hgetall()) && bulk_utf8(a[1]) && c.key@
            == a[1]->Bulk_0,
        Err(CommandError::InvalidArgument) => a.len() != 2 || (is_cmd_name(a[0], name_hgetall())
            && !(a[1] is Bulk)),
        Err(CommandError::InvalidCommand) => a.len() == 2 && !is_cmd_name(a[0], name_hgetall()),
        Err(CommandError::Utf8Error) => a.len() == 2 && is_cmd_name(a[0], name_hgetall())
            && a[1] is Bulk && !valid_utf8(a[1]->Bulk_0),
        Err(_) => false,
    }
}

/// The reply HGETALL produces: an array alternating field and value, one
/// pair per field of the hash in unspecified order, empty when the hash does
/// not exist.
pub open spec fn hgetall_out(pre: StoreView, k: Seq<u8>, out: FrameView) -> bool {
    &&& out is Arr
    &&& ({
        let es = out->Arr_0;
        if pre.hashes.dom().contains(k) {
            let inner = pre.hashes[k];
            &&& es.len() % 2 == 0
            &&& forall|i: int|
                0 <= i && 2 * i + 1 < es.len() ==> (#[trigger] es[2 * i]) is Bulk && inner.dom()
                    .contains(es[2 * i]->Bulk_0) && es[2 * i + 1] == inner[es[2 * i]->Bulk_0]
            &&& forall|i: int, j: int|
                0 <= i < j && 2 * j + 1 < es.len() ==> (#[trigger] es[2 * i])->Bulk_0 != (
                #[trigger] es[2 * j])->Bulk_0
            &&& forall|f: Seq<u8>|
                inner.dom().contains(f) ==> exists|i: int|
                    0 <= i && 2 * i + 1 < es.len() && (#[trigger] es[2 * i])->Bulk_0 == f
        } else {
            es.len() == 0
        }
    })
}

impl HGetAll {
    /// Parse `HGETALL key`.
    pub fn try_from(value: RespArray) -> (r: Result<HGetAll, CommandError>)
        ensures
            parses_hgetall(value@, r),
    {
        let ghost a = value@;
        let mut name: Vec<u8> = Vec::new();
        name.push(104u8);
        name.push(103u8);
        name.push(101u8);
        name.push(116u8);
        name.push(97u8);
        name.push(108u8);
        name.push(108u8);
        proof {
            assert(name@ =~= name_hgetall());
        }
        match validate_command(&value, name.as_slice(), 1) {
            Err(e) => {
                return Err(e);
            },
            Ok(()) => {},
        }
        let mut args = match extract_args(value, 1) {
            Ok(v) => v,
            Err(_) => {
                return Err(CommandError::InvalidArgument);
            },
        };
        proof {
            assert(views_of(args@).len() == 1);
            assert(views_of(args@)[0] == a[1]);
            assert(args@[0]@ == a[1]);
        }
        let first = args.remove(0);
        match first {
            RespFrame::BulkString(b) => {
                if utf8_ok(b.0.as_slice()) {
                    Ok(HGetAll { key: b.0 })
                } else {
                    Err(CommandError::Utf8Error)
                }
            },
            _ => Err(CommandError::InvalidArgument),
        }
    }

    /// Run HGETALL: alternating field-value array, empty when absent.
    pub fn execute(self, backend: &Backend) -> (r: RespFrame)
        ensures
            hgetall_out(backend@, self.key@, r@),
    {
        let ghost pre = backend@;
        match backend.hgetall(&self.key) {
            None => {
                let out: Vec<RespFrame> = Vec::new();
                let r = RespFrame::Array(RespArray(out));
                proof {
                    assert(views_of(Seq::<RespFrame>::empty()).len() == 0);
                }
                r
            },
            Some(mut pairs) => {
                let ghost inner = pre.hashes[self.key@];
                let ghost orig = pairs@;
                let mut out: Vec<RespFrame> = Vec::new();
                let mut k: usize = 0;
                let n = pairs.len();
                while k < n
                    invariant
                        k <= n,
                        n == orig.len(),
                        pairs@ == orig.skip(k as int),
                        out@.len() == 2 * k,
                        pre.hashes.dom().contains(self.key@),
                        inner == pre.hashes[self.key@],
                        forall|i: int|
                            0 <= i < orig.len() ==> inner.dom().contains(#[trigger] orig[i].0@)
                                && inner[orig[i].0@] == orig[i].1@,
                        forall|i: int, j: int|
                            0 <= i < j < orig.len() ==> (#[trigger] orig[i].0@) != (
                            #[trigger] orig[j].0@),
                        forall|f: Seq<u8>|
                            inner.dom().contains(f) ==> exists|i: int|
                                0 <= i < orig.len() && (#[trigger] orig[i].0@) == f,
                        forall|i: int|
                            0 <= i < k ==> (#[trigger] out@[2 * i])@ == FrameView::Bulk(
                                orig[i].0@,
                            ) && out@[2 * i + 1]@ == orig[i].1@,
                    decreases n - k,
                {
                    proof {
                        assert(pairs@[0] == orig[k as int]);
                    }
                    let (f, v) = pairs.remove(0);
                    out.push(RespFrame::BulkString(BulkString(f)));
                    out.push(v);
                    k = k + 1;
                }
                let r = RespFrame::Array(RespArray(out));
                proof {
                    let es = views_of(out@);
                    assert forall|i: int| 0 <= i && 2 * i + 1 < es.len() implies (
                    #[trigger] es[2 * i]) is Bulk && inner.dom().contains(es[2 * i]->Bulk_0) && es[2
                        * i + 1] == inner[es[2 * i]->Bulk_0] by {
                        assert(es[2 * i] == out@[2 * i]@);
                        assert(es[2 * i + 1] == out@[2 * i + 1]@);
                    }
                    assert forall|i: int, j: int| 0 <= i < j && 2 * j + 1 < es.len() implies (
                    #[trigger] es[2 * i])->Bulk_0 != (#[trigger] es[2 * j])->Bulk_0 by {
                        assert(es[2 * i] == out@[2 * i]@);
                        assert(es[2 * j] == out@[2 * j]@);
                        assert((orig[i].0@) != (orig[j].0@));
                    }
                    assert forall|f2: Seq<u8>| inner.dom().contains(f2) implies exists|i: int|
                        0 <= i && 2 * i + 1 < es.len() && (#[trigger] es[2 * i])->Bulk_0 == f2 by {
                        let w = choose|w: int|
                            0 <= w < orig.len() && (#[trigger] orig[w].0@) == f2;
                        assert(es[2 * w] == out@[2 * w]@);
                        assert(0 <= w && 2 * w + 1 < es.len() && es[2 * w]->Bulk_0 == f2);
                    }
                }
                r
            },
        }
    }
}
/// Parse a run of text arguments (each a bulk string of valid UTF-8) into
/// owned byte strings.  Which error comes back for a malformed run is decided
/// by its first offending argument.
fn parse_text_args(args: Vec<RespFrame>, ghost_offset: Ghost<int>, ghost_a: Ghost<Seq<FrameView>>) -> (r: Result<
    Vec<Vec<u8>>,
    CommandError,
>)
    requires
        ghost_offset@ >= 0,
        ghost_a@.len() == ghost_offset@ + args@.len(),
        forall|i: int|
            0 <= i < args@.len() ==> (#[trigger] args@[i])@ == ghost_a@[ghost_offset@ + i],
    ensures
        match r {
            Ok(out) => {
                &&& out@.len() == args@.len()
                &&& forall|i: int|
                    ghost_offset@ <= i < ghost_a@.len() ==> bulk_utf8(#[trigger] ghost_a@[i])
                &&& forall|i: int|
                    0 <= i < out@.len() ==> (#[trigger] out@[i])@ == ghost_a@[ghost_offset@
                        + i]->Bulk_0
            },
            Err(CommandError::InvalidArgument) => exists|i: int|
                ghost_offset@ <= i < ghost_a@.len() && !((#[trigger] ghost_a@[i]) is Bulk),
            Err(CommandError::Utf8Error) => exists|i: int|
                ghost_offset@ <= i < ghost_a@.len() && (#[trigger] ghost_a@[i]) is Bulk
                    && !valid_utf8(ghost_a@[i]->Bulk_0),
            Err(_) => false,
        },
{
    let ghost off = ghost_offset@;
    let ghost a = ghost_a@;
    let mut args = args;
    let ghost orig = args@;
    let mut out: Vec<Vec<u8>> = Vec::new();
    let n = args.len();
    let mut k: usize = 0;
    while k < n
        invariant
            k <= n,
            n == orig.len(),
            args@ == orig.skip(k as int),
            out@.len() == k,
            off == ghost_offset@,
            a == ghost_a@,
            off >= 0,
            a.len() == off + orig.len(),
            forall|i: int| 0 <= i < orig.len() ==> (#[trigger] orig[i])@ == a[off + i],
            forall|i: int| off <= i < off + k ==> bulk_utf8(#[trigger] a[i]),
            forall|i: int| 0 <= i < k ==> (#[trigger] out@[i])@ == a[off + i]->Bulk_0,
        decreases n - k,
    {
        proof {
            assert(args@[0] == orig[k as int]);
        }
        let first = args.remove(0);
        match first {
            RespFrame::BulkString(b) => {
                if !utf8_ok(b.0.as_slice()) {
                    proof {
                        assert(a[off + k] is Bulk && !valid_utf8(a[off + k]->Bulk_0));
                    }
                    return Err(CommandError::Utf8Error);
                }
                out.push(b.0);
            },
            _ => {
                proof {
                    assert(!(a[off + k] is Bulk));
                }
                return Err(CommandError::InvalidArgument);
            },
        }
        k = k + 1;
    }
    Ok(out)
}

/// What parsing HMGET from an argument array yields.
pub open spec fn parses_hmget(a: Seq<FrameView>, r: Result<HMGet, CommandError>) -> bool {
    match r {
        Ok(c) => {
            &&& a.len() >= 2
            &&& is_cmd_name(a[0], name_hmget())
            &&& all_text(a, 1)
            &&& c.key@ == a[1]->Bulk_0
            &&& c.fields@.len() == a.len() - 2
            &&& forall|i: int|
                0 <= i < c.fields@.len() ==> (#[trigger] c.fields@[i])@ == a[i + 2]->Bulk_0
        },
        Err(CommandError::InvalidArgument) => a.len() >= 1 && is_cmd_name(a[0], name_hmget()) && (
        a.len() < 2 || exists|i: int| 1 <= i < a.len() && !((#[trigger] a[i]) is Bulk)),
        Err(CommandError::InvalidCommand) => a.len() < 1 || !is_cmd_name(a[0], name_hmget()),
        Err(CommandError::Utf8Error) => a.len() >= 1 && is_cmd_name(a[0], name_hmget()) && exists|
            i: int,
        | 1 <= i < a.len() && (#[trigger] a[i]) is Bulk && !valid_utf8(a[i]->Bulk_0),
        Err(_) => false,
    }
}

impl HMGet {
    /// Parse `HMGET key field...`.
    pub fn try_from(value: RespArray) -> (r: Result<HMGet, CommandError>)
        ensures
            parses_hmget(value@, r),
    {
        let ghost a = value@;
        let mut name: Vec<u8> = Vec::new();
        name.push(104u8);
        name.push(109u8);
        name.push(103u8);
        name.push(101u8);
        name.push(116u8);
        proof {
            assert(name@ =~= name_hmget());
        }
        match validate_command(&value, name.as_slice(), usize::MAX) {
            Err(e) => {
                return Err(e);
            },
            Ok(()) => {},
        }
        if value.0.len() < 2 {
            return Err(CommandError::InvalidArgument);
        }
        let args = match extract_args(value, 1) {
            Ok(v) => v,
            Err(_) => {
                return Err(CommandError::InvalidArgument);
            },
        };
        proof {
            assert(views_of(args@).len() == a.len() - 1);
            assert forall|i: int| 0 <= i < args@.len() implies (#[trigger] args@[i])@ == a[1 + i] by {
                assert(views_of(args@)[i] == args@[i]@);
            }
        }
        let mut data = match parse_text_args(args, Ghost(1int), Ghost(a)) {
            Ok(v) => v,
            Err(e) => {
                return Err(e);
            },
        };
        let key = data.remove(0);
        proof {
            assert(key@ == a[1]->Bulk_0);
            assert forall|i: int| 0 <= i < data@.len() implies (#[trigger] data@[i])@ == a[i
                + 2]->Bulk_0 by {
            }
        }
        Ok(HMGet { key, fields: data })
    }

    /// Run HMGET: one slot per requested field, each the field's frame or
    /// Null, Null throughout when the hash itself is absent.
    pub fn execute(self, backend: &Backend) -> (r: RespFrame)
        ensures
            r@ is Arr,
            r@->Arr_0.len() == self.fields@.len(),
            forall|i: int|
                0 <= i < self.fields@.len() ==> r@->Arr_0[i] == lookup_hash(
                    backend@,
                    self.key@,
                    (#[trigger] self.fields@[i])@,
                ),
    {
        let key = self.key;
        let fields = self.fields;
        let mut out: Vec<RespFrame> = Vec::new();
        let n = fields.len();
        let mut i: usize = 0;
        while i < n
            invariant
                i <= n,
                n == fields@.len(),
                out@.len() == i,
                forall|j: int|
                    0 <= j < i ==> (#[trigger] out@[j])@ == lookup_hash(
                        backend@,
                        key@,
                        fields@[j]@,
                    ),
        decreases n - i,
        {
            match backend.hget(&key, &fields[i]) {
                Some(v) => {
                    out.push(v);
                },
                None => {
                    out.push(RespFrame::Null(RespNull));
                },
            }
            i = i + 1;
        }
        let r = RespFrame::Array(RespArray(out));
        proof {
            assert forall|j: int| 0 <= j < fields@.len() implies r@->Arr_0[j] == lookup_hash(
                backend@,
                key@,
                (#[trigger] fields@[j])@,
            ) by {
                assert(r@->Arr_0[j] == out@[j]@);
            }
        }
        r
    }
}

/// What parsing SADD from an argument array yields.
pub open spec fn parses_sadd(a: Seq<FrameView>, r: Result<SAdd, CommandError>) -> bool {
    match r {
        Ok(c) => {
            &&& a.len() >= 2
            &&& is_cmd_name(a[0], name_sadd())
            &&& all_text(a, 1)
            &&& c.key@ == a[1]->Bulk_0
            &&& c.members@.len() == a.len() - 2
            &&& forall|i: int|
                0 <= i < c.members@.len() ==> (#[trigger] c.members@[i])@ == a[i + 2]->Bulk_0
        },
        Err(CommandError::InvalidArgument) => a.len() >= 1 && is_cmd_name(a[0], name_sadd()) && (
        a.len() < 2 || exists|i: int| 1 <= i < a.len() && !((#[trigger] a[i]) is Bulk)),
        Err(CommandError::InvalidCommand) => a.len() < 1 || !is_cmd_name(a[0], name_sadd()),
        Err(CommandError::Utf8Error) => a.len() >= 1 && is_cmd_name(a[0], name_sadd()) && exists|
            i: int,
        | 1 <= i < a.len() && (#[trigger] a[i]) is Bulk && !valid_utf8(a[i]->Bulk_0),
        Err(_) => false,
    }
}

impl SAdd {
    /// Parse `SADD key member...`.
    pub fn try_from(value: RespArray) -> (r: Result<SAdd, CommandError>)
        ensures
            parses_sadd(value@, r),
            r is Ok ==> r->Ok_0.members@.len() + 2 == value@.len(),
    {
        let ghost a = value@;
        let mut name: Vec<u8> = Vec::new();
        name.push(115u8);
        name.push(97u8);
        name.push(100u8);
        name.push(100u8);
        proof {
            assert(name@ =~= name_sadd());
        }
        match validate_command(&value, name.as_slice(), usize::MAX) {
            Err(e) => {
                return Err(e);
            },
            Ok(()) => {},
        }
        if value.0.len() < 2 {
            return Err(CommandError::InvalidArgument);
        }
        let args = match extract_args(value, 1) {
            Ok(v) => v,
            Err(_) => {
                return Err(CommandError::InvalidArgument);
            },
        };
        proof {
            assert(views_of(args@).len() == a.len() - 1);
            assert forall|i: int| 0 <= i < args@.len() implies (#[trigger] args@[i])@ == a[1 + i] by {
                assert(views_of(args@)[i] == args@[i]@);
            }
        }
        let mut data = match parse_text_args(args, Ghost(1int), Ghost(a)) {
            Ok(v) => v,
            Err(e) => {
                return Err(e);
            },
        };
        let key = data.remove(0);
        proof {
            assert(key@ == a[1]->Bulk_0);
        }
        Ok(SAdd { key, members: data })
    }

    /// Run SADD: add the members in order; the reply counts those that were
    /// newly added.
    pub fn execute(self, backend: &mut Backend) -> (r: RespFrame)
        requires
            self.members@.len() <= i64::MAX,
        ensures
            final(backend)@.sets == old(backend)@.sets.insert(
                self.key@,
                members_added(
                    set_at(old(backend)@, self.key@),
                    crate::backend::key_views(self.members@),
                ),
            ),
            r@ == FrameView::Int(
                members_newly_added(
                    set_at(old(backend)@, self.key@),
                    crate::backend::key_views(self.members@),
                ),
            ),
            final(backend)@.strings == old(backend)@.strings,
            final(backend)@.hashes == old(backend)@.hashes,
    {
        let cnt = backend.sadd(self.key, self.members);
        RespFrame::Integer(cnt)
    }
}

/// What parsing SISMEMBER from an argument array yields.
pub open spec fn parses_sismember(a: Seq<FrameView>, r: Result<SIsMember, CommandError>) -> bool {
    match r {
        Ok(c) => a.len() == 3 && is_cmd_name(a[0], name_sismember()) && bulk_utf8(a[1])
            && bulk_utf8(a[2]) && c.key@ == a[1]->Bulk_0 && c.member@ == a[2]->Bulk_0,
        Err(CommandError::InvalidArgument) => a.len() != 3 || (is_cmd_name(a[0], name_sismember())
            && (!(a[1] is Bulk) || !(a[2] is Bulk))),
        Err(CommandError::InvalidCommand) => a.len() == 3 && !is_cmd_name(a[0], name_sismember()),
        Err(CommandError::Utf8Error) => a.len() == 3 && is_cmd_name(a[0], name_sismember())
            && a[1] is Bulk && a[2] is Bulk && !(valid_utf8(a[1]->Bulk_0) && valid_utf8(
            a[2]->Bulk_0,
        )),
        Err(_) => false,
    }
}

impl SIsMember {
    /// Parse `SISMEMBER key member`.
    pub fn try_from(value: RespArray) -> (r: Result<SIsMember, CommandError>)
        ensures
            parses_sismember(value@, r),
    {
        let ghost a = value@;
        let mut name: Vec<u8> = Vec::new();
        name.push(115u8);
        name.push(105u8);
        name.push(115u8);
        name.push(109u8);
        name.push(101u8);
        name.push(109u8);
        name.push(98u8);
        name.push(101u8);
        name.push(114u8);
        proof {
            assert(name@ =~= name_sismember());
        }
        match validate_command(&value, name.as_slice(), 2) {
            Err(e) => {
                return Err(e);
            },
            Ok(()) => {},
        }
        let mut args = match extract_args(value, 1) {
            Ok(v) => v,
            Err(_) => {
                return Err(CommandError::InvalidArgument);
            },
        };
        proof {
            assert(views_of(args@).len() == 2);
            assert(views_of(args@)[0] == a[1]);
            assert(views_of(args@)[1] == a[2]);
            assert(args@[0]@ == a[1]);
            assert(args@[1]@ == a[2]);
        }
        let first = args.remove(0);
        let second = args.remove(0);
        match (first, second) {
            (RespFrame::BulkString(k), RespFrame::BulkString(m)) => {
                if !utf8_ok(k.0.as_slice()) {
                    return Err(CommandError::Utf8Error);
                }
                if !utf8_ok(m.0.as_slice()) {
                    return Err(CommandError::Utf8Error);
                }
                Ok(SIsMember { key: k.0, member: m.0 })
            },
            _ => Err(CommandError::InvalidArgument),
        }
    }

    /// Run SISMEMBER: integer one when the set exists and holds the member,
    /// integer zero otherwise.
    pub fn execute(self, backend: &Backend) -> (r: RespFrame)
        ensures
            r@ == FrameView::Int(
                if backend@.sets.dom().contains(self.key@) && backend@.sets[self.key@].contains(
                    self.member@,
                ) {
                    1int
                } else {
                    0int
                },
            ),
    {
        if backend.sismember(&self.key, &self.member) {
            RespFrame::Integer(1)
        } else {
            RespFrame::Integer(0)
        }
    }
}
/// One parsed command, ready to execute.
#[derive(Debug)]
pub enum Command {
    Get(Get),
    SetCmd(SetCmd),
    HGet(HGet),
    HSet(HSet),
    HGetAll(HGetAll),
    Echo(Echo),
    HMGet(HMGet),
    SAdd(SAdd),
    SIsMember(SIsMember),
    Unrecognized(Unrecognized),
}

/// What parsing a whole command from an argument array yields: dispatch on
/// the case-folded name, falling back to the recognized no-op.
pub open spec fn parses_command(a: Seq<FrameView>, r: Result<Command, CommandError>) -> bool {
    if a.len() < 1 || !(a[0] is Bulk) {
        r == Err::<Command, CommandError>(CommandError::InvalidCommand)
    } else {
        let nm = ascii_lower(a[0]->Bulk_0);
        if nm == name_get() {
            match r {
                Ok(Command::Get(c)) => parses_get(a, Ok(c)),
                Err(e) => parses_get(a, Err(e)),
                _ => false,
            }
        } else if nm == name_set() {
            match r {
                Ok(Command::SetCmd(c)) => parses_set(a, Ok(c)),
                Err(e) => parses_set(a, Err(e)),
                _ => false,
            }
        } else if nm == name_hget() {
            match r {
                Ok(Command::HGet(c)) => parses_hget(a, Ok(c)),
                Err(e) => parses_hget(a, Err(e)),
                _ => false,
            }
        } else if nm == name_hset() {
            match r {
                Ok(Command::HSet(c)) => parses_hset(a, Ok(c)),
                Err(e) => parses_hset(a, Err(e)),
                _ => false,
            }
        } else if nm == name_hgetall() {
            match r {
                Ok(Command::HGetAll(c)) => parses_hgetall(a, Ok(c)),
                Err(e) => parses_hgetall(a, Err(e)),
                _ => false,
            }
        } else if nm == name_echo() {
            match r {
                Ok(Command::Echo(c)) => parses_echo(a, Ok(c)),
                Err(e) => parses_echo(a, Err(e)),
                _ => false,
            }
        } else if nm == name_hmget() {
            match r {
                Ok(Command::HMGet(c)) => parses_hmget(a, Ok(c)),
                Err(e) => parses_hmget(a, Err(e)),
                _ => false,
            }
        } else if nm == name_sadd() {
            match r {
                Ok(Command::SAdd(c)) => parses_sadd(a, Ok(c)) && c.members.len() + 2 == a.len(),
                Err(e) => parses_sadd(a, Err(e)),
                _ => false,
            }
        } else if nm == name_sismember() {
            match r {
                Ok(Command::SIsMember(c)) => parses_sismember(a, Ok(c)),
                Err(e) => parses_sismember(a, Err(e)),
                _ => false,
            }
        } else {
            r == Ok::<Command, CommandError>(Command::Unrecognized(Unrecognized))
        }
    }
}

/// Whether the array's first element is a bulk string whose case-folded text
/// is `name`.
fn first_name_is(value: &RespArray, name: &[u8]) -> (r: bool)
    requires
        value@.len() >= 1,
    ensures
        r == is_cmd_name(value@[0], name@),
{
    proof {
        assert(value@[0] == value.0@[0]@);
    }
    match &value.0[0] {
        RespFrame::BulkString(b) => name_matches(b.0.as_slice(), name),
        _ => false,
    }
}

impl Command {
    /// No command touches more arguments than its vector can hold; only SADD
    /// carries a count that must fit the reply integer.
    pub open spec fn bounded(self) -> bool {
        match self {
            Command::SAdd(c) => c.members@.len() <= i64::MAX,
            _ => true,
        }
    }

    /// Parse an array frame into a typed command, dispatching on the
    /// case-folded name; an unknown name parses as the no-op command.
    pub fn try_from_array(value: RespArray) -> (r: Result<Command, CommandError>)
        ensures
            parses_command(value@, r),
            r is Ok && value@.len() <= i64::MAX ==> r->Ok_0.bounded(),
    {
        let ghost a = value@;
        if value.0.len() < 1 {
            return Err(CommandError::InvalidCommand);
        }
        let first_bulk: bool = match &value.0[0] {
            RespFrame::BulkString(_) => true,
            _ => false,
        };
        proof {
            assert(value@[0] == value.0@[0]@);
        }
        if !first_bulk {
            return Err(CommandError::InvalidCommand);
        }
        let mut n_get: Vec<u8> = Vec::new();
        n_get.push(103u8);
        n_get.push(101u8);
        n_get.push(116u8);
        let mut n_set: Vec<u8> = Vec::new();
        n_set.push(115u8);
        n_set.push(101u8);
        n_set.push(116u8);
        let mut n_hget: Vec<u8> = Vec::new();
        n_hget.push(104u8);
        n_hget.push(103u8);
        n_hget.push(101u8);
        n_hget.push(116u8);
        let mut n_hset: Vec<u8> = Vec::new();
        n_hset.push(104u8);
        n_hset.push(115u8);
        n_hset.push(101u8);
        n_hset.push(116u8);
        let mut n_hgetall: Vec<u8> = Vec::new();
        n_hgetall.push(104u8);
        n_hgetall.push(103u8);
        n_hgetall.push(101u8);
        n_hgetall.push(116u8);
        n_hgetall.push(97u8);
        n_hgetall.push(108u8);
        n_hgetall.push(108u8);
        let mut n_echo: Vec<u8> = Vec::new();
        n_echo.push(101u8);
        n_echo.push(99u8);
        n_echo.push(104u8);
        n_echo.push(111u8);
        let mut n_hmget: Vec<u8> = Vec::new();
        n_hmget.push(104u8);
        n_hmget.push(109u8);
        n_hmget.push(103u8);
        n_hmget.push(101u8);
        n_hmget.push(116u8);
        let mut n_sadd: Vec<u8> = Vec::new();
        n_sadd.push(115u8);
        n_sadd.push(97u8);
        n_sadd.push(100u8);
        n_sadd.push(100u8);
        let mut n_sismember: Vec<u8> = Vec::new();
        n_sismember.push(115u8);
        n_sismember.push(105u8);
        n_sismember.push(115u8);
        n_sismember.push(109u8);
        n_sismember.push(101u8);
        n_sismember.push(109u8);
        n_sismember.push(98u8);
        n_sismember.push(101u8);
        n_sismember.push(114u8);
        proof {
            assert(n_get@ =~= name_get());
            assert(n_set@ =~= name_set());
            assert(n_hget@ =~= name_hget());
            assert(n_hset@ =~= name_hset());
            assert(n_hgetall@ =~= name_hgetall());
            assert(n_echo@ =~= name_echo());
            assert(n_hmget@ =~= name_hmget());
            assert(n_sadd@ =~= name_sadd());
            assert(n_sismember@ =~= name_sismember());
        }
        if first_name_is(&value, n_get.as_slice()) {
            match Get::try_from(value) {
                Ok(c) => Ok(Command::Get(c)),
                Err(e) => Err(e),
            }
        } else if first_name_is(&value, n_set.as_slice()) {
            match SetCmd::try_from(value) {
                Ok(c) => Ok(Command::SetCmd(c)),
                Err(e) => Err(e),
            }
        } else if first_name_is(&value, n_hget.as_slice()) {
            match HGet::try_from(value) {
                Ok(c) => Ok(Command::HGet(c)),
                Err(e) => Err(e),
            }
        } else if first_name_is(&value, n_hset.as_slice()) {
            match HSet::try_from(value) {
                Ok(c) => Ok(Command::HSet(c)),
                Err(e) => Err(e),
            }
        } else if first_name_is(&value, n_hgetall.as_slice()) {
            match HGetAll::try_from(value) {
                Ok(c) => Ok(Command::HGetAll(c)),
                Err(e) => Err(e),
            }
        } else if first_name_is(&value, n_echo.as_slice()) {
            match Echo::try_from(value) {
                Ok(c) => Ok(Command::Echo(c)),
                Err(e) => Err(e),
            }
        } else if first_name_is(&value, n_hmget.as_slice()) {
            match HMGet::try_from(value) {
                Ok(c) => Ok(Command::HMGet(c)),
                Err(e) => Err(e),
            }
        } else if first_name_is(&value, n_sadd.as_slice()) {
            match SAdd::try_from(value) {
                Ok(c) => Ok(Command::SAdd(c)),
                Err(e) => Err(e),
            }
        } else if first_name_is(&value, n_sismember.as_slice()) {
            match SIsMember::try_from(value) {
                Ok(c) => Ok(Command::SIsMember(c)),
                Err(e) => Err(e),
            }
        } else {
            match Unrecognized::try_from(value) {
                Ok(c) => Ok(Command::Unrecognized(c)),
                Err(e) => Err(e),
            }
        }
    }

    /// Parse any frame into a command: only arrays can carry one.
    pub fn try_from(frame: RespFrame) -> (r: Result<Command, CommandError>)
        ensures
            match frame@ {
                FrameView::Arr(es) => parses_command(es, r),
                _ => r == Err::<Command, CommandError>(CommandError::InvalidCommand),
            },
            (r is Ok && (frame@ matches FrameView::Arr(es) && es.len() <= i64::MAX))
                ==> r->Ok_0.bounded(),
    {
        match frame {
            RespFrame::Array(arr) => Command::try_from_array(arr),
            _ => Err(CommandError::InvalidCommand),
        }
    }

    /// What executing a command does: how the store after relates to the
    /// store before, and which reply frame comes back.
    pub open spec fn exec_post(
        self,
        pre: StoreView,
        post: StoreView,
        out: FrameView,
    ) -> bool {
        match self {
            Command::Get(c) => post == pre && out == (if pre.strings.dom().contains(c.key@) {
                pre.strings[c.key@]
            } else {
                FrameView::Null
            }),
            Command::SetCmd(c) => {
                &&& post.strings == pre.strings.insert(c.key@, c.value@)
                &&& post.hashes == pre.hashes
                &&& post.sets == pre.sets
                &&& out == ok_reply()
            },
            Command::HGet(c) => post == pre && out == lookup_hash(pre, c.key@, c.field@),
            Command::HSet(c) => {
                let inner = if pre.hashes.dom().contains(c.key@) {
                    pre.hashes[c.key@]
                } else {
                    Map::<Seq<u8>, FrameView>::empty()
                };
                &&& post.hashes == pre.hashes.insert(c.key@, inner.insert(c.field@, c.value@))
                &&& post.strings == pre.strings
                &&& post.sets == pre.sets
                &&& out == ok_reply()
            },
            Command::HGetAll(c) => post == pre && hgetall_out(pre, c.key@, out),
            Command::Echo(c) => post == pre && out == FrameView::Bulk(c.message@),
            Command::HMGet(c) => {
                &&& post == pre
                &&& out is Arr
                &&& out->Arr_0.len() == c.fields@.len()
                &&& forall|i: int|
                    0 <= i < c.fields@.len() ==> out->Arr_0[i] == lookup_hash(
                        pre,
                        c.key@,
                        (#[trigger] c.fields@[i])@,
                    )
            },
            Command::SAdd(c) => {
                &&& post.sets == pre.sets.insert(
                    c.key@,
                    members_added(set_at(pre, c.key@), crate::backend::key_views(c.members@)),
                )
                &&& post.strings == pre.strings
                &&& post.hashes == pre.hashes
                &&& out == FrameView::Int(
                    members_newly_added(
                        set_at(pre, c.key@),
                        crate::backend::key_views(c.members@),
                    ),
                )
            },
            Command::SIsMember(c) => post == pre && out == FrameView::Int(
                if pre.sets.dom().contains(c.key@) && pre.sets[c.key@].contains(c.member@) {
                    1int
                } else {
                    0int
                },
            ),
            Command::Unrecognized(_) => post == pre && out == ok_reply(),
        }
    }

    /// Execute the command against the store, producing its reply frame.
    /// Execution never fails: missing keys produce Null, empty sets zero.
    pub fn execute(self, backend: &mut Backend) -> (r: RespFrame)
        requires
            self.bounded(),
        ensures
            self.exec_post(old(backend)@, final(backend)@, r@),
    {
        match self {
            Command::Get(c) => c.execute(&*backend),
            Command::SetCmd(c) => c.execute(backend),
            Command::HGet(c) => c.execute(&*backend),
            Command::HSet(c) => c.execute(backend),
            Command::HGetAll(c) => c.execute(&*backend),
            Command::Echo(c) => c.execute(&*backend),
            Command::HMGet(c) => c.execute(&*backend),
            Command::SAdd(c) => c.execute(backend),
            Command::SIsMember(c) => c.execute(&*backend),
            Command::Unrecognized(c) => c.execute(&*backend),
        }
    }
}
impl Command {
    /// Whether executing this command reads or writes the store at key `k`.
    /// ECHO and unrecognized commands touch no key at all.
    pub open spec fn touches(self, k: Seq<u8>) -> bool {
        match self {
            Command::Get(c) => k == c.key@,
            Command::SetCmd(c) => k == c.key@,
            Command::HGet(c) => k == c.key@,
            Command::HSet(c) => k == c.key@,
            Command::HGetAll(c) => k == c.key@,
            Command::Echo(_) => false,
            Command::HMGet(c) => k == c.key@,
            Command::SAdd(c) => k == c.key@,
            Command::SIsMember(c) => k == c.key@,
            Command::Unrecognized(_) => false,
        }
    }
}

/// True when the two store views agree at key `k` in all three namespaces:
/// the key exists in the one exactly when it exists in the other, with the
/// same contents.
pub open spec fn agree_at(v1: StoreView, v2: StoreView, k: Seq<u8>) -> bool {
    &&& v1.strings.dom().contains(k) <==> v2.strings.dom().contains(k)
    &&& v1.strings.dom().contains(k) ==> v1.strings[k] == v2.strings[k]
    &&& v1.hashes.dom().contains(k) <==> v2.hashes.dom().contains(k)
    &&& v1.hashes.dom().contains(k) ==> v1.hashes[k] == v2.hashes[k]
    &&& v1.sets.dom().contains(k) <==> v2.sets.dom().contains(k)
    &&& v1.sets.dom().contains(k) ==> v1.sets[k] == v2.sets[k]
}

/// Law: a command leaves every key it does not touch exactly as it was, in
/// all three namespaces.  Together with the store applying each operation
/// atomically, this is what makes the operations on any one key read as a
/// serial history: commands on other keys cannot interfere with it.
pub proof fn lemma_execute_touches_only_its_key(
    cmd: Command,
    pre: StoreView,
    post: StoreView,
    out: FrameView,
    k: Seq<u8>,
)
    requires
        cmd.exec_post(pre, post, out),
        !cmd.touches(k),
    ensures
        agree_at(post, pre, k),
{
    match cmd {
        Command::SetCmd(c) => {
            assert(post.strings == pre.strings.insert(c.key@, c.value@));
            assert(c.key@ != k);
        },
        Command::HSet(c) => {
            assert(c.key@ != k);
        },
        Command::SAdd(c) => {
            assert(c.key@ != k);
        },
        _ => {},
    }
}
} // verus!
