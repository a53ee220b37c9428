//! The encoder: the exact bytes of every frame shape, and the verified
//! executable encoder proved to produce them.

use vstd::prelude::*;

use crate::resp::frame::{
    views_of, BulkString, FrameView, RespArray, RespFrame, RespMap, RespNull, RespNullArray,
    RespNullBulkString, RespSet, SimpleError, SimpleString,
};
use crate::resp::integer::{enc_int, push_int, push_uint};
use crate::resp::RespEncode;

verus! {

/// The two-byte CRLF line terminator.
pub open spec fn crlf() -> Seq<u8> {
    seq![13u8, 10u8]
}

/// One line-delimited frame: `<prefix><payload>\r\n`.
pub open spec fn enc_line(prefix: u8, s: Seq<u8>) -> Seq<u8> {
    seq![prefix] + s + crlf()
}

/// An aggregate or bulk header: `<prefix><decimal n>\r\n`.
pub open spec fn enc_header(prefix: u8, n: int) -> Seq<u8> {
    seq![prefix] + enc_int(n) + crlf()
}

/// The exact wire bytes of a frame.
pub open spec fn enc_frame(v: FrameView) -> Seq<u8>
    decreases v,
{
    match v {
        FrameView::Simple(s) => enc_line(43u8, s),
        FrameView::Error(s) => enc_line(45u8, s),
        FrameView::Int(n) => enc_line(58u8, enc_int(n)),
        FrameView::Bulk(b) => enc_header(36u8, b.len() as int) + b + crlf(),
        FrameView::Arr(es) => enc_header(42u8, es.len() as int) + enc_elems(es),
        FrameView::Null => seq![95u8, 13u8, 10u8],
        FrameView::Bool(b) => seq![35u8, if b { 116u8 } else { 102u8 }, 13u8, 10u8],
        FrameView::Double(t) => enc_line(44u8, t),
        FrameView::MapF(ps) => enc_header(37u8, ps.len() as int) + enc_pairs(ps),
        FrameView::SetF(es) => enc_header(126u8, es.len() as int) + enc_elems(es),
    }
}

/// The concatenated wire bytes of a run of frames.
pub open spec fn enc_elems(es: Seq<FrameView>) -> Seq<u8>
    decreases es,
{
    if es.len() == 0 {
        Seq::empty()
    } else {
        enc_frame(es[0]) + enc_elems(es.subrange(1, es.len() as int))
    }
}

/// The concatenated wire bytes of a run of map entries: each key as a simple
/// string, then its value.
pub open spec fn enc_pairs(ps: Seq<(Seq<u8>, FrameView)>) -> Seq<u8>
    decreases ps,
{
    if ps.len() == 0 {
        Seq::empty()
    } else {
        enc_line(43u8, ps[0].0) + enc_frame(ps[0].1) + enc_pairs(ps.subrange(1, ps.len() as int))
    }
}

/// Encoding one more element appends its bytes.
pub proof fn lemma_enc_elems_snoc(es: Seq<FrameView>, i: int)
    requires
        0 <= i < es.len(),
    ensures
        enc_elems(es.take(i + 1)) == enc_elems(es.take(i)) + enc_frame(es[i]),
    decreases i,
{
    if i == 0 {
        reveal_with_fuel(enc_elems, 2);
        assert(es.take(1).subrange(1, 1) =~= Seq::<FrameView>::empty());
        assert(es.take(1)[0] == es[0]);
        assert(es.take(0) =~= Seq::<FrameView>::empty());
        assert(enc_elems(es.take(1)) =~= enc_frame(es[0]));
        assert(enc_elems(es.take(0)) + enc_frame(es[0]) =~= enc_frame(es[0]));
    } else {
        let tail = es.subrange(1, es.len() as int);
        lemma_enc_elems_snoc(tail, i - 1);
        assert(es.take(i + 1).subrange(1, i + 1) =~= tail.take(i));
        assert(es.take(i).subrange(1, i) =~= tail.take(i - 1));
        assert(es.take(i + 1)[0] == es[0]);
        assert(es.take(i)[0] == es[0]);
        assert(tail[i - 1] == es[i]);
        assert(enc_elems(es.take(i + 1)) == enc_frame(es[0]) + (enc_elems(tail.take(i - 1))
            + enc_frame(es[i])));
        assert(enc_frame(es[0]) + (enc_elems(tail.take(i - 1)) + enc_frame(es[i])) =~= (enc_frame(
            es[0],
        ) + enc_elems(tail.take(i - 1))) + enc_frame(es[i]));
    }
}

/// Encoding one more entry appends its bytes.
pub proof fn lemma_enc_pairs_snoc(ps: Seq<(Seq<u8>, FrameView)>, i: int)
    requires
        0 <= i < ps.len(),
    ensures
        enc_pairs(ps.take(i + 1)) == enc_pairs(ps.take(i)) + (enc_line(43u8, ps[i].0) + enc_frame(
            ps[i].1,
        )),
    decreases i,
{
    let piece = enc_line(43u8, ps[i].0) + enc_frame(ps[i].1);
    if i == 0 {
        reveal_with_fuel(enc_pairs, 2);
        assert(ps.take(1).subrange(1, 1) =~= Seq::<(Seq<u8>, FrameView)>::empty());
        assert(ps.take(1)[0] == ps[0]);
        assert(ps.take(0) =~= Seq::<(Seq<u8>, FrameView)>::empty());
        assert(enc_pairs(ps.take(1)) =~= piece);
        assert(enc_pairs(ps.take(0)) + piece =~= piece);
    } else {
        let tail = ps.subrange(1, ps.len() as int);
        lemma_enc_pairs_snoc(tail, i - 1);
        assert(ps.take(i + 1).subrange(1, i + 1) =~= tail.take(i));
        assert(ps.take(i).subrange(1, i) =~= tail.take(i - 1));
        assert(ps.take(i + 1)[0] == ps[0]);
        assert(ps.take(i)[0] == ps[0]);
        assert(tail[i - 1] == ps[i]);
        let head = enc_line(43u8, ps[0].0) + enc_frame(ps[0].1);
        assert(enc_pairs(ps.take(i + 1)) == head + (enc_pairs(tail.take(i - 1)) + piece));
        assert(head + (enc_pairs(tail.take(i - 1)) + piece) =~= (head + enc_pairs(tail.take(i - 1)))
            + piece);
    }
}

/// Append a byte slice to the output vector.
pub(crate) fn push_bytes(out: &mut Vec<u8>, data: &[u8])
    ensures
        final(out)@ == old(out)@ + data@,
{
    out.extend_from_slice(data);
    proof {
        assert(final(out)@ =~= old(out)@ + data@);
    }
}

/// Append the CRLF line terminator.
pub(crate) fn push_crlf(out: &mut Vec<u8>)
    ensures
        final(out)@ == old(out)@ + crlf(),
{
    out.push(13u8);
    out.push(10u8);
    proof {
        assert(final(out)@ =~= old(out)@ + crlf());
    }
}

/// Append the wire bytes of one frame to `out`.
pub(crate) fn encode_frame_into(f: &RespFrame, out: &mut Vec<u8>)
    ensures
        final(out)@ == old(out)@ + enc_frame(f@),
    decreases f,
{
    match f {
        RespFrame::SimpleString(s) => {
            out.push(43u8);
            push_bytes(out, s.0.as_slice());
            push_crlf(out);
            proof {
                assert(final(out)@ =~= old(out)@ + enc_frame(f@));
            }
        },
        RespFrame::Error(s) => {
            out.push(45u8);
            push_bytes(out, s.0.as_slice());
            push_crlf(out);
            proof {
                assert(final(out)@ =~= old(out)@ + enc_frame(f@));
            }
        },
        RespFrame::Integer(n) => {
            out.push(58u8);
            push_int(*n, out);
            push_crlf(out);
            proof {
                assert(final(out)@ =~= old(out)@ + enc_frame(f@));
            }
        },
        RespFrame::BulkString(b) => {
            out.push(36u8);
            push_uint(b.0.len() as u64, out);
            push_crlf(out);
            push_bytes(out, b.0.as_slice());
            push_crlf(out);
            proof {
                assert(enc_int(b.0@.len() as int) == crate::resp::integer::dec_digits(
                    b.0@.len() as nat,
                ));
                assert(final(out)@ =~= old(out)@ + enc_frame(f@));
            }
        },
        RespFrame::Array(a) => {
            out.push(42u8);
            push_uint(a.0.len() as u64, out);
            push_crlf(out);
            encode_elems_into(&a.0, out);
            proof {
                assert(enc_int(a.0@.len() as int) == crate::resp::integer::dec_digits(
                    a.0@.len() as nat,
                ));
                assert(f@ == FrameView::Arr(views_of(a.0@)));
                assert(views_of(a.0@).len() == a.0@.len());
                assert(final(out)@ =~= old(out)@ + enc_frame(f@));
            }
        },
        RespFrame::Null(_) => {
            out.push(95u8);
            push_crlf(out);
            proof {
                assert(final(out)@ =~= old(out)@ + enc_frame(f@));
            }
        },
        RespFrame::Boolean(b) => {
            out.push(35u8);
            if *b {
                out.push(116u8);
            } else {
                out.push(102u8);
            }
            push_crlf(out);
            proof {
                assert(final(out)@ =~= old(out)@ + enc_frame(f@));
            }
        },
        RespFrame::Double(t) => {
            out.push(44u8);
            push_bytes(out, t.as_slice());
            push_crlf(out);
            proof {
                assert(final(out)@ =~= old(out)@ + enc_frame(f@));
            }
        },
        RespFrame::MapFrame(m) => {
            out.push(37u8);
            push_uint(m.0.len() as u64, out);
            push_crlf(out);
            encode_pairs_into(&m.0, out);
            proof {
                assert(enc_int(m.0@.len() as int) == crate::resp::integer::dec_digits(
                    m.0@.len() as nat,
                ));
                assert(final(out)@ =~= old(out)@ + enc_frame(f@));
            }
        },
        RespFrame::SetFrame(s) => {
            out.push(126u8);
            push_uint(s.0.len() as u64, out);
            push_crlf(out);
            encode_elems_into(&s.0, out);
            proof {
                assert(enc_int(s.0@.len() as int) == crate::resp::integer::dec_digits(
                    s.0@.len() as nat,
                ));
                assert(final(out)@ =~= old(out)@ + enc_frame(f@));
            }
        },
    }
}

/// Append the wire bytes of every frame in `v`, in order.
pub(crate) fn encode_elems_into(v: &Vec<RespFrame>, out: &mut Vec<u8>)
    ensures
        final(out)@ == old(out)@ + enc_elems(views_of(v@)),
    decreases v,
{
    let ghost es = views_of(v@);
    let n = v.len();
    let mut i: usize = 0;
    proof {
        assert(es.take(0) =~= Seq::<FrameView>::empty());
        assert(old(out)@ + enc_elems(es.take(0)) =~= old(out)@);
    }
    while i < n
        invariant
            i <= n,
            n == v@.len(),
            es == views_of(v@),
            es.len() == n,
            out@ == old(out)@ + enc_elems(es.take(i as int)),
        decreases n - i,
    {
        proof {
            assert(decreases_to!(v => v@[i as int]));
        }
        encode_frame_into(&v[i], out);
        proof {
            assert(es[i as int] == v@[i as int]@);
            lemma_enc_elems_snoc(es, i as int);
            assert(old(out)@ + enc_elems(es.take(i as int)) + enc_frame(es[i as int]) =~= old(out)@
                + enc_elems(es.take(i as int + 1)));
        }
        i = i + 1;
    }
    proof {
        assert(es.take(n as int) =~= es);
    }
}

/// Append the wire bytes of every entry in `v`, in order: the key as a simple
/// string, then the value.
pub(crate) fn encode_pairs_into(v: &Vec<(Vec<u8>, RespFrame)>, out: &mut Vec<u8>)
    ensures
        final(out)@ == old(out)@ + enc_pairs(crate::resp::frame::pair_views_of(v@)),
    decreases v,
{
    let ghost ps = crate::resp::frame::pair_views_of(v@);
    let n = v.len();
    let mut i: usize = 0;
    proof {
        assert(ps.take(0) =~= Seq::<(Seq<u8>, FrameView)>::empty());
        assert(old(out)@ + enc_pairs(ps.take(0)) =~= old(out)@);
    }
    while i < n
        invariant
            i <= n,
            n == v@.len(),
            ps == crate::resp::frame::pair_views_of(v@),
            ps.len() == n,
            out@ == old(out)@ + enc_pairs(ps.take(i as int)),
        decreases n - i,
    {
        out.push(43u8);
        push_bytes(out, v[i].0.as_slice());
        push_crlf(out);
        proof {
            assert(decreases_to!(v => v@[i as int]));
        }
        encode_frame_into(&v[i].1, out);
        proof {
            assert(ps[i as int] == (v@[i as int].0@, v@[i as int].1@));
            lemma_enc_pairs_snoc(ps, i as int);
            assert(old(out)@ + enc_pairs(ps.take(i as int)) + (seq![43u8] + v@[i as int].0@ + crlf()
                + enc_frame(v@[i as int].1@)) =~= out@);
            assert(enc_pairs(ps.take(i as int)) + (enc_line(43u8, ps[i as int].0) + enc_frame(
                ps[i as int].1,
            )) =~= enc_pairs(ps.take(i as int)) + (seq![43u8] + v@[i as int].0@ + crlf() + enc_frame(
                v@[i as int].1@,
            )));
            assert(out@ =~= old(out)@ + enc_pairs(ps.take(i as int + 1)));
        }
        i = i + 1;
    }
    proof {
        assert(ps.take(n as int) =~= ps);
    }
}

impl RespEncode for SimpleString {
    open spec fn spec_encode(self) -> Seq<u8> {
        enc_line(43u8, self@)
    }

    fn encode(self) -> (r: Vec<u8>) {
        let mut out: Vec<u8> = Vec::new();
        out.push(43u8);
        push_bytes(&mut out, self.0.as_slice());
        push_crlf(&mut out);
        proof {
            assert(out@ =~= self.spec_encode());
        }
        out
    }
}

impl RespEncode for SimpleError {
    open spec fn spec_encode(self) -> Seq<u8> {
        enc_line(45u8, self@)
    }

    fn encode(self) -> (r: Vec<u8>) {
        let mut out: Vec<u8> = Vec::new();
        out.push(45u8);
        push_bytes(&mut out, self.0.as_slice());
        push_crlf(&mut out);
        proof {
            assert(out@ =~= self.spec_encode());
        }
        out
    }
}

impl RespEncode for i64 {
    open spec fn spec_encode(self) -> Seq<u8> {
        enc_line(58u8, enc_int(self as int))
    }

    fn encode(self) -> (r: Vec<u8>) {
        let mut out: Vec<u8> = Vec::new();
        out.push(58u8);
        push_int(self, &mut out);
        push_crlf(&mut out);
        proof {
            assert(out@ =~= self.spec_encode());
        }
        out
    }
}

impl RespEncode for bool {
    open spec fn spec_encode(self) -> Seq<u8> {
        seq![35u8, if self { 116u8 } else { 102u8 }, 13u8, 10u8]
    }

    fn encode(self) -> (r: Vec<u8>) {
        let mut out: Vec<u8> = Vec::new();
        out.push(35u8);
        if self {
            out.push(116u8);
        } else {
            out.push(102u8);
        }
        push_crlf(&mut out);
        proof {
            assert(out@ =~= self.spec_encode());
        }
        out
    }
}

impl RespEncode for RespNull {
    open spec fn spec_encode(self) -> Seq<u8> {
        seq![95u8, 13u8, 10u8]
    }

    fn encode(self) -> (r: Vec<u8>) {
        let mut out: Vec<u8> = Vec::new();
        out.push(95u8);
        push_crlf(&mut out);
        proof {
            assert(out@ =~= self.spec_encode());
        }
        out
    }
}

impl RespEncode for RespNullBulkString {
    open spec fn spec_encode(self) -> Seq<u8> {
        seq![36u8, 45u8, 49u8, 13u8, 10u8]
    }

    fn encode(self) -> (r: Vec<u8>) {
        let mut out: Vec<u8> = Vec::new();
        out.push(36u8);
        out.push(45u8);
        out.push(49u8);
        push_crlf(&mut out);
        proof {
            assert(out@ =~= self.spec_encode());
        }
        out
    }
}

impl RespEncode for RespNullArray {
    open spec fn spec_encode(self) -> Seq<u8> {
        seq![42u8, 45u8, 49u8, 13u8, 10u8]
    }

    fn encode(self) -> (r: Vec<u8>) {
        let mut out: Vec<u8> = Vec::new();
        out.push(42u8);
        out.push(45u8);
        out.push(49u8);
        push_crlf(&mut out);
        proof {
            assert(out@ =~= self.spec_encode());
        }
        out
    }
}

impl RespEncode for BulkString {
    open spec fn spec_encode(self) -> Seq<u8> {
        enc_frame(FrameView::Bulk(self@))
    }

    fn encode(self) -> (r: Vec<u8>) {
        let mut out: Vec<u8> = Vec::new();
        let f = RespFrame::BulkString(self);
        encode_frame_into(&f, &mut out);
        out
    }
}

impl RespEncode for RespArray {
    open spec fn spec_encode(self) -> Seq<u8> {
        enc_frame(FrameView::Arr(self@))
    }

    fn encode(self) -> (r: Vec<u8>) {
        let mut out: Vec<u8> = Vec::new();
        let f = RespFrame::Array(self);
        encode_frame_into(&f, &mut out);
        out
    }
}

impl RespEncode for RespMap {
    open spec fn spec_encode(self) -> Seq<u8> {
        enc_frame(FrameView::MapF(self@))
    }

    fn encode(self) -> (r: Vec<u8>) {
        let mut out: Vec<u8> = Vec::new();
        let f = RespFrame::MapFrame(self);
        encode_frame_into(&f, &mut out);
        out
    }
}

impl RespEncode for RespSet {
    open spec fn spec_encode(self) -> Seq<u8> {
        enc_frame(FrameView::SetF(self@))
    }

    fn encode(self) -> (r: Vec<u8>) {
        let mut out: Vec<u8> = Vec::new();
        let f = RespFrame::SetFrame(self);
        encode_frame_into(&f, &mut out);
        out
    }
}

impl RespEncode for RespFrame {
    open spec fn spec_encode(self) -> Seq<u8> {
        enc_frame(self@)
    }

    fn encode(self) -> (r: Vec<u8>) {
        let mut out: Vec<u8> = Vec::new();
        encode_frame_into(&self, &mut out);
        out
    }
}

} // verus!
