//! The laws of the codec: encoding a well-formed frame and decoding the
//! result gives back exactly that frame, whatever bytes follow; and every
//! strict prefix of an encoded frame reports "not complete".

use vstd::prelude::*;

use crate::resp::decode::{
    find_crlf_at, fold_map, line_end, sp_elems, sp_entries, sp_frame, sp_len_entries,
    sp_len_frame, sp_len_items, sp_line_len, sp_simple, ElemsParsed, LenParsed, PairsParsed,
    Parsed,
};
use crate::resp::encode::{crlf, enc_elems, enc_frame, enc_header, enc_line, enc_pairs};
use crate::resp::frame::{
    entries_sorted, line_safe, lemma_map_insert_at, map_insert, bytes_lt, FrameView,
};
use crate::resp::integer::{
    enc_int, lemma_dec_digits_shape, lemma_enc_int_line_safe, lemma_parse_enc_int, parse_i64,
};
use crate::resp::RespError;

verus! {

/// When no CRLF pair starts at or after `i`, the scan finds nothing.
proof fn lemma_crlf_none(b: Seq<u8>, i: int)
    requires
        forall|j: int| i <= j && j + 1 < b.len() ==> !(b[j] == 13u8 && #[trigger] b[j + 1] == 10u8),
    ensures
        find_crlf_at(b, i, 1) is None,
    decreases b.len() - i,
{
    if !(i < 0 || i + 1 >= b.len()) {
        lemma_crlf_none(b, i + 1);
    }
}

/// When the first CRLF pair at or after `i` starts at `e`, the scan finds it.
proof fn lemma_crlf_first(b: Seq<u8>, i: int, e: int)
    requires
        0 <= i <= e,
        e + 1 < b.len(),
        b[e] == 13u8,
        b[e + 1] == 10u8,
        forall|j: int| i <= j < e ==> !(b[j] == 13u8 && #[trigger] b[j + 1] == 10u8),
    ensures
        find_crlf_at(b, i, 1) == Some(e),
    decreases e - i,
{
    if i < e {
        lemma_crlf_first(b, i + 1, e);
    }
}

/// The terminator of an encoded line `<prefix><payload>\r\n` is found exactly
/// at the end of the payload, whatever bytes follow.
proof fn lemma_line_end_encoded(c: u8, s: Seq<u8>, tail: Seq<u8>)
    requires
        line_safe(s),
    ensures
        line_end(enc_line(c, s) + tail) == Some(1 + s.len() as int),
{
    let b = enc_line(c, s) + tail;
    let e = 1 + s.len() as int;
    assert(b[e] == 13u8);
    assert(b[e + 1] == 10u8);
    assert forall|j: int| 1 <= j < e implies !(b[j] == 13u8 && #[trigger] b[j + 1] == 10u8) by {
        assert(b[j] == s[j - 1]);
    }
    lemma_crlf_first(b, 1, e);
}

/// Every encoded frame is at least three bytes long.
pub proof fn lemma_enc_frame_len(v: FrameView)
    ensures
        enc_frame(v).len() >= 3,
{
    match v {
        FrameView::Int(n) => {
            lemma_int_digits_len(n);
        },
        FrameView::Bulk(b) => {
            lemma_int_digits_len(b.len() as int);
        },
        FrameView::Arr(es) => {
            lemma_int_digits_len(es.len() as int);
        },
        FrameView::MapF(ps) => {
            lemma_int_digits_len(ps.len() as int);
        },
        FrameView::SetF(es) => {
            lemma_int_digits_len(es.len() as int);
        },
        _ => {},
    }
}

/// The wire text of an integer is non-empty.
proof fn lemma_int_digits_len(n: int)
    ensures
        enc_int(n).len() >= 1,
{
    if n < 0 {
        lemma_dec_digits_shape((-n) as nat);
    } else {
        lemma_dec_digits_shape(n as nat);
    }
}

/// The header digits of an encoded aggregate or bulk frame hold no CR or LF,
/// so its count line ends exactly where the count text does.
proof fn lemma_header_line_end(c: u8, n: int, rest: Seq<u8>, tail: Seq<u8>)
    ensures
        line_end(enc_header(c, n) + rest + tail) == Some(1 + enc_int(n).len() as int),
        (enc_header(c, n) + rest + tail).subrange(1, 1 + enc_int(n).len() as int) == enc_int(n),
{
    lemma_enc_int_line_safe(n);
    assert(enc_header(c, n) + rest + tail =~= enc_line(c, enc_int(n)) + (rest + tail));
    lemma_line_end_encoded(c, enc_int(n), rest + tail);
    let b = enc_header(c, n) + rest + tail;
    let e = 1 + enc_int(n).len() as int;
    assert(b.subrange(1, e) =~= enc_int(n));
}

/// Law: decoding the encoding of a well-formed frame yields exactly that
/// frame and consumes exactly its bytes, whatever bytes follow.
pub proof fn lemma_encode_decode_round_trip(v: FrameView, tail: Seq<u8>)
    requires
        v.wf(),
    ensures
        sp_frame(enc_frame(v) + tail) == Parsed::Got(v, enc_frame(v).len() as int),
    decreases v, 1int,
{
    let b = enc_frame(v) + tail;
    lemma_enc_frame_len(v);
    match v {
        FrameView::Simple(s) => {
            lemma_line_end_encoded(43u8, s, tail);
            assert(b.subrange(1, 1 + s.len() as int) =~= s);
        },
        FrameView::Error(s) => {
            lemma_line_end_encoded(45u8, s, tail);
            assert(b.subrange(1, 1 + s.len() as int) =~= s);
        },
        FrameView::Int(n) => {
            lemma_enc_int_line_safe(n);
            lemma_line_end_encoded(58u8, enc_int(n), tail);
            assert(b.subrange(1, 1 + enc_int(n).len() as int) =~= enc_int(n));
            lemma_parse_enc_int(n);
        },
        FrameView::Double(t) => {
            lemma_line_end_encoded(44u8, t, tail);
            assert(b.subrange(1, 1 + t.len() as int) =~= t);
        },
        FrameView::Null => {
            assert(b[0] == 95u8 && b[1] == 13u8 && b[2] == 10u8);
        },
        FrameView::Bool(x) => {
            assert(b[0] == 35u8);
            assert(b[1] == (if x { 116u8 } else { 102u8 }));
            assert(b[2] == 13u8 && b[3] == 10u8);
        },
        FrameView::Bulk(data) => {
            lemma_round_trip_bulk(data, tail);
        },
        FrameView::Arr(es) => {
            lemma_round_trip_agg(es, tail, 42u8);
        },
        FrameView::SetF(es) => {
            lemma_round_trip_agg(es, tail, 126u8);
        },
        FrameView::MapF(ps) => {
            assert forall|i: int| 0 <= i < ps.len() implies line_safe(#[trigger] ps[i].0) && (
            ps[i].1).wf() by {
                assert(line_safe(ps[i].0));
                assert(((ps[i]).1).wf());
            }
            lemma_round_trip_map(ps, tail);
        },
    }
}

/// Round trip for a bulk string frame.
proof fn lemma_round_trip_bulk(data: Seq<u8>, tail: Seq<u8>)
    requires
        data.len() <= i64::MAX,
    ensures
        sp_frame(enc_frame(FrameView::Bulk(data)) + tail) == Parsed::Got(
            FrameView::Bulk(data),
            enc_frame(FrameView::Bulk(data)).len() as int,
        ),
{
    let v = FrameView::Bulk(data);
    let b = enc_frame(v) + tail;
    let n = data.len() as int;
    let dl = enc_int(n).len() as int;
    let e = 1 + dl;
    lemma_int_digits_len(n);
    assert(enc_frame(v) =~= enc_header(36u8, n) + (data + crlf()));
    assert(b =~= enc_header(36u8, n) + (data + crlf()) + tail);
    lemma_header_line_end(36u8, n, data + crlf(), tail);
    lemma_parse_enc_int(n);
    assert(b.len() == e + 4 + n + tail.len());
    assert(b[e + 2 + n] == 13u8);
    assert(b[e + 3 + n] == 10u8);
    assert(b.subrange(e + 2, e + 2 + n) =~= data);
    assert(sp_frame(b) == Parsed::Got(FrameView::Bulk(data), e + 4 + n));
    assert(enc_frame(v).len() == e + 4 + n);
}

/// Round trip for an array or set frame.
proof fn lemma_round_trip_agg(es: Seq<FrameView>, tail: Seq<u8>, prefix: u8)
    requires
        prefix == 42u8 || prefix == 126u8,
        es.len() <= i64::MAX,
        forall|i: int| 0 <= i < es.len() ==> (#[trigger] es[i]).wf(),
    ensures
        ({
            let v = if prefix == 42u8 {
                FrameView::Arr(es)
            } else {
                FrameView::SetF(es)
            };
            sp_frame(enc_frame(v) + tail) == Parsed::Got(v, enc_frame(v).len() as int)
        }),
    decreases es, 1int,
{
    let v = if prefix == 42u8 {
        FrameView::Arr(es)
    } else {
        FrameView::SetF(es)
    };
    let b = enc_frame(v) + tail;
    let k = es.len() as int;
    let dl = enc_int(k).len() as int;
    let e = 1 + dl;
    lemma_int_digits_len(k);
    assert(enc_frame(v) =~= enc_header(prefix, k) + enc_elems(es));
    assert(b =~= enc_header(prefix, k) + enc_elems(es) + tail);
    lemma_header_line_end(prefix, k, enc_elems(es), tail);
    lemma_parse_enc_int(k);
    assert(b.skip(e + 2) =~= enc_elems(es) + tail);
    lemma_elems_round_trip(es, tail);
    assert(sp_frame(b) == Parsed::Got(v, e + 2 + enc_elems(es).len()));
    assert(enc_frame(v).len() == e + 2 + enc_elems(es).len());
}

/// Round trip for a map frame with sorted entries.
proof fn lemma_round_trip_map(ps: Seq<(Seq<u8>, FrameView)>, tail: Seq<u8>)
    requires
        ps.len() <= i64::MAX,
        entries_sorted(ps),
        forall|i: int| 0 <= i < ps.len() ==> line_safe(#[trigger] ps[i].0) && (ps[i].1).wf(),
    ensures
        sp_frame(enc_frame(FrameView::MapF(ps)) + tail) == Parsed::Got(
            FrameView::MapF(ps),
            enc_frame(FrameView::MapF(ps)).len() as int,
        ),
    decreases ps, 1int,
{
    let v = FrameView::MapF(ps);
    let b = enc_frame(v) + tail;
    let k = ps.len() as int;
    let dl = enc_int(k).len() as int;
    let e = 1 + dl;
    lemma_int_digits_len(k);
    assert(enc_frame(v) =~= enc_header(37u8, k) + enc_pairs(ps));
    assert(b =~= enc_header(37u8, k) + enc_pairs(ps) + tail);
    lemma_header_line_end(37u8, k, enc_pairs(ps), tail);
    lemma_parse_enc_int(k);
    assert(b.skip(e + 2) =~= enc_pairs(ps) + tail);
    assert forall|i: int| 0 <= i < ps.len() implies line_safe(#[trigger] ps[i].0) && (
    ps[i].1).wf() by {
        assert(line_safe(ps[i].0));
        assert(((ps[i]).1).wf());
    }
    lemma_pairs_round_trip(ps, tail);
    lemma_fold_map_sorted(ps);
    assert(sp_frame(b) == Parsed::Got(FrameView::MapF(ps), e + 2 + enc_pairs(ps).len()));
    assert(enc_frame(v).len() == e + 2 + enc_pairs(ps).len());
}

/// Decoding the concatenated encodings of well-formed frames yields exactly
/// those frames.
proof fn lemma_elems_round_trip(es: Seq<FrameView>, tail: Seq<u8>)
    requires
        forall|i: int| 0 <= i < es.len() ==> (#[trigger] es[i]).wf(),
    ensures
        sp_elems(enc_elems(es) + tail, es.len() as int) == ElemsParsed::Got(
            es,
            enc_elems(es).len() as int,
        ),
    decreases es, 0int,
{
    if es.len() == 0 {
        assert(es =~= Seq::<FrameView>::empty());
    } else {
        let rest = es.subrange(1, es.len() as int);
        let n0 = enc_frame(es[0]).len() as int;
        let b = enc_elems(es) + tail;
        assert(b =~= enc_frame(es[0]) + (enc_elems(rest) + tail));
        assert(es[0].wf());
        lemma_encode_decode_round_trip(es[0], enc_elems(rest) + tail);
        lemma_enc_frame_len(es[0]);
        assert(b.skip(n0) =~= enc_elems(rest) + tail);
        assert forall|i: int| 0 <= i < rest.len() implies (#[trigger] rest[i]).wf() by {
            assert(rest[i] == es[i + 1]);
        }
        lemma_elems_round_trip(rest, tail);
        assert(seq![es[0]] + rest =~= es);
    }
}

/// Decoding the concatenated encodings of well-formed map entries yields
/// exactly those entries, in order.
proof fn lemma_pairs_round_trip(ps: Seq<(Seq<u8>, FrameView)>, tail: Seq<u8>)
    requires
        forall|i: int| 0 <= i < ps.len() ==> line_safe(#[trigger] ps[i].0) && (ps[i].1).wf(),
    ensures
        sp_entries(enc_pairs(ps) + tail, ps.len() as int) == PairsParsed::Got(
            ps,
            enc_pairs(ps).len() as int,
        ),
    decreases ps, 0int,
{
    if ps.len() == 0 {
        assert(ps =~= Seq::<(Seq<u8>, FrameView)>::empty());
    } else {
        let rest = ps.subrange(1, ps.len() as int);
        let key = ps[0].0;
        let kn = 3 + key.len() as int;
        let vn = enc_frame(ps[0].1).len() as int;
        let b = enc_pairs(ps) + tail;
        assert(b =~= enc_line(43u8, key) + (enc_frame(ps[0].1) + (enc_pairs(rest) + tail)));
        assert(line_safe(ps[0].0));
        lemma_line_end_encoded(43u8, key, enc_frame(ps[0].1) + (enc_pairs(rest) + tail));
        assert(b.subrange(1, 1 + key.len() as int) =~= key);
        assert(sp_simple(b) == Parsed::Got(FrameView::Simple(key), kn));
        assert(b.skip(kn) =~= enc_frame(ps[0].1) + (enc_pairs(rest) + tail));
        assert(ps[0].1.wf());
        lemma_encode_decode_round_trip(ps[0].1, enc_pairs(rest) + tail);
        lemma_enc_frame_len(ps[0].1);
        assert(b.skip(kn + vn) =~= enc_pairs(rest) + tail);
        assert forall|i: int| 0 <= i < rest.len() implies line_safe(#[trigger] rest[i].0) && (
        rest[i].1).wf() by {
            assert(rest[i] == ps[i + 1]);
        }
        lemma_pairs_round_trip(rest, tail);
        assert(seq![(key, ps[0].1)] + rest =~= ps);
    }
}

/// Inserting an entry whose key exceeds every present key appends it.
proof fn lemma_map_insert_append(
    qs: Seq<(Seq<u8>, FrameView)>,
    k: Seq<u8>,
    v: FrameView,
)
    requires
        forall|j: int| 0 <= j < qs.len() ==> bytes_lt(#[trigger] qs[j].0, k),
    ensures
        map_insert(qs, k, v) == qs.push((k, v)),
{
    lemma_map_insert_at(qs, k, v, qs.len() as int);
    assert(qs.take(qs.len() as int) + seq![(k, v)] + qs.skip(qs.len() as int) =~= qs.push((k, v)));
}

/// Folding entries that are already in strictly ascending key order leaves
/// them unchanged.
pub proof fn lemma_fold_map_sorted(ps: Seq<(Seq<u8>, FrameView)>)
    requires
        entries_sorted(ps),
    ensures
        fold_map(ps) == ps,
    decreases ps.len(),
{
    if ps.len() > 0 {
        let front = ps.drop_last();
        assert(entries_sorted(front));
        lemma_fold_map_sorted(front);
        assert(forall|j: int| 0 <= j < front.len() ==> bytes_lt(
            #[trigger] front[j].0,
            ps.last().0,
        ));
        lemma_map_insert_append(front, ps.last().0, ps.last().1);
        assert(front.push(ps.last()) =~= ps);
    }
}

/// A strict prefix of an encoded line holds no complete line terminator.
proof fn lemma_line_prefix_no_end(c: u8, s: Seq<u8>, j: int)
    requires
        line_safe(s),
        0 <= j <= s.len() + 2,
    ensures
        line_end(enc_line(c, s).take(j)) is None,
{
    let p = enc_line(c, s).take(j);
    assert forall|t: int| 1 <= t && t + 1 < p.len() implies !(p[t] == 13u8 && #[trigger] p[t + 1]
        == 10u8) by {
        assert(p[t] == enc_line(c, s)[t]);
        if t < 1 + s.len() {
            if t + 1 <= s.len() {
                assert(p[t] == s[t - 1]);
            } else {
                assert(p[t + 1] == enc_line(c, s)[t + 1]);
                assert(t + 1 == 1 + s.len());
                assert(p[t + 1] == 13u8);
            }
        }
    }
    lemma_crlf_none(p, 1);
}

/// Law: every strict prefix of an encoded well-formed frame parses as "not
/// complete": no frame and no error comes out before the last byte arrives.
pub proof fn lemma_encode_prefix_incomplete(v: FrameView, j: int)
    requires
        v.wf(),
        0 <= j < enc_frame(v).len(),
    ensures
        sp_frame(enc_frame(v).take(j)) == Parsed::More,
    decreases v, 1int,
{
    let full = enc_frame(v);
    let p = full.take(j);
    lemma_enc_frame_len(v);
    if j == 0 {
        assert(p.len() == 0);
    } else {
        match v {
            FrameView::Simple(s) => {
                assert(p =~= enc_line(43u8, s).take(j));
                lemma_line_prefix_no_end(43u8, s, j);
            },
            FrameView::Error(s) => {
                assert(p =~= enc_line(45u8, s).take(j));
                lemma_line_prefix_no_end(45u8, s, j);
            },
            FrameView::Int(n) => {
                lemma_enc_int_line_safe(n);
                assert(p =~= enc_line(58u8, enc_int(n)).take(j));
                lemma_line_prefix_no_end(58u8, enc_int(n), j);
            },
            FrameView::Double(t) => {
                assert(p =~= enc_line(44u8, t).take(j));
                lemma_line_prefix_no_end(44u8, t, j);
            },
            FrameView::Null => {
                assert(p.len() < 3);
            },
            FrameView::Bool(_) => {
                assert(p.len() < 4);
                if p.len() >= 1 {
                    assert(p[0] == 35u8);
                }
            },
            FrameView::Bulk(data) => {
                lemma_prefix_bulk(data, j);
            },
            FrameView::Arr(es) => {
                lemma_prefix_agg(es, j, 42u8);
            },
            FrameView::SetF(es) => {
                lemma_prefix_agg(es, j, 126u8);
            },
            FrameView::MapF(ps) => {
                lemma_prefix_map(ps, j);
            },
        }
    }
}

/// Prefix law for bulk strings.
proof fn lemma_prefix_bulk(data: Seq<u8>, j: int)
    requires
        data.len() <= i64::MAX,
        1 <= j < enc_frame(FrameView::Bulk(data)).len(),
    ensures
        sp_frame(enc_frame(FrameView::Bulk(data)).take(j)) == Parsed::More,
{
    let v = FrameView::Bulk(data);
    let full = enc_frame(v);
    let p = full.take(j);
    let n = data.len() as int;
    let dl = enc_int(n).len() as int;
    let e = 1 + dl;
    lemma_int_digits_len(n);
    lemma_enc_int_line_safe(n);
    assert(full =~= enc_header(36u8, n) + (data + crlf()));
    assert(full.len() == e + 4 + n);
    assert(p[0] == 36u8);
    if j < e + 2 {
        assert(p =~= enc_line(36u8, enc_int(n)).take(j));
        lemma_line_prefix_no_end(36u8, enc_int(n), j);
    } else {
        assert(p[e] == 13u8 && p[e + 1] == 10u8);
        assert forall|t: int| 1 <= t < e implies !(p[t] == 13u8 && #[trigger] p[t + 1] == 10u8) by {
            assert(p[t] == enc_int(n)[t - 1]);
        }
        lemma_crlf_first(p, 1, e);
        assert(p.subrange(1, e) =~= enc_int(n));
        lemma_parse_enc_int(n);
        assert(p.len() < e + 4 + n);
    }
}

/// Prefix law for arrays and sets.
proof fn lemma_prefix_agg(es: Seq<FrameView>, j: int, prefix: u8)
    requires
        prefix == 42u8 || prefix == 126u8,
        es.len() <= i64::MAX,
        forall|i: int| 0 <= i < es.len() ==> (#[trigger] es[i]).wf(),
        ({
            let v = if prefix == 42u8 {
                FrameView::Arr(es)
            } else {
                FrameView::SetF(es)
            };
            1 <= j < enc_frame(v).len()
        }),
    ensures
        ({
            let v = if prefix == 42u8 {
                FrameView::Arr(es)
            } else {
                FrameView::SetF(es)
            };
            sp_frame(enc_frame(v).take(j)) == Parsed::More
        }),
    decreases es, 2int,
{
    let v = if prefix == 42u8 {
        FrameView::Arr(es)
    } else {
        FrameView::SetF(es)
    };
    let full = enc_frame(v);
    let p = full.take(j);
    let k = es.len() as int;
    let dl = enc_int(k).len() as int;
    let e = 1 + dl;
    lemma_int_digits_len(k);
    lemma_enc_int_line_safe(k);
    assert(full =~= enc_header(prefix, k) + enc_elems(es));
    assert(p[0] == prefix);
    if j < e + 2 {
        assert(p =~= enc_line(prefix, enc_int(k)).take(j));
        lemma_line_prefix_no_end(prefix, enc_int(k), j);
    } else {
        assert(p[e] == 13u8 && p[e + 1] == 10u8);
        assert forall|t: int| 1 <= t < e implies !(p[t] == 13u8 && #[trigger] p[t + 1] == 10u8) by {
            assert(p[t] == enc_int(k)[t - 1]);
        }
        lemma_crlf_first(p, 1, e);
        assert(p.subrange(1, e) =~= enc_int(k));
        lemma_parse_enc_int(k);
        assert(p.skip(e + 2) =~= enc_elems(es).take(j - e - 2));
        assert(j - e - 2 < enc_elems(es).len());
        lemma_elems_prefix(es, j - e - 2);
    }
}

/// Prefix law for maps.
proof fn lemma_prefix_map(ps: Seq<(Seq<u8>, FrameView)>, j: int)
    requires
        ps.len() <= i64::MAX,
        forall|i: int| 0 <= i < ps.len() ==> line_safe(#[trigger] ps[i].0) && (ps[i].1).wf(),
        1 <= j < enc_frame(FrameView::MapF(ps)).len(),
    ensures
        sp_frame(enc_frame(FrameView::MapF(ps)).take(j)) == Parsed::More,
    decreases ps, 2int,
{
    let v = FrameView::MapF(ps);
    let full = enc_frame(v);
    let p = full.take(j);
    let k = ps.len() as int;
    let dl = enc_int(k).len() as int;
    let e = 1 + dl;
    lemma_int_digits_len(k);
    lemma_enc_int_line_safe(k);
    assert(full =~= enc_header(37u8, k) + enc_pairs(ps));
    assert(p[0] == 37u8);
    if j < e + 2 {
        assert(p =~= enc_line(37u8, enc_int(k)).take(j));
        lemma_line_prefix_no_end(37u8, enc_int(k), j);
    } else {
        assert(p[e] == 13u8 && p[e + 1] == 10u8);
        assert forall|t: int| 1 <= t < e implies !(p[t] == 13u8 && #[trigger] p[t + 1] == 10u8) by {
            assert(p[t] == enc_int(k)[t - 1]);
        }
        lemma_crlf_first(p, 1, e);
        assert(p.subrange(1, e) =~= enc_int(k));
        lemma_parse_enc_int(k);
        assert(p.skip(e + 2) =~= enc_pairs(ps).take(j - e - 2));
        assert(j - e - 2 < enc_pairs(ps).len());
        assert forall|i: int| 0 <= i < ps.len() implies line_safe(#[trigger] ps[i].0) && (
        ps[i].1).wf() by {
            assert(line_safe(ps[i].0));
            assert(((ps[i]).1).wf());
        }
        lemma_pairs_prefix(ps, j - e - 2);
    }
}

/// A strict prefix of a run of encoded frames leaves the run incomplete.
proof fn lemma_elems_prefix(es: Seq<FrameView>, j: int)
    requires
        forall|i: int| 0 <= i < es.len() ==> (#[trigger] es[i]).wf(),
        0 <= j < enc_elems(es).len(),
    ensures
        sp_elems(enc_elems(es).take(j), es.len() as int) == ElemsParsed::More,
    decreases es, 0int,
{
    let rest = es.subrange(1, es.len() as int);
    let n0 = enc_frame(es[0]).len() as int;
    let p = enc_elems(es).take(j);
    lemma_enc_frame_len(es[0]);
    assert(enc_elems(es) =~= enc_frame(es[0]) + enc_elems(rest));
    if j < n0 {
        assert(p =~= enc_frame(es[0]).take(j));
        lemma_encode_prefix_incomplete(es[0], j);
    } else {
        assert(p =~= enc_frame(es[0]) + enc_elems(rest).take(j - n0));
        lemma_encode_decode_round_trip(es[0], enc_elems(rest).take(j - n0));
        assert(p.skip(n0) =~= enc_elems(rest).take(j - n0));
        assert forall|i: int| 0 <= i < rest.len() implies (#[trigger] rest[i]).wf() by {
            assert(rest[i] == es[i + 1]);
        }
        lemma_elems_prefix(rest, j - n0);
    }
}

/// A strict prefix of a run of encoded map entries leaves the run incomplete.
proof fn lemma_pairs_prefix(ps: Seq<(Seq<u8>, FrameView)>, j: int)
    requires
        forall|i: int| 0 <= i < ps.len() ==> line_safe(#[trigger] ps[i].0) && (ps[i].1).wf(),
        0 <= j < enc_pairs(ps).len(),
    ensures
        sp_entries(enc_pairs(ps).take(j), ps.len() as int) == PairsParsed::More,
    decreases ps, 0int,
{
    let rest = ps.subrange(1, ps.len() as int);
    let key = ps[0].0;
    let kl = 3 + key.len() as int;
    let vn = enc_frame(ps[0].1).len() as int;
    let p = enc_pairs(ps).take(j);
    lemma_enc_frame_len(ps[0].1);
    assert(line_safe(key));
    assert(enc_pairs(ps) =~= enc_line(43u8, key) + (enc_frame(ps[0].1) + enc_pairs(rest)));
    if j < kl {
        assert(p =~= enc_line(43u8, key).take(j));
        if p.len() >= 1 {
            assert(p[0] == 43u8);
        }
        lemma_line_prefix_no_end(43u8, key, j);
    } else {
        assert(p =~= enc_line(43u8, key) + (enc_frame(ps[0].1) + enc_pairs(rest)).take(j - kl));
        lemma_line_end_encoded(43u8, key, (enc_frame(ps[0].1) + enc_pairs(rest)).take(j - kl));
        assert(p.subrange(1, 1 + key.len() as int) =~= key);
        assert(sp_simple(p) == Parsed::Got(FrameView::Simple(key), kl));
        if j < kl + vn {
            assert(p.skip(kl) =~= enc_frame(ps[0].1).take(j - kl));
            assert(ps[0].1.wf());
            lemma_encode_prefix_incomplete(ps[0].1, j - kl);
        } else {
            assert(p.skip(kl) =~= enc_frame(ps[0].1) + enc_pairs(rest).take(j - kl - vn));
            assert(ps[0].1.wf());
            lemma_encode_decode_round_trip(ps[0].1, enc_pairs(rest).take(j - kl - vn));
            assert(p.skip(kl + vn) =~= enc_pairs(rest).take(j - kl - vn));
            assert forall|i: int| 0 <= i < rest.len() implies line_safe(#[trigger] rest[i].0) && (
            rest[i].1).wf() by {
                assert(rest[i] == ps[i + 1]);
            }
            lemma_pairs_prefix(rest, j - kl - vn);
        }
    }
}

/// Law: on a buffer holding the complete encoding of a well-formed frame and
/// anything after it, the length scanner reports exactly the encoding's
/// length without materializing the frame.
pub proof fn lemma_expect_length_encoded(v: FrameView, tail: Seq<u8>)
    requires
        v.wf(),
    ensures
        sp_len_frame(enc_frame(v) + tail) == LenParsed::Got(enc_frame(v).len() as int),
    decreases v, 1int,
{
    let b = enc_frame(v) + tail;
    lemma_enc_frame_len(v);
    match v {
        FrameView::Simple(s) => {
            lemma_line_end_encoded(43u8, s, tail);
        },
        FrameView::Error(s) => {
            lemma_line_end_encoded(45u8, s, tail);
        },
        FrameView::Int(n) => {
            lemma_enc_int_line_safe(n);
            lemma_line_end_encoded(58u8, enc_int(n), tail);
        },
        FrameView::Double(t) => {
            lemma_line_end_encoded(44u8, t, tail);
        },
        FrameView::Null => {
            assert(enc_frame(v) =~= enc_line(95u8, Seq::empty()));
            assert(b =~= enc_line(95u8, Seq::empty()) + tail);
            lemma_line_end_encoded(95u8, Seq::empty(), tail);
        },
        FrameView::Bool(x) => {
            let payload = seq![if x { 116u8 } else { 102u8 }];
            assert(enc_frame(v) =~= enc_line(35u8, payload));
            assert(b =~= enc_line(35u8, payload) + tail);
            lemma_line_end_encoded(35u8, payload, tail);
        },
        FrameView::Bulk(data) => {
            let n = data.len() as int;
            let e = 1 + enc_int(n).len() as int;
            lemma_int_digits_len(n);
            assert(enc_frame(v) =~= enc_header(36u8, n) + (data + crlf()));
            assert(b =~= enc_header(36u8, n) + (data + crlf()) + tail);
            lemma_header_line_end(36u8, n, data + crlf(), tail);
            lemma_parse_enc_int(n);
            assert(b.len() == e + 4 + n + tail.len());
            assert(sp_len_frame(b) == LenParsed::Got(e + 4 + n));
        },
        FrameView::Arr(es) => {
            assert forall|i: int| 0 <= i < es.len() implies (#[trigger] es[i]).wf() by {
                assert(es[i].wf());
            }
            lemma_len_agg(es, tail, 42u8);
        },
        FrameView::SetF(es) => {
            assert forall|i: int| 0 <= i < es.len() implies (#[trigger] es[i]).wf() by {
                assert(es[i].wf());
            }
            lemma_len_agg(es, tail, 126u8);
        },
        FrameView::MapF(ps) => {
            assert forall|i: int| 0 <= i < ps.len() implies line_safe(#[trigger] ps[i].0) && (
            ps[i].1).wf() by {
                assert(line_safe(ps[i].0));
                assert(((ps[i]).1).wf());
            }
            lemma_len_map(ps, tail);
        },
    }
}

/// Length law for arrays and sets.
proof fn lemma_len_agg(es: Seq<FrameView>, tail: Seq<u8>, prefix: u8)
    requires
        prefix == 42u8 || prefix == 126u8,
        es.len() <= i64::MAX,
        forall|i: int| 0 <= i < es.len() ==> (#[trigger] es[i]).wf(),
    ensures
        ({
            let v = if prefix == 42u8 {
                FrameView::Arr(es)
            } else {
                FrameView::SetF(es)
            };
            sp_len_frame(enc_frame(v) + tail) == LenParsed::Got(enc_frame(v).len() as int)
        }),
    decreases es, 1int,
{
    let v = if prefix == 42u8 {
        FrameView::Arr(es)
    } else {
        FrameView::SetF(es)
    };
    let b = enc_frame(v) + tail;
    let k = es.len() as int;
    let e = 1 + enc_int(k).len() as int;
    lemma_int_digits_len(k);
    assert(enc_frame(v) =~= enc_header(prefix, k) + enc_elems(es));
    assert(b =~= enc_header(prefix, k) + enc_elems(es) + tail);
    lemma_header_line_end(prefix, k, enc_elems(es), tail);
    lemma_parse_enc_int(k);
    assert(b.skip(e + 2) =~= enc_elems(es) + tail);
    lemma_items_len(es, tail);
    assert(sp_len_frame(b) == LenParsed::Got(e + 2 + enc_elems(es).len()));
    assert(enc_frame(v).len() == e + 2 + enc_elems(es).len());
}

/// Length law for maps.
proof fn lemma_len_map(ps: Seq<(Seq<u8>, FrameView)>, tail: Seq<u8>)
    requires
        ps.len() <= i64::MAX,
        forall|i: int| 0 <= i < ps.len() ==> line_safe(#[trigger] ps[i].0) && (ps[i].1).wf(),
    ensures
        sp_len_frame(enc_frame(FrameView::MapF(ps)) + tail) == LenParsed::Got(
            enc_frame(FrameView::MapF(ps)).len() as int,
        ),
    decreases ps, 1int,
{
    let v = FrameView::MapF(ps);
    let b = enc_frame(v) + tail;
    let k = ps.len() as int;
    let e = 1 + enc_int(k).len() as int;
    lemma_int_digits_len(k);
    assert(enc_frame(v) =~= enc_header(37u8, k) + enc_pairs(ps));
    assert(b =~= enc_header(37u8, k) + enc_pairs(ps) + tail);
    lemma_header_line_end(37u8, k, enc_pairs(ps), tail);
    lemma_parse_enc_int(k);
    assert(b.skip(e + 2) =~= enc_pairs(ps) + tail);
    assert forall|i: int| 0 <= i < ps.len() implies line_safe(#[trigger] ps[i].0) && (
    ps[i].1).wf() by {
        assert(line_safe(ps[i].0));
        assert(((ps[i]).1).wf());
    }
    lemma_entries_len(ps, tail);
    assert(sp_len_frame(b) == LenParsed::Got(e + 2 + enc_pairs(ps).len()));
    assert(enc_frame(v).len() == e + 2 + enc_pairs(ps).len());
}

/// Summed length of a run of encoded frames.
proof fn lemma_items_len(es: Seq<FrameView>, tail: Seq<u8>)
    requires
        forall|i: int| 0 <= i < es.len() ==> (#[trigger] es[i]).wf(),
    ensures
        sp_len_items(enc_elems(es) + tail, es.len() as int) == LenParsed::Got(
            enc_elems(es).len() as int,
        ),
    decreases es, 0int,
{
    if es.len() == 0 {
        assert(es =~= Seq::<FrameView>::empty());
    } else {
        let rest = es.subrange(1, es.len() as int);
        let n0 = enc_frame(es[0]).len() as int;
        let b = enc_elems(es) + tail;
        assert(b =~= enc_frame(es[0]) + (enc_elems(rest) + tail));
        assert(es[0].wf());
        lemma_expect_length_encoded(es[0], enc_elems(rest) + tail);
        lemma_enc_frame_len(es[0]);
        assert(b.skip(n0) =~= enc_elems(rest) + tail);
        assert forall|i: int| 0 <= i < rest.len() implies (#[trigger] rest[i]).wf() by {
            assert(rest[i] == es[i + 1]);
        }
        lemma_items_len(rest, tail);
    }
}

/// Summed length of a run of encoded map entries.
proof fn lemma_entries_len(ps: Seq<(Seq<u8>, FrameView)>, tail: Seq<u8>)
    requires
        forall|i: int| 0 <= i < ps.len() ==> line_safe(#[trigger] ps[i].0) && (ps[i].1).wf(),
    ensures
        sp_len_entries(enc_pairs(ps) + tail, ps.len() as int) == LenParsed::Got(
            enc_pairs(ps).len() as int,
        ),
    decreases ps, 0int,
{
    if ps.len() == 0 {
        assert(ps =~= Seq::<(Seq<u8>, FrameView)>::empty());
    } else {
        let rest = ps.subrange(1, ps.len() as int);
        let key = ps[0].0;
        let kn = 3 + key.len() as int;
        let vn = enc_frame(ps[0].1).len() as int;
        let b = enc_pairs(ps) + tail;
        assert(line_safe(key));
        assert(b =~= enc_line(43u8, key) + (enc_frame(ps[0].1) + (enc_pairs(rest) + tail)));
        lemma_line_end_encoded(43u8, key, enc_frame(ps[0].1) + (enc_pairs(rest) + tail));
        assert(sp_line_len(b, 43u8) == LenParsed::Got(kn));
        assert(b.skip(kn) =~= enc_frame(ps[0].1) + (enc_pairs(rest) + tail));
        assert(ps[0].1.wf());
        lemma_expect_length_encoded(ps[0].1, enc_pairs(rest) + tail);
        lemma_enc_frame_len(ps[0].1);
        assert(b.skip(kn + vn) =~= enc_pairs(rest) + tail);
        assert forall|i: int| 0 <= i < rest.len() implies line_safe(#[trigger] rest[i].0) && (
        rest[i].1).wf() by {
            assert(rest[i] == ps[i + 1]);
        }
        lemma_entries_len(rest, tail);
    }
}

/// Law: on every strict prefix of an encoded well-formed frame, the length
/// scanner reports that more bytes are needed.
pub proof fn lemma_expect_length_prefix(v: FrameView, j: int)
    requires
        v.wf(),
        0 <= j < enc_frame(v).len(),
    ensures
        sp_len_frame(enc_frame(v).take(j)) == LenParsed::More,
    decreases v, 1int,
{
    let full = enc_frame(v);
    let p = full.take(j);
    lemma_enc_frame_len(v);
    if j == 0 {
        assert(p.len() == 0);
    } else {
        match v {
            FrameView::Simple(s) => {
                assert(p =~= enc_line(43u8, s).take(j));
                lemma_line_prefix_no_end(43u8, s, j);
            },
            FrameView::Error(s) => {
                assert(p =~= enc_line(45u8, s).take(j));
                lemma_line_prefix_no_end(45u8, s, j);
            },
            FrameView::Int(n) => {
                lemma_enc_int_line_safe(n);
                assert(p =~= enc_line(58u8, enc_int(n)).take(j));
                lemma_line_prefix_no_end(58u8, enc_int(n), j);
            },
            FrameView::Double(t) => {
                assert(p =~= enc_line(44u8, t).take(j));
                lemma_line_prefix_no_end(44u8, t, j);
            },
            FrameView::Null => {
                assert(p =~= enc_line(95u8, Seq::empty()).take(j));
                lemma_line_prefix_no_end(95u8, Seq::empty(), j);
            },
            FrameView::Bool(x) => {
                let payload = seq![if x { 116u8 } else { 102u8 }];
                assert(p =~= enc_line(35u8, payload).take(j));
                lemma_line_prefix_no_end(35u8, payload, j);
            },
            FrameView::Bulk(data) => {
                let n = data.len() as int;
                let e = 1 + enc_int(n).len() as int;
                lemma_int_digits_len(n);
                lemma_enc_int_line_safe(n);
                assert(full =~= enc_header(36u8, n) + (data + crlf()));
                assert(p[0] == 36u8);
                if j < e + 2 {
                    assert(p =~= enc_line(36u8, enc_int(n)).take(j));
                    lemma_line_prefix_no_end(36u8, enc_int(n), j);
                } else {
                    assert(p[e] == 13u8 && p[e + 1] == 10u8);
                    assert forall|t: int| 1 <= t < e implies !(p[t] == 13u8 && #[trigger] p[t + 1]
                        == 10u8) by {
                        assert(p[t] == enc_int(n)[t - 1]);
                    }
                    lemma_crlf_first(p, 1, e);
                    assert(p.subrange(1, e) =~= enc_int(n));
                    lemma_parse_enc_int(n);
                    assert(p.len() < e + 4 + n);
                }
            },
            FrameView::Arr(es) => {
                assert forall|i: int| 0 <= i < es.len() implies (#[trigger] es[i]).wf() by {
                    assert(es[i].wf());
                }
                lemma_len_prefix_agg(es, j, 42u8);
            },
            FrameView::SetF(es) => {
                assert forall|i: int| 0 <= i < es.len() implies (#[trigger] es[i]).wf() by {
                    assert(es[i].wf());
                }
                lemma_len_prefix_agg(es, j, 126u8);
            },
            FrameView::MapF(ps) => {
                assert forall|i: int| 0 <= i < ps.len() implies line_safe(#[trigger] ps[i].0) && (
                ps[i].1).wf() by {
                    assert(line_safe(ps[i].0));
                    assert(((ps[i]).1).wf());
                }
                lemma_len_prefix_map(ps, j);
            },
        }
    }
}

/// Length-prefix law for arrays and sets.
proof fn lemma_len_prefix_agg(es: Seq<FrameView>, j: int, prefix: u8)
    requires
        prefix == 42u8 || prefix == 126u8,
        es.len() <= i64::MAX,
        forall|i: int| 0 <= i < es.len() ==> (#[trigger] es[i]).wf(),
        ({
            let v = if prefix == 42u8 {
                FrameView::Arr(es)
            } else {
                FrameView::SetF(es)
            };
            1 <= j < enc_frame(v).len()
        }),
    ensures
        ({
            let v = if prefix == 42u8 {
                FrameView::Arr(es)
            } else {
                FrameView::SetF(es)
            };
            sp_len_frame(enc_frame(v).take(j)) == LenParsed::More
        }),
    decreases es, 2int,
{
    let v = if prefix == 42u8 {
        FrameView::Arr(es)
    } else {
        FrameView::SetF(es)
    };
    let full = enc_frame(v);
    let p = full.take(j);
    let k = es.len() as int;
    let e = 1 + enc_int(k).len() as int;
    lemma_int_digits_len(k);
    lemma_enc_int_line_safe(k);
    assert(full =~= enc_header(prefix, k) + enc_elems(es));
    assert(p[0] == prefix);
    if j < e + 2 {
        assert(p =~= enc_line(prefix, enc_int(k)).take(j));
        lemma_line_prefix_no_end(prefix, enc_int(k), j);
    } else {
        assert(p[e] == 13u8 && p[e + 1] == 10u8);
        assert forall|t: int| 1 <= t < e implies !(p[t] == 13u8 && #[trigger] p[t + 1] == 10u8) by {
            assert(p[t] == enc_int(k)[t - 1]);
        }
        lemma_crlf_first(p, 1, e);
        assert(p.subrange(1, e) =~= enc_int(k));
        lemma_parse_enc_int(k);
        assert(p.skip(e + 2) =~= enc_elems(es).take(j - e - 2));
        lemma_items_len_prefix(es, j - e - 2);
    }
}

/// Length-prefix law for maps.
proof fn lemma_len_prefix_map(ps: Seq<(Seq<u8>, FrameView)>, j: int)
    requires
        ps.len() <= i64::MAX,
        forall|i: int| 0 <= i < ps.len() ==> line_safe(#[trigger] ps[i].0) && (ps[i].1).wf(),
        1 <= j < enc_frame(FrameView::MapF(ps)).len(),
    ensures
        sp_len_frame(enc_frame(FrameView::MapF(ps)).take(j)) == LenParsed::More,
    decreases ps, 2int,
{
    let v = FrameView::MapF(ps);
    let full = enc_frame(v);
    let p = full.take(j);
    let k = ps.len() as int;
    let e = 1 + enc_int(k).len() as int;
    lemma_int_digits_len(k);
    lemma_enc_int_line_safe(k);
    assert(full =~= enc_header(37u8, k) + enc_pairs(ps));
    assert(p[0] == 37u8);
    if j < e + 2 {
        assert(p =~= enc_line(37u8, enc_int(k)).take(j));
        lemma_line_prefix_no_end(37u8, enc_int(k), j);
    } else {
        assert(p[e] == 13u8 && p[e + 1] == 10u8);
        assert forall|t: int| 1 <= t < e implies !(p[t] == 13u8 && #[trigger] p[t + 1] == 10u8) by {
            assert(p[t] == enc_int(k)[t - 1]);
        }
        lemma_crlf_first(p, 1, e);
        assert(p.subrange(1, e) =~= enc_int(k));
        lemma_parse_enc_int(k);
        assert(p.skip(e + 2) =~= enc_pairs(ps).take(j - e - 2));
        assert forall|i: int| 0 <= i < ps.len() implies line_safe(#[trigger] ps[i].0) && (
        ps[i].1).wf() by {
            assert(line_safe(ps[i].0));
            assert(((ps[i]).1).wf());
        }
        lemma_entries_len_prefix(ps, j - e - 2);
    }
}

/// A strict prefix of a run of encoded frames leaves its length unknown.
proof fn lemma_items_len_prefix(es: Seq<FrameView>, j: int)
    requires
        forall|i: int| 0 <= i < es.len() ==> (#[trigger] es[i]).wf(),
        0 <= j < enc_elems(es).len(),
    ensures
        sp_len_items(enc_elems(es).take(j), es.len() as int) == LenParsed::More,
    decreases es, 0int,
{
    let rest = es.subrange(1, es.len() as int);
    let n0 = enc_frame(es[0]).len() as int;
    let p = enc_elems(es).take(j);
    lemma_enc_frame_len(es[0]);
    assert(enc_elems(es) =~= enc_frame(es[0]) + enc_elems(rest));
    assert(es[0].wf());
    if j < n0 {
        assert(p =~= enc_frame(es[0]).take(j));
        lemma_expect_length_prefix(es[0], j);
    } else {
        assert(p =~= enc_frame(es[0]) + enc_elems(rest).take(j - n0));
        lemma_expect_length_encoded(es[0], enc_elems(rest).take(j - n0));
        assert(p.skip(n0) =~= enc_elems(rest).take(j - n0));
        assert forall|i: int| 0 <= i < rest.len() implies (#[trigger] rest[i]).wf() by {
            assert(rest[i] == es[i + 1]);
        }
        lemma_items_len_prefix(rest, j - n0);
    }
}

/// A strict prefix of a run of encoded map entries leaves its length unknown.
proof fn lemma_entries_len_prefix(ps: Seq<(Seq<u8>, FrameView)>, j: int)
    requires
        forall|i: int| 0 <= i < ps.len() ==> line_safe(#[trigger] ps[i].0) && (ps[i].1).wf(),
        0 <= j < enc_pairs(ps).len(),
    ensures
        sp_len_entries(enc_pairs(ps).take(j), ps.len() as int) == LenParsed::More,
    decreases ps, 0int,
{
    let rest = ps.subrange(1, ps.len() as int);
    let key = ps[0].0;
    let kl = 3 + key.len() as int;
    let vn = enc_frame(ps[0].1).len() as int;
    let p = enc_pairs(ps).take(j);
    lemma_enc_frame_len(ps[0].1);
    assert(line_safe(key));
    assert(ps[0].1.wf());
    assert(enc_pairs(ps) =~= enc_line(43u8, key) + (enc_frame(ps[0].1) + enc_pairs(rest)));
    if j < kl {
        assert(p =~= enc_line(43u8, key).take(j));
        if p.len() >= 1 {
            assert(p[0] == 43u8);
        }
        lemma_line_prefix_no_end(43u8, key, j);
    } else {
        assert(p =~= enc_line(43u8, key) + (enc_frame(ps[0].1) + enc_pairs(rest)).take(j - kl));
        lemma_line_end_encoded(43u8, key, (enc_frame(ps[0].1) + enc_pairs(rest)).take(j - kl));
        assert(sp_line_len(p, 43u8) == LenParsed::Got(kl));
        if j < kl + vn {
            assert(p.skip(kl) =~= enc_frame(ps[0].1).take(j - kl));
            lemma_expect_length_prefix(ps[0].1, j - kl);
        } else {
            assert(p.skip(kl) =~= enc_frame(ps[0].1) + enc_pairs(rest).take(j - kl - vn));
            lemma_expect_length_encoded(ps[0].1, enc_pairs(rest).take(j - kl - vn));
            assert(p.skip(kl + vn) =~= enc_pairs(rest).take(j - kl - vn));
            assert forall|i: int| 0 <= i < rest.len() implies line_safe(#[trigger] rest[i].0) && (
            rest[i].1).wf() by {
                assert(rest[i] == ps[i + 1]);
            }
            lemma_entries_len_prefix(rest, j - kl - vn);
        }
    }
}

} // verus!
