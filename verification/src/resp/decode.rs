//! The decoder: a specification-level parser that classifies any byte
//! sequence as an incomplete prefix, a malformed frame, or one complete frame
//! with its length, and the verified executable parser proved to match it.

use vstd::prelude::*;

use crate::resp::frame::{
    map_insert, views_of, BulkString, FrameView, RespArray, RespFrame, RespMap, RespNull,
    RespSet, SimpleError, SimpleString,
};
use crate::resp::integer::{parse_i64, parse_int_bytes};
use crate::resp::RespError;
use vstd::slice::{slice_subrange, slice_to_vec};

verus! {

/// Outcome of parsing one frame from the front of a byte sequence:
/// `More` for a proper prefix, `Bad` for a malformed frame, `Got(v, n)` when
/// the first `n` bytes form exactly the frame `v`.
pub enum Parsed {
    More,
    Bad(RespError),
    Got(FrameView, int),
}

/// Outcome of parsing a run of `k` consecutive frames.
pub enum ElemsParsed {
    More,
    Bad(RespError),
    Got(Seq<FrameView>, int),
}

/// Outcome of parsing a run of `k` consecutive key-value entries.
pub enum PairsParsed {
    More,
    Bad(RespError),
    Got(Seq<(Seq<u8>, FrameView)>, int),
}

/// Outcome of computing a frame length without materializing the frame.
pub enum LenParsed {
    More,
    Bad(RespError),
    Got(int),
}

/// Position of the `nth` CRLF pair at or after index `i`.
pub open spec fn find_crlf_at(b: Seq<u8>, i: int, nth: int) -> Option<int>
    decreases b.len() - i,
{
    if i < 0 || i + 1 >= b.len() || nth <= 0 {
        None::<int>
    } else if b[i] == 13u8 && b[i + 1] == 10u8 {
        if nth == 1 {
            Some(i)
        } else {
            find_crlf_at(b, i + 1, nth - 1)
        }
    } else {
        find_crlf_at(b, i + 1, nth)
    }
}

/// Position of the terminator of the first line, searched from index 1 as the
/// executable scanner does.
pub open spec fn line_end(b: Seq<u8>) -> Option<int> {
    find_crlf_at(b, 1, 1)
}

/// End of the run of consecutive digit bytes starting at `i`.
pub open spec fn digits_run_end(s: Seq<u8>, i: int) -> int
    decreases s.len() - i,
{
    if 0 <= i < s.len() && 48 <= s[i] <= 57 {
        digits_run_end(s, i + 1)
    } else {
        i
    }
}

/// True when `s` is rendered decimal text for a double: an optional sign,
/// an integer part, an optional fractional part, an optional exponent with
/// its own optional sign.  Non-finite spellings are not wire text.
pub open spec fn double_text(s: Seq<u8>) -> bool {
    let i0: int = if s.len() > 0 && (s[0] == 43u8 || s[0] == 45u8) {
        1
    } else {
        0
    };
    let p = digits_run_end(s, i0);
    &&& p > i0
    &&& ({
        let q: int = if p < s.len() && s[p] == 46u8 {
            digits_run_end(s, p + 1)
        } else {
            p
        };
        &&& (p < s.len() && s[p] == 46u8 ==> q > p + 1)
        &&& if q < s.len() && (s[q] == 101u8 || s[q] == 69u8) {
            let r0: int = if q + 1 < s.len() && (s[q + 1] == 43u8 || s[q + 1] == 45u8) {
                q + 2
            } else {
                q + 1
            };
            let r = digits_run_end(s, r0);
            r > r0 && r == s.len()
        } else {
            q == s.len()
        }
    })
}

/// Parse a simple string `+<text>\r\n` from the front of `b`.
pub open spec fn sp_simple(b: Seq<u8>) -> Parsed {
    if b.len() < 3 {
        Parsed::More
    } else if b[0] != 43u8 {
        Parsed::Bad(RespError::InvalidFrameType)
    } else {
        match line_end(b) {
            None => Parsed::More,
            Some(e) => Parsed::Got(FrameView::Simple(b.subrange(1, e)), e + 2),
        }
    }
}

/// Parse a simple error `-<text>\r\n` from the front of `b`.
pub open spec fn sp_error(b: Seq<u8>) -> Parsed {
    if b.len() < 3 {
        Parsed::More
    } else if b[0] != 45u8 {
        Parsed::Bad(RespError::InvalidFrameType)
    } else {
        match line_end(b) {
            None => Parsed::More,
            Some(e) => Parsed::Got(FrameView::Error(b.subrange(1, e)), e + 2),
        }
    }
}

/// Parse an integer `:<decimal>\r\n` from the front of `b`.
pub open spec fn sp_int(b: Seq<u8>) -> Parsed {
    if b.len() < 3 {
        Parsed::More
    } else if b[0] != 58u8 {
        Parsed::Bad(RespError::InvalidFrameType)
    } else {
        match line_end(b) {
            None => Parsed::More,
            Some(e) => match parse_i64(b.subrange(1, e)) {
                Some(v) => Parsed::Got(FrameView::Int(v), e + 2),
                None => Parsed::Bad(RespError::ParseIntError),
            },
        }
    }
}

/// Parse a double `,<decimal text>\r\n` from the front of `b`.
pub open spec fn sp_double(b: Seq<u8>) -> Parsed {
    if b.len() < 3 {
        Parsed::More
    } else if b[0] != 44u8 {
        Parsed::Bad(RespError::InvalidFrameType)
    } else {
        match line_end(b) {
            None => Parsed::More,
            Some(e) => if double_text(b.subrange(1, e)) {
                Parsed::Got(FrameView::Double(b.subrange(1, e)), e + 2)
            } else {
                Parsed::Bad(RespError::ParseFloatError)
            },
        }
    }
}

/// Parse the null frame `_\r\n` from the front of `b`.
pub open spec fn sp_null(b: Seq<u8>) -> Parsed {
    if b.len() < 3 {
        Parsed::More
    } else if b[0] != 95u8 {
        Parsed::Bad(RespError::InvalidFrameType)
    } else if b[1] == 13u8 && b[2] == 10u8 {
        Parsed::Got(FrameView::Null, 3)
    } else {
        Parsed::Bad(RespError::InvalidFrameType)
    }
}

/// Parse a boolean `#t\r\n` or `#f\r\n` from the front of `b`.
pub open spec fn sp_bool(b: Seq<u8>) -> Parsed {
    if b.len() < 4 {
        Parsed::More
    } else if b[0] != 35u8 {
        Parsed::Bad(RespError::InvalidFrameType)
    } else if b[1] == 116u8 && b[2] == 13u8 && b[3] == 10u8 {
        Parsed::Got(FrameView::Bool(true), 4)
    } else if b[1] == 102u8 && b[2] == 13u8 && b[3] == 10u8 {
        Parsed::Got(FrameView::Bool(false), 4)
    } else {
        Parsed::Bad(RespError::InvalidFrameType)
    }
}

/// Parse a bulk string `$<len>\r\n<bytes>\r\n` from the front of `b`.
/// The legacy null form `$-1\r\n` parses as an empty bulk string.
pub open spec fn sp_bulk(b: Seq<u8>) -> Parsed {
    if b.len() < 3 {
        Parsed::More
    } else if b[0] != 36u8 {
        Parsed::Bad(RespError::InvalidFrameType)
    } else {
        match line_end(b) {
            None => Parsed::More,
            Some(e) => match parse_i64(b.subrange(1, e)) {
                None => Parsed::Bad(RespError::ParseIntError),
                Some(n) => if n == -1 {
                    Parsed::Got(FrameView::Bulk(Seq::empty()), e + 2)
                } else if n < 0 {
                    Parsed::Bad(RespError::InvalidFrameLength(n as i64))
                } else if b.len() < e + 4 + n {
                    Parsed::More
                } else if b[e + 2 + n] == 13u8 && b[e + 3 + n] == 10u8 {
                    Parsed::Got(FrameView::Bulk(b.subrange(e + 2, e + 2 + n)), e + 4 + n)
                } else {
                    Parsed::Bad(RespError::InvalidFrameLength(n as i64))
                },
            },
        }
    }
}

/// Parse an array `*` or a set `~` from the front of `b`: a count header,
/// then that many frames.  The legacy null form `*-1\r\n` parses as an empty
/// array.
pub open spec fn sp_agg(b: Seq<u8>, prefix: u8) -> Parsed
    decreases b.len(), 1int, 0int,
{
    if b.len() < 3 {
        Parsed::More
    } else if b[0] != prefix {
        Parsed::Bad(RespError::InvalidFrameType)
    } else {
        match line_end(b) {
            None => Parsed::More,
            Some(e) => if !(1 <= e && e + 2 <= b.len()) {
                Parsed::Bad(RespError::InvalidFrame)
            } else {
                match parse_i64(b.subrange(1, e)) {
                    None => Parsed::Bad(RespError::ParseIntError),
                    Some(n) => if prefix == 42u8 && n == -1 {
                        Parsed::Got(FrameView::Arr(Seq::empty()), e + 2)
                    } else if n < 0 {
                        Parsed::Bad(RespError::InvalidFrameLength(n as i64))
                    } else {
                        match sp_elems(b.skip(e + 2), n) {
                            ElemsParsed::More => Parsed::More,
                            ElemsParsed::Bad(er) => Parsed::Bad(er),
                            ElemsParsed::Got(vs, m) => Parsed::Got(
                                if prefix == 42u8 {
                                    FrameView::Arr(vs)
                                } else {
                                    FrameView::SetF(vs)
                                },
                                e + 2 + m,
                            ),
                        }
                    },
                }
            },
        }
    }
}

/// Parse a map `%<count>\r\n` then that many entries, each a simple-string
/// key followed by any frame.  The entries are folded into ascending key
/// order, later duplicates replacing earlier ones.
pub open spec fn sp_map(b: Seq<u8>) -> Parsed
    decreases b.len(), 1int, 0int,
{
    if b.len() < 3 {
        Parsed::More
    } else if b[0] != 37u8 {
        Parsed::Bad(RespError::InvalidFrameType)
    } else {
        match line_end(b) {
            None => Parsed::More,
            Some(e) => if !(1 <= e && e + 2 <= b.len()) {
                Parsed::Bad(RespError::InvalidFrame)
            } else {
                match parse_i64(b.subrange(1, e)) {
                    None => Parsed::Bad(RespError::ParseIntError),
                    Some(n) => if n < 0 {
                        Parsed::Bad(RespError::InvalidFrameLength(n as i64))
                    } else {
                        match sp_entries(b.skip(e + 2), n) {
                            PairsParsed::More => Parsed::More,
                            PairsParsed::Bad(er) => Parsed::Bad(er),
                            PairsParsed::Got(ps, m) => Parsed::Got(
                                FrameView::MapF(fold_map(ps)),
                                e + 2 + m,
                            ),
                        }
                    },
                }
            },
        }
    }
}

/// Parse `k` consecutive frames from the front of `b`.
pub open spec fn sp_elems(b: Seq<u8>, k: int) -> ElemsParsed
    decreases b.len(), 3int, k,
{
    if k <= 0 {
        ElemsParsed::Got(Seq::empty(), 0)
    } else {
        match sp_frame(b) {
            Parsed::More => ElemsParsed::More,
            Parsed::Bad(e) => ElemsParsed::Bad(e),
            Parsed::Got(v, n) => if !(0 < n <= b.len()) {
                ElemsParsed::Bad(RespError::InvalidFrame)
            } else {
                match sp_elems(b.skip(n), k - 1) {
                    ElemsParsed::More => ElemsParsed::More,
                    ElemsParsed::Bad(e) => ElemsParsed::Bad(e),
                    ElemsParsed::Got(vs, m) => ElemsParsed::Got(seq![v] + vs, n + m),
                }
            },
        }
    }
}

/// Parse `k` consecutive key-value entries from the front of `b`.
pub open spec fn sp_entries(b: Seq<u8>, k: int) -> PairsParsed
    decreases b.len(), 3int, k,
{
    if k <= 0 {
        PairsParsed::Got(Seq::empty(), 0)
    } else {
        match sp_simple(b) {
            Parsed::More => PairsParsed::More,
            Parsed::Bad(e) => PairsParsed::Bad(e),
            Parsed::Got(kv, kn) => if !(0 < kn <= b.len()) {
                PairsParsed::Bad(RespError::InvalidFrame)
            } else {
                match kv {
                    FrameView::Simple(s) => match sp_frame(b.skip(kn)) {
                        Parsed::More => PairsParsed::More,
                        Parsed::Bad(e) => PairsParsed::Bad(e),
                        Parsed::Got(v, vn) => if !(0 < vn && kn + vn <= b.len()) {
                            PairsParsed::Bad(RespError::InvalidFrame)
                        } else {
                            match sp_entries(b.skip(kn + vn), k - 1) {
                                PairsParsed::More => PairsParsed::More,
                                PairsParsed::Bad(e) => PairsParsed::Bad(e),
                                PairsParsed::Got(ps, m) => PairsParsed::Got(
                                    seq![(s, v)] + ps,
                                    kn + vn + m,
                                ),
                            }
                        },
                    },
                    _ => PairsParsed::Bad(RespError::InvalidFrame),
                }
            },
        }
    }
}

/// Parse one frame from the front of `b`, dispatching on the first byte.
pub open spec fn sp_frame(b: Seq<u8>) -> Parsed
    decreases b.len(), 2int, 0int,
{
    if b.len() == 0 {
        Parsed::More
    } else if b[0] == 43u8 {
        sp_simple(b)
    } else if b[0] == 45u8 {
        sp_error(b)
    } else if b[0] == 58u8 {
        sp_int(b)
    } else if b[0] == 36u8 {
        sp_bulk(b)
    } else if b[0] == 42u8 {
        sp_agg(b, 42u8)
    } else if b[0] == 95u8 {
        sp_null(b)
    } else if b[0] == 35u8 {
        sp_bool(b)
    } else if b[0] == 44u8 {
        sp_double(b)
    } else if b[0] == 37u8 {
        sp_map(b)
    } else if b[0] == 126u8 {
        sp_agg(b, 126u8)
    } else {
        Parsed::Bad(RespError::InvalidFrameType)
    }
}

/// Fold a run of wire-order entries into a key-sorted entry list.
pub open spec fn fold_map(ps: Seq<(Seq<u8>, FrameView)>) -> Seq<(Seq<u8>, FrameView)>
    decreases ps.len(),
{
    if ps.len() == 0 {
        Seq::empty()
    } else {
        map_insert(fold_map(ps.drop_last()), ps.last().0, ps.last().1)
    }
}

/// Length of one line-delimited frame: the offset of its terminator plus two.
pub open spec fn sp_line_len(b: Seq<u8>, prefix: u8) -> LenParsed {
    if b.len() < 3 {
        LenParsed::More
    } else if b[0] != prefix {
        LenParsed::Bad(RespError::InvalidFrameType)
    } else {
        match line_end(b) {
            None => LenParsed::More,
            Some(e) => LenParsed::Got(e + 2),
        }
    }
}

/// Length of a bulk string frame, checked against the buffer but without
/// validating the trailing terminator.
pub open spec fn sp_bulk_len(b: Seq<u8>) -> LenParsed {
    if b.len() < 3 {
        LenParsed::More
    } else if b[0] != 36u8 {
        LenParsed::Bad(RespError::InvalidFrameType)
    } else {
        match line_end(b) {
            None => LenParsed::More,
            Some(e) => match parse_i64(b.subrange(1, e)) {
                None => LenParsed::Bad(RespError::ParseIntError),
                Some(n) => if n == -1 {
                    LenParsed::Got(e + 2)
                } else if n < 0 {
                    LenParsed::Bad(RespError::InvalidFrameLength(n as i64))
                } else if b.len() < e + 4 + n {
                    LenParsed::More
                } else {
                    LenParsed::Got(e + 4 + n)
                },
            },
        }
    }
}

/// Length of an array or set frame: the header plus the summed lengths of its
/// elements.
pub open spec fn sp_agg_len(b: Seq<u8>, prefix: u8) -> LenParsed
    decreases b.len(), 1int, 0int,
{
    if b.len() < 3 {
        LenParsed::More
    } else if b[0] != prefix {
        LenParsed::Bad(RespError::InvalidFrameType)
    } else {
        match line_end(b) {
            None => LenParsed::More,
            Some(e) => if !(1 <= e && e + 2 <= b.len()) {
                LenParsed::Bad(RespError::InvalidFrame)
            } else {
                match parse_i64(b.subrange(1, e)) {
                    None => LenParsed::Bad(RespError::ParseIntError),
                    Some(n) => if prefix == 42u8 && n == -1 {
                        LenParsed::Got(e + 2)
                    } else if n < 0 {
                        LenParsed::Bad(RespError::InvalidFrameLength(n as i64))
                    } else {
                        match sp_len_items(b.skip(e + 2), n) {
                            LenParsed::More => LenParsed::More,
                            LenParsed::Bad(er) => LenParsed::Bad(er),
                            LenParsed::Got(m) => LenParsed::Got(e + 2 + m),
                        }
                    },
                }
            },
        }
    }
}

/// Length of a map frame: the header plus the summed lengths of its entries.
pub open spec fn sp_map_len(b: Seq<u8>) -> LenParsed
    decreases b.len(), 1int, 0int,
{
    if b.len() < 3 {
        LenParsed::More
    } else if b[0] != 37u8 {
        LenParsed::Bad(RespError::InvalidFrameType)
    } else {
        match line_end(b) {
            None => LenParsed::More,
            Some(e) => if !(1 <= e && e + 2 <= b.len()) {
                LenParsed::Bad(RespError::InvalidFrame)
            } else {
                match parse_i64(b.subrange(1, e)) {
                    None => LenParsed::Bad(RespError::ParseIntError),
                    Some(n) => if n < 0 {
                        LenParsed::Bad(RespError::InvalidFrameLength(n as i64))
                    } else {
                        match sp_len_entries(b.skip(e + 2), n) {
                            LenParsed::More => LenParsed::More,
                            LenParsed::Bad(er) => LenParsed::Bad(er),
                            LenParsed::Got(m) => LenParsed::Got(e + 2 + m),
                        }
                    },
                }
            },
        }
    }
}

/// Summed length of `k` consecutive frames.
pub open spec fn sp_len_items(b: Seq<u8>, k: int) -> LenParsed
    decreases b.len(), 3int, k,
{
    if k <= 0 {
        LenParsed::Got(0)
    } else {
        match sp_len_frame(b) {
            LenParsed::More => LenParsed::More,
            LenParsed::Bad(e) => LenParsed::Bad(e),
            LenParsed::Got(n) => if !(0 < n <= b.len()) {
                LenParsed::Bad(RespError::InvalidFrame)
            } else {
                match sp_len_items(b.skip(n), k - 1) {
                    LenParsed::More => LenParsed::More,
                    LenParsed::Bad(e) => LenParsed::Bad(e),
                    LenParsed::Got(m) => LenParsed::Got(n + m),
                }
            },
        }
    }
}

/// Summed length of `k` consecutive key-value entries.
pub open spec fn sp_len_entries(b: Seq<u8>, k: int) -> LenParsed
    decreases b.len(), 3int, k,
{
    if k <= 0 {
        LenParsed::Got(0)
    } else {
        match sp_line_len(b, 43u8) {
            LenParsed::More => LenParsed::More,
            LenParsed::Bad(e) => LenParsed::Bad(e),
            LenParsed::Got(kn) => if !(0 < kn <= b.len()) {
                LenParsed::Bad(RespError::InvalidFrame)
            } else {
                match sp_len_frame(b.skip(kn)) {
                    LenParsed::More => LenParsed::More,
                    LenParsed::Bad(e) => LenParsed::Bad(e),
                    LenParsed::Got(vn) => if !(0 < vn && kn + vn <= b.len()) {
                        LenParsed::Bad(RespError::InvalidFrame)
                    } else {
                        match sp_len_entries(b.skip(kn + vn), k - 1) {
                            LenParsed::More => LenParsed::More,
                            LenParsed::Bad(e) => LenParsed::Bad(e),
                            LenParsed::Got(m) => LenParsed::Got(kn + vn + m),
                        }
                    },
                }
            },
        }
    }
}

/// Length of one frame at the front of `b`.  An empty buffer and an unknown
/// prefix both report `More`, exactly as the executable scanner does.
pub open spec fn sp_len_frame(b: Seq<u8>) -> LenParsed
    decreases b.len(), 2int, 0int,
{
    if b.len() == 0 {
        LenParsed::More
    } else if b[0] == 43u8 || b[0] == 45u8 || b[0] == 58u8 || b[0] == 95u8 || b[0] == 35u8 || b[0]
        == 44u8 {
        sp_line_len(b, b[0])
    } else if b[0] == 36u8 {
        sp_bulk_len(b)
    } else if b[0] == 42u8 {
        sp_agg_len(b, 42u8)
    } else if b[0] == 126u8 {
        sp_agg_len(b, 126u8)
    } else if b[0] == 37u8 {
        sp_map_len(b)
    } else {
        LenParsed::More
    }
}

/// True when `p` is a prefix of `b`.
pub open spec fn starts_with_spec(b: Seq<u8>, p: Seq<u8>) -> bool {
    p.len() <= b.len() && b.subrange(0, p.len() as int) == p
}

/// Compare the front of `b` against `p`.
pub(crate) fn starts_with_bytes(b: &[u8], p: &[u8]) -> (r: bool)
    ensures
        r == starts_with_spec(b@, p@),
{
    let m = p.len();
    if m > b.len() {
        proof {
            assert(!starts_with_spec(b@, p@));
        }
        return false;
    }
    let mut i: usize = 0;
    while i < m
        invariant
            i <= m,
            m == p@.len(),
            m <= b@.len(),
            forall|j: int| 0 <= j < i ==> b@[j] == p@[j],
        decreases m - i,
    {
        if b[i] != p[i] {
            proof {
                assert(b@.subrange(0, m as int)[i as int] != p@[i as int]);
            }
            return false;
        }
        i = i + 1;
    }
    proof {
        assert(b@.subrange(0, m as int) =~= p@);
    }
    true
}

/// Index of the start of the `nth` CRLF pair, scanning from index 1.
pub fn find_crlf(buf: &[u8], nth: usize) -> (r: Option<usize>)
    ensures
        match r {
            Some(i) => find_crlf_at(buf@, 1, nth as int) == Some(i as int),
            None => find_crlf_at(buf@, 1, nth as int) is None,
        },
{
    let n = buf.len();
    let mut j: usize = 1;
    let mut left = nth;
    if nth == 0 {
        return None;
    }
    while j < n && j + 1 < n
        invariant
            1 <= j,
            n == buf@.len(),
            1 <= left <= nth,
            find_crlf_at(buf@, 1, nth as int) == find_crlf_at(buf@, j as int, left as int),
        decreases n - j,
    {
        if buf[j] == 13u8 && buf[j + 1] == 10u8 {
            if left == 1 {
                return Some(j);
            }
            left = left - 1;
        }
        j = j + 1;
    }
    None
}

/// Find the end of a line-delimited frame that starts at `pos`: the relative
/// offset of its CRLF terminator, searched from relative offset 1.
pub(crate) fn find_line_end(buf: &[u8], pos: usize) -> (r: Option<usize>)
    requires
        pos <= buf.len(),
    ensures
        match r {
            Some(e) => {
                &&& line_end(buf@.skip(pos as int)) == Some(e as int)
                &&& 1 <= e
                &&& pos + e + 2 <= buf.len()
            },
            None => line_end(buf@.skip(pos as int)) is None,
        },
{
    let ghost b = buf@.skip(pos as int);
    let n = buf.len();
    if pos >= n {
        return None;
    }
    let mut j: usize = pos + 1;
    while j < n && j + 1 < n
        invariant
            pos + 1 <= j <= n,
            pos < n,
            n == buf@.len(),
            b == buf@.skip(pos as int),
            line_end(b) == find_crlf_at(b, (j - pos) as int, 1),
        decreases n - j,
    {
        proof {
            assert(b[(j - pos) as int] == buf@[j as int]);
            assert(b[(j - pos) as int + 1] == buf@[j as int + 1]);
        }
        if buf[j] == 13u8 && buf[j + 1] == 10u8 {
            return Some(j - pos);
        }
        j = j + 1;
    }
    proof {
        assert(find_crlf_at(b, (j - pos) as int, 1) is None);
    }
    None
}

/// Locate the payload of a line-delimited frame: length check, prefix check,
/// then the offset of the terminating CRLF.
pub fn extract_simple_frame_data(buf: &[u8], prefix: &[u8]) -> (r: Result<usize, RespError>)
    ensures
        match r {
            Ok(e) => {
                &&& buf@.len() >= 3
                &&& starts_with_spec(buf@, prefix@)
                &&& line_end(buf@) == Some(e as int)
                &&& 1 <= e
                &&& e + 2 <= buf@.len()
            },
            Err(RespError::NotComplete) => buf@.len() < 3 || (starts_with_spec(buf@, prefix@)
                && line_end(buf@) is None),
            Err(RespError::InvalidFrameType) => buf@.len() >= 3 && !starts_with_spec(buf@, prefix@),
            Err(_) => false,
        },
{
    if buf.len() < 3 {
        return Err(RespError::NotComplete);
    }
    if !starts_with_bytes(buf, prefix) {
        return Err(RespError::InvalidFrameType);
    }
    proof {
        assert(buf@.skip(0) =~= buf@);
    }
    match find_line_end(buf, 0) {
        Some(e) => Ok(e),
        None => Err(RespError::NotComplete),
    }
}

/// Read a `<prefix><decimal>\r\n` header that starts at `pos`: the parsed
/// count and the absolute position just past the terminator.
pub(crate) fn read_line_int(buf: &[u8], pos: usize) -> (r: Result<(i64, usize), RespError>)
    requires
        pos < buf.len(),
    ensures
        ({
            let b = buf@.skip(pos as int);
            match r {
                Ok((n, q)) => {
                    &&& b.len() >= 3
                    &&& line_end(b) is Some
                    &&& ({
                        let e = line_end(b)->Some_0;
                        &&& 1 <= e
                        &&& e + 2 <= b.len()
                        &&& parse_i64(b.subrange(1, e)) == Some(n as int)
                        &&& q == pos + e + 2
                        &&& q <= buf.len()
                    })
                },
                Err(RespError::NotComplete) => b.len() < 3 || line_end(b) is None,
                Err(RespError::ParseIntError) => b.len() >= 3 && line_end(b) is Some && ({
                    let e = line_end(b)->Some_0;
                    &&& 1 <= e
                    &&& e + 2 <= b.len()
                    &&& parse_i64(b.subrange(1, e)) is None
                }),
                Err(_) => false,
            }
        }),
{
    let ghost b = buf@.skip(pos as int);
    if buf.len() - pos < 3 {
        return Err(RespError::NotComplete);
    }
    match find_line_end(buf, pos) {
        None => Err(RespError::NotComplete),
        Some(e) => {
            let payload = slice_subrange(buf, pos + 1, pos + e);
            proof {
                assert(payload@ =~= b.subrange(1, e as int));
            }
            match parse_int_bytes(payload) {
                Some(n) => Ok((n, pos + e + 2)),
                None => Err(RespError::ParseIntError),
            }
        },
    }
}

/// Prepend already-parsed elements and their consumed length to the outcome
/// of parsing the rest.
pub open spec fn elems_prepend(pre: Seq<FrameView>, used: int, r: ElemsParsed) -> ElemsParsed {
    match r {
        ElemsParsed::More => ElemsParsed::More,
        ElemsParsed::Bad(e) => ElemsParsed::Bad(e),
        ElemsParsed::Got(vs, m) => ElemsParsed::Got(pre + vs, used + m),
    }
}

/// Prepend already-parsed entries and their consumed length to the outcome of
/// parsing the rest.
pub open spec fn pairs_prepend(
    pre: Seq<(Seq<u8>, FrameView)>,
    used: int,
    r: PairsParsed,
) -> PairsParsed {
    match r {
        PairsParsed::More => PairsParsed::More,
        PairsParsed::Bad(e) => PairsParsed::Bad(e),
        PairsParsed::Got(ps, m) => PairsParsed::Got(pre + ps, used + m),
    }
}

/// Folding one more parsed element into the accumulator commutes with
/// prepending.
pub proof fn lemma_elems_prepend_fold(pre: Seq<FrameView>, used: int, v: FrameView, n: int, r: ElemsParsed)
    ensures
        elems_prepend(pre, used, elems_prepend(seq![v], n, r)) == elems_prepend(
            pre.push(v),
            used + n,
            r,
        ),
{
    match r {
        ElemsParsed::More => {},
        ElemsParsed::Bad(_) => {},
        ElemsParsed::Got(vs, m) => {
            assert(pre + (seq![v] + vs) =~= pre.push(v) + vs);
        },
    }
}

/// Folding one more parsed entry into the accumulator commutes with
/// prepending.
pub proof fn lemma_pairs_prepend_fold(
    pre: Seq<(Seq<u8>, FrameView)>,
    used: int,
    kv: (Seq<u8>, FrameView),
    n: int,
    r: PairsParsed,
)
    ensures
        pairs_prepend(pre, used, pairs_prepend(seq![kv], n, r)) == pairs_prepend(
            pre.push(kv),
            used + n,
            r,
        ),
{
    match r {
        PairsParsed::More => {},
        PairsParsed::Bad(_) => {},
        PairsParsed::Got(ps, m) => {
            assert(pre + (seq![kv] + ps) =~= pre.push(kv) + ps);
        },
    }
}
/// End of the run of digit bytes starting at `from`.
pub(crate) fn digits_end(s: &[u8], from: usize) -> (r: usize)
    requires
        from <= s.len(),
    ensures
        r == digits_run_end(s@, from as int),
        from <= r <= s.len(),
{
    let n = s.len();
    let mut i: usize = from;
    while i < n && s[i] >= 48u8 && s[i] <= 57u8
        invariant
            from <= i <= n,
            n == s@.len(),
            digits_run_end(s@, from as int) == digits_run_end(s@, i as int),
        decreases n - i,
    {
        i = i + 1;
    }
    i
}

/// Check a double payload against the rendered-decimal grammar.
pub(crate) fn is_double_text(s: &[u8]) -> (r: bool)
    ensures
        r == double_text(s@),
{
    let n = s.len();
    let i0: usize = if n > 0 && (s[0] == 43u8 || s[0] == 45u8) {
        1
    } else {
        0
    };
    let p = digits_end(s, i0);
    if p <= i0 {
        return false;
    }
    let q: usize = if p < n && s[p] == 46u8 {
        let r1 = digits_end(s, p + 1);
        if r1 <= p + 1 {
            return false;
        }
        r1
    } else {
        p
    };
    if q < n && (s[q] == 101u8 || s[q] == 69u8) {
        let r0: usize = if q + 1 < n && (s[q + 1] == 43u8 || s[q + 1] == 45u8) {
            q + 2
        } else {
            q + 1
        };
        let r2 = digits_end(s, r0);
        r2 > r0 && r2 == n
    } else {
        q == n
    }
}

/// How the result of one executable parsing step must relate to a
/// specification-parser outcome.
pub open spec fn leaf_matches(
    b: Seq<u8>,
    pos: int,
    sp: Parsed,
    r: Result<(RespFrame, usize), RespError>,
) -> bool {
    match sp {
        Parsed::Got(v, n) => {
            &&& r is Ok
            &&& r->Ok_0.0@ == v
            &&& r->Ok_0.1 == pos + n
            &&& 0 < n <= b.len()
        },
        Parsed::More => r == Err::<(RespFrame, usize), RespError>(RespError::NotComplete),
        Parsed::Bad(e) => r == Err::<(RespFrame, usize), RespError>(e),
    }
}

/// How the executable frame parser must relate to the specification parser.
pub open spec fn step_matches(
    b: Seq<u8>,
    pos: int,
    r: Result<(RespFrame, usize), RespError>,
) -> bool {
    leaf_matches(b, pos, sp_frame(b), r)
}

/// Parse a simple string starting at `pos`.
pub(crate) fn parse_simple_at(buf: &[u8], pos: usize) -> (r: Result<(RespFrame, usize), RespError>)
    requires
        pos <= buf.len(),
    ensures
        leaf_matches(buf@.skip(pos as int), pos as int, sp_simple(buf@.skip(pos as int)), r),
{
    let ghost b = buf@.skip(pos as int);
    if buf.len() - pos < 3 {
        return Err(RespError::NotComplete);
    }
    if buf[pos] != 43u8 {
        proof {
            assert(b[0] == buf@[pos as int]);
        }
        return Err(RespError::InvalidFrameType);
    }
    proof {
        assert(b[0] == buf@[pos as int]);
    }
    match find_line_end(buf, pos) {
        None => Err(RespError::NotComplete),
        Some(e) => {
            let payload = slice_to_vec(slice_subrange(buf, pos + 1, pos + e));
            proof {
                assert(payload@ =~= b.subrange(1, e as int));
            }
            Ok((RespFrame::SimpleString(SimpleString(payload)), pos + e + 2))
        },
    }
}

/// Parse a simple error starting at `pos`.
pub(crate) fn parse_error_at(buf: &[u8], pos: usize) -> (r: Result<(RespFrame, usize), RespError>)
    requires
        pos < buf.len(),
        buf@[pos as int] == 45u8,
    ensures
        leaf_matches(buf@.skip(pos as int), pos as int, sp_error(buf@.skip(pos as int)), r),
{
    let ghost b = buf@.skip(pos as int);
    proof {
        assert(b[0] == buf@[pos as int]);
    }
    if buf.len() - pos < 3 {
        return Err(RespError::NotComplete);
    }
    match find_line_end(buf, pos) {
        None => Err(RespError::NotComplete),
        Some(e) => {
            let payload = slice_to_vec(slice_subrange(buf, pos + 1, pos + e));
            proof {
                assert(payload@ =~= b.subrange(1, e as int));
            }
            Ok((RespFrame::Error(SimpleError(payload)), pos + e + 2))
        },
    }
}

/// Parse an integer frame starting at `pos`.
pub(crate) fn parse_int_at(buf: &[u8], pos: usize) -> (r: Result<(RespFrame, usize), RespError>)
    requires
        pos < buf.len(),
        buf@[pos as int] == 58u8,
    ensures
        leaf_matches(buf@.skip(pos as int), pos as int, sp_int(buf@.skip(pos as int)), r),
{
    let ghost b = buf@.skip(pos as int);
    proof {
        assert(b[0] == buf@[pos as int]);
    }
    match read_line_int(buf, pos) {
        Err(e) => Err(e),
        Ok((v, q)) => Ok((RespFrame::Integer(v), q)),
    }
}

/// Parse a double frame starting at `pos`, validating the payload against the
/// rendered-decimal grammar.
pub(crate) fn parse_double_at(buf: &[u8], pos: usize) -> (r: Result<(RespFrame, usize), RespError>)
    requires
        pos < buf.len(),
        buf@[pos as int] == 44u8,
    ensures
        leaf_matches(buf@.skip(pos as int), pos as int, sp_double(buf@.skip(pos as int)), r),
{
    let ghost b = buf@.skip(pos as int);
    proof {
        assert(b[0] == buf@[pos as int]);
    }
    if buf.len() - pos < 3 {
        return Err(RespError::NotComplete);
    }
    match find_line_end(buf, pos) {
        None => Err(RespError::NotComplete),
        Some(e) => {
            let payload = slice_subrange(buf, pos + 1, pos + e);
            proof {
                assert(payload@ =~= b.subrange(1, e as int));
            }
            if is_double_text(payload) {
                let text = slice_to_vec(payload);
                Ok((RespFrame::Double(text), pos + e + 2))
            } else {
                Err(RespError::ParseFloatError)
            }
        },
    }
}

/// Parse the null frame starting at `pos`.
pub(crate) fn parse_null_at(buf: &[u8], pos: usize) -> (r: Result<(RespFrame, usize), RespError>)
    requires
        pos < buf.len(),
        buf@[pos as int] == 95u8,
    ensures
        leaf_matches(buf@.skip(pos as int), pos as int, sp_null(buf@.skip(pos as int)), r),
{
    let ghost b = buf@.skip(pos as int);
    proof {
        assert(b[0] == buf@[pos as int]);
    }
    if buf.len() - pos < 3 {
        return Err(RespError::NotComplete);
    }
    proof {
        assert(b[1] == buf@[pos as int + 1]);
        assert(b[2] == buf@[pos as int + 2]);
    }
    if buf[pos + 1] == 13u8 && buf[pos + 2] == 10u8 {
        Ok((RespFrame::Null(RespNull), pos + 3))
    } else {
        Err(RespError::InvalidFrameType)
    }
}

/// Parse a boolean frame starting at `pos`.
pub(crate) fn parse_bool_at(buf: &[u8], pos: usize) -> (r: Result<(RespFrame, usize), RespError>)
    requires
        pos < buf.len(),
        buf@[pos as int] == 35u8,
    ensures
        leaf_matches(buf@.skip(pos as int), pos as int, sp_bool(buf@.skip(pos as int)), r),
{
    let ghost b = buf@.skip(pos as int);
    proof {
        assert(b[0] == buf@[pos as int]);
    }
    if buf.len() - pos < 4 {
        return Err(RespError::NotComplete);
    }
    proof {
        assert(b[1] == buf@[pos as int + 1]);
        assert(b[2] == buf@[pos as int + 2]);
        assert(b[3] == buf@[pos as int + 3]);
    }
    if buf[pos + 1] == 116u8 && buf[pos + 2] == 13u8 && buf[pos + 3] == 10u8 {
        Ok((RespFrame::Boolean(true), pos + 4))
    } else if buf[pos + 1] == 102u8 && buf[pos + 2] == 13u8 && buf[pos + 3] == 10u8 {
        Ok((RespFrame::Boolean(false), pos + 4))
    } else {
        Err(RespError::InvalidFrameType)
    }
}

/// Parse a bulk string starting at `pos`, including the legacy null form.
pub(crate) fn parse_bulk_at(buf: &[u8], pos: usize) -> (r: Result<(RespFrame, usize), RespError>)
    requires
        pos < buf.len(),
        buf@[pos as int] == 36u8,
    ensures
        leaf_matches(buf@.skip(pos as int), pos as int, sp_bulk(buf@.skip(pos as int)), r),
{
    let ghost b = buf@.skip(pos as int);
    proof {
        assert(b[0] == buf@[pos as int]);
    }
    match read_line_int(buf, pos) {
        Err(e) => Err(e),
        Ok((n, q)) => {
            let ghost e = line_end(b)->Some_0;
            if n == -1 {
                return Ok((RespFrame::BulkString(BulkString(Vec::new())), q));
            }
            if n < 0 {
                return Err(RespError::InvalidFrameLength(n));
            }
            let rem = buf.len() - q;
            if n as u128 + 2 > rem as u128 {
                proof {
                    assert(b.len() < e + 4 + n);
                }
                return Err(RespError::NotComplete);
            }
            let nn = n as usize;
            proof {
                assert(b[e + 2 + n] == buf@[q as int + nn as int]);
                assert(b[e + 3 + n] == buf@[q as int + nn as int + 1]);
            }
            if buf[q + nn] == 13u8 && buf[q + nn + 1] == 10u8 {
                let payload = slice_to_vec(slice_subrange(buf, q, q + nn));
                proof {
                    assert(payload@ =~= b.subrange(e + 2, e + 2 + n));
                }
                Ok((RespFrame::BulkString(BulkString(payload)), q + nn + 2))
            } else {
                Err(RespError::InvalidFrameLength(n))
            }
        },
    }
}

/// `elems_prepend` with nothing parsed yet is the identity.
proof fn lemma_elems_prepend_id(r: ElemsParsed)
    ensures
        elems_prepend(Seq::empty(), 0, r) == r,
{
    match r {
        ElemsParsed::Got(vs, m) => {
            assert(Seq::<FrameView>::empty() + vs =~= vs);
        },
        _ => {},
    }
}

/// `pairs_prepend` with nothing parsed yet is the identity.
proof fn lemma_pairs_prepend_id(r: PairsParsed)
    ensures
        pairs_prepend(Seq::empty(), 0, r) == r,
{
    match r {
        PairsParsed::Got(ps, m) => {
            assert(Seq::<(Seq<u8>, FrameView)>::empty() + ps =~= ps);
        },
        _ => {},
    }
}

/// Parse an array or set frame starting at `pos`: the count header, then that
/// many elements.
pub(crate) fn parse_agg_at(buf: &[u8], pos: usize, prefix: u8) -> (r: Result<
    (RespFrame, usize),
    RespError,
>)
    requires
        pos < buf.len(),
        buf@[pos as int] == prefix,
        prefix == 42u8 || prefix == 126u8,
    ensures
        leaf_matches(buf@.skip(pos as int), pos as int, sp_agg(buf@.skip(pos as int), prefix), r),
    decreases buf.len() - pos, 0int,
{
    let ghost b = buf@.skip(pos as int);
    proof {
        assert(b[0] == buf@[pos as int]);
    }
    let n = buf.len();
    match read_line_int(buf, pos) {
        Err(err) => Err(err),
        Ok((cnt, q0)) => {
            let ghost e = line_end(b)->Some_0;
            if prefix == 42u8 && cnt == -1 {
                let empty: Vec<RespFrame> = Vec::new();
                let frame = RespFrame::Array(RespArray(empty));
                proof {
                    assert(views_of(Seq::<RespFrame>::empty()) =~= Seq::<FrameView>::empty());
                    assert(frame@ == FrameView::Arr(Seq::<FrameView>::empty()));
                }
                return Ok((frame, q0));
            }
            if cnt < 0 {
                return Err(RespError::InvalidFrameLength(cnt));
            }
            let mut elems: Vec<RespFrame> = Vec::new();
            let mut q: usize = q0;
            let mut i: i64 = 0;
            proof {
                assert(b.skip(e + 2) =~= buf@.skip(q0 as int));
                lemma_elems_prepend_id(sp_elems(buf@.skip(q0 as int), cnt as int));
                assert(views_of(elems@) =~= Seq::<FrameView>::empty());
            }
            while i < cnt
                invariant
                    0 <= i <= cnt,
                    pos < q0 <= q <= n,
                    n == buf@.len(),
                    b == buf@.skip(pos as int),
                    b.len() >= 3,
                    b[0] == prefix,
                    prefix == 42u8 || prefix == 126u8,
                    line_end(b) == Some(e),
                    1 <= e,
                    e + 2 <= b.len(),
                    parse_i64(b.subrange(1, e)) == Some(cnt as int),
                    q0 == pos + e + 2,
                    cnt >= 0,
                    buf@.skip(q0 as int) == b.skip(e + 2),
                    elems@.len() == i,
                    sp_elems(buf@.skip(q0 as int), cnt as int) == elems_prepend(
                        views_of(elems@),
                        q - q0,
                        sp_elems(buf@.skip(q as int), cnt - i),
                    ),
                decreases cnt - i,
            {
                let step = parse_at(buf, q);
                match step {
                    Err(err) => {
                        proof {
                            assert(sp_elems(buf@.skip(q as int), cnt - i) is More ==> sp_elems(
                                buf@.skip(q0 as int),
                                cnt as int,
                            ) is More);
                        }
                        return Err(err);
                    },
                    Ok((f, q2)) => {
                        proof {
                            let bq = buf@.skip(q as int);
                            assert(bq.skip(q2 - q) =~= buf@.skip(q2 as int));
                            lemma_elems_prepend_fold(
                                views_of(elems@),
                                q - q0,
                                f@,
                                q2 - q,
                                sp_elems(buf@.skip(q2 as int), cnt - i - 1),
                            );
                            assert(views_of(elems@).push(f@) =~= views_of(elems@.push(f)));
                        }
                        elems.push(f);
                        q = q2;
                        i = i + 1;
                    },
                }
            }
            proof {
                assert(sp_elems(buf@.skip(q as int), 0) == ElemsParsed::Got(
                    Seq::<FrameView>::empty(),
                    0,
                ));
                assert(views_of(elems@) + Seq::<FrameView>::empty() =~= views_of(elems@));
                assert(sp_elems(buf@.skip(q0 as int), cnt as int) == ElemsParsed::Got(
                    views_of(elems@),
                    (q - q0) as int,
                ));
                assert(sp_elems(b.skip(e + 2), cnt as int) == ElemsParsed::Got(
                    views_of(elems@),
                    (q - q0) as int,
                ));
                assert(sp_agg(b, prefix) == Parsed::Got(
                    if prefix == 42u8 {
                        FrameView::Arr(views_of(elems@))
                    } else {
                        FrameView::SetF(views_of(elems@))
                    },
                    e + 2 + (q - q0),
                ));
                assert(pos + (e + 2 + (q - q0)) == q);
            }
            if prefix == 42u8 {
                Ok((RespFrame::Array(RespArray(elems)), q))
            } else {
                Ok((RespFrame::SetFrame(RespSet(elems)), q))
            }
        },
    }
}

/// Parse a map frame starting at `pos`: the count header, then that many
/// key-value entries, folded into a key-sorted map.
pub(crate) fn parse_map_at(buf: &[u8], pos: usize) -> (r: Result<(RespFrame, usize), RespError>)
    requires
        pos < buf.len(),
        buf@[pos as int] == 37u8,
    ensures
        leaf_matches(buf@.skip(pos as int), pos as int, sp_map(buf@.skip(pos as int)), r),
    decreases buf.len() - pos, 0int,
{
    let ghost b = buf@.skip(pos as int);
    proof {
        assert(b[0] == buf@[pos as int]);
    }
    let n = buf.len();
    match read_line_int(buf, pos) {
        Err(err) => Err(err),
        Ok((cnt, q0)) => {
            let ghost e = line_end(b)->Some_0;
            if cnt < 0 {
                return Err(RespError::InvalidFrameLength(cnt));
            }
            let mut m = RespMap::new();
            let ghost mut gps: Seq<(Seq<u8>, FrameView)> = Seq::empty();
            let mut q: usize = q0;
            let mut i: i64 = 0;
            proof {
                assert(b.skip(e + 2) =~= buf@.skip(q0 as int));
                lemma_pairs_prepend_id(sp_entries(buf@.skip(q0 as int), cnt as int));
                assert(m@ == fold_map(gps));
            }
            while i < cnt
                invariant
                    0 <= i <= cnt,
                    pos < q0 <= q <= n,
                    n == buf@.len(),
                    b == buf@.skip(pos as int),
                    b.len() >= 3,
                    b[0] == 37u8,
                    line_end(b) == Some(e),
                    1 <= e,
                    e + 2 <= b.len(),
                    parse_i64(b.subrange(1, e)) == Some(cnt as int),
                    q0 == pos + e + 2,
                    cnt >= 0,
                    buf@.skip(q0 as int) == b.skip(e + 2),
                    m@ == fold_map(gps),
                    sp_entries(buf@.skip(q0 as int), cnt as int) == pairs_prepend(
                        gps,
                        q - q0,
                        sp_entries(buf@.skip(q as int), cnt - i),
                    ),
                decreases cnt - i,
            {
                let kr = parse_simple_at(buf, q);
                match kr {
                    Err(err) => {
                        return Err(err);
                    },
                    Ok((kf, q1)) => {
                        match kf {
                            RespFrame::SimpleString(ks) => {
                                let vr = parse_at(buf, q1);
                                match vr {
                                    Err(err) => {
                                        proof {
                                            let bq = buf@.skip(q as int);
                                            assert(bq.skip(q1 - q) =~= buf@.skip(q1 as int));
                                        }
                                        return Err(err);
                                    },
                                    Ok((vf, q2)) => {
                                        let ghost kv = (ks.0@, vf@);
                                        proof {
                                            let bq = buf@.skip(q as int);
                                            assert(bq.skip(q1 - q) =~= buf@.skip(q1 as int));
                                            assert(bq.skip(q2 - q) =~= buf@.skip(q2 as int));
                                            lemma_pairs_prepend_fold(
                                                gps,
                                                q - q0,
                                                kv,
                                                q2 - q,
                                                sp_entries(buf@.skip(q2 as int), cnt - i - 1),
                                            );
                                            assert(gps.push(kv).drop_last() =~= gps);
                                            assert(gps.push(kv).last() == kv);
                                        }
                                        m.insert(ks.0, vf);
                                        proof {
                                            gps = gps.push(kv);
                                            assert(m@ == fold_map(gps));
                                        }
                                        q = q2;
                                        i = i + 1;
                                    },
                                }
                            },
                            _ => {
                                proof {
                                    assert(false);
                                }
                                return Err(RespError::InvalidFrame);
                            },
                        }
                    },
                }
            }
            proof {
                assert(sp_entries(buf@.skip(q as int), 0) == PairsParsed::Got(
                    Seq::<(Seq<u8>, FrameView)>::empty(),
                    0,
                ));
                assert(gps + Seq::<(Seq<u8>, FrameView)>::empty() =~= gps);
                assert(sp_entries(buf@.skip(q0 as int), cnt as int) == PairsParsed::Got(
                    gps,
                    (q - q0) as int,
                ));
                assert(sp_entries(b.skip(e + 2), cnt as int) == PairsParsed::Got(
                    gps,
                    (q - q0) as int,
                ));
                assert(sp_map(b) == Parsed::Got(FrameView::MapF(fold_map(gps)), e + 2 + (q - q0)));
                assert(pos + (e + 2 + (q - q0)) == q);
            }
            let frame = RespFrame::MapFrame(m);
            proof {
                assert(frame@ == FrameView::MapF(fold_map(gps)));
            }
            Ok((frame, q))
        },
    }
}

/// Parse one frame starting at `pos`, dispatching on its first byte.
pub(crate) fn parse_at(buf: &[u8], pos: usize) -> (r: Result<(RespFrame, usize), RespError>)
    requires
        pos <= buf.len(),
    ensures
        step_matches(buf@.skip(pos as int), pos as int, r),
    decreases buf.len() - pos, 1int,
{
    let ghost b = buf@.skip(pos as int);
    if pos == buf.len() {
        return Err(RespError::NotComplete);
    }
    let c = buf[pos];
    proof {
        assert(b[0] == buf@[pos as int]);
    }
    if c == 43u8 {
        parse_simple_at(buf, pos)
    } else if c == 45u8 {
        parse_error_at(buf, pos)
    } else if c == 58u8 {
        parse_int_at(buf, pos)
    } else if c == 36u8 {
        parse_bulk_at(buf, pos)
    } else if c == 42u8 {
        parse_agg_at(buf, pos, 42u8)
    } else if c == 95u8 {
        parse_null_at(buf, pos)
    } else if c == 35u8 {
        parse_bool_at(buf, pos)
    } else if c == 44u8 {
        parse_double_at(buf, pos)
    } else if c == 37u8 {
        parse_map_at(buf, pos)
    } else if c == 126u8 {
        parse_agg_at(buf, pos, 126u8)
    } else {
        Err(RespError::InvalidFrameType)
    }
}
/// Prepend an already-measured span to the outcome of measuring the rest.
pub open spec fn len_prepend(used: int, r: LenParsed) -> LenParsed {
    match r {
        LenParsed::More => LenParsed::More,
        LenParsed::Bad(e) => LenParsed::Bad(e),
        LenParsed::Got(m) => LenParsed::Got(used + m),
    }
}

/// How an executable length computation must relate to a specification
/// outcome: on success it reports the absolute end of the span.
pub open spec fn len_matches(
    b: Seq<u8>,
    pos: int,
    sp: LenParsed,
    r: Result<usize, RespError>,
) -> bool {
    match sp {
        LenParsed::Got(m) => r is Ok && r->Ok_0 == pos + m && 0 < m <= b.len(),
        LenParsed::More => r == Err::<usize, RespError>(RespError::NotComplete),
        LenParsed::Bad(e) => r == Err::<usize, RespError>(e),
    }
}

/// Length of a line-delimited frame starting at `pos`, checked against the
/// given prefix byte.
pub(crate) fn expect_line_len_at(buf: &[u8], pos: usize, prefix: u8) -> (r: Result<
    usize,
    RespError,
>)
    requires
        pos <= buf.len(),
    ensures
        len_matches(buf@.skip(pos as int), pos as int, sp_line_len(buf@.skip(pos as int), prefix), r),
{
    let ghost b = buf@.skip(pos as int);
    if buf.len() - pos < 3 {
        return Err(RespError::NotComplete);
    }
    proof {
        assert(b[0] == buf@[pos as int]);
    }
    if buf[pos] != prefix {
        return Err(RespError::InvalidFrameType);
    }
    match find_line_end(buf, pos) {
        None => Err(RespError::NotComplete),
        Some(e) => Ok(pos + e + 2),
    }
}

/// Length of a bulk string frame starting at `pos`.
pub(crate) fn expect_bulk_len_at(buf: &[u8], pos: usize) -> (r: Result<usize, RespError>)
    requires
        pos < buf.len(),
        buf@[pos as int] == 36u8,
    ensures
        len_matches(buf@.skip(pos as int), pos as int, sp_bulk_len(buf@.skip(pos as int)), r),
{
    let ghost b = buf@.skip(pos as int);
    proof {
        assert(b[0] == buf@[pos as int]);
    }
    match read_line_int(buf, pos) {
        Err(err) => Err(err),
        Ok((n, q)) => {
            if n == -1 {
                return Ok(q);
            }
            if n < 0 {
                return Err(RespError::InvalidFrameLength(n));
            }
            let rem = buf.len() - q;
            if n as u128 + 2 > rem as u128 {
                return Err(RespError::NotComplete);
            }
            Ok(q + n as usize + 2)
        },
    }
}

/// Summed length of `k` consecutive frames starting at `start`; on success
/// the absolute end of the run.
pub(crate) fn expect_items_len(buf: &[u8], start: usize, k: i64) -> (r: Result<usize, RespError>)
    requires
        start <= buf.len(),
        k >= 0,
    ensures
        match sp_len_items(buf@.skip(start as int), k as int) {
            LenParsed::Got(m) => r is Ok && r->Ok_0 == start + m && start <= start + m <= buf.len(),
            LenParsed::More => r == Err::<usize, RespError>(RespError::NotComplete),
            LenParsed::Bad(e) => r == Err::<usize, RespError>(e),
        },
    decreases buf.len() - start, 2int, 0int,
{
    let n = buf.len();
    let mut q: usize = start;
    let mut i: i64 = 0;
    while i < k
        invariant
            0 <= i <= k,
            start <= q <= n,
            n == buf@.len(),
            sp_len_items(buf@.skip(start as int), k as int) == len_prepend(
                q - start,
                sp_len_items(buf@.skip(q as int), k - i),
            ),
        decreases k - i,
    {
        let step = expect_len_at(buf, q);
        match step {
            Err(err) => {
                return Err(err);
            },
            Ok(q2) => {
                proof {
                    let bq = buf@.skip(q as int);
                    assert(bq.skip(q2 - q) =~= buf@.skip(q2 as int));
                }
                q = q2;
                i = i + 1;
            },
        }
    }
    proof {
        assert(sp_len_items(buf@.skip(q as int), 0) == LenParsed::Got(0));
    }
    Ok(q)
}

/// Summed length of `k` consecutive key-value entries starting at `start`.
pub(crate) fn expect_entries_len(buf: &[u8], start: usize, k: i64) -> (r: Result<usize, RespError>)
    requires
        start <= buf.len(),
        k >= 0,
    ensures
        match sp_len_entries(buf@.skip(start as int), k as int) {
            LenParsed::Got(m) => r is Ok && r->Ok_0 == start + m && start <= start + m <= buf.len(),
            LenParsed::More => r == Err::<usize, RespError>(RespError::NotComplete),
            LenParsed::Bad(e) => r == Err::<usize, RespError>(e),
        },
    decreases buf.len() - start, 2int, 0int,
{
    let n = buf.len();
    let mut q: usize = start;
    let mut i: i64 = 0;
    while i < k
        invariant
            0 <= i <= k,
            start <= q <= n,
            n == buf@.len(),
            sp_len_entries(buf@.skip(start as int), k as int) == len_prepend(
                q - start,
                sp_len_entries(buf@.skip(q as int), k - i),
            ),
        decreases k - i,
    {
        let kstep = expect_line_len_at(buf, q, 43u8);
        match kstep {
            Err(err) => {
                return Err(err);
            },
            Ok(q1) => {
                proof {
                    let bq = buf@.skip(q as int);
                    assert(bq.skip(q1 - q) =~= buf@.skip(q1 as int));
                }
                let vstep = expect_len_at(buf, q1);
                match vstep {
                    Err(err) => {
                        return Err(err);
                    },
                    Ok(q2) => {
                        proof {
                            let bq = buf@.skip(q as int);
                            assert(bq.skip(q2 - q) =~= buf@.skip(q2 as int));
                        }
                        q = q2;
                        i = i + 1;
                    },
                }
            },
        }
    }
    proof {
        assert(sp_len_entries(buf@.skip(q as int), 0) == LenParsed::Got(0));
    }
    Ok(q)
}

/// Length of one frame starting at `pos`: on success the absolute end of the
/// frame.
pub(crate) fn expect_len_at(buf: &[u8], pos: usize) -> (r: Result<usize, RespError>)
    requires
        pos <= buf.len(),
    ensures
        match sp_len_frame(buf@.skip(pos as int)) {
            LenParsed::Got(m) => r is Ok && r->Ok_0 == pos + m && pos < r->Ok_0 <= buf.len(),
            LenParsed::More => r == Err::<usize, RespError>(RespError::NotComplete),
            LenParsed::Bad(e) => r == Err::<usize, RespError>(e),
        },
    decreases buf.len() - pos, 1int, 0int,
{
    let ghost b = buf@.skip(pos as int);
    if pos == buf.len() {
        return Err(RespError::NotComplete);
    }
    let c = buf[pos];
    proof {
        assert(b[0] == buf@[pos as int]);
    }
    if c == 43u8 || c == 45u8 || c == 58u8 || c == 95u8 || c == 35u8 || c == 44u8 {
        expect_line_len_at(buf, pos, c)
    } else if c == 36u8 {
        expect_bulk_len_at(buf, pos)
    } else if c == 42u8 || c == 126u8 || c == 37u8 {
        match read_line_int(buf, pos) {
            Err(err) => Err(err),
            Ok((cnt, q0)) => {
                let ghost e = line_end(b)->Some_0;
                proof {
                    assert(b.skip(e + 2) =~= buf@.skip(q0 as int));
                }
                if c == 42u8 && cnt == -1 {
                    return Ok(q0);
                }
                if cnt < 0 {
                    return Err(RespError::InvalidFrameLength(cnt));
                }
                if c == 37u8 {
                    match expect_entries_len(buf, q0, cnt) {
                        Err(err) => Err(err),
                        Ok(q) => Ok(q),
                    }
                } else {
                    match expect_items_len(buf, q0, cnt) {
                        Err(err) => Err(err),
                        Ok(q) => Ok(q),
                    }
                }
            },
        }
    } else {
        Err(RespError::NotComplete)
    }
}
/// Parse an aggregate header: the offset of its line terminator and the
/// declared non-negative count.  A negative, malformed or oversized count is
/// a `ParseIntError`, exactly as a count that does not parse as `usize`.
pub fn parse_length(buf: &[u8], prefix: &[u8]) -> (r: Result<(usize, usize), RespError>)
    ensures
        match r {
            Ok((end, len)) => {
                &&& buf@.len() >= 3
                &&& starts_with_spec(buf@, prefix@)
                &&& line_end(buf@) == Some(end as int)
                &&& prefix@.len() <= end
                &&& parse_i64(buf@.subrange(prefix@.len() as int, end as int)) == Some(len as int)
            },
            Err(RespError::NotComplete) => buf@.len() < 3 || (starts_with_spec(buf@, prefix@)
                && line_end(buf@) is None),
            Err(RespError::InvalidFrameType) => buf@.len() >= 3 && !starts_with_spec(buf@, prefix@),
            Err(RespError::ParseIntError) => buf@.len() >= 3 && starts_with_spec(buf@, prefix@)
                && line_end(buf@) is Some && ({
                let e = line_end(buf@)->Some_0;
                ||| prefix@.len() > e
                ||| parse_i64(buf@.subrange(prefix@.len() as int, e)) is None
                ||| parse_i64(buf@.subrange(prefix@.len() as int, e))->Some_0 < 0
                ||| parse_i64(buf@.subrange(prefix@.len() as int, e))->Some_0 > usize::MAX
            }),
            Err(_) => false,
        },
{
    let end = match extract_simple_frame_data(buf, prefix) {
        Ok(e) => e,
        Err(e) => {
            return Err(e);
        },
    };
    if prefix.len() > end {
        return Err(RespError::ParseIntError);
    }
    let payload = slice_subrange(buf, prefix.len(), end);
    match parse_int_bytes(payload) {
        None => Err(RespError::ParseIntError),
        Some(v) => {
            if v < 0 {
                return Err(RespError::ParseIntError);
            }
            if v as u128 > usize::MAX as u128 {
                return Err(RespError::ParseIntError);
            }
            Ok((end, v as usize))
        },
    }
}

/// Total length of an aggregate frame whose header has already been parsed:
/// for arrays and sets, the header plus the summed element lengths; for maps,
/// the header plus the summed entry lengths; for any other prefix, the
/// declared length plus the final line terminator.
pub fn calc_total_length(buf: &[u8], end: usize, len: usize, prefix: &[u8]) -> (r: Result<
    usize,
    RespError,
>)
    requires
        end + 2 <= buf@.len(),
        len + 2 <= usize::MAX,
        len <= i64::MAX,
    ensures
        ({
            let tail = buf@.skip(end as int + 2);
            if prefix@ == seq![42u8] || prefix@ == seq![126u8] {
                match sp_len_items(tail, len as int) {
                    LenParsed::Got(m) => r is Ok && r->Ok_0 == end + 2 + m,
                    LenParsed::More => r == Err::<usize, RespError>(RespError::NotComplete),
                    LenParsed::Bad(e) => r == Err::<usize, RespError>(e),
                }
            } else if prefix@ == seq![37u8] {
                match sp_len_entries(tail, len as int) {
                    LenParsed::Got(m) => r is Ok && r->Ok_0 == end + 2 + m,
                    LenParsed::More => r == Err::<usize, RespError>(RespError::NotComplete),
                    LenParsed::Bad(e) => r == Err::<usize, RespError>(e),
                }
            } else {
                r == Ok::<usize, RespError>((len + 2) as usize)
            }
        }),
{
    let is_items = prefix.len() == 1 && (prefix[0] == 42u8 || prefix[0] == 126u8);
    let is_map = prefix.len() == 1 && prefix[0] == 37u8;
    proof {
        if prefix@.len() == 1 {
            assert(prefix@ =~= seq![prefix@[0]]);
        }
        if is_items {
            assert(prefix@ == seq![42u8] || prefix@ == seq![126u8]);
        } else {
            assert(prefix@ != seq![42u8] && prefix@ != seq![126u8]);
        }
        if is_map {
            assert(prefix@ == seq![37u8]);
        } else {
            assert(prefix@ != seq![37u8]);
        }
    }
    let n = buf.len();
    if is_items {
        expect_items_len(buf, end + 2, len as i64)
    } else if is_map {
        expect_entries_len(buf, end + 2, len as i64)
    } else {
        Ok(len + 2)
    }
}

impl crate::resp::RespDecode for RespFrame {
    open spec fn spec_parse(b: Seq<u8>) -> Parsed {
        sp_frame(b)
    }

    open spec fn parse_ok(b: Seq<u8>, v: Self) -> bool {
        match sp_frame(b) {
            Parsed::Got(fv, _) => v@ == fv,
            _ => false,
        }
    }

    open spec fn spec_length(b: Seq<u8>) -> LenParsed {
        sp_len_frame(b)
    }

    fn decode(buf: &mut bytes::BytesMut) -> (r: Result<Self, RespError>) {
        let step = {
            let s = crate::resp::buffer::bytes_slice(buf);
            proof {
                assert(s@.skip(0) =~= s@);
            }
            parse_at(s, 0)
        };
        match step {
            Ok((f, end)) => {
                crate::resp::buffer::bytes_advance(buf, end);
                Ok(f)
            },
            Err(e) => Err(e),
        }
    }

    fn expect_length(buf: &[u8]) -> (r: Result<usize, RespError>) {
        proof {
            assert(buf@.skip(0) =~= buf@);
        }
        expect_len_at(buf, 0)
    }
}

impl crate::resp::RespDecode for SimpleString {
    open spec fn spec_parse(b: Seq<u8>) -> Parsed {
        sp_simple(b)
    }

    open spec fn parse_ok(b: Seq<u8>, v: Self) -> bool {
        match sp_simple(b) {
            Parsed::Got(fv, _) => fv == FrameView::Simple(v@),
            _ => false,
        }
    }

    open spec fn spec_length(b: Seq<u8>) -> LenParsed {
        sp_line_len(b, 43u8)
    }

    fn decode(buf: &mut bytes::BytesMut) -> (r: Result<Self, RespError>) {
        let step = {
            let s = crate::resp::buffer::bytes_slice(buf);
            proof {
                assert(s@.skip(0) =~= s@);
            }
            parse_simple_at(s, 0)
        };
        match step {
            Ok((f, end)) => {
                crate::resp::buffer::bytes_advance(buf, end);
                match f {
                    RespFrame::SimpleString(ss) => Ok(ss),
                    _ => unreached(),
                }
            },
            Err(e) => Err(e),
        }
    }

    fn expect_length(buf: &[u8]) -> (r: Result<usize, RespError>) {
        proof {
            assert(buf@.skip(0) =~= buf@);
        }
        expect_line_len_at(buf, 0, 43u8)
    }
}

impl crate::resp::RespDecode for SimpleError {
    open spec fn spec_parse(b: Seq<u8>) -> Parsed {
        sp_error(b)
    }

    open spec fn parse_ok(b: Seq<u8>, v: Self) -> bool {
        match sp_error(b) {
            Parsed::Got(fv, _) => fv == FrameView::Error(v@),
            _ => false,
        }
    }

    open spec fn spec_length(b: Seq<u8>) -> LenParsed {
        sp_line_len(b, 45u8)
    }

    fn decode(buf: &mut bytes::BytesMut) -> (r: Result<Self, RespError>) {
        let step = {
            let s = crate::resp::buffer::bytes_slice(buf);
            proof {
                assert(s@.skip(0) =~= s@);
            }
            if s.len() < 3 {
                Err(RespError::NotComplete)
            } else if s[0] != 45u8 {
                Err(RespError::InvalidFrameType)
            } else {
                parse_error_at(s, 0)
            }
        };
        match step {
            Ok((f, end)) => {
                crate::resp::buffer::bytes_advance(buf, end);
                match f {
                    RespFrame::Error(se) => Ok(se),
                    _ => unreached(),
                }
            },
            Err(e) => Err(e),
        }
    }

    fn expect_length(buf: &[u8]) -> (r: Result<usize, RespError>) {
        proof {
            assert(buf@.skip(0) =~= buf@);
        }
        expect_line_len_at(buf, 0, 45u8)
    }
}

impl crate::resp::RespDecode for i64 {
    open spec fn spec_parse(b: Seq<u8>) -> Parsed {
        sp_int(b)
    }

    open spec fn parse_ok(b: Seq<u8>, v: Self) -> bool {
        match sp_int(b) {
            Parsed::Got(fv, _) => fv == FrameView::Int(v as int),
            _ => false,
        }
    }

    open spec fn spec_length(b: Seq<u8>) -> LenParsed {
        sp_line_len(b, 58u8)
    }

    fn decode(buf: &mut bytes::BytesMut) -> (r: Result<Self, RespError>) {
        let step = {
            let s = crate::resp::buffer::bytes_slice(buf);
            proof {
                assert(s@.skip(0) =~= s@);
            }
            if s.len() < 3 {
                Err(RespError::NotComplete)
            } else if s[0] != 58u8 {
                Err(RespError::InvalidFrameType)
            } else {
                parse_int_at(s, 0)
            }
        };
        match step {
            Ok((f, end)) => {
                crate::resp::buffer::bytes_advance(buf, end);
                match f {
                    RespFrame::Integer(n) => Ok(n),
                    _ => unreached(),
                }
            },
            Err(e) => Err(e),
        }
    }

    fn expect_length(buf: &[u8]) -> (r: Result<usize, RespError>) {
        proof {
            assert(buf@.skip(0) =~= buf@);
        }
        expect_line_len_at(buf, 0, 58u8)
    }
}

impl crate::resp::RespDecode for BulkString {
    open spec fn spec_parse(b: Seq<u8>) -> Parsed {
        sp_bulk(b)
    }

    open spec fn parse_ok(b: Seq<u8>, v: Self) -> bool {
        match sp_bulk(b) {
            Parsed::Got(fv, _) => fv == FrameView::Bulk(v@),
            _ => false,
        }
    }

    open spec fn spec_length(b: Seq<u8>) -> LenParsed {
        sp_bulk_len(b)
    }

    fn decode(buf: &mut bytes::BytesMut) -> (r: Result<Self, RespError>) {
        let step = {
            let s = crate::resp::buffer::bytes_slice(buf);
            proof {
                assert(s@.skip(0) =~= s@);
            }
            if s.len() < 3 {
                Err(RespError::NotComplete)
            } else if s[0] != 36u8 {
                Err(RespError::InvalidFrameType)
            } else {
                parse_bulk_at(s, 0)
            }
        };
        match step {
            Ok((f, end)) => {
                crate::resp::buffer::bytes_advance(buf, end);
                match f {
                    RespFrame::BulkString(bs) => Ok(bs),
                    _ => unreached(),
                }
            },
            Err(e) => Err(e),
        }
    }

    fn expect_length(buf: &[u8]) -> (r: Result<usize, RespError>) {
        proof {
            assert(buf@.skip(0) =~= buf@);
        }
        if buf.len() < 3 {
            Err(RespError::NotComplete)
        } else if buf[0] != 36u8 {
            Err(RespError::InvalidFrameType)
        } else {
            expect_bulk_len_at(buf, 0)
        }
    }
}

impl crate::resp::RespDecode for RespNull {
    open spec fn spec_parse(b: Seq<u8>) -> Parsed {
        sp_null(b)
    }

    open spec fn parse_ok(b: Seq<u8>, v: Self) -> bool {
        sp_null(b) is Got
    }

    open spec fn spec_length(b: Seq<u8>) -> LenParsed {
        sp_line_len(b, 95u8)
    }

    fn decode(buf: &mut bytes::BytesMut) -> (r: Result<Self, RespError>) {
        let step = {
            let s = crate::resp::buffer::bytes_slice(buf);
            proof {
                assert(s@.skip(0) =~= s@);
            }
            if s.len() < 3 {
                Err(RespError::NotComplete)
            } else if s[0] != 95u8 {
                Err(RespError::InvalidFrameType)
            } else {
                parse_null_at(s, 0)
            }
        };
        match step {
            Ok((_, end)) => {
                crate::resp::buffer::bytes_advance(buf, end);
                Ok(RespNull)
            },
            Err(e) => Err(e),
        }
    }

    fn expect_length(buf: &[u8]) -> (r: Result<usize, RespError>) {
        proof {
            assert(buf@.skip(0) =~= buf@);
        }
        expect_line_len_at(buf, 0, 95u8)
    }
}

impl crate::resp::RespDecode for bool {
    open spec fn spec_parse(b: Seq<u8>) -> Parsed {
        sp_bool(b)
    }

    open spec fn parse_ok(b: Seq<u8>, v: Self) -> bool {
        match sp_bool(b) {
            Parsed::Got(fv, _) => fv == FrameView::Bool(v),
            _ => false,
        }
    }

    open spec fn spec_length(b: Seq<u8>) -> LenParsed {
        sp_line_len(b, 35u8)
    }

    fn decode(buf: &mut bytes::BytesMut) -> (r: Result<Self, RespError>) {
        let step = {
            let s = crate::resp::buffer::bytes_slice(buf);
            proof {
                assert(s@.skip(0) =~= s@);
            }
            if s.len() < 4 {
                Err(RespError::NotComplete)
            } else if s[0] != 35u8 {
                Err(RespError::InvalidFrameType)
            } else {
                parse_bool_at(s, 0)
            }
        };
        match step {
            Ok((f, end)) => {
                crate::resp::buffer::bytes_advance(buf, end);
                match f {
                    RespFrame::Boolean(v) => Ok(v),
                    _ => unreached(),
                }
            },
            Err(e) => Err(e),
        }
    }

    fn expect_length(buf: &[u8]) -> (r: Result<usize, RespError>) {
        proof {
            assert(buf@.skip(0) =~= buf@);
        }
        expect_line_len_at(buf, 0, 35u8)
    }
}

impl crate::resp::RespDecode for RespArray {
    open spec fn spec_parse(b: Seq<u8>) -> Parsed {
        sp_agg(b, 42u8)
    }

    open spec fn parse_ok(b: Seq<u8>, v: Self) -> bool {
        match sp_agg(b, 42u8) {
            Parsed::Got(fv, _) => fv == FrameView::Arr(v@),
            _ => false,
        }
    }

    open spec fn spec_length(b: Seq<u8>) -> LenParsed {
        sp_agg_len(b, 42u8)
    }

    fn decode(buf: &mut bytes::BytesMut) -> (r: Result<Self, RespError>) {
        let step = {
            let s = crate::resp::buffer::bytes_slice(buf);
            proof {
                assert(s@.skip(0) =~= s@);
            }
            if s.len() < 3 {
                Err(RespError::NotComplete)
            } else if s[0] != 42u8 {
                Err(RespError::InvalidFrameType)
            } else {
                parse_agg_at(s, 0, 42u8)
            }
        };
        match step {
            Ok((f, end)) => {
                crate::resp::buffer::bytes_advance(buf, end);
                match f {
                    RespFrame::Array(a) => Ok(a),
                    _ => unreached(),
                }
            },
            Err(e) => Err(e),
        }
    }

    fn expect_length(buf: &[u8]) -> (r: Result<usize, RespError>) {
        proof {
            assert(buf@.skip(0) =~= buf@);
        }
        if buf.len() < 3 {
            Err(RespError::NotComplete)
        } else if buf[0] != 42u8 {
            Err(RespError::InvalidFrameType)
        } else {
            expect_len_at(buf, 0)
        }
    }
}

impl crate::resp::RespDecode for RespSet {
    open spec fn spec_parse(b: Seq<u8>) -> Parsed {
        sp_agg(b, 126u8)
    }

    open spec fn parse_ok(b: Seq<u8>, v: Self) -> bool {
        match sp_agg(b, 126u8) {
            Parsed::Got(fv, _) => fv == FrameView::SetF(v@),
            _ => false,
        }
    }

    open spec fn spec_length(b: Seq<u8>) -> LenParsed {
        sp_agg_len(b, 126u8)
    }

    fn decode(buf: &mut bytes::BytesMut) -> (r: Result<Self, RespError>) {
        let step = {
            let s = crate::resp::buffer::bytes_slice(buf);
            proof {
                assert(s@.skip(0) =~= s@);
            }
            if s.len() < 3 {
                Err(RespError::NotComplete)
            } else if s[0] != 126u8 {
                Err(RespError::InvalidFrameType)
            } else {
                parse_agg_at(s, 0, 126u8)
            }
        };
        match step {
            Ok((f, end)) => {
                crate::resp::buffer::bytes_advance(buf, end);
                match f {
                    RespFrame::SetFrame(v) => Ok(v),
                    _ => unreached(),
                }
            },
            Err(e) => Err(e),
        }
    }

    fn expect_length(buf: &[u8]) -> (r: Result<usize, RespError>) {
        proof {
            assert(buf@.skip(0) =~= buf@);
        }
        if buf.len() < 3 {
            Err(RespError::NotComplete)
        } else if buf[0] != 126u8 {
            Err(RespError::InvalidFrameType)
        } else {
            expect_len_at(buf, 0)
        }
    }
}

impl crate::resp::RespDecode for RespMap {
    open spec fn spec_parse(b: Seq<u8>) -> Parsed {
        sp_map(b)
    }

    open spec fn parse_ok(b: Seq<u8>, v: Self) -> bool {
        match sp_map(b) {
            Parsed::Got(fv, _) => fv == FrameView::MapF(v@),
            _ => false,
        }
    }

    open spec fn spec_length(b: Seq<u8>) -> LenParsed {
        sp_map_len(b)
    }

    fn decode(buf: &mut bytes::BytesMut) -> (r: Result<Self, RespError>) {
        let step = {
            let s = crate::resp::buffer::bytes_slice(buf);
            proof {
                assert(s@.skip(0) =~= s@);
            }
            if s.len() < 3 {
                Err(RespError::NotComplete)
            } else if s[0] != 37u8 {
                Err(RespError::InvalidFrameType)
            } else {
                parse_map_at(s, 0)
            }
        };
        match step {
            Ok((f, end)) => {
                crate::resp::buffer::bytes_advance(buf, end);
                match f {
                    RespFrame::MapFrame(m) => Ok(m),
                    _ => unreached(),
                }
            },
            Err(e) => Err(e),
        }
    }

    fn expect_length(buf: &[u8]) -> (r: Result<usize, RespError>) {
        proof {
            assert(buf@.skip(0) =~= buf@);
        }
        if buf.len() < 3 {
            Err(RespError::NotComplete)
        } else if buf[0] != 37u8 {
            Err(RespError::InvalidFrameType)
        } else {
            expect_len_at(buf, 0)
        }
    }
}
} // verus!
