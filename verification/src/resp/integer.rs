//! Decimal integers on the wire: the exact byte sequences the encoder emits
//! for signed 64-bit values, the parser for decimal payloads, and the lemmas
//! connecting the two.

use vstd::prelude::*;

verus! {

/// True for an ASCII decimal digit byte.
pub open spec fn is_digit(c: u8) -> bool {
    48 <= c <= 57
}

/// True when every byte of `s` is an ASCII decimal digit.
pub open spec fn all_digits(s: Seq<u8>) -> bool {
    forall|i: int| 0 <= i < s.len() ==> is_digit(#[trigger] s[i])
}

/// Value of a digit string read in base ten.
pub open spec fn digits_val(s: Seq<u8>) -> int
    decreases s.len(),
{
    if s.len() == 0 {
        0
    } else {
        digits_val(s.drop_last()) * 10 + (s.last() - 48)
    }
}

/// The decimal digits of `n`, most significant first, no leading zeros
/// (except for the single digit of zero itself).
pub open spec fn dec_digits(n: nat) -> Seq<u8>
    decreases n,
{
    if n < 10 {
        seq![(48 + n) as u8]
    } else {
        dec_digits(n / 10).push((48 + n % 10) as u8)
    }
}

/// The wire text of a signed integer: a minus sign for negatives, no forced
/// sign for non-negatives.
pub open spec fn enc_int(n: int) -> Seq<u8> {
    if n < 0 {
        seq![45u8] + dec_digits((-n) as nat)
    } else {
        dec_digits(n as nat)
    }
}

/// The digit portion of an integer payload, after an optional leading sign.
pub open spec fn int_digits(s: Seq<u8>) -> Seq<u8> {
    if s.len() > 0 && (s[0] == 43u8 || s[0] == 45u8) {
        s.subrange(1, s.len() as int)
    } else {
        s
    }
}

/// True when the payload carries a leading minus sign.
pub open spec fn int_neg(s: Seq<u8>) -> bool {
    s.len() > 0 && s[0] == 45u8
}

/// True when `s` is an optional sign followed by at least one digit.
pub open spec fn int_text(s: Seq<u8>) -> bool {
    int_digits(s).len() > 0 && all_digits(int_digits(s))
}

/// The signed value of an integer payload.
pub open spec fn int_val(s: Seq<u8>) -> int {
    if int_neg(s) {
        -digits_val(int_digits(s))
    } else {
        digits_val(int_digits(s))
    }
}

/// What parsing an integer payload yields: the value when the text is well
/// formed and in the signed 64-bit range, nothing otherwise.
pub open spec fn parse_i64(s: Seq<u8>) -> Option<int> {
    if int_text(s) && i64::MIN <= int_val(s) <= i64::MAX {
        Some(int_val(s))
    } else {
        None
    }
}

/// A digit string has a non-negative value.
pub proof fn lemma_digits_val_nonneg(s: Seq<u8>)
    requires
        all_digits(s),
    ensures
        digits_val(s) >= 0,
    decreases s.len(),
{
    if s.len() > 0 {
        assert(all_digits(s.drop_last()));
        lemma_digits_val_nonneg(s.drop_last());
    }
}

/// Extending a digit string can only grow its value.
pub proof fn lemma_digits_val_mono(s: Seq<u8>, i: int)
    requires
        all_digits(s),
        0 <= i <= s.len(),
    ensures
        digits_val(s) >= digits_val(s.take(i)),
    decreases s.len() - i,
{
    if i < s.len() {
        assert(all_digits(s.take(i)));
        lemma_digits_val_nonneg(s.take(i));
        assert(s.take(i + 1).drop_last() =~= s.take(i));
        assert(digits_val(s.take(i + 1)) == digits_val(s.take(i)) * 10 + (s[i] - 48));
        lemma_digits_val_mono(s, i + 1);
        assert(s.take(s.len() as int) =~= s);
    } else {
        assert(s.take(i) =~= s);
    }
}

/// The digits of `n` are digits, and there is at least one of them.
pub proof fn lemma_dec_digits_shape(n: nat)
    ensures
        all_digits(dec_digits(n)),
        dec_digits(n).len() >= 1,
        dec_digits(n)[0] != 45u8,
    decreases n,
{
    if n >= 10 {
        lemma_dec_digits_shape(n / 10);
    }
}

/// Reading the decimal digits of `n` back in base ten gives `n`.
pub proof fn lemma_digits_val_dec_digits(n: nat)
    ensures
        digits_val(dec_digits(n)) == n,
    decreases n,
{
    if n < 10 {
        let s = dec_digits(n);
        assert(s =~= seq![(48 + n) as u8]);
        assert(s.drop_last() =~= Seq::<u8>::empty());
        assert(digits_val(s) == digits_val(s.drop_last()) * 10 + (s.last() - 48));
        assert(digits_val(s.drop_last()) == 0);
        assert(s.last() == (48 + n) as u8);
    } else {
        lemma_digits_val_dec_digits(n / 10);
        let s = dec_digits(n / 10);
        assert(s.push((48 + n % 10) as u8).drop_last() =~= s);
    }
}

/// The wire text of any signed 64-bit integer parses back to the same value.
pub proof fn lemma_parse_enc_int(n: int)
    requires
        i64::MIN <= n <= i64::MAX,
    ensures
        parse_i64(enc_int(n)) == Some(n),
{
    if n < 0 {
        let s = enc_int(n);
        lemma_dec_digits_shape((-n) as nat);
        lemma_digits_val_dec_digits((-n) as nat);
        assert(int_digits(s) =~= dec_digits((-n) as nat));
        assert(int_neg(s));
        assert(int_val(s) == n);
    } else {
        let s = enc_int(n);
        lemma_dec_digits_shape(n as nat);
        lemma_digits_val_dec_digits(n as nat);
        assert(int_digits(s) =~= dec_digits(n as nat));
        assert(!int_neg(s));
        assert(int_val(s) == n);
    }
}

/// The wire text of an integer holds no CR and no LF.
pub proof fn lemma_enc_int_line_safe(n: int)
    ensures
        crate::resp::frame::line_safe(enc_int(n)),
{
    if n < 0 {
        lemma_dec_digits_shape((-n) as nat);
    } else {
        lemma_dec_digits_shape(n as nat);
    }
}

/// Append the decimal digits of `n` to `out`.
pub(crate) fn push_uint(n: u64, out: &mut Vec<u8>)
    ensures
        final(out)@ == old(out)@ + dec_digits(n as nat),
    decreases n,
{
    if n >= 10 {
        push_uint(n / 10, out);
        out.push(48 + (n % 10) as u8);
        assert(final(out)@ =~= old(out)@ + dec_digits(n as nat));
    } else {
        out.push(48 + n as u8);
        assert(final(out)@ =~= old(out)@ + dec_digits(n as nat));
    }
}

/// Append the wire text of a signed integer to `out`.
pub(crate) fn push_int(n: i64, out: &mut Vec<u8>)
    ensures
        final(out)@ == old(out)@ + enc_int(n as int),
{
    if n < 0 {
        out.push(45u8);
        let mag: u64 = if n == i64::MIN {
            9223372036854775808u64
        } else {
            (-n) as u64
        };
        assert(mag == (-(n as int)) as nat);
        push_uint(mag, out);
        assert(final(out)@ =~= old(out)@ + enc_int(n as int));
    } else {
        push_uint(n as u64, out);
    }
}

/// Parse a decimal integer payload: an optional sign, then digits, rejected
/// on any other byte or when the value leaves the signed 64-bit range.
pub(crate) fn parse_int_bytes(s: &[u8]) -> (r: Option<i64>)
    ensures
        match r {
            Some(v) => parse_i64(s@) == Some(v as int),
            None => parse_i64(s@) is None,
        },
{
    let n = s.len();
    let mut i: usize = 0;
    let mut neg: bool = false;
    if n > 0 && (s[0] == 43u8 || s[0] == 45u8) {
        neg = s[0] == 45u8;
        i = 1;
    }
    let ghost dig = int_digits(s@);
    proof {
        assert(dig =~= s@.skip(i as int));
    }
    if i == n {
        proof {
            assert(!int_text(s@));
        }
        return None;
    }
    let start = i;
    let mut acc: u64 = 0;
    while i < n
        invariant
            start <= i <= n,
            start < n,
            n == s@.len(),
            start <= 1,
            dig == int_digits(s@),
            dig == s@.skip(start as int),
            dig.len() == n - start,
            all_digits(dig.take((i - start) as int)),
            acc == digits_val(dig.take((i - start) as int)),
            acc <= 9223372036854775808u64,
        decreases n - i,
    {
        let c = s[i];
        proof {
            assert(dig[(i - start) as int] == s@[i as int]);
        }
        if c < 48 || c > 57 {
            proof {
                assert(!is_digit(dig[(i - start) as int]));
                assert(!all_digits(dig));
                assert(!int_text(s@));
            }
            return None;
        }
        let d: u64 = (c - 48) as u64;
        let wide: u128 = acc as u128 * 10 + d as u128;
        proof {
            let done = (i - start) as int + 1;
            assert(dig.take(done).len() == done);
            assert(dig.take(done).drop_last() =~= dig.take((i - start) as int));
            assert(dig.take(done).last() == dig[(i - start) as int]);
            assert(digits_val(dig.take(done)) == digits_val(dig.take(done).drop_last()) * 10 + (
            dig.take(done).last() - 48));
            assert(digits_val(dig.take(done).drop_last()) == acc);
            assert(digits_val(dig.take(done)) == acc * 10 + (c - 48));
            assert forall|j: int| 0 <= j < done implies is_digit(dig.take(done)[j]) by {
                assert(dig.take(done)[j] == dig[j]);
                if j < done - 1 {
                    assert(dig.take((i - start) as int)[j] == dig[j]);
                    assert(is_digit(dig.take((i - start) as int)[j]));
                } else {
                    assert(dig[j] == c);
                }
            }
            assert(all_digits(dig.take(done)));
        }
        if wide > 9223372036854775808u128 {
            proof {
                let done = (i - start) as int + 1;
                assert(digits_val(dig.take(done)) == wide);
                if int_text(s@) {
                    assert(all_digits(dig));
                    lemma_digits_val_mono(dig, done);
                    assert(digits_val(dig) >= wide);
                    assert(digits_val(dig) > 9223372036854775808);
                    if int_neg(s@) {
                        assert(int_val(s@) < i64::MIN);
                    } else {
                        assert(int_val(s@) > i64::MAX);
                    }
                    assert(parse_i64(s@) is None);
                }
            }
            return None;
        }
        acc = wide as u64;
        i = i + 1;
    }
    proof {
        assert(dig.take((n - start) as int) =~= dig);
        assert(int_text(s@));
    }
    if neg {
        proof {
            assert(int_neg(s@));
            assert(int_val(s@) == -(acc as int));
        }
        if acc == 9223372036854775808u64 {
            Some(i64::MIN)
        } else {
            Some(-(acc as i64))
        }
    } else {
        proof {
            assert(!int_neg(s@));
            assert(int_val(s@) == acc as int);
        }
        if acc > 9223372036854775807u64 {
            proof {
                assert(int_val(s@) > i64::MAX);
            }
            None
        } else {
            Some(acc as i64)
        }
    }
}

} // verus!
