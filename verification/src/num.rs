//! Decimal integers on the wire: formatting of signed 64-bit integers as
//! ASCII decimal bytes, and parsing of ASCII decimal bytes back into
//! integers, each verified against a common mathematical description.

use vstd::prelude::*;

verus! {

pub open spec fn is_digit(b: u8) -> bool {
    48 <= b <= 57
}

pub open spec fn all_digits(s: Seq<u8>) -> bool {
    forall|i: int| 0 <= i < s.len() ==> is_digit(#[trigger] s[i])
}

/// The number denoted by a sequence of ASCII digits, most significant first.
pub open spec fn digits_val(s: Seq<u8>) -> int
    decreases s.len(),
{
    if s.len() == 0 {
        0
    } else {
        10 * digits_val(s.drop_last()) + (s.last() - 48)
    }
}

/// The shortest decimal digit string for a natural number (no leading
/// zeros, except for the number zero itself).
pub open spec fn dec_digits(n: nat) -> Seq<u8>
    decreases n,
{
    if n < 10 {
        seq![(48 + n) as u8]
    } else {
        dec_digits(n / 10).push((48 + n % 10) as u8)
    }
}

/// The canonical decimal form of an integer: a minus sign for negative
/// numbers, then the digits of the magnitude.
pub open spec fn dec_int(i: int) -> Seq<u8> {
    if i < 0 {
        seq![45u8] + dec_digits((-i) as nat)
    } else {
        dec_digits(i as nat)
    }
}

/// What a signed decimal literal means: an optional single `+` or `-`
/// sign followed by one or more digits, as the standard library's integer
/// parser accepts it. Anything else denotes nothing.
pub open spec fn parse_int_spec(s: Seq<u8>) -> Option<int> {
    if s.len() >= 2 && s[0] == 45 && all_digits(s.skip(1)) {
        Some(-digits_val(s.skip(1)))
    } else if s.len() >= 2 && s[0] == 43 && all_digits(s.skip(1)) {
        Some(digits_val(s.skip(1)))
    } else if s.len() >= 1 && all_digits(s) {
        Some(digits_val(s))
    } else {
        None
    }
}

/// What an unsigned decimal literal means: an optional single `+` sign
/// followed by one or more digits.
pub open spec fn parse_uint_spec(s: Seq<u8>) -> Option<int> {
    if s.len() >= 2 && s[0] == 43 && all_digits(s.skip(1)) {
        Some(digits_val(s.skip(1)))
    } else if s.len() >= 1 && all_digits(s) {
        Some(digits_val(s))
    } else {
        None
    }
}

/// A longer digit string never denotes a smaller number: dropping digits
/// from the end can only shrink the value.
pub proof fn lemma_digits_val_take(s: Seq<u8>, k: int)
    requires
        all_digits(s),
        0 <= k <= s.len(),
    ensures
        digits_val(s.take(k)) <= digits_val(s),
    decreases s.len(),
{
    lemma_digits_val_nonneg(s);
    if k < s.len() {
        assert(all_digits(s.drop_last()));
        assert(s.drop_last().take(k) =~= s.take(k));
        lemma_digits_val_take(s.drop_last(), k);
        lemma_digits_val_nonneg(s.drop_last());
    } else {
        assert(s.take(k) =~= s);
    }
}

/// A digit string denotes a non-negative number.
pub proof fn lemma_digits_val_nonneg(s: Seq<u8>)
    requires
        all_digits(s),
    ensures
        digits_val(s) >= 0,
    decreases s.len(),
{
    if s.len() > 0 {
        assert(all_digits(s.drop_last()));
        lemma_digits_val_nonneg(s.drop_last());
    }
}

/// Appending one digit multiplies the value by ten and adds the digit.
pub proof fn lemma_digits_val_push(s: Seq<u8>, d: u8)
    ensures
        digits_val(s.push(d)) == 10 * digits_val(s) + (d - 48),
{
    assert(s.push(d).drop_last() =~= s);
    assert(s.push(d).last() == d);
}

/// The canonical digits of a number are digits and denote that number.
pub proof fn lemma_dec_digits_val(n: nat)
    ensures
        all_digits(dec_digits(n)),
        digits_val(dec_digits(n)) == n,
        dec_digits(n).len() >= 1,
        dec_digits(n)[0] != 48 || n < 10,
    decreases n,
{
    if n < 10 {
        assert(digits_val(seq![(48 + n) as u8]) == 10 * digits_val(
            seq![(48 + n) as u8].drop_last(),
        ) + n);
        assert(seq![(48 + n) as u8].drop_last() =~= Seq::<u8>::empty());
    } else {
        lemma_dec_digits_val(n / 10);
        lemma_digits_val_push(dec_digits(n / 10), (48 + n % 10) as u8);
        assert(dec_digits(n)[0] == dec_digits(n / 10)[0]);
        assert(n / 10 >= 1);
    }
}

/// Parsing the canonical decimal form of an integer yields that integer.
pub proof fn lemma_parse_dec_int(i: int)
    ensures
        parse_int_spec(dec_int(i)) == Some(i),
{
    if i < 0 {
        lemma_dec_digits_val((-i) as nat);
        let s = seq![45u8] + dec_digits((-i) as nat);
        assert(s.skip(1) =~= dec_digits((-i) as nat));
        assert(s.len() >= 2);
        assert(s[0] == 45);
    } else {
        lemma_dec_digits_val(i as nat);
        let s = dec_digits(i as nat);
        assert(s[0] != 45 && s[0] != 43);
        assert(parse_int_spec(s) == Some(digits_val(s)));
    }
}

/// Canonical decimal forms contain no carriage return and no line feed,
/// so a formatted integer never disturbs the line framing around it.
pub proof fn lemma_dec_int_no_crlf(i: int)
    ensures
        forall|k: int|
            0 <= k < dec_int(i).len() ==> dec_int(i)[k] != 13 && dec_int(i)[k] != 10,
{
    lemma_dec_digits_no_crlf(if i < 0 {
        (-i) as nat
    } else {
        i as nat
    });
}

proof fn lemma_dec_digits_no_crlf(n: nat)
    ensures
        forall|k: int|
            0 <= k < dec_digits(n).len() ==> dec_digits(n)[k] != 13 && dec_digits(n)[k] != 10,
    decreases n,
{
    if n >= 10 {
        lemma_dec_digits_no_crlf(n / 10);
        let s = dec_digits(n / 10);
        assert forall|k: int| 0 <= k < dec_digits(n).len() implies dec_digits(n)[k] != 13
            && dec_digits(n)[k] != 10 by {
            if k < s.len() {
                assert(dec_digits(n)[k] == s[k]);
            } else {
                assert(dec_digits(n)[k] == (48 + n % 10) as u8);
            }
        }
    }
}

/// Reads an unsigned magnitude from the digit bytes `s[start..]`, refusing
/// anything over `limit`. Returns the magnitude, or `None` when a non-digit
/// byte appears or the value exceeds `limit`.
fn parse_magnitude(s: &[u8], start: usize, limit: u64) -> (r: Option<u64>)
    requires
        start <= s@.len(),
        limit >= 9,
    ensures
        match r {
            Some(m) => all_digits(s@.skip(start as int)) && m <= limit && m
                == digits_val(s@.skip(start as int)),
            None => !all_digits(s@.skip(start as int)) || digits_val(s@.skip(start as int))
                > limit,
        },
{
    let ghost whole = s@.skip(start as int);
    let n = s.len();
    let mut acc: u64 = 0;
    let mut i = start;
    while i < n
        invariant
            start <= i <= n == s@.len(),
            whole == s@.skip(start as int),
            limit >= 9,
            acc <= limit,
            all_digits(s@.subrange(start as int, i as int)),
            acc == digits_val(s@.subrange(start as int, i as int)),
        decreases n - i,
    {
        let b = *vstd::slice::slice_index_get(s, i);
        if !(48 <= b && b <= 57) {
            assert(whole[i - start] == b);
            return None;
        }
        let d = (b - 48) as u64;
        proof {
            assert(s@.subrange(start as int, i + 1) =~= s@.subrange(start as int, i as int).push(
                b,
            ));
            lemma_digits_val_push(s@.subrange(start as int, i as int), b);
        }
        if acc > (limit - d) / 10 {
            // The prefix read so far already exceeds the limit, and further
            // digits can only grow the value.
            proof {
                assert(10 * acc + d > limit) by (nonlinear_arith)
                    requires
                        acc > (limit - d) / 10,
                        d <= 9,
                        d <= limit,
                ;
                if all_digits(whole) {
                    assert(whole.take(i + 1 - start) =~= s@.subrange(start as int, i + 1));
                    lemma_digits_val_take(whole, i + 1 - start);
                }
            }
            return None;
        }
        acc = acc * 10 + d;
        i = i + 1;
    }
    proof {
        assert(s@.subrange(start as int, n as int) =~= whole);
    }
    Some(acc)
}

/// Reads a signed 64-bit integer written in ASCII decimal, as the wire
/// grammar uses it: an optional `+` or `-` sign, then digits. `None` means
/// the bytes are not such a literal, or the value does not fit.
pub fn parse_i64(s: &[u8]) -> (r: Option<i64>)
    ensures
        match r {
            Some(i) => parse_int_spec(s@) == Some(i as int),
            None => match parse_int_spec(s@) {
                Some(v) => v < i64::MIN || v > i64::MAX,
                None => true,
            },
        },
{
    let n = s.len();
    if n == 0 {
        return None;
    }
    let first = *vstd::slice::slice_index_get(s, 0);
    let (neg, start): (bool, usize) = if first == 45 && n >= 2 {
        (true, 1)
    } else if first == 43 && n >= 2 {
        (false, 1)
    } else {
        (false, 0)
    };
    let limit: u64 = if neg {
        9223372036854775808u64
    } else {
        9223372036854775807u64
    };
    proof {
        if start == 0 && (first == 45 || first == 43) {
            // A lone sign byte: it is not a digit, so no branch accepts it.
            assert(!is_digit(s@[0]));
        }
        assert(s@.skip(0) =~= s@);
    }
    match parse_magnitude(s, start, limit) {
        Some(m) => {
            proof {
                if start == 0 {
                    assert(is_digit(s@[0]));
                }
            }
            if neg {
                if m == 9223372036854775808u64 {
                    Some(i64::MIN)
                } else {
                    Some(-(m as i64))
                }
            } else {
                Some(m as i64)
            }
        },
        None => {
            proof {
                if start == 0 && all_digits(s@) {
                    assert(is_digit(s@[0]));
                }
            }
            None
        },
    }
}

/// Reads an unsigned 64-bit integer written in ASCII decimal: an optional
/// `+` sign, then digits. `None` means the bytes are not such a literal,
/// or the value does not fit.
pub fn parse_u64(s: &[u8]) -> (r: Option<u64>)
    ensures
        match r {
            Some(u) => parse_uint_spec(s@) == Some(u as int),
            None => match parse_uint_spec(s@) {
                Some(v) => v > u64::MAX,
                None => true,
            },
        },
{
    let n = s.len();
    if n == 0 {
        return None;
    }
    let first = *vstd::slice::slice_index_get(s, 0);
    let start: usize = if first == 43 && n >= 2 {
        1
    } else {
        0
    };
    proof {
        if start == 0 && first == 43 {
            assert(!is_digit(s@[0]));
        }
        assert(s@.skip(0) =~= s@);
    }
    match parse_magnitude(s, start, u64::MAX) {
        Some(m) => {
            proof {
                if start == 0 {
                    assert(is_digit(s@[0]));
                }
            }
            Some(m)
        },
        None => {
            proof {
                if start == 0 && all_digits(s@) {
                    assert(is_digit(s@[0]));
                }
            }
            None
        },
    }
}

/// Writes the decimal digits of `n` onto the end of `out`.
fn push_dec_digits(n: u64, out: &mut Vec<u8>)
    ensures
        final(out)@ == old(out)@ + dec_digits(n as nat),
    decreases n,
{
    if n < 10 {
        out.push(48 + n as u8);
        assert(final(out)@ =~= old(out)@ + dec_digits(n as nat));
    } else {
        push_dec_digits(n / 10, out);
        out.push(48 + (n % 10) as u8);
        assert(final(out)@ =~= old(out)@ + dec_digits(n as nat));
    }
}

/// Writes the canonical decimal form of `i` onto the end of `out`.
pub fn push_dec_i64(i: i64, out: &mut Vec<u8>)
    ensures
        final(out)@ == old(out)@ + dec_int(i as int),
{
    if i < 0 {
        out.push(45);
        let mag: u64 = if i == i64::MIN {
            9223372036854775808u64
        } else {
            (-i) as u64
        };
        assert(mag as nat == (-(i as int)) as nat);
        push_dec_digits(mag, out);
        assert(final(out)@ =~= old(out)@ + dec_int(i as int));
    } else {
        push_dec_digits(i as u64, out);
    }
}

/// Writes the decimal form of a length onto the end of `out`.
pub fn push_dec_usize(n: usize, out: &mut Vec<u8>)
    ensures
        final(out)@ == old(out)@ + dec_int(n as int),
{
    push_dec_digits(n as u64, out);
}

} // verus!
