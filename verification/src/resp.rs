//! The wire-protocol codec: the tagged union covering every value that
//! travels over the wire, the encoder that writes a value out as bytes,
//! and the decoder that reads one value from a byte buffer.
//!
//! The grammar is line-oriented: every value starts with a one-byte type
//! tag and a line terminated by CRLF; bulk strings and arrays carry a
//! decimal length in that line, followed by the payload, respectively by
//! that many nested values.

use vstd::prelude::*;

use crate::num::{
    all_digits, dec_int, digits_val, parse_int_spec, parse_i64, push_dec_i64, push_dec_usize,
};
use crate::utf8::{is_utf8, validate_utf8};

verus! {

/// Longest admissible bulk-string payload or array element count:
/// 512 MiB. Lengths outside `[0, RESP_MAX_SIZE]` other than the null
/// marker `-1` are rejected; the bound itself is still admissible.
pub const RESP_MAX_SIZE: i64 = 512 * 1024 * 1024;

/// Deepest admissible array nesting. Input nested deeper than this is
/// rejected rather than decoded, so adversarial input cannot drive the
/// recursive decoder arbitrarily deep.
pub const RESP_MAX_DEPTH: u32 = 64;

/// A protocol value as it travels over the wire.
///
/// Text-bearing variants hold their payload as validated UTF-8 bytes;
/// `BufBulk` holds arbitrary binary payloads (produced by a decoder running
/// in raw-bulk mode, which is required whenever values must round-trip
/// arbitrary binary data).
#[derive(Debug, PartialEq, Eq)]
pub enum RespDT {
    SimpleString(Vec<u8>),
    SimpleError(Vec<u8>),
    Integer(i64),
    Bulk(Vec<u8>),
    BufBulk(Vec<u8>),
    Array(Vec<RespDT>),
    NullArray,
    Null,
}

/// The mathematical abstraction of a [`RespDT`]: byte payloads become
/// sequences, integers become unbounded, arrays become sequences of
/// abstract values.
pub ghost enum RespVal {
    SimpleString(Seq<u8>),
    SimpleError(Seq<u8>),
    Integer(int),
    Bulk(Seq<u8>),
    BufBulk(Seq<u8>),
    Array(Seq<RespVal>),
    NullArray,
    Null,
}

impl DeepView for RespDT {
    type V = RespVal;

    open spec fn deep_view(&self) -> RespVal
        decreases self,
    {
        match self {
            RespDT::SimpleString(s) => RespVal::SimpleString(s@),
            RespDT::SimpleError(s) => RespVal::SimpleError(s@),
            RespDT::Integer(i) => RespVal::Integer(*i as int),
            RespDT::Bulk(b) => RespVal::Bulk(b@),
            RespDT::BufBulk(b) => RespVal::BufBulk(b@),
            RespDT::Array(elems) => RespVal::Array(
                Seq::new(
                    elems@.len(),
                    |i: int|
                        if 0 <= i < elems@.len() {
                            elems@[i].deep_view()
                        } else {
                            RespVal::Null
                        },
                ),
            ),
            RespDT::NullArray => RespVal::NullArray,
            RespDT::Null => RespVal::Null,
        }
    }
}

/// The two-byte line terminator.
pub open spec fn crlf() -> Seq<u8> {
    seq![13u8, 10u8]
}

/// The wire encoding of an abstract protocol value. Mirrors the decoder's
/// grammar exactly: the array header carries the element count, the bulk
/// header carries the exact payload byte count.
pub open spec fn spec_encode(v: RespVal) -> Seq<u8>
    decreases v, 0int,
{
    match v {
        RespVal::SimpleString(s) => seq![43u8] + s + crlf(),
        RespVal::SimpleError(s) => seq![45u8] + s + crlf(),
        RespVal::Integer(i) => seq![58u8] + dec_int(i) + crlf(),
        RespVal::Bulk(b) => seq![36u8] + dec_int(b.len() as int) + crlf() + b + crlf(),
        RespVal::BufBulk(b) => seq![36u8] + dec_int(b.len() as int) + crlf() + b + crlf(),
        RespVal::Array(elems) => seq![42u8] + dec_int(elems.len() as int) + crlf()
            + spec_encode_elems(elems, 0),
        RespVal::NullArray => seq![42u8, 45u8, 49u8, 13u8, 10u8],
        RespVal::Null => seq![36u8, 45u8, 49u8, 13u8, 10u8],
    }
}

/// The concatenated encodings of `elems[i..]`.
pub open spec fn spec_encode_elems(elems: Seq<RespVal>, i: int) -> Seq<u8>
    decreases elems, elems.len() - i,
{
    if i < 0 || i >= elems.len() {
        Seq::empty()
    } else {
        spec_encode(elems[i]) + spec_encode_elems(elems, i + 1)
    }
}

impl RespDT {
    /// Appends the wire encoding of this value to `buf`.
    #[verifier::loop_isolation(false)]
    pub fn buf_encode(&self, buf: &mut Vec<u8>)
        ensures
            final(buf)@ == old(buf)@ + spec_encode(self.deep_view()),
        decreases self,
    {
        match self {
            RespDT::Null => {
                buf.push(36);
                buf.push(45);
                buf.push(49);
                buf.push(13);
                buf.push(10);
                assert(final(buf)@ =~= old(buf)@ + spec_encode(self.deep_view()));
            },
            RespDT::NullArray => {
                buf.push(42);
                buf.push(45);
                buf.push(49);
                buf.push(13);
                buf.push(10);
                assert(final(buf)@ =~= old(buf)@ + spec_encode(self.deep_view()));
            },
            RespDT::SimpleString(s) => {
                buf.push(43);
                push_bytes(buf, s);
                buf.push(13);
                buf.push(10);
                assert(final(buf)@ =~= old(buf)@ + spec_encode(self.deep_view()));
            },
            RespDT::SimpleError(s) => {
                buf.push(45);
                push_bytes(buf, s);
                buf.push(13);
                buf.push(10);
                assert(final(buf)@ =~= old(buf)@ + spec_encode(self.deep_view()));
            },
            RespDT::Integer(i) => {
                buf.push(58);
                push_dec_i64(*i, buf);
                buf.push(13);
                buf.push(10);
                assert(final(buf)@ =~= old(buf)@ + spec_encode(self.deep_view()));
            },
            RespDT::Bulk(b) => {
                buf.push(36);
                push_dec_usize(b.len(), buf);
                buf.push(13);
                buf.push(10);
                push_bytes(buf, b);
                buf.push(13);
                buf.push(10);
                assert(final(buf)@ =~= old(buf)@ + spec_encode(self.deep_view()));
            },
            RespDT::BufBulk(b) => {
                buf.push(36);
                push_dec_usize(b.len(), buf);
                buf.push(13);
                buf.push(10);
                push_bytes(buf, b);
                buf.push(13);
                buf.push(10);
                assert(final(buf)@ =~= old(buf)@ + spec_encode(self.deep_view()));
            },
            RespDT::Array(elems) => {
                let ghost dv = self.deep_view()->Array_0;
                buf.push(42);
                push_dec_usize(elems.len(), buf);
                buf.push(13);
                buf.push(10);
                let ghost header = buf@;
                assert(header =~= old(buf)@ + seq![42u8] + dec_int(dv.len() as int) + crlf());
                let n = elems.len();
                let mut k: usize = 0;
                while k < n
                    invariant
                        k <= n == elems.len(),
                        dv == Seq::new(
                            elems@.len(),
                            |i: int|
                                if 0 <= i < elems@.len() {
                                    elems@[i].deep_view()
                                } else {
                                    RespVal::Null
                                },
                        ),
                        buf@ + spec_encode_elems(dv, k as int) == header + spec_encode_elems(
                            dv,
                            0,
                        ),
                    decreases n - k,
                {
                    assert(dv[k as int] == elems@[k as int].deep_view());
                    let ghost before = buf@;
                    elems[k].buf_encode(buf);
                    proof {
                        assert(spec_encode_elems(dv, k as int) == spec_encode(dv[k as int])
                            + spec_encode_elems(dv, k + 1));
                        assert(buf@ + spec_encode_elems(dv, k + 1) =~= before + spec_encode_elems(
                            dv,
                            k as int,
                        ));
                    }
                    k = k + 1;
                }
                proof {
                    assert(spec_encode_elems(dv, n as int) =~= Seq::<u8>::empty());
                    assert(buf@ =~= buf@ + spec_encode_elems(dv, n as int));
                    assert(final(buf)@ =~= old(buf)@ + spec_encode(self.deep_view()));
                }
            },
        }
    }

    /// The wire encoding of this value as a fresh byte vector.
    pub fn encode_raw(&self) -> (r: Vec<u8>)
        ensures
            r@ == spec_encode(self.deep_view()),
    {
        let mut res: Vec<u8> = Vec::new();
        self.buf_encode(&mut res);
        res
    }
}

/// Why decoding a value from a byte buffer failed.
///
/// `Incomplete` is not a protocol violation: the buffer simply ends before
/// the value does, and decoding may be retried once more bytes have
/// arrived. A buffer that ends for good inside a value (for instance in
/// the middle of an array) is a truncated stream, and the caller treats
/// the pending `Incomplete` as fatal. All other variants mark input that
/// can never become a well-formed value, whatever bytes follow.
#[derive(Debug, Clone, Copy, PartialEq, Eq, Structural)]
pub enum DecodeError {
    /// The buffer ends before the value does.
    Incomplete,
    /// A line is shorter than tag plus terminator, or does not end in CRLF.
    MalformedLine,
    /// The first byte of a line is not one of the five type tags.
    UnknownTag,
    /// A simple string, simple error or text-mode bulk payload is not UTF-8.
    InvalidUtf8,
    /// The bytes after an integer, bulk or array tag are not a 64-bit decimal.
    InvalidInteger,
    /// A bulk or array length other than -1 lies outside `[0, RESP_MAX_SIZE]`.
    LengthOutOfBounds,
    /// The two bytes after a bulk payload are not CRLF.
    MissingTerminator,
    /// Arrays are nested deeper than `RESP_MAX_DEPTH`.
    TooDeep,
}

/// What decoding one value at a buffer position yields: the value and the
/// position just past it, or a failure.
pub ghost enum Decoded {
    Value(RespVal, int),
    Fail(DecodeError),
}

/// What decoding a run of consecutive values yields.
pub ghost enum ElemsDecoded {
    Values(Seq<RespVal>, int),
    Fail(DecodeError),
}

/// The position of the first line-feed byte at or after `pos`, if any.
pub open spec fn find_lf(s: Seq<u8>, pos: int) -> Option<int>
    decreases s.len() - pos,
{
    if !(0 <= pos < s.len()) {
        None
    } else if s[pos] == 10 {
        Some(pos)
    } else {
        find_lf(s, pos + 1)
    }
}

/// `find_lf` finds exactly the first line feed.
pub proof fn lemma_find_lf_found(s: Seq<u8>, pos: int, e: int)
    requires
        0 <= pos <= e < s.len(),
        s[e] == 10,
        forall|j: int| pos <= j < e ==> s[j] != 10,
    ensures
        find_lf(s, pos) == Some(e),
    decreases e - pos,
{
    if pos < e {
        lemma_find_lf_found(s, pos + 1, e);
    }
}

/// Whether an unbounded integer fits a signed 64-bit machine word.
pub open spec fn fits_i64(v: int) -> bool {
    i64::MIN <= v <= i64::MAX
}

/// What decoding one value from `s` at `pos` yields.
///
/// The decoder reads the line from `pos` up to and including the first
/// line feed, checks the CRLF framing, and dispatches on the tag byte.
/// `buf_bulk` selects raw-bulk mode: bulk payloads stay raw bytes rather
/// than being validated as text. `depth` bounds how deep arrays may nest
/// below this value.
pub open spec fn spec_decode(s: Seq<u8>, pos: int, buf_bulk: bool, depth: int) -> Decoded
    decreases depth, 0int,
{
    match find_lf(s, pos) {
        None => Decoded::Fail(DecodeError::Incomplete),
        Some(e) => {
            if e + 1 - pos < 3 || s[e - 1] != 13 {
                Decoded::Fail(DecodeError::MalformedLine)
            } else {
                let tag = s[pos];
                let payload = s.subrange(pos + 1, e - 1);
                if tag == 43 {
                    if is_utf8(payload) {
                        Decoded::Value(RespVal::SimpleString(payload), e + 1)
                    } else {
                        Decoded::Fail(DecodeError::InvalidUtf8)
                    }
                } else if tag == 45 {
                    if is_utf8(payload) {
                        Decoded::Value(RespVal::SimpleError(payload), e + 1)
                    } else {
                        Decoded::Fail(DecodeError::InvalidUtf8)
                    }
                } else if tag == 58 {
                    match parse_int_spec(payload) {
                        Some(v) => if fits_i64(v) {
                            Decoded::Value(RespVal::Integer(v), e + 1)
                        } else {
                            Decoded::Fail(DecodeError::InvalidInteger)
                        },
                        None => Decoded::Fail(DecodeError::InvalidInteger),
                    }
                } else if tag == 36 {
                    match parse_int_spec(payload) {
                        Some(l) => if !fits_i64(l) {
                            Decoded::Fail(DecodeError::InvalidInteger)
                        } else if l == -1 {
                            Decoded::Value(RespVal::Null, e + 1)
                        } else if !(0 <= l <= RESP_MAX_SIZE as int) {
                            Decoded::Fail(DecodeError::LengthOutOfBounds)
                        } else if s.len() < e + 3 + l {
                            Decoded::Fail(DecodeError::Incomplete)
                        } else if s[e + 1 + l] != 13 || s[e + 2 + l] != 10 {
                            Decoded::Fail(DecodeError::MissingTerminator)
                        } else {
                            let data = s.subrange(e + 1, e + 1 + l);
                            if buf_bulk {
                                Decoded::Value(RespVal::BufBulk(data), e + 3 + l)
                            } else if is_utf8(data) {
                                Decoded::Value(RespVal::Bulk(data), e + 3 + l)
                            } else {
                                Decoded::Fail(DecodeError::InvalidUtf8)
                            }
                        },
                        None => Decoded::Fail(DecodeError::InvalidInteger),
                    }
                } else if tag == 42 {
                    match parse_int_spec(payload) {
                        Some(l) => if !fits_i64(l) {
                            Decoded::Fail(DecodeError::InvalidInteger)
                        } else if l == -1 {
                            Decoded::Value(RespVal::NullArray, e + 1)
                        } else if !(0 <= l <= RESP_MAX_SIZE as int) {
                            Decoded::Fail(DecodeError::LengthOutOfBounds)
                        } else if depth <= 0 {
                            Decoded::Fail(DecodeError::TooDeep)
                        } else {
                            match spec_decode_elems(s, e + 1, l as nat, buf_bulk, depth - 1) {
                                ElemsDecoded::Values(vs, end) => Decoded::Value(
                                    RespVal::Array(vs),
                                    end,
                                ),
                                ElemsDecoded::Fail(err) => Decoded::Fail(err),
                            }
                        },
                        None => Decoded::Fail(DecodeError::InvalidInteger),
                    }
                } else {
                    Decoded::Fail(DecodeError::UnknownTag)
                }
            }
        },
    }
}

/// What decoding `n` consecutive values from `s` at `pos` yields: the
/// values in order and the position just past the last one, or the first
/// failure.
pub open spec fn spec_decode_elems(
    s: Seq<u8>,
    pos: int,
    n: nat,
    buf_bulk: bool,
    depth: int,
) -> ElemsDecoded
    decreases depth, n,
{
    if n == 0 {
        ElemsDecoded::Values(Seq::empty(), pos)
    } else {
        match spec_decode(s, pos, buf_bulk, depth) {
            Decoded::Value(v, p2) => match spec_decode_elems(
                s,
                p2,
                (n - 1) as nat,
                buf_bulk,
                depth,
            ) {
                ElemsDecoded::Values(vs, end) => ElemsDecoded::Values(seq![v] + vs, end),
                ElemsDecoded::Fail(err) => ElemsDecoded::Fail(err),
            },
            Decoded::Fail(err) => ElemsDecoded::Fail(err),
        }
    }
}

/// No byte of `s` is a line feed.
pub open spec fn no_line_feed(s: Seq<u8>) -> bool {
    forall|i: int| 0 <= i < s.len() ==> s[i] != 10
}

/// The values whose encoding decodes back to them in the given mode with
/// `depth` array levels admissible.
///
/// Line-framed text (simple strings and errors) must be UTF-8 and free of
/// line feeds, since a line feed would end the framing line early.
/// Integers must fit the signed 64-bit wire width. Bulk payloads must
/// respect the length bound, must be UTF-8 in text mode, and must carry
/// the variant the mode produces (`Bulk` in text mode, `BufBulk` in
/// raw-bulk mode). Arrays must respect the length bound and the nesting
/// budget.
pub open spec fn wire_safe(v: RespVal, buf_bulk: bool, depth: int) -> bool
    decreases v,
{
    match v {
        RespVal::SimpleString(s) => is_utf8(s) && no_line_feed(s),
        RespVal::SimpleError(s) => is_utf8(s) && no_line_feed(s),
        RespVal::Integer(i) => fits_i64(i),
        RespVal::Bulk(b) => !buf_bulk && is_utf8(b) && b.len() <= RESP_MAX_SIZE as int,
        RespVal::BufBulk(b) => buf_bulk && b.len() <= RESP_MAX_SIZE as int,
        RespVal::Array(elems) => elems.len() <= RESP_MAX_SIZE as int && depth >= 1
            && (forall|i: int|
            0 <= i < elems.len() ==> wire_safe(#[trigger] elems[i], buf_bulk, depth - 1)),
        RespVal::NullArray => true,
        RespVal::Null => true,
    }
}

/// An encoded line sitting in a larger buffer frames exactly itself: the
/// first line feed at or after its start is its own terminator, and the
/// bytes between are its head.
proof fn lemma_line_framing(s: Seq<u8>, pos: int, head: Seq<u8>)
    requires
        0 <= pos,
        head.len() >= 1,
        pos + head.len() + 2 <= s.len(),
        s.subrange(pos, pos + head.len() + 2) == head + crlf(),
        no_line_feed(head),
    ensures
        find_lf(s, pos) == Some(pos + head.len() + 1),
        s[pos + head.len()] == 13,
        s.subrange(pos + 1, pos + head.len()) == head.skip(1),
{
    let chunk = head + crlf();
    let e = pos + head.len() + 1;
    assert(s[e] == s.subrange(pos, pos + head.len() + 2)[head.len() as int + 1]);
    assert(s[e] == 10);
    assert forall|j: int| pos <= j < e implies s[j] != 10 by {
        assert(s[j] == s.subrange(pos, pos + head.len() + 2)[j - pos]);
        if j - pos < head.len() {
            assert(chunk[j - pos] == head[j - pos]);
        } else {
            assert(chunk[j - pos] == 13);
        }
    }
    lemma_find_lf_found(s, pos, e);
    assert(s[pos + head.len()] == s.subrange(pos, pos + head.len() + 2)[head.len() as int]);
    assert(s.subrange(pos + 1, pos + head.len()) =~= head.skip(1)) by {
        assert forall|j: int| 0 <= j < head.len() - 1 implies s.subrange(
            pos + 1,
            pos + head.len(),
        )[j] == head.skip(1)[j] by {
            assert(s[pos + 1 + j] == s.subrange(pos, pos + head.len() + 2)[1 + j]);
        }
    }
}

/// The two-byte payload `-1` parses as the null length marker.
proof fn lemma_parse_null_marker()
    ensures
        parse_int_spec(seq![45u8, 49u8]) == Some(-1int),
{
    let p = seq![45u8, 49u8];
    assert(p.skip(1) =~= seq![49u8]);
    assert(all_digits(seq![49u8]));
    assert(seq![49u8].drop_last() =~= Seq::<u8>::empty());
    assert(digits_val(Seq::<u8>::empty()) == 0);
    assert(digits_val(seq![49u8]) == 10 * digits_val(seq![49u8].drop_last()) + (seq![49u8].last()
        - 48));
    assert(digits_val(seq![49u8]) == 1);
}

/// Decoding an encoded value embedded in a larger buffer yields exactly
/// that value and stops exactly at its end: the decoder is the inverse of
/// the encoder, whatever precedes or follows the encoding.
pub proof fn lemma_decode_encode_at(
    v: RespVal,
    s: Seq<u8>,
    pos: int,
    buf_bulk: bool,
    depth: int,
)
    requires
        wire_safe(v, buf_bulk, depth),
        0 <= pos,
        pos + spec_encode(v).len() <= s.len(),
        s.subrange(pos, pos + spec_encode(v).len()) == spec_encode(v),
    ensures
        spec_decode(s, pos, buf_bulk, depth) == Decoded::Value(
            v,
            pos + spec_encode(v).len(),
        ),
    decreases v, 0int,
{
    let enc = spec_encode(v);
    match v {
        RespVal::SimpleString(s0) => {
            let head = seq![43u8] + s0;
            assert(enc =~= head + crlf());
            lemma_line_framing(s, pos, head);
            let e = pos + head.len() + 1;
            assert(head.skip(1) =~= s0);
            assert(s[pos] == s.subrange(pos, pos + enc.len())[0]);
            assert(s[pos] == 43);
        },
        RespVal::SimpleError(s0) => {
            let head = seq![45u8] + s0;
            assert(enc =~= head + crlf());
            lemma_line_framing(s, pos, head);
            assert(head.skip(1) =~= s0);
            assert(s[pos] == s.subrange(pos, pos + enc.len())[0]);
            assert(s[pos] == 45);
        },
        RespVal::Integer(i) => {
            let head = seq![58u8] + dec_int(i);
            crate::num::lemma_dec_int_no_crlf(i);
            assert(enc =~= head + crlf());
            lemma_line_framing(s, pos, head);
            assert(head.skip(1) =~= dec_int(i));
            crate::num::lemma_parse_dec_int(i);
            assert(s[pos] == s.subrange(pos, pos + enc.len())[0]);
            assert(s[pos] == 58);
        },
        RespVal::Null => {
            let head = seq![36u8, 45u8, 49u8];
            assert(enc =~= head + crlf());
            lemma_line_framing(s, pos, head);
            assert(head.skip(1) =~= seq![45u8, 49u8]);
            lemma_parse_null_marker();
            assert(s[pos] == s.subrange(pos, pos + enc.len())[0]);
            assert(s[pos] == 36);
        },
        RespVal::NullArray => {
            let head = seq![42u8, 45u8, 49u8];
            assert(enc =~= head + crlf());
            lemma_line_framing(s, pos, head);
            assert(head.skip(1) =~= seq![45u8, 49u8]);
            lemma_parse_null_marker();
            assert(s[pos] == s.subrange(pos, pos + enc.len())[0]);
            assert(s[pos] == 42);
        },
        RespVal::Bulk(b) => {
            lemma_decode_encode_bulk(b, s, pos, buf_bulk, depth, 36u8);
        },
        RespVal::BufBulk(b) => {
            lemma_decode_encode_bulk(b, s, pos, buf_bulk, depth, 36u8);
        },
        RespVal::Array(elems) => {
            let n = elems.len() as int;
            let head = seq![42u8] + dec_int(n);
            let tail = spec_encode_elems(elems, 0);
            assert(enc =~= (head + crlf()) + tail);
            crate::num::lemma_dec_int_no_crlf(n);
            assert(s.subrange(pos, pos + head.len() + 2) =~= head + crlf()) by {
                assert forall|j: int| 0 <= j < head.len() + 2 implies s.subrange(
                    pos,
                    pos + head.len() + 2,
                )[j] == (head + crlf())[j] by {
                    assert(s[pos + j] == s.subrange(pos, pos + enc.len())[j]);
                }
            }
            lemma_line_framing(s, pos, head);
            let e = pos + head.len() + 1;
            assert(head.skip(1) =~= dec_int(n));
            crate::num::lemma_parse_dec_int(n);
            assert(s[pos] == s.subrange(pos, pos + enc.len())[0]);
            assert(s[pos] == 42);
            assert(s.subrange(e + 1, e + 1 + tail.len()) =~= tail) by {
                assert forall|j: int| 0 <= j < tail.len() implies s.subrange(
                    e + 1,
                    e + 1 + tail.len(),
                )[j] == tail[j] by {
                    assert(s[e + 1 + j] == s.subrange(pos, pos + enc.len())[head.len() + 2 + j]);
                    assert(enc[head.len() + 2 + j] == tail[j]);
                }
            }
            lemma_decode_encode_elems(elems, 0, s, e + 1, buf_bulk, depth - 1);
            assert(elems.skip(0) =~= elems);
            assert(spec_decode_elems(s, e + 1, n as nat, buf_bulk, depth - 1)
                == ElemsDecoded::Values(elems, e + 1 + tail.len()));
            assert(pos + enc.len() == e + 1 + tail.len());
        },
    }
}

/// Bulk strings in either mode: the header line frames the length, the
/// payload and its terminator follow verbatim.
proof fn lemma_decode_encode_bulk(
    b: Seq<u8>,
    s: Seq<u8>,
    pos: int,
    buf_bulk: bool,
    depth: int,
    tag: u8,
)
    requires
        wire_safe(RespVal::Bulk(b), buf_bulk, depth) || wire_safe(
            RespVal::BufBulk(b),
            buf_bulk,
            depth,
        ),
        0 <= pos,
        pos + spec_encode(RespVal::Bulk(b)).len() <= s.len(),
        s.subrange(pos, pos + spec_encode(RespVal::Bulk(b)).len()) == spec_encode(
            RespVal::Bulk(b),
        ),
        tag == 36u8,
    ensures
        buf_bulk ==> spec_decode(s, pos, buf_bulk, depth) == Decoded::Value(
            RespVal::BufBulk(b),
            pos + spec_encode(RespVal::Bulk(b)).len(),
        ),
        !buf_bulk ==> spec_decode(s, pos, buf_bulk, depth) == Decoded::Value(
            RespVal::Bulk(b),
            pos + spec_encode(RespVal::Bulk(b)).len(),
        ),
{
    let enc = spec_encode(RespVal::Bulk(b));
    let l = b.len() as int;
    let head = seq![36u8] + dec_int(l);
    crate::num::lemma_dec_int_no_crlf(l);
    assert(enc =~= (head + crlf()) + (b + crlf()));
    assert(s.subrange(pos, pos + head.len() + 2) =~= head + crlf()) by {
        assert forall|j: int| 0 <= j < head.len() + 2 implies s.subrange(
            pos,
            pos + head.len() + 2,
        )[j] == (head + crlf())[j] by {
            assert(s[pos + j] == s.subrange(pos, pos + enc.len())[j]);
        }
    }
    lemma_line_framing(s, pos, head);
    let e = pos + head.len() + 1;
    assert(head.skip(1) =~= dec_int(l));
    crate::num::lemma_parse_dec_int(l);
    assert(s[pos] == s.subrange(pos, pos + enc.len())[0]);
    assert(s[pos] == 36);
    assert(s[e + 1 + l] == s.subrange(pos, pos + enc.len())[head.len() + 2 + l]);
    assert(s[e + 1 + l] == 13);
    assert(s[e + 2 + l] == s.subrange(pos, pos + enc.len())[head.len() + 3 + l]);
    assert(s[e + 2 + l] == 10);
    assert(s.subrange(e + 1, e + 1 + l) =~= b) by {
        assert forall|j: int| 0 <= j < l implies s.subrange(e + 1, e + 1 + l)[j] == b[j] by {
            assert(s[e + 1 + j] == s.subrange(pos, pos + enc.len())[head.len() + 2 + j]);
            assert(enc[head.len() + 2 + j] == b[j]);
        }
    }
    assert(pos + enc.len() == e + 3 + l);
}

/// Decoding the concatenated encodings of `elems[i..]` yields exactly
/// those values in order, ending exactly at the concatenation's end.
proof fn lemma_decode_encode_elems(
    elems: Seq<RespVal>,
    i: int,
    s: Seq<u8>,
    pos: int,
    buf_bulk: bool,
    depth: int,
)
    requires
        0 <= i <= elems.len(),
        forall|j: int| i <= j < elems.len() ==> wire_safe(#[trigger] elems[j], buf_bulk, depth),
        0 <= pos,
        pos + spec_encode_elems(elems, i).len() <= s.len(),
        s.subrange(pos, pos + spec_encode_elems(elems, i).len()) == spec_encode_elems(elems, i),
    ensures
        spec_decode_elems(s, pos, (elems.len() - i) as nat, buf_bulk, depth)
            == ElemsDecoded::Values(elems.skip(i), pos + spec_encode_elems(elems, i).len()),
    decreases elems, elems.len() - i,
{
    if i == elems.len() {
        assert(elems.skip(i) =~= Seq::<RespVal>::empty());
        assert(spec_encode_elems(elems, i).len() == 0);
    } else {
        let first = spec_encode(elems[i]);
        let rest = spec_encode_elems(elems, i + 1);
        assert(spec_encode_elems(elems, i) =~= first + rest);
        assert(s.subrange(pos, pos + first.len()) =~= first) by {
            assert forall|j: int| 0 <= j < first.len() implies s.subrange(
                pos,
                pos + first.len(),
            )[j] == first[j] by {
                assert(s[pos + j] == s.subrange(
                    pos,
                    pos + spec_encode_elems(elems, i).len(),
                )[j]);
            }
        }
        lemma_decode_encode_at(elems[i], s, pos, buf_bulk, depth);
        let p2 = pos + first.len();
        assert(s.subrange(p2, p2 + rest.len()) =~= rest) by {
            assert forall|j: int| 0 <= j < rest.len() implies s.subrange(p2, p2 + rest.len())[j]
                == rest[j] by {
                assert(s[p2 + j] == s.subrange(pos, pos + spec_encode_elems(elems, i).len())[
                    first.len() + j]);
                assert(spec_encode_elems(elems, i)[first.len() + j] == rest[j]);
            }
        }
        lemma_decode_encode_elems(elems, i + 1, s, p2, buf_bulk, depth);
        assert(seq![elems[i]] + elems.skip(i + 1) =~= elems.skip(i));
        assert((elems.len() - i) as nat != 0);
    }
}

/// Round trip: decoding the encoding of any wire-safe value yields that
/// value back, consuming exactly the encoding.
pub proof fn lemma_round_trip(v: RespVal, buf_bulk: bool)
    requires
        wire_safe(v, buf_bulk, RESP_MAX_DEPTH as int),
    ensures
        spec_decode(spec_encode(v), 0, buf_bulk, RESP_MAX_DEPTH as int) == Decoded::Value(
            v,
            spec_encode(v).len() as int,
        ),
{
    let s = spec_encode(v);
    assert(s.subrange(0, s.len() as int) =~= s);
    lemma_decode_encode_at(v, s, 0, buf_bulk, RESP_MAX_DEPTH as int);
}

/// Whether two bytes are the CRLF line terminator.
#[inline]
pub fn is_crlf(a: u8, b: u8) -> (r: bool)
    ensures
        r == (a == 13 && b == 10),
{
    a == 13 && b == 10
}

/// Reads a text payload: the bytes themselves, validated as UTF-8.
pub fn parse_string(bytes: &[u8]) -> (r: Result<Vec<u8>, DecodeError>)
    ensures
        match r {
            Ok(v) => is_utf8(bytes@) && v@ == bytes@,
            Err(err) => err == DecodeError::InvalidUtf8 && !is_utf8(bytes@),
        },
{
    if validate_utf8(bytes) {
        Ok(vstd::slice::slice_to_vec(bytes))
    } else {
        Err(DecodeError::InvalidUtf8)
    }
}

/// Reads a signed 64-bit decimal integer payload.
pub fn parse_integer(bytes: &[u8]) -> (r: Result<i64, DecodeError>)
    ensures
        match r {
            Ok(i) => parse_int_spec(bytes@) == Some(i as int),
            Err(err) => err == DecodeError::InvalidInteger && match parse_int_spec(bytes@) {
                Some(v) => !fits_i64(v),
                None => true,
            },
        },
{
    match parse_i64(bytes) {
        Some(i) => Ok(i),
        None => Err(DecodeError::InvalidInteger),
    }
}

/// Finds the first line feed at or after `pos`.
fn find_lf_from(input: &Vec<u8>, pos: usize) -> (r: Option<usize>)
    requires
        pos <= input@.len(),
    ensures
        match r {
            Some(e) => find_lf(input@, pos as int) == Some(e as int) && pos <= e
                < input@.len(),
            None => find_lf(input@, pos as int) is None,
        },
{
    let n = input.len();
    let mut i = pos;
    while i < n
        invariant
            pos <= i <= n == input@.len(),
            find_lf(input@, pos as int) == find_lf(input@, i as int),
        decreases n - i,
    {
        if input[i] == 10 {
            return Some(i);
        }
        i = i + 1;
    }
    None
}

/// Decodes one value from `input` at `pos`, with `depth` array levels
/// still admissible below it. Returns the value and the position just
/// past it.
#[verifier::loop_isolation(false)]
#[verifier::rlimit(60)]
fn decode_rec(input: &Vec<u8>, pos: usize, buf_bulk: bool, depth: u32) -> (r: Result<
    (RespDT, usize),
    DecodeError,
>)
    requires
        pos <= input@.len(),
    ensures
        match r {
            Ok((v, p2)) => spec_decode(input@, pos as int, buf_bulk, depth as int)
                == Decoded::Value(v.deep_view(), p2 as int) && pos < p2 <= input@.len(),
            Err(err) => spec_decode(input@, pos as int, buf_bulk, depth as int)
                == Decoded::Fail(err),
        },
    decreases depth,
{
    let n = input.len();
    let e = match find_lf_from(input, pos) {
        Some(e) => e,
        None => {
            return Err(DecodeError::Incomplete);
        },
    };
    if e - pos < 2 {
        return Err(DecodeError::MalformedLine);
    }
    if !is_crlf(input[e - 1], 10) {
        return Err(DecodeError::MalformedLine);
    }
    let tag = input[pos];
    let payload = vstd::slice::slice_subrange(input.as_slice(), pos + 1, e - 1);
    if tag == 43 {
        match parse_string(payload) {
            Ok(v) => Ok((RespDT::SimpleString(v), e + 1)),
            Err(err) => Err(err),
        }
    } else if tag == 45 {
        match parse_string(payload) {
            Ok(v) => Ok((RespDT::SimpleError(v), e + 1)),
            Err(err) => Err(err),
        }
    } else if tag == 58 {
        match parse_integer(payload) {
            Ok(i) => Ok((RespDT::Integer(i), e + 1)),
            Err(err) => Err(err),
        }
    } else if tag == 36 {
        let l = match parse_integer(payload) {
            Ok(l) => l,
            Err(err) => {
                return Err(err);
            },
        };
        if l == -1 {
            return Ok((RespDT::Null, e + 1));
        }
        if l < 0 || l > RESP_MAX_SIZE {
            return Err(DecodeError::LengthOutOfBounds);
        }
        let lu = l as usize;
        if n - (e + 1) < lu + 2 {
            return Err(DecodeError::Incomplete);
        }
        if !is_crlf(input[e + 1 + lu], input[e + 2 + lu]) {
            return Err(DecodeError::MissingTerminator);
        }
        let data = vstd::slice::slice_subrange(input.as_slice(), e + 1, e + 1 + lu);
        if buf_bulk {
            Ok((RespDT::BufBulk(vstd::slice::slice_to_vec(data)), e + 3 + lu))
        } else {
            match parse_string(data) {
                Ok(v) => Ok((RespDT::Bulk(v), e + 3 + lu)),
                Err(err) => Err(err),
            }
        }
    } else if tag == 42 {
        let l = match parse_integer(payload) {
            Ok(l) => l,
            Err(err) => {
                return Err(err);
            },
        };
        if l == -1 {
            return Ok((RespDT::NullArray, e + 1));
        }
        if l < 0 || l > RESP_MAX_SIZE {
            return Err(DecodeError::LengthOutOfBounds);
        }
        if depth == 0 {
            return Err(DecodeError::TooDeep);
        }
        let count = l as usize;
        let ghost s = input@;
        let ghost d = depth as int - 1;
        let ghost start = (e + 1) as int;
        let mut elems: Vec<RespDT> = Vec::new();
        let mut cur: usize = e + 1;
        let mut k: usize = 0;
        proof {
            assert(elems.deep_view() =~= Seq::<RespVal>::empty());
        }
        while k < count
            invariant
                s == input@,
                d == depth as int - 1,
                depth >= 1,
                k <= count,
                elems.deep_view().len() == k as int,
                cur <= input@.len(),
                start <= cur as int,
                match spec_decode_elems(s, cur as int, (count - k) as nat, buf_bulk, d) {
                    ElemsDecoded::Values(vs, end) => spec_decode_elems(
                        s,
                        start,
                        count as nat,
                        buf_bulk,
                        d,
                    ) == ElemsDecoded::Values(elems.deep_view() + vs, end),
                    ElemsDecoded::Fail(err) => spec_decode_elems(
                        s,
                        start,
                        count as nat,
                        buf_bulk,
                        d,
                    ) == ElemsDecoded::Fail(err),
                },
            decreases count - k,
        {
            let ghost elems_before = elems.deep_view();
            let ghost cur_before = cur as int;
            match decode_rec(input, cur, buf_bulk, depth - 1) {
                Err(err) => {
                    proof {
                        assert(spec_decode_elems(s, cur_before, (count - k) as nat, buf_bulk, d)
                            == ElemsDecoded::Fail(err));
                    }
                    return Err(err);
                },
                Ok((v, p2)) => {
                    elems.push(v);
                    cur = p2;
                    proof {
                        assert(elems.deep_view() =~= elems_before + seq![v.deep_view()]);
                        let rest = spec_decode_elems(s, p2 as int, (count - k - 1) as nat,
                            buf_bulk, d);
                        match rest {
                            ElemsDecoded::Values(vs, end) => {
                                assert(spec_decode_elems(s, cur_before, (count - k) as nat,
                                    buf_bulk, d) == ElemsDecoded::Values(
                                    seq![v.deep_view()] + vs,
                                    end,
                                ));
                                assert(elems_before + (seq![v.deep_view()] + vs)
                                    =~= (elems_before + seq![v.deep_view()]) + vs);
                            },
                            ElemsDecoded::Fail(_) => {},
                        }
                    }
                    k = k + 1;
                },
            }
        }
        proof {
            assert(spec_decode_elems(s, cur as int, 0, buf_bulk, d) == ElemsDecoded::Values(
                Seq::<RespVal>::empty(),
                cur as int,
            ));
            assert(elems.deep_view() + Seq::<RespVal>::empty() =~= elems.deep_view());
            assert(RespDT::Array(elems).deep_view()->Array_0 =~= elems.deep_view());
        }
        Ok((RespDT::Array(elems), cur))
    } else {
        Err(DecodeError::UnknownTag)
    }
}

/// Reads protocol values one after another out of a byte buffer.
///
/// The buffer holds whatever has arrived from the peer so far; `pos`
/// marks how far it has been decoded. When decoding reports
/// `Incomplete`, the caller appends newly arrived bytes to `input` and
/// calls `decode` again from the same position.
pub struct RespHandler {
    pub input: Vec<u8>,
    pub pos: usize,
    pub buf_bulk: bool,
}

impl RespHandler {
    /// The read position never passes the end of the buffer.
    pub open spec fn wf(&self) -> bool {
        self.pos <= self.input@.len()
    }

    /// A handler over `input` that reads bulk strings as text.
    pub fn new(input: Vec<u8>) -> (r: Self)
        ensures
            r.wf(),
            r.input == input,
            r.pos == 0,
            r.buf_bulk == false,
    {
        RespHandler { input, pos: 0, buf_bulk: false }
    }

    /// A handler over `input` that keeps bulk strings as raw bytes.
    pub fn with_buf_bulk(input: Vec<u8>) -> (r: Self)
        ensures
            r.wf(),
            r.input == input,
            r.pos == 0,
            r.buf_bulk == true,
    {
        RespHandler { input, pos: 0, buf_bulk: true }
    }

    /// Decodes the next value from the buffer.
    ///
    /// `Ok(None)` means the buffer ends exactly at a value boundary: a
    /// clean end of input, not an error. On success the position advances
    /// past the decoded value; on failure it stays, so that `Incomplete`
    /// can be retried after more bytes arrive.
    pub fn decode(&mut self) -> (r: Result<Option<RespDT>, DecodeError>)
        requires
            old(self).wf(),
        ensures
            final(self).wf(),
            final(self).input == old(self).input,
            final(self).buf_bulk == old(self).buf_bulk,
            match r {
                Ok(Some(v)) => spec_decode(
                    old(self).input@,
                    old(self).pos as int,
                    old(self).buf_bulk,
                    RESP_MAX_DEPTH as int,
                ) == Decoded::Value(v.deep_view(), final(self).pos as int) && old(self).pos
                    < final(self).pos,
                Ok(None) => old(self).pos == old(self).input@.len() && final(self).pos == old(
                    self,
                ).pos,
                Err(err) => old(self).pos < old(self).input@.len() && spec_decode(
                    old(self).input@,
                    old(self).pos as int,
                    old(self).buf_bulk,
                    RESP_MAX_DEPTH as int,
                ) == Decoded::Fail(err) && final(self).pos == old(self).pos,
            },
    {
        if self.pos == self.input.len() {
            return Ok(None);
        }
        match decode_rec(&self.input, self.pos, self.buf_bulk, RESP_MAX_DEPTH) {
            Ok((v, p2)) => {
                self.pos = p2;
                Ok(Some(v))
            },
            Err(err) => Err(err),
        }
    }
}

/// The ASCII-lowercased form of one byte.
pub open spec fn lower_byte(b: u8) -> u8 {
    if 65 <= b <= 90 {
        (b + 32) as u8
    } else {
        b
    }
}

/// The ASCII-lowercased form of a byte string.
pub open spec fn spec_lower(s: Seq<u8>) -> Seq<u8> {
    s.map_values(|b: u8| lower_byte(b))
}

/// The ASCII-lowercased copy of `s`.
pub fn to_ascii_lower(s: &Vec<u8>) -> (r: Vec<u8>)
    ensures
        r@ == spec_lower(s@),
{
    let n = s.len();
    let mut out: Vec<u8> = Vec::new();
    let mut k: usize = 0;
    while k < n
        invariant
            k <= n == s@.len(),
            out@ == spec_lower(s@.take(k as int)),
        decreases n - k,
    {
        let b = s[k];
        if 65 <= b && b <= 90 {
            out.push(b + 32);
        } else {
            out.push(b);
        }
        assert(out@ =~= spec_lower(s@.take(k + 1)));
        k = k + 1;
    }
    assert(s@.take(n as int) =~= s@);
    out
}

impl RespDT {
    /// Splits a command array into its lowercased name and its arguments.
    ///
    /// Yields the name and argument values exactly when this value is an
    /// array whose first element is a bulk string; the name is that
    /// element's payload lowercased, the arguments are the remaining
    /// elements in order.
    pub fn extract_array(self) -> (r: Option<(Vec<u8>, Vec<RespDT>)>)
        ensures
            match r {
                Some((cmd, args)) => self.deep_view() is Array
                    && self.deep_view()->Array_0.len() >= 1
                    && self.deep_view()->Array_0[0] is Bulk
                    && cmd@ == spec_lower(self.deep_view()->Array_0[0]->Bulk_0)
                    && args.deep_view() == self.deep_view()->Array_0.skip(1),
                None => !(self.deep_view() is Array
                    && self.deep_view()->Array_0.len() >= 1
                    && self.deep_view()->Array_0[0] is Bulk),
            },
    {
        let ghost dv = self.deep_view();
        match self {
            RespDT::Array(mut elems) => {
                if elems.len() == 0 {
                    return None;
                }
                let ghost elems_dv = elems.deep_view();
                proof {
                    assert(dv->Array_0 =~= elems_dv);
                }
                let first = elems.remove(0);
                proof {
                    assert(elems.deep_view() =~= elems_dv.skip(1));
                }
                match first {
                    RespDT::Bulk(name) => Some((to_ascii_lower(&name), elems)),
                    _ => None,
                }
            },
            _ => None,
        }
    }

    /// The payload of a text-mode bulk string; `None` for anything else.
    pub fn extract_bulk_str(self) -> (r: Option<Vec<u8>>)
        ensures
            match r {
                Some(b) => self.deep_view() is Bulk && b@ == self.deep_view()->Bulk_0,
                None => !(self.deep_view() is Bulk),
            },
    {
        match self {
            RespDT::Bulk(b) => Some(b),
            _ => None,
        }
    }
}

/// Appends all of `src` to `dst`.
fn push_bytes(dst: &mut Vec<u8>, src: &Vec<u8>)
    ensures
        final(dst)@ == old(dst)@ + src@,
{
    let n = src.len();
    let mut k: usize = 0;
    while k < n
        invariant
            k <= n == src.len(),
            dst@ == old(dst)@ + src@.take(k as int),
        decreases n - k,
    {
        dst.push(src[k]);
        assert(src@.take(k + 1) =~= src@.take(k as int).push(src@[k as int]));
        k = k + 1;
    }
    assert(src@.take(n as int) =~= src@);
}

} // verus!
