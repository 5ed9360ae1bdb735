//! The chunked-transfer codec.
//!
//! Retrieval of a large value emits the payload as size-prefixed chunks of at
//! most [`CHUNK_SIZE`] characters, the size written in decimal.  Ingest
//! decodes a chunk-framed byte stream, the size read in hexadecimal; the two
//! radixes differ by design and are preserved exactly.  The decoder is
//! incremental: bytes may arrive in arbitrary fragments and the result is a
//! function of the concatenation alone.

use vstd::prelude::*;
use vstd::string::*;
use crate::text::{
    crlf,
    lemma_crlf_literal,
    match_at,
    first_match_from,
    lemma_first_match_bounds,
    lemma_first_match_is,
    lemma_first_match_append,
    is_digit,
    digits_val,
    all_digits,
    num_body,
    num_negative,
    parse_i64,
};

verus! {

/// Longest chunk emitted on retrieval, and the size above which a stored
/// value is sent chunked.
pub const CHUNK_SIZE: usize = 4096;

// ===== decimal rendering =====

pub open spec fn digit_char(d: int) -> char {
    if d == 0 {
        '0'
    } else if d == 1 {
        '1'
    } else if d == 2 {
        '2'
    } else if d == 3 {
        '3'
    } else if d == 4 {
        '4'
    } else if d == 5 {
        '5'
    } else if d == 6 {
        '6'
    } else if d == 7 {
        '7'
    } else if d == 8 {
        '8'
    } else {
        '9'
    }
}

/// The decimal digit characters of `n`, most significant first.
pub open spec fn dec_digits(n: int) -> Seq<char>
    decreases n,
{
    if n < 10 {
        seq![digit_char(n)]
    } else {
        dec_digits(n / 10).push(digit_char(n % 10))
    }
}

fn digit_str(d: usize) -> (s: &'static str)
    requires
        d < 10,
    ensures
        s@ == seq![digit_char(d as int)],
{
    proof {
        reveal_strlit("0");
        reveal_strlit("1");
        reveal_strlit("2");
        reveal_strlit("3");
        reveal_strlit("4");
        reveal_strlit("5");
        reveal_strlit("6");
        reveal_strlit("7");
        reveal_strlit("8");
        reveal_strlit("9");
    }
    let s: &'static str = if d == 0 {
        "0"
    } else if d == 1 {
        "1"
    } else if d == 2 {
        "2"
    } else if d == 3 {
        "3"
    } else if d == 4 {
        "4"
    } else if d == 5 {
        "5"
    } else if d == 6 {
        "6"
    } else if d == 7 {
        "7"
    } else if d == 8 {
        "8"
    } else {
        "9"
    };
    proof {
        assert(s@ =~= seq![digit_char(d as int)]);
    }
    s
}

/// Render `n` in decimal.
pub fn dec_str(n: usize) -> (s: String)
    ensures
        s@ == dec_digits(n as int),
    decreases n,
{
    if n < 10 {
        String::from_str(digit_str(n))
    } else {
        let mut s = dec_str(n / 10);
        s.append(digit_str(n % 10));
        proof {
            assert(s@ =~= dec_digits(n as int));
        }
        s
    }
}

pub proof fn lemma_dec_digits_shape(n: int)
    requires
        0 <= n,
    ensures
        dec_digits(n).len() >= 1,
        forall|i: int| 0 <= i < dec_digits(n).len() ==> is_digit(#[trigger] dec_digits(n)[i]),
        digits_val(dec_digits(n)) == n,
    decreases n,
{
    if n < 10 {
        assert(digits_val(seq![digit_char(n)].drop_last()) == 0);
    } else {
        lemma_dec_digits_shape(n / 10);
        assert(dec_digits(n).drop_last() =~= dec_digits(n / 10));
        assert(dec_digits(n).last() == digit_char(n % 10));
    }
}

/// A rendered decimal number parses back to itself.
pub proof fn lemma_dec_digits_parse(n: int)
    requires
        0 <= n <= i64::MAX,
    ensures
        parse_i64(dec_digits(n)) == Some(n),
{
    lemma_dec_digits_shape(n);
    let ds = dec_digits(n);
    assert(is_digit(ds[0]));
    assert(!num_negative(ds));
    assert(num_body(ds) == ds);
    assert(all_digits(ds));
}

// ===== chunked encoding of a value =====

/// The chunk framing of `v`: consecutive slices of `CHUNK_SIZE` characters,
/// then the remainder if any, each written as `<decimal size>\r\n<slice>\r\n`.
pub open spec fn chunk_stream(v: Seq<char>) -> Seq<char>
    decreases v.len(),
{
    if v.len() == 0 {
        Seq::empty()
    } else if v.len() >= CHUNK_SIZE {
        dec_digits(CHUNK_SIZE as int) + crlf() + v.take(CHUNK_SIZE as int) + crlf() + chunk_stream(
            v.skip(CHUNK_SIZE as int),
        )
    } else {
        dec_digits(v.len() as int) + crlf() + v + crlf()
    }
}

/// The whole response for a large value: the chunked header, the framed
/// payload, and the terminating zero-size chunk.
pub open spec fn chunked_response(v: Seq<char>) -> Seq<char> {
    "OK\r\ntransfer-encoding: chunked\r\n\r\n"@ + chunk_stream(v) + "0\r\n\r\n"@
}

/// Build the chunked response for `val`.
pub fn encode_chunked(val: &str) -> (r: String)
    ensures
        r@ == chunked_response(val@),
{
    proof {
        lemma_crlf_literal();
    }
    let n = val.unicode_len();
    let mut r = String::from_str("OK\r\ntransfer-encoding: chunked\r\n\r\n");
    let mut i: usize = 0;
    proof {
        assert(val@.skip(0) =~= val@);
    }
    while n - i >= CHUNK_SIZE
        invariant
            0 <= i <= n,
            n == val@.len(),
            "\r\n"@ == crlf(),
            r@ + chunk_stream(val@.skip(i as int)) =~= "OK\r\ntransfer-encoding: chunked\r\n\r\n"@
                + chunk_stream(val@),
        decreases n - i,
    {
        let ghost pre = r@;
        let ghost tail = val@.skip(i as int);
        let sz = dec_str(CHUNK_SIZE);
        r.append(sz.as_str());
        r.append("\r\n");
        r.append(val.substring_char(i, i + CHUNK_SIZE));
        r.append("\r\n");
        proof {
            assert(val@.subrange(i as int, i + CHUNK_SIZE) =~= tail.take(CHUNK_SIZE as int));
            assert(tail.skip(CHUNK_SIZE as int) =~= val@.skip(i + CHUNK_SIZE));
            assert(r@ =~= pre + (dec_digits(CHUNK_SIZE as int) + crlf() + tail.take(
                CHUNK_SIZE as int,
            ) + crlf()));
            assert(r@ + chunk_stream(val@.skip(i + CHUNK_SIZE)) =~= pre + chunk_stream(tail));
        }
        i = i + CHUNK_SIZE;
    }
    let ghost tail = val@.skip(i as int);
    if i < n {
        let ghost pre = r@;
        let sz = dec_str(n - i);
        r.append(sz.as_str());
        r.append("\r\n");
        r.append(val.substring_char(i, n));
        r.append("\r\n");
        proof {
            assert(val@.subrange(i as int, n as int) =~= tail);
            assert(tail.len() == n - i < CHUNK_SIZE);
            assert(r@ =~= pre + (dec_digits((n - i) as int) + crlf() + tail + crlf()));
            assert(r@ =~= pre + chunk_stream(tail));
        }
    } else {
        proof {
            assert(tail =~= Seq::<char>::empty());
            assert(r@ + chunk_stream(tail) =~= r@);
        }
    }
    r.append("0\r\n\r\n");
    proof {
        assert(r@ =~= chunked_response(val@));
    }
    r
}

// ===== chunked decoding of an ingest stream =====

pub open spec fn crlf_b() -> Seq<u8> {
    seq![13u8, 10u8]
}

pub open spec fn is_ws_byte(b: u8) -> bool {
    b == 32 || b == 9 || b == 10 || b == 13
}

/// `s` without leading and trailing ASCII whitespace.
pub open spec fn trim_bytes(s: Seq<u8>) -> Seq<u8>
    decreases s.len(),
{
    if s.len() > 0 && is_ws_byte(s[0]) {
        trim_bytes(s.drop_first())
    } else if s.len() > 0 && is_ws_byte(s.last()) {
        trim_bytes(s.drop_last())
    } else {
        s
    }
}

proof fn lemma_trim_is(s: Seq<u8>, a: int, b: int)
    requires
        0 <= a <= b <= s.len(),
        forall|k: int| 0 <= k < a ==> is_ws_byte(s[k]),
        forall|k: int| b <= k < s.len() ==> is_ws_byte(s[k]),
        a < b ==> !is_ws_byte(s[a]) && !is_ws_byte(s[b - 1]),
    ensures
        trim_bytes(s) == s.subrange(a, b),
    decreases s.len(),
{
    if a > 0 {
        assert(s.drop_first() =~= s.skip(1));
        lemma_trim_is(s.skip(1), a - 1, b - 1);
        assert(s.skip(1).subrange(a - 1, b - 1) =~= s.subrange(a, b));
    } else if b < s.len() {
        if a == b {
            assert(is_ws_byte(s[0]));
            assert(s.drop_first() =~= s.skip(1));
            lemma_trim_is(s.skip(1), 0, 0);
            assert(s.skip(1).subrange(0, 0) =~= s.subrange(0, 0));
        } else {
            assert(is_ws_byte(s.last()));
            assert(s.drop_last() =~= s.take(s.len() - 1));
            lemma_trim_is(s.drop_last(), a, b);
            assert(s.drop_last().subrange(a, b) =~= s.subrange(a, b));
        }
    } else {
        assert(s.subrange(0, s.len() as int) =~= s);
    }
}

pub open spec fn hex_digit_val(b: u8) -> int {
    if 48 <= b && b <= 57 {
        b - 48
    } else if 97 <= b && b <= 102 {
        b - 87
    } else if 65 <= b && b <= 70 {
        b - 55
    } else {
        -1
    }
}

pub open spec fn all_hex(s: Seq<u8>) -> bool {
    s.len() > 0 && (forall|i: int| 0 <= i < s.len() ==> hex_digit_val(s[i]) >= 0)
}

/// Value of a hexadecimal digit string, most significant digit first.
pub open spec fn hex_val(s: Seq<u8>) -> int
    decreases s.len(),
{
    if s.len() == 0 {
        0
    } else {
        hex_val(s.drop_last()) * 16 + hex_digit_val(s.last())
    }
}

pub open spec fn hex_body(s: Seq<u8>) -> Seq<u8> {
    if s.len() > 0 && s[0] == 43 {
        s.drop_first()
    } else {
        s
    }
}

/// The chunk size denoted by a size line: an optional `+` and hexadecimal
/// digits, surrounding ASCII whitespace ignored, rejected when the value
/// does not fit in a `usize`.
pub open spec fn parse_hex_size(s: Seq<u8>) -> Option<int> {
    let t = hex_body(trim_bytes(s));
    if all_hex(t) && hex_val(t) <= usize::MAX {
        Some(hex_val(t))
    } else {
        None
    }
}

proof fn lemma_hex_val_nonneg(s: Seq<u8>)
    requires
        forall|i: int| 0 <= i < s.len() ==> hex_digit_val(s[i]) >= 0,
    ensures
        hex_val(s) >= 0,
    decreases s.len(),
{
    if s.len() > 0 {
        lemma_hex_val_nonneg(s.drop_last());
    }
}

proof fn lemma_hex_val_mono(s: Seq<u8>, k: int)
    requires
        0 <= k <= s.len(),
        forall|i: int| 0 <= i < s.len() ==> hex_digit_val(s[i]) >= 0,
    ensures
        hex_val(s.take(k)) <= hex_val(s),
    decreases s.len() - k,
{
    if k < s.len() {
        assert(s.take(k + 1).drop_last() =~= s.take(k));
        assert(s.take(k + 1).last() == s[k]);
        lemma_hex_val_nonneg(s.take(k));
        lemma_hex_val_mono(s, k + 1);
    } else {
        assert(s.take(k) =~= s);
    }
}

/// Decoding a buffer as far as its complete chunks go: the chunk data taken,
/// the unconsumed rest, and whether decoding has ended (a zero-size chunk or
/// an unparsable size line).
pub struct DecodeState {
    pub taken: Seq<u8>,
    pub rest: Seq<u8>,
    pub done: bool,
}

pub open spec fn decode_chunks(buf: Seq<u8>) -> DecodeState
    decreases buf.len(),
    via decode_chunks_dec
{
    match first_match_from(buf, crlf_b(), 0) {
        None => DecodeState { taken: Seq::empty(), rest: buf, done: false },
        Some(p) => match parse_hex_size(buf.take(p)) {
            None => DecodeState { taken: Seq::empty(), rest: buf, done: true },
            Some(size) => if size == 0 {
                DecodeState { taken: Seq::empty(), rest: buf, done: true }
            } else if buf.len() >= p + 2 + size + 2 {
                let inner = decode_chunks(buf.skip(p + 2 + size + 2));
                DecodeState {
                    taken: buf.subrange(p + 2, p + 2 + size) + inner.taken,
                    rest: inner.rest,
                    done: inner.done,
                }
            } else {
                DecodeState { taken: Seq::empty(), rest: buf, done: false }
            },
        },
    }
}

#[via_fn]
proof fn decode_chunks_dec(buf: Seq<u8>) {
    match first_match_from(buf, crlf_b(), 0) {
        None => {},
        Some(p) => {
            lemma_first_match_bounds(buf, crlf_b(), 0);
            match parse_hex_size(buf.take(p)) {
                None => {},
                Some(size) => {
                    lemma_hex_val_nonneg(hex_body(trim_bytes(buf.take(p))));
                },
            }
        },
    }
}

/// Sizes returned by `parse_hex_size` are never negative.
proof fn lemma_parse_hex_nonneg(s: Seq<u8>)
    ensures
        (match parse_hex_size(s) {
            Some(size) => 0 <= size <= usize::MAX,
            None => true,
        }),
{
    if parse_hex_size(s) is Some {
        lemma_hex_val_nonneg(hex_body(trim_bytes(s)));
    }
}

/// Incremental decoding agrees with decoding the whole stream: appending
/// bytes to a partly decoded stream continues from its undecoded rest, and a
/// finished decoding only accumulates the new bytes unread.
pub proof fn lemma_decode_append(h: Seq<u8>, b: Seq<u8>)
    ensures
        ({
            let d = decode_chunks(h);
            let e = decode_chunks(d.rest + b);
            if d.done {
                decode_chunks(h + b) == DecodeState { taken: d.taken, rest: d.rest + b, done: true }
            } else {
                decode_chunks(h + b) == DecodeState {
                    taken: d.taken + e.taken,
                    rest: e.rest,
                    done: e.done,
                }
            }
        }),
    decreases h.len(),
{
    let d = decode_chunks(h);
    match first_match_from(h, crlf_b(), 0) {
        None => {
            assert(d.rest + b =~= h + b);
            let e = decode_chunks(h + b);
            assert(d.taken + e.taken =~= e.taken);
        },
        Some(p) => {
            lemma_first_match_bounds(h, crlf_b(), 0);
            lemma_first_match_append(h, crlf_b(), b, 0);
            assert((h + b).take(p) =~= h.take(p));
            match parse_hex_size(h.take(p)) {
                None => {
                    assert(d.rest + b =~= h + b);
                },
                Some(size) => {
                    lemma_parse_hex_nonneg(h.take(p));
                    if size == 0 {
                        assert(d.rest + b =~= h + b);
                    } else if h.len() >= p + 2 + size + 2 {
                        let cut = p + 2 + size + 2;
                        assert((h + b).len() >= cut);
                        assert((h + b).skip(cut) =~= h.skip(cut) + b);
                        assert((h + b).subrange(p + 2, p + 2 + size) =~= h.subrange(
                            p + 2,
                            p + 2 + size,
                        ));
                        let chunk = h.subrange(p + 2, p + 2 + size);
                        let di = decode_chunks(h.skip(cut));
                        lemma_decode_append(h.skip(cut), b);
                        if di.done {
                            assert(decode_chunks(h + b).taken =~= d.taken);
                        } else {
                            let e = decode_chunks(di.rest + b);
                            assert(chunk + (di.taken + e.taken) =~= (chunk + di.taken) + e.taken);
                        }
                    } else {
                        assert(d.rest + b =~= h + b);
                        let e = decode_chunks(h + b);
                        assert(d.taken + e.taken =~= e.taken);
                    }
                },
            }
        },
    }
}

// ===== the ingest round trip =====

pub open spec fn hex_digit_char(d: int) -> u8 {
    if d < 10 {
        (48 + d) as u8
    } else {
        (87 + d) as u8
    }
}

/// The hexadecimal digit characters of `n`, most significant first, in
/// lower case.
pub open spec fn hex_digits(n: int) -> Seq<u8>
    decreases n,
{
    if n < 16 {
        seq![hex_digit_char(n)]
    } else {
        hex_digits(n / 16).push(hex_digit_char(n % 16))
    }
}

/// One well-formed chunk: its size in hexadecimal, a line terminator, the
/// data, another line terminator.
pub open spec fn frame_chunk(data: Seq<u8>) -> Seq<u8> {
    hex_digits(data.len() as int) + crlf_b() + data + crlf_b()
}

/// The terminating zero-size chunk.
pub open spec fn zero_end() -> Seq<u8> {
    seq![48u8, 13u8, 10u8, 13u8, 10u8]
}

proof fn lemma_hex_digits_shape(n: int)
    requires
        0 <= n,
    ensures
        hex_digits(n).len() >= 1,
        forall|i: int|
            0 <= i < hex_digits(n).len() ==> (48 <= #[trigger] hex_digits(n)[i] <= 57 || 97
                <= hex_digits(n)[i] <= 102),
        hex_val(hex_digits(n)) == n,
    decreases n,
{
    if n < 16 {
        assert(hex_val(seq![hex_digit_char(n)].drop_last()) == 0);
    } else {
        lemma_hex_digits_shape(n / 16);
        assert(hex_digits(n).drop_last() =~= hex_digits(n / 16));
        assert(hex_digits(n).last() == hex_digit_char(n % 16));
    }
}

/// A rendered size line parses back to the size it was made from.
proof fn lemma_hex_digits_parse(n: int)
    requires
        0 <= n <= usize::MAX,
    ensures
        parse_hex_size(hex_digits(n)) == Some(n),
{
    lemma_hex_digits_shape(n);
    let ds = hex_digits(n);
    lemma_trim_is(ds, 0, ds.len() as int);
    assert(ds.subrange(0, ds.len() as int) =~= ds);
    assert(hex_body(ds) == ds);
    assert(all_hex(ds));
}

/// Decoding one well-formed chunk takes exactly its data and continues with
/// whatever follows.
pub proof fn lemma_decode_framed_chunk(data: Seq<u8>, tail: Seq<u8>)
    requires
        1 <= data.len() <= usize::MAX,
    ensures
        ({
            let d = decode_chunks(frame_chunk(data) + tail);
            let e = decode_chunks(tail);
            d.taken == data + e.taken && d.rest == e.rest && d.done == e.done
        }),
{
    lemma_hex_digits_shape(data.len() as int);
    lemma_hex_digits_parse(data.len() as int);
    let ds = hex_digits(data.len() as int);
    let s = frame_chunk(data) + tail;
    let p = ds.len() as int;
    assert(match_at(s, crlf_b(), p)) by {
        assert(s.subrange(p, p + 2) =~= crlf_b());
    }
    assert forall|k: int| 0 <= k < p implies !match_at(s, crlf_b(), k) by {
        if match_at(s, crlf_b(), k) {
            assert(s.subrange(k, k + 2)[0] == 13u8);
            assert(s[k] == ds[k]);
        }
    };
    lemma_first_match_is(s, crlf_b(), p);
    assert(s.take(p) =~= ds);
    let size = data.len() as int;
    assert(parse_hex_size(s.take(p)) == Some(size));
    assert(s.len() >= p + 2 + size + 2);
    assert(s.subrange(p + 2, p + 2 + size) =~= data);
    assert(s.skip(p + 2 + size + 2) =~= tail);
}

/// The terminating zero chunk ends decoding, whatever bytes trail it.
pub proof fn lemma_decode_terminator(tail: Seq<u8>)
    ensures
        decode_chunks(zero_end() + tail).done,
        decode_chunks(zero_end() + tail).taken == Seq::<u8>::empty(),
{
    let s = zero_end() + tail;
    assert(match_at(s, crlf_b(), 1)) by {
        assert(s.subrange(1, 3) =~= crlf_b());
    }
    assert forall|k: int| 0 <= k < 1 implies !match_at(s, crlf_b(), k) by {
        if match_at(s, crlf_b(), k) {
            assert(s.subrange(k, k + 2)[0] == 13u8);
        }
    };
    lemma_first_match_is(s, crlf_b(), 1);
    assert(s.take(1) =~= seq![48u8]);
    lemma_trim_is(seq![48u8], 0, 1);
    assert(seq![48u8].subrange(0, 1) =~= seq![48u8]);
    assert(hex_body(seq![48u8]) == seq![48u8]);
    assert(all_hex(seq![48u8]));
    assert(hex_val(seq![48u8].drop_last()) == 0);
    assert(parse_hex_size(seq![48u8]) == Some(0int));
}

/// The framing of a whole body: each chunk in order, then the zero chunk.
pub open spec fn frame_chunks(chunks: Seq<Seq<u8>>) -> Seq<u8>
    decreases chunks.len(),
{
    if chunks.len() == 0 {
        zero_end()
    } else {
        frame_chunk(chunks[0]) + frame_chunks(chunks.drop_first())
    }
}

/// The body itself: the chunks concatenated.
pub open spec fn concat_chunks(chunks: Seq<Seq<u8>>) -> Seq<u8>
    decreases chunks.len(),
{
    if chunks.len() == 0 {
        Seq::empty()
    } else {
        chunks[0] + concat_chunks(chunks.drop_first())
    }
}

/// Chunked ingest round-trip: a body framed as any list of non-empty
/// chunks decodes to exactly their concatenation, and the decoding ends at
/// the zero chunk.  Together with [`ChunkDecoder::push`], whose result
/// depends only on the concatenation of the bytes fed, the reconstruction
/// holds however the stream was fragmented on arrival.
pub proof fn lemma_chunked_round_trip(chunks: Seq<Seq<u8>>)
    requires
        forall|i: int| 0 <= i < chunks.len() ==> 1 <= #[trigger] chunks[i].len() <= usize::MAX,
    ensures
        decode_chunks(frame_chunks(chunks)).done,
        decode_chunks(frame_chunks(chunks)).taken == concat_chunks(chunks),
    decreases chunks.len(),
{
    if chunks.len() == 0 {
        lemma_decode_terminator(Seq::empty());
        assert(zero_end() + Seq::<u8>::empty() =~= zero_end());
        assert(decode_chunks(zero_end()).taken =~= concat_chunks(chunks));
    } else {
        lemma_decode_framed_chunk(chunks[0], frame_chunks(chunks.drop_first()));
        lemma_chunked_round_trip(chunks.drop_first());
    }
}

// ===== executable decoder =====

fn find_crlf_bytes(v: &Vec<u8>, start: usize) -> (r: Option<usize>)
    ensures
        (match r {
            Some(j) => first_match_from(v@, crlf_b(), start as int) == Some(j as int),
            None => first_match_from(v@, crlf_b(), start as int) is None,
        }),
{
    let n = v.len();
    let mut i: usize = start;
    loop
        invariant
            start <= i,
            n == v@.len(),
            first_match_from(v@, crlf_b(), start as int) == first_match_from(v@, crlf_b(), i as int),
        decreases n + 2 - i,
    {
        if n < 2 || i > n - 2 {
            assert(first_match_from(v@, crlf_b(), i as int) is None);
            return None;
        }
        if v[i] == 13 && v[i + 1] == 10 {
            proof {
                assert(v@.subrange(i as int, i + 2) =~= crlf_b());
                assert(first_match_from(v@, crlf_b(), i as int) == Some(i as int));
            }
            return Some(i);
        }
        proof {
            assert(!match_at(v@, crlf_b(), i as int)) by {
                if match_at(v@, crlf_b(), i as int) {
                    assert(v@.subrange(i as int, i + 2)[0] == 13u8);
                    assert(v@.subrange(i as int, i + 2)[1] == 10u8);
                }
            }
            assert(first_match_from(v@, crlf_b(), i as int) == first_match_from(
                v@,
                crlf_b(),
                i + 1,
            ));
        }
        i = i + 1;
    }
}

/// Parse the size line `v[..end]` as a hexadecimal chunk size.
fn parse_chunk_size(v: &Vec<u8>, end: usize) -> (r: Option<usize>)
    requires
        end <= v@.len(),
    ensures
        (match r {
            Some(sz) => parse_hex_size(v@.take(end as int)) == Some(sz as int),
            None => parse_hex_size(v@.take(end as int)) is None,
        }),
{
    let ghost tok: Seq<u8> = v@.take(end as int);
    let mut a: usize = 0;
    while a < end && (v[a] == 32 || v[a] == 9 || v[a] == 10 || v[a] == 13)
        invariant
            0 <= a <= end,
            end <= v@.len(),
            tok == v@.take(end as int),
            forall|k: int| 0 <= k < a ==> is_ws_byte(tok[k]),
        decreases end - a,
    {
        a = a + 1;
    }
    let mut b: usize = end;
    while b > a && (v[b - 1] == 32 || v[b - 1] == 9 || v[b - 1] == 10 || v[b - 1] == 13)
        invariant
            a <= b <= end,
            end <= v@.len(),
            tok == v@.take(end as int),
            forall|k: int| b <= k < end ==> is_ws_byte(tok[k]),
        decreases b,
    {
        b = b - 1;
    }
    proof {
        lemma_trim_is(tok, a as int, b as int);
    }
    let ghost t0: Seq<u8> = trim_bytes(tok);
    let mut j: usize = a;
    if j < b && v[j] == 43 {
        j = j + 1;
    }
    let ghost body: Seq<u8> = hex_body(t0);
    proof {
        assert(body =~= tok.subrange(j as int, b as int));
    }
    if j == b {
        return None;
    }
    let mut acc: u128 = 0;
    let mut i: usize = j;
    while i < b
        invariant
            j <= i <= b,
            j < b,
            b <= end <= v@.len(),
            tok == v@.take(end as int),
            body == hex_body(trim_bytes(tok)),
            body =~= tok.subrange(j as int, b as int),
            forall|k: int| j <= k < i ==> hex_digit_val(tok[k]) >= 0,
            acc == hex_val(tok.subrange(j as int, i as int)),
            0 <= acc <= usize::MAX as u128,
        decreases b - i,
    {
        let x = v[i];
        let d: u128 = if 48 <= x && x <= 57 {
            (x - 48) as u128
        } else if 97 <= x && x <= 102 {
            (x - 87) as u128
        } else if 65 <= x && x <= 70 {
            (x - 55) as u128
        } else {
            proof {
                assert(body[i - j] == tok[i as int]);
                assert(!all_hex(body));
            }
            return None;
        };
        proof {
            assert(tok.subrange(j as int, i + 1).drop_last() =~= tok.subrange(j as int, i as int));
            assert(tok.subrange(j as int, i + 1).last() == tok[i as int]);
        }
        acc = acc * 16 + d;
        if acc > usize::MAX as u128 {
            proof {
                if all_hex(body) {
                    lemma_hex_val_mono(body, i + 1 - j);
                    assert(body.take(i + 1 - j) =~= tok.subrange(j as int, i + 1));
                }
            }
            return None;
        }
        i = i + 1;
    }
    proof {
        assert(all_hex(body)) by {
            assert(forall|k: int|
                0 <= k < body.len() ==> body[k] == tok[k + j] && hex_digit_val(tok[k + j]) >= 0);
        }
        assert(acc == hex_val(body));
    }
    Some(acc as usize)
}

/// Incremental decoder for a chunk-framed ingest stream.  Bytes are handed
/// in through [`ChunkDecoder::push`] in whatever fragments they arrived;
/// the decoded payload depends only on their concatenation.
pub struct ChunkDecoder {
    taken: Vec<u8>,
    buf: Vec<u8>,
    done: bool,
    history: Ghost<Seq<u8>>,
}

impl ChunkDecoder {
    /// All bytes handed to the decoder so far.
    pub closed spec fn fed(&self) -> Seq<u8> {
        self.history@
    }

    pub closed spec fn wf(&self) -> bool {
        decode_chunks(self.history@) == DecodeState {
            taken: self.taken@,
            rest: self.buf@,
            done: self.done,
        }
    }

    pub fn new() -> (d: Self)
        ensures
            d.wf(),
            d.fed() == Seq::<u8>::empty(),
    {
        let d = ChunkDecoder {
            taken: Vec::new(),
            buf: Vec::new(),
            done: false,
            history: Ghost(Seq::empty()),
        };
        proof {
            assert(first_match_from(d.history@, crlf_b(), 0) is None);
        }
        d
    }

    /// Decoding has ended: a zero-size chunk or an unparsable size line was
    /// seen.
    pub fn is_done(&self) -> (r: bool)
        requires
            self.wf(),
        ensures
            r == decode_chunks(self.fed()).done,
    {
        self.done
    }

    /// A complete, non-terminal size line has been read whose chunk data has
    /// not arrived in full yet: the point at which the stream must not end.
    pub fn awaiting_chunk(&self) -> (r: bool)
        requires
            self.wf(),
        ensures
            r == (!decode_chunks(self.fed()).done && first_match_from(
                decode_chunks(self.fed()).rest,
                crlf_b(),
                0,
            ) is Some),
    {
        if self.done {
            return false;
        }
        match find_crlf_bytes(&self.buf, 0) {
            Some(_) => true,
            None => false,
        }
    }

    /// The payload decoded so far: the concatenated data of every complete
    /// chunk.
    pub fn payload(self) -> (r: Vec<u8>)
        requires
            self.wf(),
        ensures
            r@ == decode_chunks(self.fed()).taken,
    {
        self.taken
    }

    /// Feed the next fragment of the stream.
    pub fn push(&mut self, bytes: &[u8])
        requires
            old(self).wf(),
        ensures
            final(self).wf(),
            final(self).fed() == old(self).fed() + bytes@,
    {
        proof {
            lemma_decode_append(self.history@, bytes@);
        }
        let ghost h2: Seq<u8> = self.history@ + bytes@;
        let ghost dold: DecodeState = decode_chunks(self.history@);
        self.history = Ghost(h2);
        self.buf.extend_from_slice(bytes);
        proof {
            assert(self.buf@ =~= dold.rest + bytes@);
        }
        if self.done {
            proof {
                assert(decode_chunks(h2) == DecodeState {
                    taken: self.taken@,
                    rest: self.buf@,
                    done: true,
                });
            }
            return ;
        }
        proof {
            let e = decode_chunks(dold.rest + bytes@);
            assert(decode_chunks(h2) == DecodeState {
                taken: self.taken@ + e.taken,
                rest: e.rest,
                done: e.done,
            });
        }
        loop
            invariant
                self.history@ == h2,
                h2 == old(self).fed() + bytes@,
                !self.done,
                ({
                    let d = decode_chunks(self.buf@);
                    decode_chunks(h2) == DecodeState {
                        taken: self.taken@ + d.taken,
                        rest: d.rest,
                        done: d.done,
                    }
                }),
            decreases self.buf@.len(),
        {
            let ghost bufv: Seq<u8> = self.buf@;
            let p = match find_crlf_bytes(&self.buf, 0) {
                None => {
                    proof {
                        assert(decode_chunks(bufv).taken =~= Seq::<u8>::empty());
                        assert(self.taken@ + decode_chunks(bufv).taken =~= self.taken@);
                    }
                    return ;
                },
                Some(p) => p,
            };
            proof {
                lemma_first_match_bounds(bufv, crlf_b(), 0);
            }
            let size = match parse_chunk_size(&self.buf, p) {
                None => {
                    self.done = true;
                    proof {
                        assert(self.taken@ + decode_chunks(bufv).taken =~= self.taken@);
                    }
                    return ;
                },
                Some(size) => size,
            };
            if size == 0 {
                self.done = true;
                proof {
                    assert(self.taken@ + decode_chunks(bufv).taken =~= self.taken@);
                }
                return ;
            }
            // is the whole chunk, data and trailing terminator, buffered?
            let avail = self.buf.len() - p - 2;
            if avail < 2 || avail - 2 < size {
                proof {
                    assert(bufv.len() < p + 2 + size + 2);
                    assert(self.taken@ + decode_chunks(bufv).taken =~= self.taken@);
                }
                return ;
            }
            let data_start = p + 2;
            let data_end = p + 2 + size;
            let cut = data_end + 2;
            let ghost oldtaken: Seq<u8> = self.taken@;
            let chunk_slice = vstd::slice::slice_subrange(self.buf.as_slice(), data_start, data_end);
            self.taken.extend_from_slice(chunk_slice);
            let rest_vec = vstd::slice::slice_to_vec(
                vstd::slice::slice_subrange(self.buf.as_slice(), cut, self.buf.len()),
            );
            self.buf = rest_vec;
            proof {
                let d_old = decode_chunks(bufv);
                let d_new = decode_chunks(self.buf@);
                assert(self.buf@ =~= bufv.skip(p + 2 + size + 2));
                assert(d_old.taken =~= bufv.subrange(p + 2, p + 2 + size) + d_new.taken);
                assert(self.taken@ =~= oldtaken + bufv.subrange(p + 2, p + 2 + size));
                assert(oldtaken + d_old.taken =~= self.taken@ + d_new.taken);
            }
        }
    }
}

} // verus!
