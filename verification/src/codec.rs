//! The framing codec: one frame on the wire is the binary encoding of a
//! `Message` record followed by a single delimiter byte `0x0A`. The encoding
//! itself is expected to contain no `0x0A` byte; the decoder treats the first
//! `0x0A` as an unambiguous frame terminator and does no escape processing.

use vstd::prelude::*;

use crate::message::Message;

verus! {

/// The byte that terminates every frame on the wire.
pub const DELIMITER: u8 = 10;

/// A connection-fatal codec failure.
#[derive(Clone, Copy, PartialEq, Eq, Debug)]
pub enum CodecError {
    /// A completed frame's payload was not a valid record.
    InvalidMessage,
    /// The record encoder reported failure (memory for the encoding ran out).
    EncodeFailed,
}

/// Whether `s` holds a delimiter byte anywhere.
pub open spec fn has_delim(s: Seq<u8>) -> bool {
    exists|i: int| 0 <= i < s.len() && s[i] == DELIMITER
}

/// The offset of the first delimiter byte in `s` (meaningful when
/// `has_delim(s)` holds; see `lemma_first_delim`).
pub open spec fn first_delim(s: Seq<u8>) -> nat
    decreases s.len(),
{
    if s.len() == 0 {
        0
    } else if s[0] == DELIMITER {
        0
    } else {
        1 + first_delim(s.skip(1))
    }
}

/// When `s` holds a delimiter, `first_delim(s)` is in range, lands on a
/// delimiter, and nothing before it is one.
pub proof fn lemma_first_delim(s: Seq<u8>)
    requires
        has_delim(s),
    ensures
        first_delim(s) < s.len(),
        s[first_delim(s) as int] == DELIMITER,
        forall|j: int| 0 <= j < first_delim(s) ==> s[j] != DELIMITER,
    decreases s.len(),
{
    if s.len() == 0 {
    } else if s[0] == DELIMITER {
    } else {
        let w = choose|i: int| 0 <= i < s.len() && s[i] == DELIMITER;
        assert(s.skip(1)[w - 1] == DELIMITER);
        lemma_first_delim(s.skip(1));
        let f = first_delim(s.skip(1)) as int;
        assert(s[f + 1] == s.skip(1)[f]);
        assert forall|j: int| 0 <= j < first_delim(s) implies s[j] != DELIMITER by {
            if j >= 1 {
                assert(s[j] == s.skip(1)[j - 1]);
            }
        }
    }
}

/// If `s[k]` is a delimiter and nothing before it is one, then `k` is the
/// first delimiter offset.
pub proof fn lemma_first_delim_at(s: Seq<u8>, k: int)
    requires
        0 <= k < s.len(),
        s[k] == DELIMITER,
        forall|j: int| 0 <= j < k ==> s[j] != DELIMITER,
    ensures
        has_delim(s),
        first_delim(s) == k,
    decreases s.len(),
{
    assert(has_delim(s));
    if k == 0 {
    } else {
        assert(s.skip(1)[k - 1] == DELIMITER);
        assert forall|j: int| 0 <= j < k - 1 implies s.skip(1)[j] != DELIMITER by {
            assert(s.skip(1)[j] == s[j + 1]);
        }
        lemma_first_delim_at(s.skip(1), k - 1);
    }
}

/// The first delimiter of `a` is the first delimiter of `a + b` too.
pub proof fn lemma_first_delim_concat(a: Seq<u8>, b: Seq<u8>)
    requires
        has_delim(a),
    ensures
        has_delim(a + b),
        first_delim(a + b) == first_delim(a),
{
    lemma_first_delim(a);
    let k = first_delim(a) as int;
    assert((a + b)[k] == a[k]);
    assert forall|j: int| 0 <= j < k implies (a + b)[j] != DELIMITER by {
        assert((a + b)[j] == a[j]);
    }
    lemma_first_delim_at(a + b, k);
}

/// The bytes that the record encoder produces for a message with this `id`
/// and `body`. They depend on the two values alone.
pub uninterp spec fn record_bytes(id: u32, body: Seq<char>) -> Seq<u8>;

/// What the record parser reads out of `payload`: the record's two values,
/// or nothing when the bytes are not a valid record. It depends on the
/// bytes alone.
pub uninterp spec fn record_parse(payload: Seq<u8>) -> Option<(u32, Seq<char>)>;

/// An encoded record small enough that its string length header is exact:
/// the record encoder writes a string's byte length as an unsigned 32-bit
/// header while still writing every byte, so only an encoding under the
/// four-gigabyte cap is read back as the values that produced it.
pub open spec fn record_fits(bytes: Seq<u8>) -> bool {
    bytes.len() < 0x1_0000_0000
}

/// Relies on rmp_serde::to_vec: it encodes the pair `(id, body)` as a
/// two-element record whose bytes depend on the two values alone, and it
/// fails only when memory for the encoding cannot be reserved. Relies on
/// rmp_serde::from_slice reading the same two values back out of exactly
/// those bytes when the encoding is under the string-header cap (rmp's
/// write_str truncates a four-gigabyte-or-longer body's length header, so
/// such an encoding does not read back).
#[verifier::external_body]
fn encode_record(id: u32, body: &str) -> (r: Option<Vec<u8>>)
    ensures
        r matches Some(v) ==> v@ == record_bytes(id, body@),
        r matches Some(v) ==> (record_fits(v@) ==> record_parse(v@) == Some((id, body@))),
{
    match rmp_serde::to_vec(&(id, body)) {
        Ok(v) => Some(v),
        Err(_) => None,
    }
}

/// Relies on rmp_serde::from_slice: whether `payload` parses as a
/// `(u32, String)` record, and which values are read, depend on the bytes
/// alone.
#[verifier::external_body]
fn parse_record(payload: &[u8]) -> (r: Option<(u32, String)>)
    ensures
        r matches Some(p) ==> record_parse(payload@) == Some((p.0, p.1@)),
        r is None ==> record_parse(payload@) is None,
{
    match rmp_serde::from_slice::<(u32, String)>(payload) {
        Ok(p) => Some(p),
        Err(_) => None,
    }
}

/// One whole frame for a message: its encoded record, then the delimiter.
pub open spec fn frame_bytes(id: u32, body: Seq<char>) -> Seq<u8> {
    record_bytes(id, body) + seq![DELIMITER]
}

/// The protocol precondition on a message: its encoded record carries no
/// delimiter byte, so the frame boundary is unambiguous.
pub open spec fn clean_record(id: u32, body: Seq<char>) -> bool {
    !has_delim(record_bytes(id, body))
}

/// How many delimiter bytes `s` holds.
pub open spec fn delim_count(s: Seq<u8>) -> nat
    decreases s.len(),
{
    if s.len() == 0 {
        0
    } else {
        (if s[0] == DELIMITER {
            1nat
        } else {
            0nat
        }) + delim_count(s.skip(1))
    }
}

proof fn lemma_delim_count_none(s: Seq<u8>)
    requires
        !has_delim(s),
    ensures
        delim_count(s) == 0,
    decreases s.len(),
{
    if s.len() == 0 {
    } else {
        assert forall|j: int| 0 <= j < s.skip(1).len() implies s.skip(1)[j] != DELIMITER by {
            assert(s.skip(1)[j] == s[j + 1]);
        }
        lemma_delim_count_none(s.skip(1));
    }
}

proof fn lemma_delim_count_concat(a: Seq<u8>, b: Seq<u8>)
    ensures
        delim_count(a + b) == delim_count(a) + delim_count(b),
    decreases a.len(),
{
    if a.len() == 0 {
        assert(a + b =~= b);
    } else {
        assert((a + b)[0] == a[0]);
        assert((a + b).skip(1) =~= a.skip(1) + b);
        lemma_delim_count_concat(a.skip(1), b);
    }
}

/// Law (delimiter discipline, write side): a cleanly encoded frame carries
/// exactly one delimiter byte, and it is the frame's final byte.
pub proof fn lemma_one_delimiter(id: u32, body: Seq<char>)
    requires
        clean_record(id, body),
    ensures
        delim_count(frame_bytes(id, body)) == 1,
        frame_bytes(id, body).last() == DELIMITER,
{
    let rec = record_bytes(id, body);
    lemma_delim_count_none(rec);
    lemma_delim_count_concat(rec, seq![DELIMITER]);
    assert(seq![DELIMITER].skip(1) =~= Seq::<u8>::empty());
    assert(delim_count(Seq::<u8>::empty()) == 0);
    assert(delim_count(seq![DELIMITER]) == 1);
}

/// What a call of the frame encoder did: on success the frame for `msg` was
/// appended whole and `clean` reports the protocol precondition; on failure
/// the buffer is untouched.
pub open spec fn encode_post(
    msg: Message,
    pre: Seq<u8>,
    post: Seq<u8>,
    r: Result<bool, CodecError>,
) -> bool {
    match r {
        Ok(clean) => {
            &&& post == pre + frame_bytes(msg.id, msg.body@)
            &&& clean == clean_record(msg.id, msg.body@)
            &&& (record_fits(record_bytes(msg.id, msg.body@)) ==> record_parse(
                record_bytes(msg.id, msg.body@),
            ) == Some((msg.id, msg.body@)))
        },
        Err(e) => e == CodecError::EncodeFailed && post == pre,
    }
}

/// What a call of the frame decoder did: with no delimiter present the
/// buffer is intact and more bytes are needed; otherwise exactly the prefix
/// through the first delimiter was consumed, and the payload before it
/// either parsed as the returned message or failed the connection.
pub open spec fn decode_post(
    pre: Seq<u8>,
    post: Seq<u8>,
    r: Result<Option<Message>, CodecError>,
) -> bool {
    match r {
        Ok(None) => !has_delim(pre) && post == pre,
        Ok(Some(m)) => {
            &&& has_delim(pre)
            &&& record_parse(pre.take(first_delim(pre) as int)) == Some((m.id, m.body@))
            &&& post == pre.skip(first_delim(pre) as int + 1)
        },
        Err(e) => {
            &&& e == CodecError::InvalidMessage
            &&& has_delim(pre)
            &&& record_parse(pre.take(first_delim(pre) as int)) is None
            &&& post == pre.skip(first_delim(pre) as int + 1)
        },
    }
}

/// Appends one frame for `msg` to `buf`: the encoded record, then the
/// delimiter. On success it reports whether the record was delimiter-free;
/// a clean frame carries exactly one delimiter byte, as its final byte.
pub fn encode_frame(msg: &Message, buf: &mut Vec<u8>) -> (r: Result<bool, CodecError>)
    ensures
        encode_post(*msg, old(buf)@, final(buf)@, r),
        r matches Ok(clean) && clean ==> delim_count(frame_bytes(msg.id, msg.body@)) == 1,
{
    match encode_record(msg.id, msg.body.as_str()) {
        None => Err(CodecError::EncodeFailed),
        Some(rec) => {
            let ghost recv = rec@;
            let ghost pre = buf@;
            let mut clean = true;
            let mut k: usize = 0;
            while k < rec.len()
                invariant
                    k <= rec.len(),
                    rec@ == recv,
                    clean <==> (forall|j: int| 0 <= j < k ==> recv[j] != DELIMITER),
                decreases rec.len() - k,
            {
                if rec[k] == DELIMITER {
                    clean = false;
                }
                k += 1;
            }
            proof {
                assert(clean <==> !has_delim(recv));
            }
            let mut t: usize = 0;
            while t < rec.len()
                invariant
                    t <= rec.len(),
                    rec@ == recv,
                    buf@ == pre + recv.take(t as int),
                decreases rec.len() - t,
            {
                let b = rec[t];
                buf.push(b);
                proof {
                    assert(pre + recv.take(t as int + 1) =~= (pre + recv.take(t as int)).push(
                        recv[t as int],
                    ));
                }
                t += 1;
            }
            proof {
                assert(recv.take(recv.len() as int) =~= recv);
            }
            buf.push(DELIMITER);
            proof {
                assert(buf@ =~= pre + frame_bytes(msg.id, msg.body@));
                if clean {
                    lemma_one_delimiter(msg.id, msg.body@);
                }
            }
            Ok(clean)
        },
    }
}

/// Removes the first complete frame from `buf`, if any, and parses it.
pub fn decode_frame(buf: &mut Vec<u8>) -> (r: Result<Option<Message>, CodecError>)
    ensures
        decode_post(old(buf)@, final(buf)@, r),
{
    let ghost s = buf@;
    let mut k: usize = 0;
    while k < buf.len() && buf[k] != DELIMITER
        invariant
            k <= s.len(),
            buf@ == s,
            forall|j: int| 0 <= j < k ==> s[j] != DELIMITER,
        decreases s.len() - k,
    {
        k += 1;
    }
    if k == buf.len() {
        proof {
            assert(!has_delim(s));
        }
        return Ok(None);
    }
    proof {
        lemma_first_delim_at(s, k as int);
    }
    let mut payload: Vec<u8> = Vec::new();
    let mut j: usize = 0;
    while j < k
        invariant
            j <= k,
            k < s.len(),
            buf@ == s,
            payload@ == s.take(j as int),
        decreases k - j,
    {
        let b = buf[j];
        payload.push(b);
        proof {
            assert(s.take(j as int + 1) =~= s.take(j as int).push(s[j as int]));
        }
        j += 1;
    }
    let mut rest: Vec<u8> = Vec::new();
    let mut t: usize = k + 1;
    while t < buf.len()
        invariant
            k + 1 <= t <= s.len(),
            buf@ == s,
            rest@ == s.subrange(k as int + 1, t as int),
        decreases s.len() - t,
    {
        let b = buf[t];
        rest.push(b);
        proof {
            assert(s.subrange(k as int + 1, t as int + 1) =~= s.subrange(
                k as int + 1,
                t as int,
            ).push(s[t as int]));
        }
        t += 1;
    }
    *buf = rest;
    proof {
        assert(buf@ =~= s.skip(k as int + 1));
    }
    match parse_record(payload.as_slice()) {
        Some(p) => Ok(Some(Message { id: p.0, body: p.1 })),
        None => Err(CodecError::InvalidMessage),
    }
}

/// Stateless encoder/decoder pair for the wire framing; every bit of decode
/// state lives in the caller's inbound buffer.
pub struct MessageCodec;

impl MessageCodec {
    /// See `encode_frame`.
    pub fn encode(&self, msg: &Message, buf: &mut Vec<u8>) -> (r: Result<bool, CodecError>)
        ensures
            encode_post(*msg, old(buf)@, final(buf)@, r),
    {
        encode_frame(msg, buf)
    }

    /// See `decode_frame`.
    pub fn decode(&self, buf: &mut Vec<u8>) -> (r: Result<Option<Message>, CodecError>)
        ensures
            decode_post(old(buf)@, final(buf)@, r),
    {
        decode_frame(buf)
    }
}

} // verus!
