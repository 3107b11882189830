//! The per-connection driver: it owns the inbound byte buffer and shuttles
//! bytes through decode, the service, and encode until the peer closes.
//!
//! The driver's behaviour is stated against `drain`, the mathematical
//! reading of a byte stream: peel complete frames off the front, in order,
//! until no delimiter is left or a payload fails to parse.

use vstd::prelude::*;

use crate::codec::clean_record;
use crate::codec::decode_frame;
use crate::codec::encode_frame;
use crate::codec::first_delim;
use crate::codec::frame_bytes;
use crate::codec::has_delim;
use crate::codec::lemma_first_delim;
use crate::codec::lemma_first_delim_at;
use crate::codec::lemma_first_delim_concat;
use crate::codec::DELIMITER;
use crate::codec::record_bytes;
use crate::codec::record_fits;
use crate::codec::record_parse;
use crate::codec::CodecError;
use crate::message::msg_view;
use crate::message::msg_views;
use crate::message::Message;
use crate::service::EchoService;

verus! {

/// The outcome of reading a byte stream: the record values of the complete
/// frames at its front, the bytes left after them, and whether every
/// completed payload parsed.
#[verifier::ext_equal]
pub ghost struct Drained {
    pub msgs: Seq<(u32, Seq<char>)>,
    pub rest: Seq<u8>,
    pub ok: bool,
}

/// Reads `s` as the decoder does: each complete frame's payload in turn,
/// stopping at the first payload that is no valid record (the bytes after
/// that frame's delimiter are kept but not read) or when no delimiter is
/// left.
pub open spec fn drain(s: Seq<u8>) -> Drained
    decreases s.len(),
{
    if !has_delim(s) {
        Drained { msgs: Seq::empty(), rest: s, ok: true }
    } else {
        let i = first_delim(s) as int;
        if i < s.len() {
            let tail = s.skip(i + 1);
            match record_parse(s.take(i)) {
                Some(m) => {
                    let d = drain(tail);
                    Drained { msgs: seq![m] + d.msgs, rest: d.rest, ok: d.ok }
                },
                None => Drained { msgs: Seq::empty(), rest: tail, ok: false },
            }
        } else {
            Drained { msgs: Seq::empty(), rest: s, ok: true }
        }
    }
}

/// Unfolds `drain` one frame when a delimiter is present.
pub proof fn lemma_drain_step(s: Seq<u8>)
    requires
        has_delim(s),
    ensures
        ({
            let i = first_delim(s) as int;
            let tail = s.skip(i + 1);
            match record_parse(s.take(i)) {
                Some(m) => {
                    &&& drain(s).msgs == seq![m] + drain(tail).msgs
                    &&& drain(s).rest == drain(tail).rest
                    &&& drain(s).ok == drain(tail).ok
                },
                None => {
                    &&& drain(s).msgs == Seq::<(u32, Seq<char>)>::empty()
                    &&& drain(s).rest == tail
                    &&& !drain(s).ok
                },
            }
        }),
{
    lemma_first_delim(s);
}

/// The concatenation of one frame per record value, in order.
pub open spec fn frames_bytes(ms: Seq<(u32, Seq<char>)>) -> Seq<u8>
    decreases ms.len(),
{
    if ms.len() == 0 {
        Seq::empty()
    } else {
        frame_bytes(ms[0].0, ms[0].1) + frames_bytes(ms.skip(1))
    }
}

/// Every record in `ms` meets the protocol precondition: its encoding is
/// delimiter-free.
pub open spec fn all_clean(ms: Seq<(u32, Seq<char>)>) -> bool {
    forall|k: int| 0 <= k < ms.len() ==> clean_record(ms[k].0, ms[k].1)
}

/// Every record in `ms` whose encoding is under the string-header cap
/// survives the encoder-to-parser round trip. The frame encoder
/// establishes this for everything it writes.
pub open spec fn parse_inverts(ms: Seq<(u32, Seq<char>)>) -> bool {
    forall|k: int|
        0 <= k < ms.len() && record_fits(record_bytes(ms[k].0, ms[k].1))
            ==> record_parse(record_bytes(ms[k].0, ms[k].1)) == Some(ms[k])
}

/// Every record in `ms` encodes to under the string-header cap, so its
/// length header is exact.
pub open spec fn all_fit(ms: Seq<(u32, Seq<char>)>) -> bool {
    forall|k: int| 0 <= k < ms.len() ==> record_fits(record_bytes(ms[k].0, ms[k].1))
}

proof fn lemma_frames_bytes_concat(a: Seq<(u32, Seq<char>)>, b: Seq<(u32, Seq<char>)>)
    ensures
        frames_bytes(a + b) == frames_bytes(a) + frames_bytes(b),
    decreases a.len(),
{
    if a.len() == 0 {
        assert(a + b =~= b);
        assert(Seq::<u8>::empty() + frames_bytes(b) =~= frames_bytes(b));
    } else {
        assert((a + b)[0] == a[0]);
        assert((a + b).skip(1) =~= a.skip(1) + b);
        lemma_frames_bytes_concat(a.skip(1), b);
        assert(frame_bytes(a[0].0, a[0].1) + (frames_bytes(a.skip(1)) + frames_bytes(b)) =~= (
        frame_bytes(a[0].0, a[0].1) + frames_bytes(a.skip(1))) + frames_bytes(b));
    }
}

/// Law (framing round trip, one frame): a cleanly encoded frame at the
/// front of a stream decodes to exactly its record, and decoding goes on
/// with the rest of the stream untouched.
pub proof fn lemma_frame_drain(m: (u32, Seq<char>), tail: Seq<u8>)
    requires
        clean_record(m.0, m.1),
        record_parse(record_bytes(m.0, m.1)) == Some(m),
    ensures
        drain(frame_bytes(m.0, m.1) + tail).msgs == seq![m] + drain(tail).msgs,
        drain(frame_bytes(m.0, m.1) + tail).rest == drain(tail).rest,
        drain(frame_bytes(m.0, m.1) + tail).ok == drain(tail).ok,
{
    let rec = record_bytes(m.0, m.1);
    let s = frame_bytes(m.0, m.1) + tail;
    let n = rec.len() as int;
    assert(s[n] == frame_bytes(m.0, m.1)[n]);
    assert(s[n] == DELIMITER);
    assert forall|j: int| 0 <= j < n implies s[j] != DELIMITER by {
        assert(s[j] == rec[j]);
    }
    lemma_first_delim_at(s, n);
    assert(s.take(n) =~= rec);
    assert(s.skip(n + 1) =~= tail);
    lemma_drain_step(s);
}

/// Law (framing round trip): a stream that is exactly the concatenation of
/// cleanly encoded frames, each under the string-header cap, decodes to
/// exactly those records, in order, with no residue and no error.
pub proof fn lemma_stream_round_trip(ms: Seq<(u32, Seq<char>)>)
    requires
        all_clean(ms),
        all_fit(ms),
        parse_inverts(ms),
    ensures
        drain(frames_bytes(ms)).msgs == ms,
        drain(frames_bytes(ms)).rest == Seq::<u8>::empty(),
        drain(frames_bytes(ms)).ok,
    decreases ms.len(),
{
    if ms.len() == 0 {
        assert(!has_delim(Seq::<u8>::empty()));
        assert(drain(frames_bytes(ms)).msgs =~= ms);
    } else {
        assert forall|k: int| 0 <= k < ms.skip(1).len() implies clean_record(
            ms.skip(1)[k].0,
            ms.skip(1)[k].1,
        ) && record_fits(record_bytes(ms.skip(1)[k].0, ms.skip(1)[k].1)) && record_parse(
            record_bytes(ms.skip(1)[k].0, ms.skip(1)[k].1),
        ) == Some(ms.skip(1)[k]) by {
            assert(ms.skip(1)[k] == ms[k + 1]);
        }
        lemma_stream_round_trip(ms.skip(1));
        lemma_frame_drain(ms[0], frames_bytes(ms.skip(1)));
        assert(seq![ms[0]] + ms.skip(1) =~= ms);
    }
}

/// Law (chunk invariance): feeding a stream in two pieces, with the
/// undecoded rest carried forward, reads the same records as feeding the
/// concatenation at once — provided the first piece hit no parse failure.
pub proof fn lemma_drain_split(s1: Seq<u8>, s2: Seq<u8>)
    ensures
        drain(s1).ok ==> {
            &&& drain(s1 + s2).msgs == drain(s1).msgs + drain(drain(s1).rest + s2).msgs
            &&& drain(s1 + s2).rest == drain(drain(s1).rest + s2).rest
            &&& drain(s1 + s2).ok == drain(drain(s1).rest + s2).ok
        },
    decreases s1.len(),
{
    if drain(s1).ok {
        if !has_delim(s1) {
            assert(Seq::<(u32, Seq<char>)>::empty() + drain(s1 + s2).msgs =~= drain(
                s1 + s2,
            ).msgs);
        } else {
            lemma_first_delim(s1);
            let i = first_delim(s1) as int;
            lemma_first_delim_concat(s1, s2);
            assert((s1 + s2).take(i) =~= s1.take(i));
            assert((s1 + s2).skip(i + 1) =~= s1.skip(i + 1) + s2);
            lemma_drain_step(s1);
            lemma_drain_step(s1 + s2);
            match record_parse(s1.take(i)) {
                Some(m) => {
                    let t1 = s1.skip(i + 1);
                    lemma_drain_split(t1, s2);
                    assert(seq![m] + (drain(t1).msgs + drain(drain(t1).rest + s2).msgs) =~= (
                    seq![m] + drain(t1).msgs) + drain(drain(t1).rest + s2).msgs);
                },
                None => {
                    assert(!drain(s1).ok);
                },
            }
        }
    }
}

/// Law (partial-read safety): cut one cleanly encoded frame anywhere that
/// leaves the delimiter in the second piece. The first piece alone decodes
/// to nothing and is kept whole; the two pieces together decode to exactly
/// the one record.
pub proof fn lemma_partial_read(m: (u32, Seq<char>), cut: int)
    ensures
        (clean_record(m.0, m.1) && record_parse(record_bytes(m.0, m.1)) == Some(m) && 0 <= cut
            <= record_bytes(m.0, m.1).len()) ==> {
            let fb = frame_bytes(m.0, m.1);
            let head = fb.take(cut);
            &&& drain(head).msgs == Seq::<(u32, Seq<char>)>::empty()
            &&& drain(head).rest == head
            &&& drain(head).ok
            &&& drain(head + fb.skip(cut)).msgs == seq![m]
            &&& drain(head + fb.skip(cut)).rest == Seq::<u8>::empty()
            &&& drain(head + fb.skip(cut)).ok
        },
{
    if clean_record(m.0, m.1) && record_parse(record_bytes(m.0, m.1)) == Some(m) && 0 <= cut
        <= record_bytes(m.0, m.1).len() {
        let rec = record_bytes(m.0, m.1);
        let fb = frame_bytes(m.0, m.1);
        let head = fb.take(cut);
        assert forall|j: int| 0 <= j < head.len() implies head[j] != DELIMITER by {
            assert(head[j] == rec[j]);
        }
        assert(!has_delim(head));
        assert(head + fb.skip(cut) =~= fb);
        lemma_frame_drain(m, Seq::<u8>::empty());
        assert(!has_delim(Seq::<u8>::empty()));
        assert(fb + Seq::<u8>::empty() =~= fb);
        assert(seq![m] + Seq::<(u32, Seq<char>)>::empty() =~= seq![m]);
    }
}

/// A stream read without a parse failure leaves no complete frame behind:
/// its rest holds no delimiter.
pub proof fn lemma_drain_rest_clean(s: Seq<u8>)
    ensures
        drain(s).ok ==> !has_delim(drain(s).rest),
    decreases s.len(),
{
    if drain(s).ok {
        if has_delim(s) {
            lemma_first_delim(s);
            lemma_drain_step(s);
            let i = first_delim(s) as int;
            match record_parse(s.take(i)) {
                Some(m) => {
                    lemma_drain_rest_clean(s.skip(i + 1));
                },
                None => {
                    assert(!drain(s).ok);
                },
            }
        }
    }
}

/// What a connection driver reads over its whole life: chunk after chunk,
/// each appended to the carried-over rest of the one before, stopping at
/// the first parse failure.
pub open spec fn drain_chunks(carry: Seq<u8>, chunks: Seq<Seq<u8>>) -> Drained
    decreases chunks.len(),
{
    if chunks.len() == 0 {
        Drained { msgs: Seq::empty(), rest: carry, ok: true }
    } else {
        let d = drain(carry + chunks.first());
        if !d.ok {
            d
        } else {
            let later = drain_chunks(d.rest, chunks.drop_first());
            Drained { msgs: d.msgs + later.msgs, rest: later.rest, ok: later.ok }
        }
    }
}

/// Law (arbitrary chunking): delivering a byte stream in any number of
/// pieces of any size, with the undecoded rest carried forward as the
/// driver carries its buffer, reads exactly the records of the whole
/// stream, in order — so long as the carried-over bytes hold no complete
/// frame yet and no piece ends in a parse failure.
pub proof fn lemma_chunked_delivery(carry: Seq<u8>, chunks: Seq<Seq<u8>>)
    ensures
        (!has_delim(carry) && drain_chunks(carry, chunks).ok) ==> {
            &&& drain_chunks(carry, chunks).msgs == drain(carry + chunks.flatten()).msgs
            &&& drain_chunks(carry, chunks).rest == drain(carry + chunks.flatten()).rest
            &&& drain(carry + chunks.flatten()).ok
        },
    decreases chunks.len(),
{
    if !has_delim(carry) && drain_chunks(carry, chunks).ok {
        if chunks.len() == 0 {
            assert(carry + chunks.flatten() =~= carry);
        } else {
            let head = chunks.first();
            let d = drain(carry + head);
            assert(d.ok);
            lemma_drain_rest_clean(carry + head);
            lemma_chunked_delivery(d.rest, chunks.drop_first());
            let f1 = chunks.drop_first().flatten();
            lemma_drain_split(carry + head, f1);
            assert(carry + chunks.flatten() =~= (carry + head) + f1);
            let later = drain_chunks(d.rest, chunks.drop_first());
            assert(later.msgs == drain(d.rest + f1).msgs);
            assert(drain((carry + head) + f1).msgs == d.msgs + drain(d.rest + f1).msgs);
        }
    }
}

/// Encodes every message as one frame, taking the messages in order and
/// appending one frame each to `buf`. On success `clean` reports whether
/// every record met the protocol precondition; when all did and every
/// record is under the string-header cap, the bytes written decode back to
/// exactly these messages, in order (the framing round trip). On encoder
/// failure the frames of a prefix of the messages have been appended.
pub fn encode_all(msgs: &mut Vec<Message>, buf: &mut Vec<u8>) -> (r: Result<bool, CodecError>)
    ensures
        ({
            let views = msg_views(old(msgs)@);
            match r {
                Ok(clean) => {
                    &&& final(buf)@ == old(buf)@ + frames_bytes(views)
                    &&& (clean <==> all_clean(views))
                    &&& parse_inverts(views)
                    &&& ((clean && all_fit(views)) ==> drain(frames_bytes(views)).msgs == views
                        && drain(frames_bytes(views)).rest == Seq::<u8>::empty() && drain(
                        frames_bytes(views),
                    ).ok)
                },
                Err(e) => {
                    &&& e == CodecError::EncodeFailed
                    &&& views.len() > 0
                    &&& exists|k: int|
                        0 <= k <= views.len() && final(buf)@ == old(buf)@ + frames_bytes(
                            views.take(k),
                        )
                },
            }
        }),
{
    let ghost views0 = msg_views(old(msgs)@);
    let ghost mut done: int = 0;
    let mut clean = true;
    while msgs.len() > 0
        invariant
            views0 == msg_views(old(msgs)@),
            0 <= done <= views0.len(),
            msg_views(msgs@) == views0.skip(done),
            buf@ == old(buf)@ + frames_bytes(views0.take(done)),
            clean <==> (forall|t: int| 0 <= t < done ==> clean_record(views0[t].0, views0[t].1)),
            forall|t: int|
                0 <= t < done && record_fits(record_bytes(views0[t].0, views0[t].1))
                    ==> record_parse(record_bytes(views0[t].0, views0[t].1)) == Some(views0[t]),
        decreases msgs@.len(),
    {
        let ghost pre_msgs = msgs@;
        let m = msgs.remove(0);
        proof {
            assert(msg_views(pre_msgs)[0] == msg_view(m));
            assert(msg_views(pre_msgs) == views0.skip(done));
            assert(msg_views(pre_msgs).len() == pre_msgs.len());
            assert(views0.skip(done).len() == views0.len() - done);
            assert(0 <= done < views0.len());
            assert(views0.skip(done)[0] == views0[done]);
            assert(views0[done] == msg_view(m));
            assert(msg_views(msgs@) =~= msg_views(pre_msgs).skip(1));
            assert(msg_views(msgs@) =~= views0.skip(done + 1));
        }
        match encode_frame(&m, buf) {
            Err(_) => {
                proof {
                    assert(0 <= done <= views0.len() && buf@ == old(buf)@ + frames_bytes(
                        views0.take(done),
                    ));
                }
                return Err(CodecError::EncodeFailed);
            },
            Ok(c) => {
                proof {
                    let piece = seq![views0[done]];
                    lemma_frames_bytes_concat(views0.take(done), piece);
                    assert(piece.skip(1) =~= Seq::<(u32, Seq<char>)>::empty());
                    assert(frames_bytes(Seq::<(u32, Seq<char>)>::empty()) =~= Seq::<u8>::empty());
                    assert(piece[0] == views0[done]);
                    assert(frames_bytes(piece) =~= frame_bytes(piece[0].0, piece[0].1)
                        + frames_bytes(piece.skip(1)));
                    assert(frames_bytes(piece) =~= frame_bytes(views0[done].0, views0[done].1));
                    assert(views0.take(done + 1) =~= views0.take(done) + piece);
                    assert(buf@ =~= old(buf)@ + frames_bytes(views0.take(done + 1)));
                    done = done + 1;
                }
                clean = clean && c;
            },
        }
    }
    proof {
        assert(views0.take(done) =~= views0);
        assert(parse_inverts(views0));
        if clean && all_fit(views0) {
            assert(all_clean(views0));
            lemma_stream_round_trip(views0);
        }
    }
    Ok(clean)
}

/// One connection's receive state: the bytes that have arrived but have not
/// yet formed a complete frame, and whether the connection has already hit
/// a fatal error.
pub struct ConnDriver {
    buf: Vec<u8>,
    failed: bool,
}

impl ConnDriver {
    /// The not-yet-consumed inbound bytes.
    pub closed spec fn pending(self) -> Seq<u8> {
        self.buf@
    }

    /// Whether a fatal error has ended this connection's protocol work.
    pub closed spec fn is_failed(self) -> bool {
        self.failed
    }

    /// A driver for a freshly accepted connection: empty buffer, no error.
    pub fn new() -> (d: ConnDriver)
        ensures
            d.pending() == Seq::<u8>::empty(),
            !d.is_failed(),
    {
        ConnDriver { buf: Vec::new(), failed: false }
    }

    /// Whether a fatal error has ended this connection's protocol work.
    pub fn failed(&self) -> (r: bool)
        ensures
            r == self.is_failed(),
    {
        self.failed
    }

    /// Takes one chunk of bytes off the wire: appends it to the inbound
    /// buffer, then decodes every complete frame, in arrival order. The
    /// buffer keeps exactly the bytes past the last consumed delimiter. A
    /// payload that fails to parse is fatal: the messages decoded before it
    /// are still returned, and the driver refuses further input.
    pub fn on_data(&mut self, data: &[u8]) -> (r: (Vec<Message>, Option<CodecError>))
        requires
            !old(self).is_failed(),
        ensures
            ({
                let d = drain(old(self).pending() + data@);
                &&& msg_views(r.0@) == d.msgs
                &&& final(self).pending() == d.rest
                &&& (r.1 is None <==> d.ok)
                &&& (r.1 is Some ==> r.1 == Some(CodecError::InvalidMessage))
                &&& final(self).is_failed() == !d.ok
                &&& (d.ok ==> !has_delim(final(self).pending()))
            }),
    {
        let ghost s0 = self.buf@ + data@;
        let mut i: usize = 0;
        while i < data.len()
            invariant
                i <= data@.len(),
                self.buf@ == old(self).pending() + data@.take(i as int),
                !self.failed,
            decreases data@.len() - i,
        {
            let b = data[i];
            self.buf.push(b);
            proof {
                assert(old(self).pending() + data@.take(i as int + 1) =~= (old(self).pending()
                    + data@.take(i as int)).push(data@[i as int]));
            }
            i += 1;
        }
        proof {
            assert(data@.take(data@.len() as int) =~= data@);
            assert(self.buf@ =~= s0);
        }
        let mut out: Vec<Message> = Vec::new();
        loop
            invariant
                s0 == old(self).pending() + data@,
                !self.failed,
                drain(s0).msgs == msg_views(out@) + drain(self.buf@).msgs,
                drain(s0).rest == drain(self.buf@).rest,
                drain(s0).ok == drain(self.buf@).ok,
            decreases self.buf@.len(),
        {
            let ghost pre = self.buf@;
            let step = decode_frame(&mut self.buf);
            match step {
                Ok(None) => {
                    proof {
                        assert(msg_views(out@) + Seq::<(u32, Seq<char>)>::empty() =~= msg_views(
                            out@,
                        ));
                    }
                    return (out, None);
                },
                Ok(Some(m)) => {
                    proof {
                        lemma_drain_step(pre);
                        lemma_first_delim(pre);
                        let i = first_delim(pre) as int;
                        assert(record_parse(pre.take(i)) == Some(msg_view(m)));
                        assert(msg_views(out@.push(m)) =~= msg_views(out@) + seq![msg_view(m)]);
                        assert((msg_views(out@) + seq![msg_view(m)]) + drain(self.buf@).msgs
                            =~= msg_views(out@) + (seq![msg_view(m)] + drain(self.buf@).msgs));
                    }
                    out.push(m);
                },
                Err(e) => {
                    proof {
                        lemma_drain_step(pre);
                        assert(msg_views(out@) + Seq::<(u32, Seq<char>)>::empty() =~= msg_views(
                            out@,
                        ));
                    }
                    self.failed = true;
                    return (out, Some(e));
                },
            }
            proof {
                lemma_first_delim(pre);
            }
        }
    }

    /// One read-process-write pass for a connection running the echo
    /// service: decode every complete frame that `data` completes, obtain
    /// each response in request-arrival order, and append each response
    /// frame to `out` in that same order. A parse failure or an encoder
    /// failure is fatal to the connection; responses for the requests
    /// decoded before a parse failure are still written.
    pub fn echo_chunk(&mut self, svc: &EchoService, data: &[u8], out: &mut Vec<u8>) -> (r:
        Option<CodecError>)
        requires
            !old(self).is_failed(),
        ensures
            ({
                let d = drain(old(self).pending() + data@);
                &&& final(self).pending() == d.rest
                &&& (final(self).is_failed() <==> r is Some)
                &&& match r {
                    None => d.ok && final(out)@ == old(out)@ + frames_bytes(d.msgs),
                    Some(CodecError::InvalidMessage) => !d.ok && final(out)@ == old(out)@
                        + frames_bytes(d.msgs),
                    Some(CodecError::EncodeFailed) => d.msgs.len() > 0 && (exists|k: int|
                        0 <= k <= d.msgs.len() && final(out)@ == old(out)@ + frames_bytes(
                            d.msgs.take(k),
                        )),
                }
            }),
    {
        let ghost d = drain(old(self).pending() + data@);
        let (reqs, derr) = self.on_data(data);
        let ghost views0 = msg_views(reqs@);
        let mut reqs = reqs;
        let mut resps: Vec<Message> = Vec::new();
        while reqs.len() > 0
            invariant
                msg_views(resps@) + msg_views(reqs@) == views0,
            decreases reqs@.len(),
        {
            let ghost pre_reqs = reqs@;
            let ghost pre_resps = resps@;
            let m = reqs.remove(0);
            let resp = svc.call(m);
            resps.push(resp);
            proof {
                assert(reqs@ =~= pre_reqs.skip(1));
                assert(msg_views(resps@) =~= msg_views(pre_resps) + seq![msg_view(resp)]);
                assert(msg_views(pre_reqs) =~= seq![msg_view(resp)] + msg_views(reqs@));
                assert((msg_views(pre_resps) + seq![msg_view(resp)]) + msg_views(reqs@)
                    =~= msg_views(pre_resps) + (seq![msg_view(resp)] + msg_views(reqs@)));
            }
        }
        proof {
            assert(msg_views(resps@) + msg_views(reqs@) =~= msg_views(resps@));
            assert(msg_views(resps@) == d.msgs);
        }
        match encode_all(&mut resps, out) {
            Err(_) => {
                self.failed = true;
                Some(CodecError::EncodeFailed)
            },
            Ok(_) => {
                match derr {
                    None => None,
                    Some(e) => Some(e),
                }
            },
        }
    }

    /// The peer closed its side. The close is clean exactly when nothing
    /// was left in the inbound buffer; leftover bytes with no terminating
    /// delimiter are a protocol error, as is a close after a fatal error.
    pub fn on_eof(&self) -> (clean: bool)
        ensures
            clean <==> (self.pending().len() == 0 && !self.is_failed()),
    {
        self.buf.len() == 0 && !self.failed
    }
}

} // verus!
