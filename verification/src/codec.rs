//! The reference codec: a little-endian unsigned-16 length prefix.
//!
//! A frame is two length bytes followed by that many payload bytes; a length
//! of zero is invalid data. The reader keeps a `carry` of unconsumed bytes,
//! so parsing is stated over an arbitrary buffer: a buffer either starts with
//! a complete frame, is still incomplete, or is invalid. Draining a buffer
//! extracts frames until it is incomplete or invalid.

use vstd::arithmetic::div_mod::lemma_fundamental_div_mod;
use vstd::arithmetic::div_mod::lemma_fundamental_div_mod_converse_div;
use vstd::arithmetic::div_mod::lemma_fundamental_div_mod_converse_mod;
use vstd::prelude::*;

use crate::NodeError;

verus! {

/// The largest payload a frame can carry.
pub const MAX_PAYLOAD_LEN: usize = 65535;

/// A payload that fits in a frame: nonempty, and its length fits the prefix.
pub open spec fn valid_payload(p: Seq<u8>) -> bool {
    1 <= p.len() <= 65535
}

/// The number held by a little-endian pair of bytes.
pub open spec fn le16(b0: u8, b1: u8) -> int {
    b0 + 256 * b1
}

/// The frame that carries `p`: its length, little-endian, then `p` itself.
pub open spec fn frame_of(p: Seq<u8>) -> Seq<u8> {
    seq![(p.len() % 256) as u8, (p.len() / 256) as u8] + p
}

/// The concatenation of the frames of `msgs`, in order.
pub open spec fn frames_of(msgs: Seq<Seq<u8>>) -> Seq<u8>
    decreases msgs.len(),
{
    if msgs.len() == 0 {
        Seq::empty()
    } else {
        frame_of(msgs[0]) + frames_of(msgs.drop_first())
    }
}

/// The length prefix at the head of `buf` (meaningful when `buf` has one).
pub open spec fn head_len(buf: Seq<u8>) -> int {
    le16(buf[0], buf[1])
}

/// The head of `buf` is an invalid frame: a length prefix of zero.
pub open spec fn parse_invalid(buf: Seq<u8>) -> bool {
    buf.len() >= 2 && head_len(buf) == 0
}

/// The head of `buf` is a complete frame.
pub open spec fn parse_complete(buf: Seq<u8>) -> bool {
    buf.len() >= 2 && head_len(buf) >= 1 && buf.len() >= 2 + head_len(buf)
}

/// `buf` holds only part of a frame so far.
pub open spec fn parse_incomplete(buf: Seq<u8>) -> bool {
    !parse_invalid(buf) && !parse_complete(buf)
}

/// The payload of the frame at the head of `buf`.
pub open spec fn parse_payload(buf: Seq<u8>) -> Seq<u8> {
    buf.subrange(2, 2 + head_len(buf))
}

/// How many bytes the frame at the head of `buf` occupies.
pub open spec fn parse_consumed(buf: Seq<u8>) -> int {
    2 + head_len(buf)
}

/// What draining `buf` yields: the payloads of its complete frames in order,
/// the unconsumed carry, and whether an invalid frame was hit.
pub open spec fn spec_drain(buf: Seq<u8>) -> (Seq<Seq<u8>>, Seq<u8>, bool)
    decreases buf.len(),
{
    if parse_complete(buf) {
        let rest = spec_drain(buf.skip(parse_consumed(buf)));
        (seq![parse_payload(buf)] + rest.0, rest.1, rest.2)
    } else if parse_invalid(buf) {
        (Seq::empty(), Seq::empty(), true)
    } else {
        (Seq::empty(), buf, false)
    }
}

/// The view of a sequence of byte vectors.
pub open spec fn seq_vec_view(s: Seq<Vec<u8>>) -> Seq<Seq<u8>> {
    s.map_values(|v: Vec<u8>| v@)
}

/// A length below 65536 is what its little-endian bytes hold.
pub proof fn lemma_le16_of_len(n: int)
    requires
        0 <= n <= 65535,
    ensures
        le16((n % 256) as u8, (n / 256) as u8) == n,
{
    lemma_fundamental_div_mod(n, 256);
}

/// A little-endian pair determines its number's remainder and quotient.
pub proof fn lemma_le16_unique(b0: u8, b1: u8)
    ensures
        b0 == le16(b0, b1) % 256,
        b1 == le16(b0, b1) / 256,
{
    lemma_fundamental_div_mod_converse_mod(le16(b0, b1), 256, b1 as int, b0 as int);
    lemma_fundamental_div_mod_converse_div(le16(b0, b1), 256, b1 as int, b0 as int);
}

/// A buffer that starts with the frame of `m` parses to `m`, whatever
/// follows, and consuming the frame leaves exactly what followed.
pub proof fn lemma_parse_frame(m: Seq<u8>, rest: Seq<u8>)
    requires
        valid_payload(m),
    ensures
        parse_complete(frame_of(m) + rest),
        parse_payload(frame_of(m) + rest) == m,
        (frame_of(m) + rest).skip(parse_consumed(frame_of(m) + rest)) == rest,
{
    let buf = frame_of(m) + rest;
    lemma_le16_of_len(m.len() as int);
    assert(buf[0] == (m.len() % 256) as u8);
    assert(buf[1] == (m.len() / 256) as u8);
    assert(head_len(buf) == m.len());
    assert(parse_payload(buf) =~= m);
    assert(buf.skip(2 + m.len() as int) =~= rest);
}

/// Concatenating message lists concatenates their framings.
pub proof fn lemma_frames_of_app(a: Seq<Seq<u8>>, b: Seq<Seq<u8>>)
    ensures
        frames_of(a + b) == frames_of(a) + frames_of(b),
    decreases a.len(),
{
    if a.len() == 0 {
        assert(a + b =~= b);
        assert(frames_of(a) + frames_of(b) =~= frames_of(b));
    } else {
        assert((a + b).drop_first() =~= a.drop_first() + b);
        lemma_frames_of_app(a.drop_first(), b);
        assert((a + b)[0] == a[0]);
        assert(frame_of(a[0]) + (frames_of(a.drop_first()) + frames_of(b)) =~= (frame_of(a[0])
            + frames_of(a.drop_first())) + frames_of(b));
    }
}

/// Draining loses nothing: as long as no invalid frame was hit, re-framing
/// the extracted payloads and appending the carry rebuilds the buffer, the
/// carry is incomplete, and every payload is valid.
pub proof fn lemma_drain_reconstruct(buf: Seq<u8>)
    ensures
        !spec_drain(buf).2 ==> frames_of(spec_drain(buf).0) + spec_drain(buf).1 == buf,
        !spec_drain(buf).2 ==> parse_incomplete(spec_drain(buf).1),
        forall|i: int|
            0 <= i < spec_drain(buf).0.len() ==> valid_payload(#[trigger] spec_drain(buf).0[i]),
    decreases buf.len(),
{
    if parse_complete(buf) {
        let m = parse_payload(buf);
        let c = parse_consumed(buf);
        let rest = buf.skip(c);
        lemma_drain_reconstruct(rest);
        lemma_le16_unique(buf[0], buf[1]);
        assert(m.len() == head_len(buf));
        assert(valid_payload(m)) by {
            assert(head_len(buf) <= 255 + 256 * 255);
        }
        assert(frame_of(m) =~= buf.subrange(0, c)) by {
            assert((m.len() % 256) as u8 == buf[0]);
            assert((m.len() / 256) as u8 == buf[1]);
        }
        let msgs = spec_drain(buf).0;
        assert(msgs == seq![m] + spec_drain(rest).0);
        assert(msgs.drop_first() =~= spec_drain(rest).0);
        assert(msgs[0] == m);
        if !spec_drain(buf).2 {
            assert(frames_of(msgs) == frame_of(m) + frames_of(spec_drain(rest).0));
            assert(frames_of(msgs) + spec_drain(buf).1 =~= buf) by {
                assert(frames_of(spec_drain(rest).0) + spec_drain(rest).1 == rest);
                assert(buf =~= buf.subrange(0, c) + rest);
            }
        }
        assert forall|i: int| 0 <= i < msgs.len() implies valid_payload(#[trigger] msgs[i]) by {
            if i > 0 {
                assert(msgs[i] == spec_drain(rest).0[i - 1]);
            }
        }
    } else if parse_invalid(buf) {
        // nothing is claimed once an invalid frame was hit
    } else {
        assert(frames_of(spec_drain(buf).0) + spec_drain(buf).1 =~= buf);
    }
}

/// Framing is a prefix code: two framings with incomplete leftovers that
/// spell the same bytes carry the same messages and the same leftover.
pub proof fn lemma_framing_unique(xs: Seq<Seq<u8>>, c: Seq<u8>, ys: Seq<Seq<u8>>, p: Seq<u8>)
    requires
        forall|i: int| 0 <= i < xs.len() ==> valid_payload(#[trigger] xs[i]),
        forall|i: int| 0 <= i < ys.len() ==> valid_payload(#[trigger] ys[i]),
        parse_incomplete(c),
        parse_incomplete(p),
        frames_of(xs) + c == frames_of(ys) + p,
    ensures
        xs == ys,
        c == p,
    decreases xs.len(),
{
    if xs.len() == 0 {
        if ys.len() > 0 {
            lemma_parse_frame(ys[0], frames_of(ys.drop_first()) + p);
            assert(c =~= frame_of(ys[0]) + (frames_of(ys.drop_first()) + p)) by {
                assert(frames_of(xs) + c =~= c);
                assert(frames_of(ys) + p =~= frame_of(ys[0]) + (frames_of(ys.drop_first()) + p));
            }
            assert(false);
        }
        assert(c =~= frames_of(xs) + c);
        assert(p =~= frames_of(ys) + p);
        assert(xs =~= ys);
    } else {
        if ys.len() == 0 {
            lemma_parse_frame(xs[0], frames_of(xs.drop_first()) + c);
            assert(p =~= frame_of(xs[0]) + (frames_of(xs.drop_first()) + c)) by {
                assert(frames_of(ys) + p =~= p);
                assert(frames_of(xs) + c =~= frame_of(xs[0]) + (frames_of(xs.drop_first()) + c));
            }
            assert(false);
        }
        let b = frames_of(xs) + c;
        lemma_parse_frame(xs[0], frames_of(xs.drop_first()) + c);
        lemma_parse_frame(ys[0], frames_of(ys.drop_first()) + p);
        assert(b =~= frame_of(xs[0]) + (frames_of(xs.drop_first()) + c));
        assert(b =~= frame_of(ys[0]) + (frames_of(ys.drop_first()) + p));
        assert(xs[0] == ys[0]) by {
            assert(parse_payload(b) == xs[0]);
            assert(parse_payload(b) == ys[0]);
        }
        assert(frames_of(xs.drop_first()) + c == frames_of(ys.drop_first()) + p) by {
            assert(b.skip(parse_consumed(b)) == frames_of(xs.drop_first()) + c);
            assert(b.skip(parse_consumed(b)) == frames_of(ys.drop_first()) + p);
        }
        assert forall|i: int| 0 <= i < xs.drop_first().len()
            implies valid_payload(#[trigger] xs.drop_first()[i]) by {
            assert(xs.drop_first()[i] == xs[i + 1]);
        }
        assert forall|i: int| 0 <= i < ys.drop_first().len()
            implies valid_payload(#[trigger] ys.drop_first()[i]) by {
            assert(ys.drop_first()[i] == ys[i + 1]);
        }
        lemma_framing_unique(xs.drop_first(), c, ys.drop_first(), p);
        assert(xs =~= ys) by {
            assert(xs.drop_first() =~= ys.drop_first());
            assert forall|i: int| 0 <= i < xs.len() implies xs[i] == ys[i] by {
                if i > 0 {
                    assert(xs.drop_first()[i - 1] == ys.drop_first()[i - 1]);
                }
            }
        }
    }
}

/// Framing a payload and parsing the frame yields the payload, exactly.
pub proof fn lemma_codec_roundtrip(p: Seq<u8>)
    requires
        valid_payload(p),
    ensures
        parse_complete(frame_of(p)),
        parse_payload(frame_of(p)) == p,
        parse_consumed(frame_of(p)) == frame_of(p).len(),
{
    lemma_parse_frame(p, Seq::empty());
    assert(frame_of(p) + Seq::<u8>::empty() =~= frame_of(p));
}

/// A copy of `buf[start..end]`.
fn copy_range(buf: &Vec<u8>, start: usize, end: usize) -> (r: Vec<u8>)
    requires
        start <= end <= buf@.len(),
    ensures
        r@ == buf@.subrange(start as int, end as int),
{
    let mut r: Vec<u8> = Vec::new();
    let mut i: usize = start;
    while i < end
        invariant
            start <= i <= end <= buf@.len(),
            r@ == buf@.subrange(start as int, i as int),
        decreases end - i,
    {
        r.push(buf[i]);
        proof {
            assert(buf@.subrange(start as int, i + 1 as int) =~= buf@.subrange(
                start as int,
                i as int,
            ).push(buf@[i as int]));
        }
        i = i + 1;
    }
    r
}

/// A copy of `v`.
pub fn clone_bytes(v: &Vec<u8>) -> (r: Vec<u8>)
    ensures
        r@ == v@,
{
    let r = copy_range(v, 0, v.len());
    proof {
        assert(v@.subrange(0, v@.len() as int) =~= v@);
    }
    r
}

/// The bytes of `a` followed by the bytes of `b`.
pub fn concat_bytes(a: &Vec<u8>, b: &Vec<u8>) -> (r: Vec<u8>)
    ensures
        r@ == a@ + b@,
{
    let mut r = clone_bytes(a);
    let mut i: usize = 0;
    proof {
        assert(a@ + b@.subrange(0, 0) =~= a@);
    }
    while i < b.len()
        invariant
            i <= b@.len(),
            r@ == a@ + b@.subrange(0, i as int),
        decreases b@.len() - i,
    {
        r.push(b[i]);
        proof {
            assert(a@ + b@.subrange(0, i + 1 as int) =~= (a@ + b@.subrange(0, i as int)).push(
                b@[i as int],
            ));
        }
        i = i + 1;
    }
    proof {
        assert(a@ + b@.subrange(0, b@.len() as int) =~= a@ + b@);
    }
    r
}

/// Wraps a payload in a frame; rejects payloads no frame can carry.
pub fn packet_message(payload: &Vec<u8>) -> (r: Result<Vec<u8>, NodeError>)
    ensures
        match r {
            Ok(f) => valid_payload(payload@) && f@ == frame_of(payload@),
            Err(e) => !valid_payload(payload@) && e == NodeError::InvalidData,
        },
{
    let n = payload.len();
    if n == 0 || n > MAX_PAYLOAD_LEN {
        return Err(NodeError::InvalidData);
    }
    let mut r: Vec<u8> = Vec::new();
    r.push((n % 256) as u8);
    r.push((n / 256) as u8);
    let mut i: usize = 0;
    while i < n
        invariant
            i <= n,
            n == payload@.len(),
            1 <= n <= 65535,
            r@ == frame_of(payload@).subrange(0, 2 + i as int),
        decreases n - i,
    {
        r.push(payload[i]);
        proof {
            assert(frame_of(payload@)[2 + i as int] == payload@[i as int]);
            assert(frame_of(payload@).subrange(0, 2 + i + 1 as int) =~= frame_of(
                payload@,
            ).subrange(0, 2 + i as int).push(payload@[i as int]));
        }
        i = i + 1;
    }
    proof {
        assert(r@ =~= frame_of(payload@));
    }
    Ok(r)
}

/// Parses the frame at the head of `buffer`: `None` for a partial frame,
/// the payload for a complete one, invalid data for a zero length prefix.
pub fn read_message(buffer: &Vec<u8>) -> (r: Result<Option<Vec<u8>>, NodeError>)
    ensures
        match r {
            Ok(Some(p)) => parse_complete(buffer@) && p@ == parse_payload(buffer@),
            Ok(None) => parse_incomplete(buffer@),
            Err(e) => parse_invalid(buffer@) && e == NodeError::InvalidData,
        },
{
    if buffer.len() < 2 {
        return Ok(None);
    }
    let len: usize = buffer[0] as usize + 256 * (buffer[1] as usize);
    if len == 0 {
        return Err(NodeError::InvalidData);
    }
    if buffer.len() - 2 < len {
        return Ok(None);
    }
    let payload = copy_range(buffer, 2, 2 + len);
    Ok(Some(payload))
}

/// What draining a read buffer produced.
pub struct DrainOutcome {
    /// The payloads of the complete frames, in wire order.
    pub msgs: Vec<Vec<u8>>,
    /// The unconsumed bytes, to carry into the next read.
    pub carry: Vec<u8>,
    /// Whether an invalid frame was hit (the carry is then dropped).
    pub invalid: bool,
}

/// Extracts every complete frame at the head of `buffer`, stopping at a
/// partial or an invalid frame.
pub fn drain_buffer(buffer: &Vec<u8>) -> (r: DrainOutcome)
    ensures
        seq_vec_view(r.msgs@) == spec_drain(buffer@).0,
        r.carry@ == spec_drain(buffer@).1,
        r.invalid == spec_drain(buffer@).2,
{
    let mut msgs: Vec<Vec<u8>> = Vec::new();
    let mut off: usize = 0;
    proof {
        assert(buffer@.skip(0) =~= buffer@);
        assert(seq_vec_view(msgs@) =~= Seq::<Seq<u8>>::empty());
    }
    loop
        invariant
            off <= buffer@.len(),
            spec_drain(buffer@).0 == seq_vec_view(msgs@) + spec_drain(buffer@.skip(off as int)).0,
            spec_drain(buffer@).1 == spec_drain(buffer@.skip(off as int)).1,
            spec_drain(buffer@).2 == spec_drain(buffer@.skip(off as int)).2,
        decreases buffer@.len() - off,
    {
        let ghost rem = buffer@.skip(off as int);
        let remaining = buffer.len() - off;
        if remaining < 2 {
            let carry = copy_range(buffer, off, buffer.len());
            proof {
                assert(rem.len() < 2);
                assert(seq_vec_view(msgs@) + spec_drain(rem).0 =~= seq_vec_view(msgs@));
                assert(carry@ =~= rem);
            }
            return DrainOutcome { msgs, carry, invalid: false };
        }
        let len: usize = buffer[off] as usize + 256 * (buffer[off + 1] as usize);
        proof {
            assert(rem[0] == buffer@[off as int]);
            assert(rem[1] == buffer@[off + 1 as int]);
            assert(head_len(rem) == len);
        }
        if len == 0 {
            proof {
                assert(seq_vec_view(msgs@) + spec_drain(rem).0 =~= seq_vec_view(msgs@));
            }
            return DrainOutcome { msgs, carry: Vec::new(), invalid: true };
        }
        if remaining - 2 < len {
            let carry = copy_range(buffer, off, buffer.len());
            proof {
                assert(parse_incomplete(rem));
                assert(seq_vec_view(msgs@) + spec_drain(rem).0 =~= seq_vec_view(msgs@));
                assert(carry@ =~= rem);
            }
            return DrainOutcome { msgs, carry, invalid: false };
        }
        let payload = copy_range(buffer, off + 2, off + 2 + len);
        proof {
            assert(parse_complete(rem));
            assert(payload@ =~= parse_payload(rem)) by {
                assert(parse_payload(rem) =~= buffer@.subrange(off + 2 as int, off + 2 + len as int));
            }
        }
        msgs.push(payload);
        proof {
            let rem2 = buffer@.skip(off + 2 + len as int);
            assert(rem.skip(parse_consumed(rem)) =~= rem2);
            assert(seq_vec_view(msgs@) =~= seq_vec_view(msgs@.drop_last()).push(payload@));
            assert(seq_vec_view(msgs@) + spec_drain(rem2).0 =~= seq_vec_view(msgs@.drop_last()) + (
            seq![payload@] + spec_drain(rem2).0));
        }
        off = off + 2 + len;
    }
}

} // verus!
