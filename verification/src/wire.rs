//! The bulk payload wire format shared by upload and export.
//!
//! A payload is a sequence of length-prefixed frames; each frame body is one
//! record: a channel tag byte, the timestamp (8 bytes little endian), the
//! dancer id length (2 bytes little endian), the dancer id bytes, then the
//! channel-specific payload bytes.
//!
//! Framing is structural: a truncated or inconsistent length prefix makes
//! the whole payload unparsable.  A frame whose body does not decode (too
//! short for its header, unknown channel tag, empty dancer id) is a
//! malformed record: it is reported and skipped, and its siblings are
//! processed.  Export output parses back to exactly the records it encoded.

use vstd::prelude::*;
use crate::error::ApiError;
use crate::telemetry::Channel;
use crate::telemetry::SensorSample;
use crate::telemetry::SampleV;
use crate::telemetry::wf_dancer;
use crate::telemetry::wf_sizes;

verus! {

/// The tag byte of a channel.
pub open spec fn tag_of(c: Channel) -> u8 {
    match c {
        Channel::Fiber => 0,
        Channel::Led => 1,
    }
}

/// The channel of a tag byte, for tags 0 and 1.
pub open spec fn channel_of(tag: u8) -> Channel {
    if tag == 0 {
        Channel::Fiber
    } else {
        Channel::Led
    }
}

/// Little-endian bytes of a 16-bit length.
pub open spec fn le16(x: u16) -> Seq<u8> {
    seq![(x & 0xFF) as u8, ((x >> 8) & 0xFF) as u8]
}

/// Little-endian bytes of a 32-bit length.
pub open spec fn le32(x: u32) -> Seq<u8> {
    seq![
        (x & 0xFF) as u8,
        ((x >> 8) & 0xFF) as u8,
        ((x >> 16) & 0xFF) as u8,
        ((x >> 24) & 0xFF) as u8,
    ]
}

/// Little-endian bytes of a 64-bit timestamp.
pub open spec fn le64(x: u64) -> Seq<u8> {
    seq![
        (x & 0xFF) as u8,
        ((x >> 8) & 0xFF) as u8,
        ((x >> 16) & 0xFF) as u8,
        ((x >> 24) & 0xFF) as u8,
        ((x >> 32) & 0xFF) as u8,
        ((x >> 40) & 0xFF) as u8,
        ((x >> 48) & 0xFF) as u8,
        ((x >> 56) & 0xFF) as u8,
    ]
}

/// The 16-bit value of two little-endian bytes.
pub open spec fn le16_val(s: Seq<u8>) -> u16 {
    (s[0] as u16) | ((s[1] as u16) << 8)
}

/// The 32-bit value of four little-endian bytes.
pub open spec fn le32_val(s: Seq<u8>) -> u32 {
    (s[0] as u32) | ((s[1] as u32) << 8) | ((s[2] as u32) << 16) | ((s[3] as u32) << 24)
}

/// The 64-bit value of eight little-endian bytes.
pub open spec fn le64_val(s: Seq<u8>) -> u64 {
    (s[0] as u64) | ((s[1] as u64) << 8) | ((s[2] as u64) << 16) | ((s[3] as u64) << 24) | (
    (s[4] as u64) << 32) | ((s[5] as u64) << 40) | ((s[6] as u64) << 48) | ((s[7] as u64) << 56)
}

pub proof fn lemma_le16_rt(x: u16)
    ensures
        le16_val(le16(x)) == x,
{
    let a = (x & 0xFF) as u8;
    let b = ((x >> 8) & 0xFF) as u8;
    assert(le16(x)[0] == a && le16(x)[1] == b);
    assert((a as u16) | ((b as u16) << 8) == x) by (bit_vector)
        requires
            a == (x & 0xFF) as u8,
            b == ((x >> 8) & 0xFF) as u8,
    ;
}

pub proof fn lemma_le32_rt(x: u32)
    ensures
        le32_val(le32(x)) == x,
{
    let b0 = (x & 0xFF) as u8;
    let b1 = ((x >> 8) & 0xFF) as u8;
    let b2 = ((x >> 16) & 0xFF) as u8;
    let b3 = ((x >> 24) & 0xFF) as u8;
    assert(le32(x)[0] == b0 && le32(x)[1] == b1 && le32(x)[2] == b2 && le32(x)[3] == b3);
    assert((b0 as u32) | ((b1 as u32) << 8) | ((b2 as u32) << 16) | ((b3 as u32) << 24)
        == x) by (bit_vector)
        requires
            b0 == (x & 0xFF) as u8,
            b1 == ((x >> 8) & 0xFF) as u8,
            b2 == ((x >> 16) & 0xFF) as u8,
            b3 == ((x >> 24) & 0xFF) as u8,
    ;
}

pub proof fn lemma_le64_rt(x: u64)
    ensures
        le64_val(le64(x)) == x,
{
    let b0 = (x & 0xFF) as u8;
    let b1 = ((x >> 8) & 0xFF) as u8;
    let b2 = ((x >> 16) & 0xFF) as u8;
    let b3 = ((x >> 24) & 0xFF) as u8;
    let b4 = ((x >> 32) & 0xFF) as u8;
    let b5 = ((x >> 40) & 0xFF) as u8;
    let b6 = ((x >> 48) & 0xFF) as u8;
    let b7 = ((x >> 56) & 0xFF) as u8;
    assert(le64(x)[0] == b0 && le64(x)[1] == b1 && le64(x)[2] == b2 && le64(x)[3] == b3 && le64(
        x,
    )[4] == b4 && le64(x)[5] == b5 && le64(x)[6] == b6 && le64(x)[7] == b7);
    assert((b0 as u64) | ((b1 as u64) << 8) | ((b2 as u64) << 16) | ((b3 as u64) << 24) | ((
    b4 as u64) << 32) | ((b5 as u64) << 40) | ((b6 as u64) << 48) | ((b7 as u64) << 56)
        == x) by (bit_vector)
        requires
            b0 == (x & 0xFF) as u8,
            b1 == ((x >> 8) & 0xFF) as u8,
            b2 == ((x >> 16) & 0xFF) as u8,
            b3 == ((x >> 24) & 0xFF) as u8,
            b4 == ((x >> 32) & 0xFF) as u8,
            b5 == ((x >> 40) & 0xFF) as u8,
            b6 == ((x >> 48) & 0xFF) as u8,
            b7 == ((x >> 56) & 0xFF) as u8,
    ;
}

/// A record the wire format can carry.
pub open spec fn wf_record(r: SampleV) -> bool {
    wf_dancer(r.dancer) && wf_sizes(r.dancer, r.data)
}

/// The body bytes of one record.
pub open spec fn encode_body(r: SampleV) -> Seq<u8> {
    seq![tag_of(r.channel)] + le64(r.timestamp) + le16(r.dancer.len() as u16) + r.dancer + r.data
}

/// One frame: a 4-byte little-endian length prefix, then the body.
pub open spec fn frame_of(body: Seq<u8>) -> Seq<u8> {
    le32(body.len() as u32) + body
}

/// A whole payload: the concatenated frames of the records.
pub open spec fn encode_all(rs: Seq<SampleV>) -> Seq<u8>
    decreases rs.len(),
{
    if rs.len() == 0 {
        Seq::empty()
    } else {
        frame_of(encode_body(rs[0])) + encode_all(rs.drop_first())
    }
}

/// The record of a body, or `None` where the body is malformed.
pub open spec fn decode_body(b: Seq<u8>) -> Option<SampleV> {
    if b.len() < 11 {
        None
    } else {
        let tag = b[0];
        let ts = le64_val(b.subrange(1, 9));
        let dl = le16_val(b.subrange(9, 11)) as int;
        if tag > 1 {
            None
        } else if dl == 0 {
            None
        } else if 11 + dl > b.len() {
            None
        } else {
            Some(
                SampleV {
                    dancer: b.subrange(11, 11 + dl),
                    channel: channel_of(tag),
                    timestamp: ts,
                    data: b.subrange(11 + dl, b.len() as int),
                },
            )
        }
    }
}

/// The frame bodies of a payload, or `None` where the framing is broken.
pub open spec fn parse_frames(b: Seq<u8>) -> Option<Seq<Seq<u8>>>
    decreases b.len(),
{
    if b.len() == 0 {
        Some(Seq::empty())
    } else if b.len() < 4 {
        None
    } else {
        let n = le32_val(b.subrange(0, 4)) as int;
        if b.len() < 4 + n {
            None
        } else {
            match parse_frames(b.skip(4 + n)) {
                None => None,
                Some(rest) => Some(seq![b.subrange(4, 4 + n)] + rest),
            }
        }
    }
}

/// The records of a payload, one `Option` per frame, or `None` where the
/// framing is broken.
pub open spec fn parse_payload(b: Seq<u8>) -> Option<Seq<Option<SampleV>>> {
    match parse_frames(b) {
        None => None,
        Some(frames) => Some(frames.map_values(|f: Seq<u8>| decode_body(f))),
    }
}

/// One parsed record of an upload payload: a well-formed sample, or a
/// malformed frame that is reported and skipped.
#[derive(Debug, PartialEq, Eq)]
pub enum WireItem {
    Good(SensorSample),
    Malformed,
}

impl View for WireItem {
    type V = Option<SampleV>;

    open spec fn view(&self) -> Option<SampleV> {
        match self {
            WireItem::Good(s) => Some(s@),
            WireItem::Malformed => None,
        }
    }
}

impl WireItem {
    /// A fresh copy of the item.
    pub fn duplicate(&self) -> (r: WireItem)
        ensures
            r@ == self@,
    {
        match self {
            WireItem::Good(s) => WireItem::Good(s.duplicate()),
            WireItem::Malformed => WireItem::Malformed,
        }
    }
}

/// Views of a vector of parsed records.
pub open spec fn item_views(items: Seq<WireItem>) -> Seq<Option<SampleV>> {
    items.map_values(|it: WireItem| it@)
}

/// Decoding inverts encoding of one record body.
pub proof fn lemma_decode_encode_body(r: SampleV)
    requires
        wf_record(r),
    ensures
        decode_body(encode_body(r)) == Some(r),
{
    let b = encode_body(r);
    let dl = r.dancer.len() as int;
    assert(b.len() == 11 + dl + r.data.len());
    assert(b[0] == tag_of(r.channel));
    assert(b.subrange(1, 9) =~= le64(r.timestamp));
    lemma_le64_rt(r.timestamp);
    assert(b.subrange(9, 11) =~= le16(r.dancer.len() as u16));
    lemma_le16_rt(r.dancer.len() as u16);
    assert(le16_val(b.subrange(9, 11)) as int == dl);
    assert(b.subrange(11, 11 + dl) =~= r.dancer);
    assert(b.subrange(11 + dl, b.len() as int) =~= r.data);
    assert(tag_of(r.channel) <= 1);
    assert(channel_of(tag_of(r.channel)) == r.channel);
    assert(decode_body(b) == Some(r)) by {
        assert(decode_body(b).unwrap() =~= r);
    }
}

/// Parsing inverts framing of a whole payload of well-formed records.
pub proof fn lemma_parse_encode_all(rs: Seq<SampleV>)
    requires
        forall|i: int| 0 <= i < rs.len() ==> wf_record(#[trigger] rs[i]),
    ensures
        parse_frames(encode_all(rs)) == Some(rs.map_values(|r: SampleV| encode_body(r))),
    decreases rs.len(),
{
    let bodies = rs.map_values(|r: SampleV| encode_body(r));
    if rs.len() == 0 {
        assert(bodies =~= Seq::<Seq<u8>>::empty());
        assert(parse_frames(encode_all(rs)) == Some(Seq::<Seq<u8>>::empty()));
    } else {
        let r0 = rs[0];
        let body0 = encode_body(r0);
        let n0 = body0.len() as int;
        let b = encode_all(rs);
        assert(wf_record(r0));
        assert(n0 == 11 + r0.dancer.len() + r0.data.len());
        assert(n0 <= 0xFFFF_FFFF);
        assert(b =~= frame_of(body0) + encode_all(rs.drop_first()));
        assert(b.len() == 4 + n0 + encode_all(rs.drop_first()).len());
        assert(b.subrange(0, 4) =~= le32(body0.len() as u32));
        lemma_le32_rt(body0.len() as u32);
        assert(le32_val(b.subrange(0, 4)) as int == n0);
        assert(b.subrange(4, 4 + n0) =~= body0);
        assert(b.skip(4 + n0) =~= encode_all(rs.drop_first()));
        assert(forall|i: int|
            0 <= i < rs.drop_first().len() ==> wf_record(#[trigger] rs.drop_first()[i]));
        lemma_parse_encode_all(rs.drop_first());
        let rest = rs.drop_first().map_values(|r: SampleV| encode_body(r));
        assert(parse_frames(b) == Some(seq![body0] + rest));
        assert(seq![body0] + rest =~= bodies);
    }
}

/// The wire round trip: a payload encoded from well-formed records parses
/// back to exactly those records, none malformed.
pub proof fn lemma_wire_round_trip(rs: Seq<SampleV>)
    requires
        forall|i: int| 0 <= i < rs.len() ==> wf_record(#[trigger] rs[i]),
    ensures
        parse_payload(encode_all(rs)) == Some(rs.map_values(|r: SampleV| Some(r))),
{
    lemma_parse_encode_all(rs);
    let bodies = rs.map_values(|r: SampleV| encode_body(r));
    let decoded = bodies.map_values(|f: Seq<u8>| decode_body(f));
    assert forall|i: int| 0 <= i < decoded.len() implies decoded[i] == Some(rs[i]) by {
        assert(bodies[i] == encode_body(rs[i]));
        lemma_decode_encode_body(rs[i]);
    }
    assert(decoded =~= rs.map_values(|r: SampleV| Some(r)));
}


/// Copy `v[start..end]` into a fresh vector.
fn copy_range(v: &Vec<u8>, start: usize, end: usize) -> (r: Vec<u8>)
    requires
        start <= end <= v@.len(),
    ensures
        r@ == v@.subrange(start as int, end as int),
{
    let mut out: Vec<u8> = Vec::new();
    let mut i: usize = start;
    while i < end
        invariant
            start <= i <= end <= v@.len(),
            out@ == v@.subrange(start as int, i as int),
        decreases end - i,
    {
        out.push(v[i]);
        proof {
            assert(out@ =~= v@.subrange(start as int, i as int + 1));
        }
        i += 1;
    }
    out
}

/// Append the little-endian bytes of a 32-bit length.
fn push_le32(out: &mut Vec<u8>, x: u32)
    ensures
        final(out)@ == old(out)@ + le32(x),
{
    let ghost pre = out@;
    out.push((x & 0xFF) as u8);
    out.push(((x >> 8) & 0xFF) as u8);
    out.push(((x >> 16) & 0xFF) as u8);
    out.push(((x >> 24) & 0xFF) as u8);
    proof {
        assert(out@ =~= pre + le32(x));
    }
}

/// Append the little-endian bytes of a 64-bit timestamp.
fn push_le64(out: &mut Vec<u8>, x: u64)
    ensures
        final(out)@ == old(out)@ + le64(x),
{
    let ghost pre = out@;
    out.push((x & 0xFF) as u8);
    out.push(((x >> 8) & 0xFF) as u8);
    out.push(((x >> 16) & 0xFF) as u8);
    out.push(((x >> 24) & 0xFF) as u8);
    out.push(((x >> 32) & 0xFF) as u8);
    out.push(((x >> 40) & 0xFF) as u8);
    out.push(((x >> 48) & 0xFF) as u8);
    out.push(((x >> 56) & 0xFF) as u8);
    proof {
        assert(out@ =~= pre + le64(x));
    }
}

/// Append every byte of `src`.
fn push_bytes(out: &mut Vec<u8>, src: &Vec<u8>)
    ensures
        final(out)@ == old(out)@ + src@,
{
    let ghost pre = out@;
    let mut i: usize = 0;
    while i < src.len()
        invariant
            0 <= i <= src@.len(),
            out@ == pre + src@.take(i as int),
        decreases src@.len() - i,
    {
        out.push(src[i]);
        proof {
            assert(out@ =~= pre + src@.take(i as int + 1));
        }
        i += 1;
    }
    proof {
        assert(pre + src@.take(src@.len() as int) =~= pre + src@);
    }
}

/// The tag byte of a channel.
pub fn channel_tag(c: Channel) -> (r: u8)
    ensures
        r == tag_of(c),
{
    match c {
        Channel::Fiber => 0,
        Channel::Led => 1,
    }
}

/// Append one record as a frame.
#[verifier::rlimit(100)]
#[verifier::spinoff_prover]
fn push_record(out: &mut Vec<u8>, s: &SensorSample)
    requires
        wf_record(s@),
    ensures
        final(out)@ == old(out)@ + frame_of(encode_body(s@)),
{
    let ghost pre = out@;
    let n: u32 = 11 + (s.dancer.len() as u32) + (s.data.len() as u32);
    proof {
        assert(n == encode_body(s@).len());
    }
    push_le32(out, n);
    out.push(channel_tag(s.channel));
    push_le64(out, s.timestamp);
    let dl: u16 = s.dancer.len() as u16;
    out.push((dl & 0xFF) as u8);
    out.push(((dl >> 8) & 0xFF) as u8);
    push_bytes(out, &s.dancer);
    push_bytes(out, &s.data);
    proof {
        assert(out@ =~= pre + frame_of(encode_body(s@)));
    }
}

/// Serialize records into one payload, upload-compatible.
pub fn serialize(samples: &Vec<SensorSample>) -> (r: Vec<u8>)
    requires
        forall|i: int|
            0 <= i < samples@.len() ==> wf_record((#[trigger] samples@[i])@),
    ensures
        r@ == encode_all(crate::telemetry::sample_views(samples@)),
{
    let ghost views = crate::telemetry::sample_views(samples@);
    let mut out: Vec<u8> = Vec::new();
    let mut i: usize = 0;
    while i < samples.len()
        invariant
            0 <= i <= samples@.len(),
            views == crate::telemetry::sample_views(samples@),
            forall|j: int| 0 <= j < samples@.len() ==> wf_record((#[trigger] samples@[j])@),
            out@ == encode_all(views.take(i as int)),
        decreases samples@.len() - i,
    {
        let s = &samples[i];
        proof {
            assert(views[i as int] == s@);
        }
        push_record(&mut out, s);
        proof {
            lemma_encode_all_snoc(views.take(i as int), s@);
            assert(views.take(i as int).push(views[i as int]) =~= views.take(i as int + 1));
        }
        i += 1;
    }
    proof {
        assert(views.take(samples@.len() as int) =~= views);
    }
    out
}

/// Encoding a sequence from the end: one more record is one more frame.
pub proof fn lemma_encode_all_snoc(rs: Seq<SampleV>, x: SampleV)
    ensures
        encode_all(rs.push(x)) == encode_all(rs) + frame_of(encode_body(x)),
    decreases rs.len(),
{
    if rs.len() == 0 {
        assert(rs.push(x)[0] == x);
        assert(rs.push(x).drop_first() =~= Seq::<SampleV>::empty());
        assert(encode_all(Seq::<SampleV>::empty()) == Seq::<u8>::empty());
        assert(encode_all(rs.push(x)) == frame_of(encode_body(x)) + Seq::<u8>::empty());
        assert(frame_of(encode_body(x)) + Seq::<u8>::empty() =~= encode_all(rs) + frame_of(
            encode_body(x),
        ));
    } else {
        assert(rs.push(x)[0] == rs[0]);
        assert(rs.push(x).drop_first() =~= rs.drop_first().push(x));
        lemma_encode_all_snoc(rs.drop_first(), x);
        assert(frame_of(encode_body(rs[0])) + (encode_all(rs.drop_first()) + frame_of(
            encode_body(x),
        )) =~= (frame_of(encode_body(rs[0])) + encode_all(rs.drop_first())) + frame_of(
            encode_body(x),
        ));
    }
}

/// Decode one frame body into a record, or report it malformed.
#[verifier::rlimit(100)]
#[verifier::spinoff_prover]
fn decode_body_exec(body: &Vec<u8>) -> (r: WireItem)
    ensures
        r@ == decode_body(body@),
{
    if body.len() < 11 {
        return WireItem::Malformed;
    }
    let tag = body[0];
    if tag > 1 {
        return WireItem::Malformed;
    }
    let ts: u64 = (body[1] as u64) | ((body[2] as u64) << 8) | ((body[3] as u64) << 16) | ((
    body[4] as u64) << 24) | ((body[5] as u64) << 32) | ((body[6] as u64) << 40) | ((
    body[7] as u64) << 48) | ((body[8] as u64) << 56);
    let dl: u16 = (body[9] as u16) | ((body[10] as u16) << 8);
    proof {
        assert(body@.subrange(1, 9)[0] == body@[1]);
        assert(ts == le64_val(body@.subrange(1, 9))) by {
            assert(forall|k: int| 0 <= k < 8 ==> body@.subrange(1, 9)[k] == body@[1 + k]);
        }
        assert(dl == le16_val(body@.subrange(9, 11))) by {
            assert(forall|k: int| 0 <= k < 2 ==> body@.subrange(9, 11)[k] == body@[9 + k]);
        }
    }
    if dl == 0 {
        return WireItem::Malformed;
    }
    if (dl as usize) > body.len() - 11 {
        return WireItem::Malformed;
    }
    let dancer = copy_range(body, 11, 11 + (dl as usize));
    let data = copy_range(body, 11 + (dl as usize), body.len());
    let channel = if tag == 0 {
        Channel::Fiber
    } else {
        Channel::Led
    };
    let out = SensorSample { dancer, channel, timestamp: ts, data };
    proof {
        assert(out@ =~= decode_body(body@).unwrap());
    }
    WireItem::Good(out)
}

/// The frames of the whole payload, given the frames already cut off the
/// front and the bytes that remain.
pub open spec fn frames_from(full: Seq<u8>, pos: int, done: Seq<Seq<u8>>) -> Option<Seq<Seq<u8>>> {
    match parse_frames(full.skip(pos)) {
        None => None,
        Some(rest) => Some(done + rest),
    }
}

/// Parse a whole payload into its records, one item per frame; `Err` with
/// `InvalidInput` exactly when the framing is structurally broken.
#[verifier::rlimit(100)]
#[verifier::spinoff_prover]
pub fn parse(bytes: &Vec<u8>) -> (r: Result<Vec<WireItem>, ApiError>)
    ensures
        match r {
            Ok(items) => parse_payload(bytes@) == Some(item_views(items@)),
            Err(e) => e == ApiError::InvalidInput && parse_payload(bytes@) is None,
        },
{
    let mut items: Vec<WireItem> = Vec::new();
    let ghost mut done: Seq<Seq<u8>> = Seq::empty();
    let mut pos: usize = 0;
    let ghost full = bytes@;
    proof {
        assert(full.skip(0) =~= full);
        if parse_frames(full) is Some {
            assert(done + parse_frames(full).unwrap() =~= parse_frames(full).unwrap());
        }
    }
    while pos < bytes.len()
        invariant
            0 <= pos <= bytes@.len(),
            full == bytes@,
            parse_frames(full) == frames_from(full, pos as int, done),
            item_views(items@) == done.map_values(|f: Seq<u8>| decode_body(f)),
            items@.len() == done.len(),
        decreases bytes@.len() - pos,
    {
        let ghost rem = full.skip(pos as int);
        proof {
            assert(rem.len() == full.len() - pos);
        }
        if bytes.len() - pos < 4 {
            proof {
                assert(parse_frames(rem) is None);
            }
            return Err(ApiError::InvalidInput);
        }
        let n32: u32 = (bytes[pos] as u32) | ((bytes[pos + 1] as u32) << 8) | ((bytes[pos
            + 2] as u32) << 16) | ((bytes[pos + 3] as u32) << 24);
        proof {
            assert(forall|k: int| 0 <= k < 4 ==> rem.subrange(0, 4)[k] == full[pos + k]);
            assert(n32 == le32_val(rem.subrange(0, 4)));
        }
        let n: usize = n32 as usize;
        if bytes.len() - pos - 4 < n {
            proof {
                assert(rem.len() < 4 + n32 as int);
                assert(parse_frames(rem) is None);
            }
            return Err(ApiError::InvalidInput);
        }
        let body = copy_range(bytes, pos + 4, pos + 4 + n);
        proof {
            assert(body@ =~= rem.subrange(4, 4 + n32 as int));
        }
        let item = decode_body_exec(&body);
        let ghost prev_items = items@;
        let ghost prev_done = done;
        items.push(item);
        proof {
            done = prev_done.push(body@);
            assert(rem.skip(4 + n32 as int) =~= full.skip(pos as int + 4 + n as int));
            assert(parse_frames(rem) == match parse_frames(rem.skip(4 + n32 as int)) {
                None => None::<Seq<Seq<u8>>>,
                Some(rest) => Some(seq![rem.subrange(4int, 4 + n32 as int)] + rest),
            });
            if parse_frames(full.skip(pos as int + 4 + n as int)) is Some {
                let rest = parse_frames(full.skip(pos as int + 4 + n as int)).unwrap();
                assert(prev_done + (seq![body@] + rest) =~= done + rest);
            }
            assert(parse_frames(full) == frames_from(full, pos as int + 4 + n as int, done));
            assert forall|j: int| 0 <= j < items@.len() implies item_views(items@)[j]
                == done.map_values(|f: Seq<u8>| decode_body(f))[j] by {
                assert(item_views(items@)[j] == items@[j]@);
                if j < prev_items.len() {
                    assert(items@[j] == prev_items[j]);
                    assert(item_views(prev_items)[j] == prev_items[j]@);
                    assert(item_views(prev_items)[j] == prev_done.map_values(
                        |f: Seq<u8>| decode_body(f),
                    )[j]);
                }
            }
            assert(item_views(items@) =~= done.map_values(|f: Seq<u8>| decode_body(f)));
        }
        pos = pos + 4 + n;
    }
    proof {
        assert(full.skip(pos as int).len() == 0);
        assert(full.skip(pos as int) =~= Seq::<u8>::empty());
        assert(parse_frames(full.skip(pos as int)) == Some(Seq::<Seq<u8>>::empty()));
        assert(done + Seq::<Seq<u8>>::empty() =~= done);
        assert(parse_frames(full) == Some(done));
    }
    Ok(items)
}

} // verus!

