//! Append-only, per-(dancer, channel) ordered storage of sensor samples.
//!
//! The store is partitioned by (dancer id, channel).  Within one partition
//! samples are kept strictly sorted by timestamp; duplicate timestamps follow
//! a last-write-wins policy: an append for an already-present timestamp
//! overwrites the prior sample for that exact key.
//!
//! An `append` call is atomic for its (dancer, channel) pair: either every
//! sample of the call is stored, or the store is unchanged.

use vstd::prelude::*;
use crate::error::ApiError;
use crate::bytes::bytes_eq;
use crate::bytes::copy_bytes;

verus! {

/// The sensor modality of a telemetry stream.
#[derive(Clone, Copy, PartialEq, Eq, Structural, Debug)]
pub enum Channel {
    Fiber,
    Led,
}

/// One sensor sample as it travels through upload and export.
#[derive(Debug, PartialEq, Eq)]
pub struct SensorSample {
    pub dancer: Vec<u8>,
    pub channel: Channel,
    pub timestamp: u64,
    pub data: Vec<u8>,
}

/// Mathematical value of a [`SensorSample`].
#[verifier::ext_equal]
pub ghost struct SampleV {
    pub dancer: Seq<u8>,
    pub channel: Channel,
    pub timestamp: u64,
    pub data: Seq<u8>,
}

impl View for SensorSample {
    type V = SampleV;

    open spec fn view(&self) -> SampleV {
        SampleV {
            dancer: self.dancer@,
            channel: self.channel,
            timestamp: self.timestamp,
            data: self.data@,
        }
    }
}

/// One stored sample inside a partition; the partition carries the key.
#[derive(Debug, PartialEq, Eq)]
pub struct StoredSample {
    pub timestamp: u64,
    pub data: Vec<u8>,
}

/// Mathematical value of a [`StoredSample`].
#[verifier::ext_equal]
pub ghost struct StoredV {
    pub timestamp: u64,
    pub data: Seq<u8>,
}

impl View for StoredSample {
    type V = StoredV;

    open spec fn view(&self) -> StoredV {
        StoredV { timestamp: self.timestamp, data: self.data@ }
    }
}

impl SensorSample {
    /// A fresh copy of the sample.
    pub fn duplicate(&self) -> (r: SensorSample)
        ensures
            r@ == self@,
    {
        SensorSample {
            dancer: copy_bytes(&self.dancer),
            channel: self.channel,
            timestamp: self.timestamp,
            data: copy_bytes(&self.data),
        }
    }
}

/// The stored stream for one (dancer, channel) key.
pub struct Partition {
    pub dancer: Vec<u8>,
    pub channel: Channel,
    pub samples: Vec<StoredSample>,
}

/// The telemetry store: one partition per (dancer, channel) key with data.
pub struct TelemetryStore {
    pub parts: Vec<Partition>,
}

/// Views of a vector of stored samples.
pub open spec fn views_of(s: Seq<StoredSample>) -> Seq<StoredV> {
    s.map_values(|x: StoredSample| x@)
}

/// Views of a vector of sensor samples.
pub open spec fn sample_views(s: Seq<SensorSample>) -> Seq<SampleV> {
    s.map_values(|x: SensorSample| x@)
}

/// Timestamps strictly increase along the stream.
pub open spec fn sorted_strict(s: Seq<StoredV>) -> bool {
    forall|i: int, j: int| 0 <= i < j < s.len() ==> s[i].timestamp < s[j].timestamp
}

/// A dancer id the wire format can carry: non-empty, length fits 16 bits.
pub open spec fn wf_dancer(d: Seq<u8>) -> bool {
    1 <= d.len() <= 0xFFFF
}

/// A (dancer, data) pair small enough for one wire record.
pub open spec fn wf_sizes(dancer: Seq<u8>, data: Seq<u8>) -> bool {
    11 + dancer.len() + data.len() <= 0xFFFF_FFFF
}

/// Two partitions carry the same (dancer, channel) key.
pub open spec fn same_key(p: Partition, dancer: Seq<u8>, channel: Channel) -> bool {
    p.dancer@ == dancer && p.channel == channel
}

/// Some partition carries the key.
pub open spec fn has_key(parts: Seq<Partition>, dancer: Seq<u8>, channel: Channel) -> bool {
    exists|i: int| 0 <= i < parts.len() && same_key(parts[i], dancer, channel)
}

/// The stored stream for a key: the samples of its partition, or empty.
pub open spec fn stream_of(parts: Seq<Partition>, dancer: Seq<u8>, channel: Channel) -> Seq<StoredV>
    decreases parts.len(),
{
    if parts.len() == 0 {
        Seq::empty()
    } else if same_key(parts[0], dancer, channel) {
        views_of(parts[0].samples@)
    } else {
        stream_of(parts.drop_first(), dancer, channel)
    }
}

/// Well-formedness of one partition.
pub open spec fn wf_partition(p: Partition) -> bool {
    &&& wf_dancer(p.dancer@)
    &&& sorted_strict(views_of(p.samples@))
    &&& forall|i: int| 0 <= i < p.samples@.len() ==> wf_sizes(p.dancer@, p.samples@[i].data@)
}

impl TelemetryStore {
    /// Store invariant: unique keys, sorted streams, exportable records.
    pub open spec fn wf(self) -> bool {
        &&& forall|i: int, j: int|
            0 <= i < j < self.parts@.len() ==> !same_key(
                #[trigger] self.parts@[i],
                (#[trigger] self.parts@[j]).dancer@,
                self.parts@[j].channel,
            )
        &&& forall|i: int| 0 <= i < self.parts@.len() ==> wf_partition(#[trigger] self.parts@[i])
    }

    /// The stream stored for a key, as a mathematical sequence.
    pub open spec fn stream(self, dancer: Seq<u8>, channel: Channel) -> Seq<StoredV> {
        stream_of(self.parts@, dancer, channel)
    }

    /// An empty store.
    pub fn new() -> (r: TelemetryStore)
        ensures
            r.wf(),
            forall|d: Seq<u8>, c: Channel| #[trigger] r.stream(d, c) == Seq::<StoredV>::empty(),
    {
        TelemetryStore { parts: Vec::new() }
    }
}

/// The stream of a key present at index `idx` is that partition's samples.
pub proof fn lemma_stream_at(parts: Seq<Partition>, idx: int, dancer: Seq<u8>, channel: Channel)
    requires
        0 <= idx < parts.len(),
        same_key(parts[idx], dancer, channel),
        forall|i: int, j: int|
            0 <= i < j < parts.len() ==> !same_key(
                #[trigger] parts[i],
                (#[trigger] parts[j]).dancer@,
                parts[j].channel,
            ),
    ensures
        stream_of(parts, dancer, channel) == views_of(parts[idx].samples@),
    decreases parts.len(),
{
    if idx == 0 {
    } else {
        assert(!same_key(parts[0], parts[idx].dancer@, parts[idx].channel));
        lemma_stream_at(parts.drop_first(), idx - 1, dancer, channel);
    }
}

/// The stream of an absent key is empty.
pub proof fn lemma_stream_absent(parts: Seq<Partition>, dancer: Seq<u8>, channel: Channel)
    requires
        !has_key(parts, dancer, channel),
    ensures
        stream_of(parts, dancer, channel) == Seq::<StoredV>::empty(),
    decreases parts.len(),
{
    if parts.len() > 0 {
        assert(!same_key(parts[0], dancer, channel));
        assert(!has_key(parts.drop_first(), dancer, channel)) by {
            if has_key(parts.drop_first(), dancer, channel) {
                let i = choose|i: int|
                    0 <= i < parts.drop_first().len() && same_key(
                        parts.drop_first()[i],
                        dancer,
                        channel,
                    );
                assert(same_key(parts[i + 1], dancer, channel));
            }
        }
        lemma_stream_absent(parts.drop_first(), dancer, channel);
    }
}


/// Insert a sample into a sorted stream, overwriting an equal timestamp
/// (last write wins).
pub open spec fn upsert(s: Seq<StoredV>, x: StoredV) -> Seq<StoredV>
    decreases s.len(),
{
    if s.len() == 0 {
        seq![x]
    } else if s[0].timestamp < x.timestamp {
        seq![s[0]] + upsert(s.drop_first(), x)
    } else if s[0].timestamp == x.timestamp {
        seq![x] + s.drop_first()
    } else {
        seq![x] + s
    }
}

/// Apply a batch of samples to a stream, in order, last write wins.
pub open spec fn apply_batch(s: Seq<StoredV>, batch: Seq<StoredV>) -> Seq<StoredV>
    decreases batch.len(),
{
    if batch.len() == 0 {
        s
    } else {
        apply_batch(upsert(s, batch[0]), batch.drop_first())
    }
}

/// Some sample in the stream carries this timestamp.
pub open spec fn has_ts(s: Seq<StoredV>, ts: u64) -> bool {
    exists|i: int| 0 <= i < s.len() && s[i].timestamp == ts
}

/// The payload stored for a timestamp (the first occurrence; in a sorted
/// stream, the only one).
pub open spec fn data_at(s: Seq<StoredV>, ts: u64) -> Seq<u8>
    decreases s.len(),
{
    if s.len() == 0 {
        Seq::empty()
    } else if s[0].timestamp == ts {
        s[0].data
    } else {
        data_at(s.drop_first(), ts)
    }
}

/// What one upsert does to a sorted stream: it stays sorted, gains exactly
/// the new timestamp, stores the new payload there, and leaves every other
/// timestamp's payload alone.
#[verifier::rlimit(100)]
#[verifier::spinoff_prover]
pub proof fn lemma_upsert(s: Seq<StoredV>, x: StoredV)
    requires
        sorted_strict(s),
    ensures
        sorted_strict(upsert(s, x)),
        forall|t: u64| has_ts(upsert(s, x), t) <==> (has_ts(s, t) || t == x.timestamp),
        data_at(upsert(s, x), x.timestamp) == x.data,
        forall|t: u64|
            t != x.timestamp ==> data_at(upsert(s, x), t) == #[trigger] data_at(s, t),
        forall|k: int|
            0 <= k < upsert(s, x).len() ==> upsert(s, x)[k] == x || s.contains(
                #[trigger] upsert(s, x)[k],
            ),
    decreases s.len(),
{
    let r = upsert(s, x);
    if s.len() == 0 {
        assert(r == seq![x]);
        assert(forall|t: u64| has_ts(r, t) ==> t == x.timestamp);
        assert(has_ts(r, x.timestamp)) by {
            assert(r[0].timestamp == x.timestamp);
        }
        assert(data_at(r, x.timestamp) == x.data);
        assert forall|t: u64| t != x.timestamp implies data_at(r, t) == #[trigger] data_at(
            s,
            t,
        ) by {
            assert(r.drop_first() =~= Seq::<StoredV>::empty());
            assert(data_at(r, t) == data_at(Seq::<StoredV>::empty(), t));
        }
    } else if s[0].timestamp < x.timestamp {
        let tail = s.drop_first();
        assert(sorted_strict(tail));
        lemma_upsert(tail, x);
        let rt = upsert(tail, x);
        assert(r == seq![s[0]] + rt);
        assert(r[0] == s[0]);
        assert(forall|k: int| 0 <= k < rt.len() ==> r[k + 1] == rt[k]);
        // sortedness: every element of rt is x or from tail, so above s[0]
        assert forall|i: int, j: int| 0 <= i < j < r.len() implies r[i].timestamp
            < r[j].timestamp by {
            if i == 0 {
                assert(r[j] == rt[j - 1]);
                assert(rt[j - 1] == x || tail.contains(rt[j - 1]));
                if tail.contains(rt[j - 1]) {
                    let m = choose|m: int| 0 <= m < tail.len() && tail[m] == rt[j - 1];
                    assert(s[m + 1] == tail[m]);
                }
            } else {
                assert(r[i] == rt[i - 1] && r[j] == rt[j - 1]);
            }
        }
        assert forall|t: u64| has_ts(r, t) <==> (has_ts(s, t) || t == x.timestamp) by {
            if has_ts(r, t) {
                let i = choose|i: int| 0 <= i < r.len() && r[i].timestamp == t;
                if i == 0 {
                    assert(s[0].timestamp == t);
                } else {
                    assert(has_ts(rt, t));
                    if has_ts(tail, t) {
                        let m = choose|m: int| 0 <= m < tail.len() && tail[m].timestamp == t;
                        assert(s[m + 1].timestamp == t);
                    }
                }
            }
            if has_ts(s, t) {
                let i = choose|i: int| 0 <= i < s.len() && s[i].timestamp == t;
                if i == 0 {
                    assert(r[0].timestamp == t);
                } else {
                    assert(tail[i - 1].timestamp == t);
                    assert(has_ts(tail, t));
                    assert(has_ts(upsert(tail, x), t));
                    let m = choose|m: int| 0 <= m < rt.len() && rt[m].timestamp == t;
                    assert(r[m + 1].timestamp == t);
                }
            }
            if t == x.timestamp {
                assert(has_ts(upsert(tail, x), t));
                let m = choose|m: int| 0 <= m < rt.len() && rt[m].timestamp == t;
                assert(r[m + 1].timestamp == t);
            }
        }
        assert(r.drop_first() =~= rt);
        assert(data_at(r, x.timestamp) == x.data);
        assert forall|t: u64| t != x.timestamp implies data_at(r, t) == data_at(s, t) by {
            if s[0].timestamp == t {
            } else {
                assert(data_at(r, t) == data_at(rt, t));
                assert(data_at(s, t) == data_at(tail, t));
            }
        }
        assert forall|k: int| 0 <= k < r.len() implies r[k] == x || s.contains(r[k]) by {
            if k == 0 {
                assert(s.contains(s[0]));
            } else {
                assert(r[k] == rt[k - 1]);
                if tail.contains(rt[k - 1]) {
                    let m = choose|m: int| 0 <= m < tail.len() && tail[m] == rt[k - 1];
                    assert(s[m + 1] == rt[k - 1]);
                }
            }
        }
    } else if s[0].timestamp == x.timestamp {
        assert(r == seq![x] + s.drop_first());
        assert(r[0] == x);
        assert(forall|k: int| 1 <= k < r.len() ==> r[k] == s[k]);
        assert forall|t: u64| has_ts(r, t) <==> (has_ts(s, t) || t == x.timestamp) by {
            if has_ts(r, t) {
                let i = choose|i: int| 0 <= i < r.len() && r[i].timestamp == t;
                if i > 0 {
                    assert(s[i].timestamp == t);
                }
            }
            if has_ts(s, t) {
                let i = choose|i: int| 0 <= i < s.len() && s[i].timestamp == t;
                if i == 0 {
                    assert(r[0].timestamp == t);
                } else {
                    assert(r[i].timestamp == t);
                }
            }
            if t == x.timestamp {
                assert(r[0].timestamp == t);
            }
        }
        assert forall|t: u64| t != x.timestamp implies data_at(r, t) == data_at(s, t) by {
            assert(r.drop_first() =~= s.drop_first());
        }
        assert forall|k: int| 0 <= k < r.len() implies r[k] == x || s.contains(r[k]) by {
            if k > 0 {
                assert(s.contains(s[k]));
            }
        }
    } else {
        assert(r == seq![x] + s);
        assert(r[0] == x);
        assert(forall|k: int| 0 <= k < s.len() ==> r[k + 1] == s[k]);
        assert forall|t: u64| has_ts(r, t) <==> (has_ts(s, t) || t == x.timestamp) by {
            if has_ts(r, t) {
                let i = choose|i: int| 0 <= i < r.len() && r[i].timestamp == t;
                if i > 0 {
                    assert(s[i - 1].timestamp == t);
                }
            }
            if has_ts(s, t) {
                let i = choose|i: int| 0 <= i < s.len() && s[i].timestamp == t;
                assert(r[i + 1].timestamp == t);
            }
            if t == x.timestamp {
                assert(r[0].timestamp == t);
            }
        }
        assert forall|t: u64| t != x.timestamp implies data_at(r, t) == data_at(s, t) by {
            assert(r.drop_first() =~= s);
        }
        assert forall|k: int| 0 <= k < r.len() implies r[k] == x || s.contains(r[k]) by {
            if k > 0 {
                assert(s.contains(s[k - 1]));
            }
        }
    }
}

/// What a whole batch does to a sorted stream: the result is sorted, carries
/// a timestamp exactly when the stream or the batch does, and at each
/// timestamp stores the last payload the batch submitted for it, or the
/// stream's prior payload where the batch has none.
#[verifier::rlimit(100)]
#[verifier::spinoff_prover]
pub proof fn lemma_apply_batch(s: Seq<StoredV>, batch: Seq<StoredV>)
    requires
        sorted_strict(s),
    ensures
        sorted_strict(apply_batch(s, batch)),
        forall|t: u64|
            has_ts(apply_batch(s, batch), t) <==> (has_ts(s, t) || has_ts(batch, t)),
        forall|t: u64|
            !has_ts(batch, t) ==> data_at(apply_batch(s, batch), t) == #[trigger] data_at(s, t),
        forall|k: int|
            0 <= k < apply_batch(s, batch).len() ==> batch.contains(
                #[trigger] apply_batch(s, batch)[k],
            ) || s.contains(apply_batch(s, batch)[k]),
    decreases batch.len(),
{
    if batch.len() == 0 {
    } else {
        let x = batch[0];
        let s1 = upsert(s, x);
        let bt = batch.drop_first();
        lemma_upsert(s, x);
        lemma_apply_batch(s1, bt);
        let r = apply_batch(s, batch);
        assert(r == apply_batch(s1, bt));
        assert forall|t: u64| has_ts(r, t) <==> (has_ts(s, t) || has_ts(batch, t)) by {
            if has_ts(apply_batch(upsert(s, batch[0]), batch.drop_first()), t) {
                if has_ts(upsert(s, batch[0]), t) {
                    if t == batch[0].timestamp {
                        assert(batch[0].timestamp == t);
                        assert(has_ts(batch, t));
                    }
                } else {
                    assert(has_ts(batch.drop_first(), t));
                    let i = choose|i: int|
                        0 <= i < batch.drop_first().len() && batch.drop_first()[i].timestamp == t;
                    assert(batch[i + 1].timestamp == t);
                    assert(has_ts(batch, t));
                }
            }
            if has_ts(s, t) {
                assert(has_ts(upsert(s, batch[0]), t));
                assert(has_ts(apply_batch(upsert(s, batch[0]), batch.drop_first()), t));
            }
            if has_ts(batch, t) {
                let i = choose|i: int| 0 <= i < batch.len() && batch[i].timestamp == t;
                if i == 0 {
                    assert(has_ts(upsert(s, batch[0]), t));
                } else {
                    assert(batch.drop_first()[i - 1].timestamp == t);
                    assert(has_ts(batch.drop_first(), t));
                }
                assert(has_ts(apply_batch(upsert(s, batch[0]), batch.drop_first()), t));
            }
        }
        assert forall|t: u64| !has_ts(batch, t) implies data_at(r, t) == data_at(s, t) by {
            assert(!has_ts(bt, t)) by {
                if has_ts(bt, t) {
                    let i = choose|i: int| 0 <= i < bt.len() && bt[i].timestamp == t;
                    assert(batch[i + 1].timestamp == t);
                }
            }
            assert(t != x.timestamp) by {
                assert(batch[0].timestamp == x.timestamp);
            }
        }
        assert forall|k: int| 0 <= k < r.len() implies batch.contains(r[k]) || s.contains(
            r[k],
        ) by {
            if bt.contains(r[k]) {
                let i = choose|i: int| 0 <= i < bt.len() && bt[i] == r[k];
                assert(batch[i + 1] == r[k]);
            } else if s1.contains(r[k]) {
                let i = choose|i: int| 0 <= i < s1.len() && s1[i] == r[k];
                if s1[i] == x {
                    assert(batch[0] == r[k]);
                }
            }
        }
    }
}

/// Applying a batch from the end: one more sample is one more upsert.
pub proof fn lemma_apply_batch_snoc(s: Seq<StoredV>, batch: Seq<StoredV>, x: StoredV)
    ensures
        apply_batch(s, batch.push(x)) == upsert(apply_batch(s, batch), x),
    decreases batch.len(),
{
    if batch.len() == 0 {
        assert(batch.push(x).drop_first() =~= Seq::<StoredV>::empty());
        assert(batch.push(x)[0] == x);
        assert(apply_batch(s, batch.push(x)) == apply_batch(
            upsert(s, x),
            Seq::<StoredV>::empty(),
        ));
        assert(apply_batch(upsert(s, x), Seq::<StoredV>::empty()) == upsert(s, x));
        assert(apply_batch(s, batch) == s);
    } else {
        assert(batch.push(x)[0] == batch[0]);
        assert(batch.push(x).drop_first() =~= batch.drop_first().push(x));
        lemma_apply_batch_snoc(upsert(s, batch[0]), batch.drop_first(), x);
    }
}

/// Re-submitting a sample the stream already holds changes nothing.
pub proof fn lemma_upsert_present(s: Seq<StoredV>, x: StoredV)
    requires
        sorted_strict(s),
        s.contains(x),
    ensures
        upsert(s, x) == s,
    decreases s.len(),
{
    let i = choose|i: int| 0 <= i < s.len() && s[i] == x;
    if i == 0 {
        assert(upsert(s, x) =~= s);
    } else {
        assert(s[0].timestamp < s[i].timestamp);
        let tail = s.drop_first();
        assert(tail[i - 1] == x);
        assert(tail.contains(x));
        lemma_upsert_present(tail, x);
        assert(upsert(s, x) =~= s);
    }
}

/// Re-submitting samples the stream already holds changes nothing: the
/// heart of idempotent re-ingestion under last-write-wins.
pub proof fn lemma_reingest_unchanged(s: Seq<StoredV>, batch: Seq<StoredV>)
    requires
        sorted_strict(s),
        forall|k: int| 0 <= k < batch.len() ==> s.contains(#[trigger] batch[k]),
    ensures
        apply_batch(s, batch) == s,
    decreases batch.len(),
{
    if batch.len() > 0 {
        assert(s.contains(batch[0]));
        lemma_upsert_present(s, batch[0]);
        assert(forall|k: int|
            0 <= k < batch.drop_first().len() ==> batch.drop_first()[k] == batch[k + 1]);
        lemma_reingest_unchanged(s, batch.drop_first());
    }
}


/// Where the insertion point of a timestamp is known, `upsert` is an update
/// or a splice at that point.
#[verifier::rlimit(100)]
#[verifier::spinoff_prover]
pub proof fn lemma_upsert_split(s: Seq<StoredV>, x: StoredV, i: int)
    requires
        0 <= i <= s.len(),
        forall|j: int| 0 <= j < i ==> s[j].timestamp < x.timestamp,
        i < s.len() ==> s[i].timestamp >= x.timestamp,
    ensures
        i < s.len() && s[i].timestamp == x.timestamp ==> upsert(s, x) == s.update(i, x),
        !(i < s.len() && s[i].timestamp == x.timestamp) ==> upsert(s, x) == s.take(i) + seq![x]
            + s.skip(i),
    decreases i,
{
    if i == 0 {
        if s.len() == 0 {
            assert(upsert(s, x) =~= s.take(0) + seq![x] + s.skip(0));
        } else if s[0].timestamp == x.timestamp {
            assert(upsert(s, x) =~= s.update(0, x));
        } else {
            assert(s[0].timestamp > x.timestamp);
            assert(upsert(s, x) =~= s.take(0) + seq![x] + s.skip(0));
        }
    } else {
        let tail = s.drop_first();
        assert(forall|j: int| 0 <= j < i - 1 ==> tail[j].timestamp < x.timestamp);
        lemma_upsert_split(tail, x, i - 1);
        assert(upsert(s, x) == seq![s[0]] + upsert(tail, x));
        if i < s.len() && s[i].timestamp == x.timestamp {
            assert(tail[i - 1].timestamp == x.timestamp);
            assert(upsert(tail, x) == tail.update(i - 1, x));
            assert(seq![s[0]] + tail.update(i - 1, x) =~= s.update(i, x));
        } else {
            assert(upsert(tail, x) == tail.take(i - 1) + seq![x] + tail.skip(i - 1));
            assert(seq![s[0]] + (tail.take(i - 1) + seq![x] + tail.skip(i - 1)) =~= s.take(i)
                + seq![x] + s.skip(i));
        }
    }
}

/// Insert one sample into a sorted sample vector, last write wins.
fn upsert_samples(samples: &mut Vec<StoredSample>, x: StoredSample)
    requires
        sorted_strict(views_of(old(samples)@)),
    ensures
        views_of(final(samples)@) == upsert(views_of(old(samples)@), x@),
{
    let ghost orig = views_of(samples@);
    let mut i: usize = 0;
    while i < samples.len() && samples[i].timestamp < x.timestamp
        invariant
            0 <= i <= samples@.len(),
            samples@ == old(samples)@,
            forall|j: int| 0 <= j < i ==> views_of(samples@)[j].timestamp < x@.timestamp,
        decreases samples@.len() - i,
    {
        assert(views_of(samples@)[i as int].timestamp == samples@[i as int].timestamp);
        i += 1;
    }
    proof {
        lemma_upsert_split(orig, x@, i as int);
        if i < samples@.len() {
            assert(orig[i as int].timestamp == samples@[i as int].timestamp);
        }
    }
    if i < samples.len() && samples[i].timestamp == x.timestamp {
        samples.set(i, x);
        proof {
            assert(views_of(samples@) =~= orig.update(i as int, x@));
        }
    } else {
        samples.insert(i, x);
        proof {
            assert(views_of(samples@) =~= orig.take(i as int) + seq![x@] + orig.skip(i as int));
        }
    }
}

/// Pushing a partition with a fresh key leaves every other stream unchanged.
pub proof fn lemma_stream_push(parts: Seq<Partition>, p: Partition, dancer: Seq<u8>, channel: Channel)
    requires
        !same_key(p, dancer, channel),
    ensures
        stream_of(parts.push(p), dancer, channel) == stream_of(parts, dancer, channel),
    decreases parts.len(),
{
    if parts.len() == 0 {
        assert(!has_key(parts.push(p), dancer, channel)) by {
            if has_key(parts.push(p), dancer, channel) {
                let i = choose|i: int|
                    0 <= i < parts.push(p).len() && same_key(parts.push(p)[i], dancer, channel);
                assert(parts.push(p)[i] == p);
            }
        }
        lemma_stream_absent(parts.push(p), dancer, channel);
    } else {
        assert(parts.push(p)[0] == parts[0]);
        if !same_key(parts[0], dancer, channel) {
            assert(parts.push(p).drop_first() =~= parts.drop_first().push(p));
            lemma_stream_push(parts.drop_first(), p, dancer, channel);
        }
    }
}

/// Replacing the partition at one index, key kept, leaves every other
/// stream unchanged.
pub proof fn lemma_stream_update_other(
    parts: Seq<Partition>,
    idx: int,
    p: Partition,
    dancer: Seq<u8>,
    channel: Channel,
)
    requires
        0 <= idx < parts.len(),
        !same_key(parts[idx], dancer, channel),
        !same_key(p, dancer, channel),
    ensures
        stream_of(parts.update(idx, p), dancer, channel) == stream_of(parts, dancer, channel),
    decreases parts.len(),
{
    let up = parts.update(idx, p);
    if idx == 0 {
        assert(up[0] == p);
        assert(up.drop_first() =~= parts.drop_first());
    } else {
        assert(up[0] == parts[0]);
        if !same_key(parts[0], dancer, channel) {
            assert(up.drop_first() =~= parts.drop_first().update(idx - 1, p));
            lemma_stream_update_other(parts.drop_first(), idx - 1, p, dancer, channel);
        }
    }
}


/// Replacing one partition, key kept, rewrites exactly that key's stream.
pub proof fn lemma_append_update(
    parts0: Seq<Partition>,
    idx: int,
    np: Partition,
    dancer: Seq<u8>,
    channel: Channel,
)
    requires
        0 <= idx < parts0.len(),
        same_key(parts0[idx], dancer, channel),
        same_key(np, dancer, channel),
        forall|i: int, j: int|
            0 <= i < j < parts0.len() ==> !same_key(
                #[trigger] parts0[i],
                (#[trigger] parts0[j]).dancer@,
                parts0[j].channel,
            ),
    ensures
        forall|i: int, j: int|
            0 <= i < j < parts0.update(idx, np).len() ==> !same_key(
                #[trigger] parts0.update(idx, np)[i],
                (#[trigger] parts0.update(idx, np)[j]).dancer@,
                parts0.update(idx, np)[j].channel,
            ),
        forall|d: Seq<u8>, c: Channel|
            #[trigger] stream_of(parts0.update(idx, np), d, c) == if d == dancer && c == channel {
                views_of(np.samples@)
            } else {
                stream_of(parts0, d, c)
            },
{
    let parts1 = parts0.update(idx, np);
    assert forall|i: int, j: int| 0 <= i < j < parts1.len() implies !same_key(
        #[trigger] parts1[i],
        (#[trigger] parts1[j]).dancer@,
        parts1[j].channel,
    ) by {
        assert(same_key(parts0[i], parts1[i].dancer@, parts1[i].channel));
        assert(same_key(parts0[j], parts1[j].dancer@, parts1[j].channel));
    }
    assert forall|d: Seq<u8>, c: Channel| #[trigger] stream_of(parts1, d, c) == (
    if d == dancer && c == channel {
        views_of(np.samples@)
    } else {
        stream_of(parts0, d, c)
    }) by {
        if d == dancer && c == channel {
            lemma_stream_at(parts1, idx, d, c);
        } else {
            assert(!same_key(parts0[idx], d, c));
            assert(!same_key(np, d, c));
            lemma_stream_update_other(parts0, idx, np, d, c);
        }
    }
}

/// Replacing one partition, key kept, rewrites exactly that key's stream.

/// Pushing a fresh, empty partition for an absent key keeps the invariant
/// and changes no stream.
pub proof fn lemma_append_fresh(before: Seq<Partition>, fresh: Partition, dancer: Seq<u8>, channel: Channel)
    requires
        !has_key(before, dancer, channel),
        same_key(fresh, dancer, channel),
        fresh.samples@.len() == 0,
        forall|i: int, j: int|
            0 <= i < j < before.len() ==> !same_key(
                #[trigger] before[i],
                (#[trigger] before[j]).dancer@,
                before[j].channel,
            ),
    ensures
        forall|i: int, j: int|
            0 <= i < j < before.push(fresh).len() ==> !same_key(
                #[trigger] before.push(fresh)[i],
                (#[trigger] before.push(fresh)[j]).dancer@,
                before.push(fresh)[j].channel,
            ),
        forall|d: Seq<u8>, c: Channel|
            #[trigger] stream_of(before.push(fresh), d, c) == stream_of(before, d, c),
{
    let parts1 = before.push(fresh);
    assert forall|i: int, j: int| 0 <= i < j < parts1.len() implies !same_key(
        #[trigger] parts1[i],
        (#[trigger] parts1[j]).dancer@,
        parts1[j].channel,
    ) by {
        if j == before.len() {
            assert(parts1[j] == fresh);
            assert(same_key(before[i], parts1[i].dancer@, parts1[i].channel));
            if same_key(parts1[i], fresh.dancer@, fresh.channel) {
                assert(same_key(before[i], dancer, channel));
            }
        } else {
            assert(same_key(before[i], parts1[i].dancer@, parts1[i].channel));
            assert(same_key(before[j], parts1[j].dancer@, parts1[j].channel));
        }
    }
    assert forall|d: Seq<u8>, c: Channel| #[trigger] stream_of(parts1, d, c) == stream_of(
        before,
        d,
        c,
    ) by {
        if d == dancer && c == channel {
            lemma_stream_at(parts1, before.len() as int, d, c);
            lemma_stream_absent(before, d, c);
            assert(views_of(fresh.samples@) =~= Seq::<StoredV>::empty());
        } else {
            assert(!same_key(fresh, d, c));
            lemma_stream_push(before, fresh, d, c);
        }
    }
}

/// Whether a batch is acceptable for an append under this key.
#[verifier::rlimit(100)]
#[verifier::spinoff_prover]
pub fn batch_valid(dancer: &Vec<u8>, channel: Channel, samples: &Vec<SensorSample>) -> (r: bool)
    ensures
        r == batch_ok(dancer@, channel, sample_views(samples@)),
{
    let ghost batch = sample_views(samples@);
    if dancer.len() == 0 || dancer.len() > 0xFFFF {
        return false;
    }
    let mut i: usize = 0;
    while i < samples.len()
        invariant
            0 <= i <= samples@.len(),
            batch == sample_views(samples@),
            dancer@.len() >= 1 && dancer@.len() <= 0xFFFF,
            forall|j: int| 0 <= j < i ==> (#[trigger] batch[j]).channel == channel,
            forall|j: int|
                0 <= j && j + 1 < i ==> (#[trigger] batch[j]).timestamp <= batch[j + 1].timestamp,
            forall|j: int| 0 <= j < i ==> wf_sizes(dancer@, (#[trigger] batch[j]).data),
        decreases samples@.len() - i,
    {
        let s = &samples[i];
        proof {
            assert(batch[i as int] == s@);
        }
        if !(s.channel == channel) {
            return false;
        }
        if s.data.len() > 0xFFFF_FFFFusize - 11 - dancer.len() {
            proof {
                assert(!wf_sizes(dancer@, batch[i as int].data));
            }
            return false;
        }
        if i > 0 {
            let prev = &samples[i - 1];
            proof {
                assert(batch[i as int - 1] == prev@);
            }
            if prev.timestamp > s.timestamp {
                return false;
            }
        }
        i += 1;
    }
    true
}

/// Apply one acceptable batch to its partition, last write wins.
#[verifier::rlimit(100)]
#[verifier::spinoff_prover]
fn apply_samples(part: &mut Partition, samples: &Vec<SensorSample>)
    requires
        wf_partition(*old(part)),
        batch_ok(old(part).dancer@, old(part).channel, sample_views(samples@)),
    ensures
        final(part).dancer@ == old(part).dancer@,
        final(part).channel == old(part).channel,
        wf_partition(*final(part)),
        views_of(final(part).samples@) == apply_batch(
            views_of(old(part).samples@),
            stored_of(sample_views(samples@)),
        ),
{
    let ghost batch = sample_views(samples@);
    let ghost orig = views_of(old(part).samples@);
    let ghost dancer = old(part).dancer@;
    let mut k: usize = 0;
    while k < samples.len()
        invariant
            0 <= k <= samples@.len(),
            batch == sample_views(samples@),
            batch_ok(dancer, part.channel, batch),
            part.dancer@ == dancer,
            part.channel == old(part).channel,
            wf_dancer(dancer),
            orig == views_of(old(part).samples@),
            sorted_strict(orig),
            sorted_strict(views_of(part.samples@)),
            forall|j: int|
                0 <= j < part.samples@.len() ==> wf_sizes(
                    dancer,
                    (#[trigger] part.samples@[j]).data@,
                ),
            views_of(part.samples@) == apply_batch(orig, stored_of(batch).take(k as int)),
        decreases samples@.len() - k,
    {
        let s = &samples[k];
        let x = StoredSample { timestamp: s.timestamp, data: copy_bytes(&s.data) };
        proof {
            assert(batch[k as int] == s@);
            assert(x@ == stored_of(batch)[k as int]);
        }
        let ghost cur = views_of(part.samples@);
        upsert_samples(&mut part.samples, x);
        proof {
            lemma_upsert(cur, x@);
            lemma_apply_batch_snoc(orig, stored_of(batch).take(k as int), x@);
            assert(stored_of(batch).take(k as int).push(stored_of(batch)[k as int])
                =~= stored_of(batch).take(k as int + 1));
            assert forall|j: int| 0 <= j < part.samples@.len() implies wf_sizes(
                dancer,
                (#[trigger] part.samples@[j]).data@,
            ) by {
                let v = views_of(part.samples@)[j];
                assert(v == part.samples@[j]@);
                if cur.contains(v) {
                    let m = choose|m: int| 0 <= m < cur.len() && cur[m] == v;
                } else {
                    assert(v == x@);
                    assert(wf_sizes(dancer, batch[k as int].data));
                }
            }
        }
        k += 1;
    }
    proof {
        assert(stored_of(batch).take(samples@.len() as int) =~= stored_of(batch));
    }
}

/// Channel tags, ordering and sizes that make an append acceptable.
pub open spec fn batch_ok(dancer: Seq<u8>, channel: Channel, batch: Seq<SampleV>) -> bool {
    &&& wf_dancer(dancer)
    &&& forall|i: int| 0 <= i < batch.len() ==> (#[trigger] batch[i]).channel == channel
    &&& forall|i: int|
        0 <= i && i + 1 < batch.len() ==> (#[trigger] batch[i]).timestamp <= batch[i + 1].timestamp
    &&& forall|i: int| 0 <= i < batch.len() ==> wf_sizes(dancer, (#[trigger] batch[i]).data)
}

/// The (timestamp, payload) pairs of a batch of sensor samples.
pub open spec fn stored_of(batch: Seq<SampleV>) -> Seq<StoredV> {
    batch.map_values(|r: SampleV| StoredV { timestamp: r.timestamp, data: r.data })
}

impl TelemetryStore {
    /// The index of the partition for a key, if the store has one.
    fn find_partition(&self, dancer: &Vec<u8>, channel: Channel) -> (r: Option<usize>)
        ensures
            match r {
                Some(i) => 0 <= i < self.parts@.len() && same_key(
                    self.parts@[i as int],
                    dancer@,
                    channel,
                ),
                None => !has_key(self.parts@, dancer@, channel),
            },
    {
        let mut i: usize = 0;
        while i < self.parts.len()
            invariant
                0 <= i <= self.parts@.len(),
                forall|j: int| 0 <= j < i ==> !same_key(self.parts@[j], dancer@, channel),
            decreases self.parts@.len() - i,
        {
            let p = &self.parts[i];
            if bytes_eq(&p.dancer, dancer) && p.channel == channel {
                return Some(i);
            }
            i += 1;
        }
        None
    }

    /// Append all samples of one call for one (dancer, channel) key,
    /// atomically: on success the key's stream has the whole batch applied,
    /// last write wins; on any validation failure the store is unchanged.
    ///
    /// The call is rejected with `InvalidInput` exactly when the dancer id
    /// does not fit the wire format, a sample's channel tag mismatches, the
    /// timestamps are not non-decreasing, or a sample is too large for one
    /// wire record.
    #[verifier::rlimit(100)]
    #[verifier::spinoff_prover]
    pub fn append(&mut self, dancer: &Vec<u8>, channel: Channel, samples: &Vec<SensorSample>) -> (r:
        Result<usize, ApiError>)
        requires
            old(self).wf(),
        ensures
            final(self).wf(),
            match r {
                Ok(n) => {
                    &&& batch_ok(dancer@, channel, sample_views(samples@))
                    &&& n == samples@.len()
                    &&& forall|d: Seq<u8>, c: Channel|
                        #[trigger] final(self).stream(d, c) == if d == dancer@ && c == channel {
                            apply_batch(
                                old(self).stream(d, c),
                                stored_of(sample_views(samples@)),
                            )
                        } else {
                            old(self).stream(d, c)
                        }
                },
                Err(e) => {
                    &&& e == ApiError::InvalidInput
                    &&& !batch_ok(dancer@, channel, sample_views(samples@))
                    &&& *final(self) == *old(self)
                },
            },
    {
        let ghost batch = sample_views(samples@);
        if !batch_valid(dancer, channel, samples) {
            return Err(ApiError::InvalidInput);
        }
        let idx: usize = match self.find_partition(dancer, channel) {
            Some(i) => i,
            None => {
                let ghost before = self.parts@;
                let fresh = Partition {
                    dancer: copy_bytes(dancer),
                    channel,
                    samples: Vec::new(),
                };
                proof {
                    assert(views_of(fresh.samples@) =~= Seq::<StoredV>::empty());
                    assert(wf_partition(fresh));
                }
                self.parts.push(fresh);
                proof {
                    lemma_append_fresh(before, fresh, dancer@, channel);
                }
                self.parts.len() - 1
            },
        };
        let ghost parts0 = self.parts@;
        proof {
            lemma_stream_at(parts0, idx as int, dancer@, channel);
        }
        let mut part = self.parts.remove(idx);
        apply_samples(&mut part, samples);
        let ghost newpart = part;
        self.parts.insert(idx, part);
        proof {
            assert(self.parts@ =~= parts0.update(idx as int, newpart));
            assert(wf_partition(newpart));
            lemma_append_update(parts0, idx as int, newpart, dancer@, channel);
        }
        Ok(samples.len())
    }
}


/// Sensor samples reconstructed from a stored stream under its key.
pub open spec fn as_samples(dancer: Seq<u8>, channel: Channel, s: Seq<StoredV>) -> Seq<SampleV> {
    s.map_values(
        |x: StoredV| SampleV { dancer: dancer, channel: channel, timestamp: x.timestamp, data: x.data },
    )
}

/// Half-open timestamp range test: `from <= ts < to`.
pub open spec fn in_range(ts: u64, from: u64, to: u64) -> bool {
    from <= ts < to
}

/// The samples of a stream whose timestamps fall in `[from, to)`, in order.
pub open spec fn range_filter(s: Seq<StoredV>, from: u64, to: u64) -> Seq<StoredV>
    decreases s.len(),
{
    if s.len() == 0 {
        Seq::empty()
    } else if in_range(s[0].timestamp, from, to) {
        seq![s[0]] + range_filter(s.drop_first(), from, to)
    } else {
        range_filter(s.drop_first(), from, to)
    }
}

/// Filtering one more sample from the end.
pub proof fn lemma_range_filter_snoc(s: Seq<StoredV>, x: StoredV, from: u64, to: u64)
    ensures
        range_filter(s.push(x), from, to) == if in_range(x.timestamp, from, to) {
            range_filter(s, from, to).push(x)
        } else {
            range_filter(s, from, to)
        },
    decreases s.len(),
{
    if s.len() == 0 {
        assert(s.push(x)[0] == x);
        assert(s.push(x).drop_first() =~= Seq::<StoredV>::empty());
        assert(range_filter(s.push(x).drop_first(), from, to) == Seq::<StoredV>::empty());
        if in_range(x.timestamp, from, to) {
            assert(range_filter(s.push(x), from, to) =~= range_filter(s, from, to).push(x));
        }
    } else {
        assert(s.push(x)[0] == s[0]);
        assert(s.push(x).drop_first() =~= s.drop_first().push(x));
        lemma_range_filter_snoc(s.drop_first(), x, from, to);
        if in_range(s[0].timestamp, from, to) {
            if in_range(x.timestamp, from, to) {
                assert(seq![s[0]] + range_filter(s.drop_first(), from, to).push(x) =~= (seq![s[0]]
                    + range_filter(s.drop_first(), from, to)).push(x));
            }
        }
    }
}

impl TelemetryStore {
    /// Whether any partition at all belongs to this dancer.
    pub open spec fn knows_dancer(self, dancer: Seq<u8>) -> bool {
        exists|i: int| 0 <= i < self.parts@.len() && (#[trigger] self.parts@[i]).dancer@ == dancer
    }

    /// Whether the store holds any stream for this dancer, on any channel.
    pub fn has_dancer(&self, dancer: &Vec<u8>) -> (r: bool)
        ensures
            r == self.knows_dancer(dancer@),
    {
        let mut i: usize = 0;
        while i < self.parts.len()
            invariant
                0 <= i <= self.parts@.len(),
                forall|j: int| 0 <= j < i ==> (#[trigger] self.parts@[j]).dancer@ != dancer@,
            decreases self.parts@.len() - i,
        {
            if bytes_eq(&self.parts[i].dancer, dancer) {
                return true;
            }
            i += 1;
        }
        false
    }

    /// The full stored stream for a key, in timestamp order; empty, not an
    /// error, where the key has no data.
    pub fn read_all(&self, dancer: &Vec<u8>, channel: Channel) -> (r: Vec<SensorSample>)
        requires
            self.wf(),
        ensures
            sample_views(r@) == as_samples(dancer@, channel, self.stream(dancer@, channel)),
    {
        match self.find_partition(dancer, channel) {
            None => {
                proof {
                    lemma_stream_absent(self.parts@, dancer@, channel);
                    assert(sample_views(Seq::<SensorSample>::empty()) =~= as_samples(
                        dancer@,
                        channel,
                        self.stream(dancer@, channel),
                    ));
                }
                Vec::new()
            },
            Some(idx) => {
                proof {
                    lemma_stream_at(self.parts@, idx as int, dancer@, channel);
                }
                let p = &self.parts[idx];
                let ghost stream = views_of(p.samples@);
                let mut out: Vec<SensorSample> = Vec::new();
                let mut i: usize = 0;
                while i < p.samples.len()
                    invariant
                        0 <= i <= p.samples@.len(),
                        stream == views_of(p.samples@),
                        sample_views(out@) == as_samples(dancer@, channel, stream.take(i as int)),
                    decreases p.samples@.len() - i,
                {
                    let s = &p.samples[i];
                    proof {
                        assert(s@ == stream[i as int]);
                    }
                    let ghost pre = out@;
                    out.push(
                        SensorSample {
                            dancer: copy_bytes(dancer),
                            channel,
                            timestamp: s.timestamp,
                            data: copy_bytes(&s.data),
                        },
                    );
                    proof {
                        let ghost goal = as_samples(dancer@, channel, stream.take(i as int + 1));
                        assert(stream.take(i as int + 1) =~= stream.take(i as int).push(
                            stream[i as int],
                        ));
                        assert(goal.len() == i + 1);
                        assert(sample_views(pre).len() == pre.len());
                        assert(as_samples(dancer@, channel, stream.take(i as int)).len() == i);
                        assert(pre.len() == i);
                        assert forall|j: int| 0 <= j < out@.len() implies sample_views(out@)[j]
                            == goal[j] by {
                            assert(sample_views(out@)[j] == out@[j]@);
                            if j < i {
                                assert(out@[j] == pre[j]);
                                assert(sample_views(pre)[j] == pre[j]@);
                                assert(sample_views(pre)[j] == as_samples(
                                    dancer@,
                                    channel,
                                    stream.take(i as int),
                                )[j]);
                                assert(goal[j] == as_samples(
                                    dancer@,
                                    channel,
                                    stream.take(i as int),
                                )[j]);
                            } else {
                                assert(goal[j] =~= out@[j]@);
                            }
                        }
                        assert(sample_views(out@) =~= goal);
                    }
                    i += 1;
                }
                proof {
                    assert(stream.take(p.samples@.len() as int) =~= stream);
                }
                out
            },
        }
    }

    /// The stored samples for a key whose timestamps fall in the half-open
    /// range `[from, to)`, in timestamp order.
    pub fn read_range(&self, dancer: &Vec<u8>, channel: Channel, from: u64, to: u64) -> (r: Vec<
        SensorSample,
    >)
        requires
            self.wf(),
        ensures
            sample_views(r@) == as_samples(
                dancer@,
                channel,
                range_filter(self.stream(dancer@, channel), from, to),
            ),
    {
        match self.find_partition(dancer, channel) {
            None => {
                proof {
                    lemma_stream_absent(self.parts@, dancer@, channel);
                    assert(sample_views(Seq::<SensorSample>::empty()) =~= as_samples(
                        dancer@,
                        channel,
                        range_filter(self.stream(dancer@, channel), from, to),
                    ));
                }
                Vec::new()
            },
            Some(idx) => {
                proof {
                    lemma_stream_at(self.parts@, idx as int, dancer@, channel);
                }
                let p = &self.parts[idx];
                let ghost stream = views_of(p.samples@);
                let mut out: Vec<SensorSample> = Vec::new();
                let mut i: usize = 0;
                while i < p.samples.len()
                    invariant
                        0 <= i <= p.samples@.len(),
                        stream == views_of(p.samples@),
                        sample_views(out@) == as_samples(
                            dancer@,
                            channel,
                            range_filter(stream.take(i as int), from, to),
                        ),
                    decreases p.samples@.len() - i,
                {
                    let s = &p.samples[i];
                    proof {
                        assert(s@ == stream[i as int]);
                        assert(stream.take(i as int + 1) =~= stream.take(i as int).push(
                            stream[i as int],
                        ));
                        lemma_range_filter_snoc(stream.take(i as int), stream[i as int], from, to);
                    }
                    let ghost pre = out@;
                    if from <= s.timestamp && s.timestamp < to {
                        out.push(
                            SensorSample {
                                dancer: copy_bytes(dancer),
                                channel,
                                timestamp: s.timestamp,
                                data: copy_bytes(&s.data),
                            },
                        );
                        proof {
                            let ghost prior = range_filter(stream.take(i as int), from, to);
                            let ghost goal = as_samples(
                                dancer@,
                                channel,
                                range_filter(stream.take(i as int + 1), from, to),
                            );
                            assert(range_filter(stream.take(i as int + 1), from, to) == prior.push(
                                stream[i as int],
                            ));
                            assert(goal.len() == prior.len() + 1);
                            assert(sample_views(pre).len() == pre.len());
                            assert(as_samples(dancer@, channel, prior).len() == prior.len());
                            assert(pre.len() == prior.len());
                            assert forall|j: int| 0 <= j < out@.len() implies sample_views(
                                out@,
                            )[j] == goal[j] by {
                                assert(sample_views(out@)[j] == out@[j]@);
                                if j < pre.len() {
                                    assert(out@[j] == pre[j]);
                                    assert(sample_views(pre)[j] == pre[j]@);
                                    assert(sample_views(pre)[j] == as_samples(
                                        dancer@,
                                        channel,
                                        prior,
                                    )[j]);
                                    assert(goal[j] == as_samples(dancer@, channel, prior)[j]);
                                } else {
                                    assert(goal[j] =~= out@[j]@);
                                }
                            }
                            assert(sample_views(out@) =~= goal);
                        }
                    }
                    i += 1;
                }
                proof {
                    assert(stream.take(p.samples@.len() as int) =~= stream);
                }
                out
            },
        }
    }
}

} // verus!



