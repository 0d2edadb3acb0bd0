//! The ingestion pipeline: parse a bulk upload, validate it, and feed the
//! telemetry store one batch per (dancer, channel) key.
//!
//! A structurally unparsable payload rejects the whole request with
//! `InvalidInput` and leaves the store untouched.  Malformed records are
//! collected as rejections, not aborts; well-formed records are grouped
//! into one batch per key, in order of first appearance, and each batch is
//! appended atomically.  A batch that fails its append (timestamps out of
//! order within the batch) is counted rejected without aborting its
//! siblings: partial success is reported in the summary.

use vstd::prelude::*;
use crate::error::ApiError;
use crate::bytes::bytes_eq;
use crate::telemetry::Channel;
use crate::telemetry::SensorSample;
use crate::telemetry::SampleV;
use crate::telemetry::StoredV;
use crate::telemetry::TelemetryStore;
use crate::telemetry::sample_views;
use crate::telemetry::stored_of;
use crate::telemetry::apply_batch;
use crate::telemetry::batch_ok;
use crate::wire::WireItem;
use crate::wire::item_views;
use crate::wire::wf_record;
use crate::wire::parse_payload;
use crate::wire::parse_frames;
use crate::wire::decode_body;
use crate::wire::parse;

verus! {

/// The well-formed records of a parsed payload, in payload order.
pub open spec fn goods(items: Seq<Option<SampleV>>) -> Seq<SampleV>
    decreases items.len(),
{
    if items.len() == 0 {
        Seq::empty()
    } else {
        goods(items.drop_last()) + match items.last() {
            Some(r) => seq![r],
            None => Seq::empty(),
        }
    }
}

/// The records of a sequence carrying one (dancer, channel) key, in order.
pub open spec fn key_filter(rs: Seq<SampleV>, dancer: Seq<u8>, channel: Channel) -> Seq<SampleV>
    decreases rs.len(),
{
    if rs.len() == 0 {
        Seq::empty()
    } else {
        key_filter(rs.drop_last(), dancer, channel) + if rs.last().dancer == dancer
            && rs.last().channel == channel {
            seq![rs.last()]
        } else {
            Seq::empty()
        }
    }
}

/// The distinct (dancer, channel) keys of a record sequence, in order of
/// first appearance.
pub open spec fn keys_of(rs: Seq<SampleV>) -> Seq<(Seq<u8>, Channel)>
    decreases rs.len(),
{
    if rs.len() == 0 {
        Seq::empty()
    } else {
        let ks = keys_of(rs.drop_last());
        if ks.contains((rs.last().dancer, rs.last().channel)) {
            ks
        } else {
            ks.push((rs.last().dancer, rs.last().channel))
        }
    }
}

/// Whether a batch's timestamps are non-decreasing, as an append requires.
pub open spec fn batch_sortable(rs: Seq<SampleV>) -> bool {
    forall|i: int| 0 <= i && i + 1 < rs.len() ==> (#[trigger] rs[i]).timestamp <= rs[i + 1].timestamp
}

/// What one key's stream becomes when a payload's records are ingested:
/// its batch applied where the batch is acceptable, unchanged otherwise.
pub open spec fn ingested_stream(orig: Seq<StoredV>, rs: Seq<SampleV>, dancer: Seq<u8>, channel: Channel) -> Seq<StoredV> {
    if batch_sortable(key_filter(rs, dancer, channel)) {
        apply_batch(orig, stored_of(key_filter(rs, dancer, channel)))
    } else {
        orig
    }
}

/// The records accepted over a list of keys: each key's whole batch where
/// it is acceptable, none of it otherwise.
pub open spec fn accepted_upto(rs: Seq<SampleV>, ks: Seq<(Seq<u8>, Channel)>) -> int
    decreases ks.len(),
{
    if ks.len() == 0 {
        0
    } else {
        accepted_upto(rs, ks.drop_last()) + if batch_sortable(
            key_filter(rs, ks.last().0, ks.last().1),
        ) {
            key_filter(rs, ks.last().0, ks.last().1).len() as int
        } else {
            0
        }
    }
}

/// The records of a payload that ingestion accepts.
pub open spec fn accepted_of(rs: Seq<SampleV>) -> int {
    accepted_upto(rs, keys_of(rs))
}

/// One per-key line of an ingestion summary.
#[derive(Debug, PartialEq, Eq)]
pub struct KeyCount {
    pub dancer: Vec<u8>,
    pub channel: Channel,
    pub count: usize,
}

/// Mathematical value of a [`KeyCount`].
#[verifier::ext_equal]
pub ghost struct KeyCountV {
    pub dancer: Seq<u8>,
    pub channel: Channel,
    pub count: int,
}

impl View for KeyCount {
    type V = KeyCountV;

    open spec fn view(&self) -> KeyCountV {
        KeyCountV { dancer: self.dancer@, channel: self.channel, count: self.count as int }
    }
}

/// Views of a vector of per-key lines.
pub open spec fn key_count_views(s: Seq<KeyCount>) -> Seq<KeyCountV> {
    s.map_values(|k: KeyCount| k@)
}

/// The per-key lines an ingestion reports: for each key, in order of first
/// appearance, how many records were accepted for it.
pub open spec fn key_counts_of(rs: Seq<SampleV>) -> Seq<KeyCountV> {
    Seq::new(
        keys_of(rs).len(),
        |i: int|
            KeyCountV {
                dancer: keys_of(rs)[i].0,
                channel: keys_of(rs)[i].1,
                count: if batch_sortable(key_filter(rs, keys_of(rs)[i].0, keys_of(rs)[i].1)) {
                    key_filter(rs, keys_of(rs)[i].0, keys_of(rs)[i].1).len() as int
                } else {
                    0
                },
            },
    )
}

/// What an ingestion reports: accepted and rejected record counts, and the
/// accepted count per (dancer, channel) key.
#[derive(Debug, PartialEq, Eq)]
pub struct IngestSummary {
    pub accepted: usize,
    pub rejected: usize,
    pub per_key: Vec<KeyCount>,
}

/// One batch under construction: the records of one key, in payload order.
pub struct PendingBatch {
    pub dancer: Vec<u8>,
    pub channel: Channel,
    pub samples: Vec<SensorSample>,
}


/// Frame bodies recovered by parsing are no longer than a frame can say.
pub proof fn lemma_parse_frames_bounded(b: Seq<u8>)
    requires
        parse_frames(b) is Some,
    ensures
        forall|i: int|
            0 <= i < parse_frames(b).unwrap().len() ==> (#[trigger] parse_frames(
                b,
            ).unwrap()[i]).len() <= 0xFFFF_FFFF,
    decreases b.len(),
{
    if b.len() == 0 {
    } else {
        let n = crate::wire::le32_val(b.subrange(0, 4)) as int;
        lemma_parse_frames_bounded(b.skip(4 + n));
        let rest = parse_frames(b.skip(4 + n)).unwrap();
        let fs = parse_frames(b).unwrap();
        assert(fs == seq![b.subrange(4, 4 + n)] + rest);
        assert forall|i: int| 0 <= i < fs.len() implies (#[trigger] fs[i]).len()
            <= 0xFFFF_FFFF by {
            if i == 0 {
                assert(fs[0] == b.subrange(4, 4 + n));
            } else {
                assert(fs[i] == rest[i - 1]);
            }
        }
    }
}

/// Every record a parse produces is well-formed for the wire format.
pub proof fn lemma_parsed_records_wf(b: Seq<u8>)
    requires
        parse_payload(b) is Some,
    ensures
        forall|i: int|
            0 <= i < parse_payload(b).unwrap().len() && (#[trigger] parse_payload(
                b,
            ).unwrap()[i]) is Some ==> wf_record(parse_payload(b).unwrap()[i].unwrap()),
{
    let fs = parse_frames(b).unwrap();
    let items = parse_payload(b).unwrap();
    lemma_parse_frames_bounded(b);
    assert forall|i: int| 0 <= i < items.len() && (#[trigger] items[i]) is Some implies wf_record(
        items[i].unwrap(),
    ) by {
        assert(items[i] == decode_body(fs[i]));
        assert(fs[i].len() <= 0xFFFF_FFFF);
        let r = items[i].unwrap();
        assert(r.dancer.len() >= 1 && r.dancer.len() <= 0xFFFF);
        assert(11 + r.dancer.len() + r.data.len() == fs[i].len());
    }
}

/// Every well-formed record of a pointwise well-formed item list is
/// well-formed.
pub proof fn lemma_goods_wf(items: Seq<Option<SampleV>>)
    requires
        forall|i: int|
            0 <= i < items.len() && (#[trigger] items[i]) is Some ==> wf_record(
                items[i].unwrap(),
            ),
    ensures
        forall|k: int| 0 <= k < goods(items).len() ==> wf_record(#[trigger] goods(items)[k]),
        goods(items).len() <= items.len(),
    decreases items.len(),
{
    if items.len() > 0 {
        assert(forall|i: int|
            0 <= i < items.drop_last().len() && (#[trigger] items.drop_last()[i]) is Some
                ==> wf_record(items.drop_last()[i].unwrap()));
        lemma_goods_wf(items.drop_last());
        let g = goods(items);
        let gp = goods(items.drop_last());
        assert forall|k: int| 0 <= k < g.len() implies wf_record(#[trigger] g[k]) by {
            if k < gp.len() {
                assert(g[k] == gp[k]);
            } else {
                assert(items.last() is Some);
                assert(g[k] == items.last().unwrap());
                assert(items[items.len() - 1] == items.last());
            }
        }
    }
}

/// Split a parsed payload into its well-formed records.
fn extract_goods(items: &Vec<WireItem>) -> (r: Vec<SensorSample>)
    ensures
        sample_views(r@) == goods(item_views(items@)),
        r@.len() <= items@.len(),
{
    let ghost iv = item_views(items@);
    let mut out: Vec<SensorSample> = Vec::new();
    let mut i: usize = 0;
    let n = items.len();
    while i < n
        invariant
            0 <= i <= n,
            n == items@.len(),
            iv == item_views(items@),
            sample_views(out@) == goods(iv.take(i as int)),
            out@.len() <= i,
        decreases n - i,
    {
        let ghost pre = out@;
        proof {
            assert(iv.take(i as int + 1).drop_last() =~= iv.take(i as int));
            assert(iv.take(i as int + 1).last() == iv[i as int]);
            assert(iv[i as int] == items@[i as int]@);
        }
        let item = items[i].duplicate();
        match item {
            WireItem::Good(s) => {
                out.push(s);
                proof {
                    assert forall|j: int| 0 <= j < out@.len() implies sample_views(out@)[j]
                        == goods(iv.take(i as int + 1))[j] by {
                        assert(sample_views(out@)[j] == out@[j]@);
                        if j < pre.len() {
                            assert(out@[j] == pre[j]);
                            assert(sample_views(pre)[j] == pre[j]@);
                            assert(sample_views(pre)[j] == goods(iv.take(i as int))[j]);
                        }
                    }
                    assert(sample_views(pre).len() == pre.len());
                    assert(sample_views(out@) =~= goods(iv.take(i as int + 1)));
                }
            },
            WireItem::Malformed => {
                proof {
                    assert(goods(iv.take(i as int + 1)) =~= goods(iv.take(i as int)));
                }
            },
        }
        i += 1;
    }
    proof {
        assert(iv.take(iv.len() as int) =~= iv);
    }
    out
}


/// A key is listed exactly when some record carries it.
pub proof fn lemma_keys_of_contains(rs: Seq<SampleV>)
    ensures
        forall|k: (Seq<u8>, Channel)|
            keys_of(rs).contains(k) <==> exists|i: int|
                0 <= i < rs.len() && ((#[trigger] rs[i]).dancer, rs[i].channel) == k,
    decreases rs.len(),
{
    if rs.len() == 0 {
    } else {
        let p = rs.drop_last();
        lemma_keys_of_contains(p);
        let lastkey = (rs.last().dancer, rs.last().channel);
        assert forall|k: (Seq<u8>, Channel)| keys_of(rs).contains(k) implies exists|i: int|
            0 <= i < rs.len() && ((#[trigger] rs[i]).dancer, rs[i].channel) == k by {
            if k == lastkey {
                assert((rs[rs.len() - 1].dancer, rs[rs.len() - 1].channel) == k);
            } else {
                assert(keys_of(p).contains(k)) by {
                    if !keys_of(p).contains(k) {
                        let m = choose|m: int|
                            0 <= m < keys_of(rs).len() && keys_of(rs)[m] == k;
                        if keys_of(p).contains(lastkey) {
                            assert(keys_of(rs) == keys_of(p));
                        } else {
                            assert(keys_of(rs) == keys_of(p).push(lastkey));
                            assert(m < keys_of(p).len() || keys_of(rs)[m] == lastkey);
                        }
                    }
                }
                let i = choose|i: int| 0 <= i < p.len() && ((#[trigger] p[i]).dancer, p[i].channel) == k;
                assert((rs[i].dancer, rs[i].channel) == k);
            }
        }
        assert forall|k: (Seq<u8>, Channel)|
            (exists|i: int| 0 <= i < rs.len() && ((#[trigger] rs[i]).dancer, rs[i].channel) == k)
                implies keys_of(rs).contains(k) by {
            let i = choose|i: int|
                0 <= i < rs.len() && ((#[trigger] rs[i]).dancer, rs[i].channel) == k;
            if i < rs.len() - 1 {
                assert((p[i].dancer, p[i].channel) == k);
                assert(keys_of(p).contains(k));
                let m = choose|m: int| 0 <= m < keys_of(p).len() && keys_of(p)[m] == k;
                if keys_of(p).contains(lastkey) {
                    assert(keys_of(rs)[m] == k);
                } else {
                    assert(keys_of(rs)[m] == k);
                }
            } else {
                assert(k == lastkey);
                if keys_of(p).contains(lastkey) {
                    let m = choose|m: int| 0 <= m < keys_of(p).len() && keys_of(p)[m] == lastkey;
                    assert(keys_of(rs)[m] == k);
                } else {
                    assert(keys_of(rs).last() == k);
                }
            }
        }
    }
}

/// The listed keys are pairwise distinct.
pub proof fn lemma_keys_of_distinct(rs: Seq<SampleV>)
    ensures
        forall|a: int, b: int|
            0 <= a < b < keys_of(rs).len() ==> #[trigger] keys_of(rs)[a] != #[trigger] keys_of(
                rs,
            )[b],
    decreases rs.len(),
{
    if rs.len() > 0 {
        let p = rs.drop_last();
        lemma_keys_of_distinct(p);
        let lastkey = (rs.last().dancer, rs.last().channel);
        if !keys_of(p).contains(lastkey) {
            assert forall|a: int, b: int|
                0 <= a < b < keys_of(rs).len() implies #[trigger] keys_of(rs)[a]
                != #[trigger] keys_of(rs)[b] by {
                if b == keys_of(rs).len() - 1 {
                    assert(keys_of(rs)[b] == lastkey);
                    assert(keys_of(rs)[a] == keys_of(p)[a]);
                    if keys_of(p)[a] == lastkey {
                        assert(keys_of(p).contains(lastkey));
                    }
                } else {
                    assert(keys_of(rs)[a] == keys_of(p)[a]);
                    assert(keys_of(rs)[b] == keys_of(p)[b]);
                }
            }
        }
    }
}

/// Every record of a key's batch carries the key and comes from the
/// payload.
pub proof fn lemma_key_filter_elems(rs: Seq<SampleV>, dancer: Seq<u8>, channel: Channel)
    ensures
        forall|m: int|
            0 <= m < key_filter(rs, dancer, channel).len() ==> (#[trigger] key_filter(
                rs,
                dancer,
                channel,
            )[m]).dancer == dancer && key_filter(rs, dancer, channel)[m].channel == channel
                && rs.contains(key_filter(rs, dancer, channel)[m]),
    decreases rs.len(),
{
    if rs.len() > 0 {
        let p = rs.drop_last();
        lemma_key_filter_elems(p, dancer, channel);
        let kf = key_filter(rs, dancer, channel);
        let kp = key_filter(p, dancer, channel);
        assert forall|m: int| 0 <= m < kf.len() implies (#[trigger] kf[m]).dancer == dancer
            && kf[m].channel == channel && rs.contains(kf[m]) by {
            if m < kp.len() {
                assert(kf[m] == kp[m]);
                assert(p.contains(kp[m]));
                let i = choose|i: int| 0 <= i < p.len() && p[i] == kp[m];
                assert(rs[i] == kf[m]);
            } else {
                assert(kf[m] == rs.last());
                assert(rs[rs.len() - 1] == kf[m]);
            }
        }
    }
}

/// Every record carrying a key stands in that key's batch.
pub proof fn lemma_key_filter_complete(rs: Seq<SampleV>, dancer: Seq<u8>, channel: Channel)
    ensures
        forall|i: int|
            0 <= i < rs.len() && (#[trigger] rs[i]).dancer == dancer && rs[i].channel == channel
                ==> key_filter(rs, dancer, channel).contains(rs[i]),
    decreases rs.len(),
{
    if rs.len() > 0 {
        let p = rs.drop_last();
        lemma_key_filter_complete(p, dancer, channel);
        let kf = key_filter(rs, dancer, channel);
        let kp = key_filter(p, dancer, channel);
        assert forall|i: int|
            0 <= i < rs.len() && (#[trigger] rs[i]).dancer == dancer && rs[i].channel == channel
                implies kf.contains(rs[i]) by {
            if i < rs.len() - 1 {
                assert(p[i] == rs[i]);
                assert(kp.contains(rs[i]));
                let m = choose|m: int| 0 <= m < kp.len() && kp[m] == rs[i];
                assert(kf[m] == rs[i]);
            } else {
                assert(kf[kf.len() - 1] == rs.last());
            }
        }
    }
}

/// A key no record carries has an empty batch.
pub proof fn lemma_absent_key_filter(rs: Seq<SampleV>, dancer: Seq<u8>, channel: Channel)
    requires
        forall|i: int|
            0 <= i < rs.len() ==> !((#[trigger] rs[i]).dancer == dancer && rs[i].channel
                == channel),
    ensures
        key_filter(rs, dancer, channel) == Seq::<SampleV>::empty(),
    decreases rs.len(),
{
    if rs.len() > 0 {
        let p = rs.drop_last();
        assert(forall|i: int|
            0 <= i < p.len() ==> !((#[trigger] p[i]).dancer == dancer && p[i].channel
                == channel));
        lemma_absent_key_filter(p, dancer, channel);
        assert(!(rs.last().dancer == dancer && rs.last().channel == channel)) by {
            assert(rs[rs.len() - 1] == rs.last());
        }
        assert(key_filter(rs, dancer, channel) =~= Seq::<SampleV>::empty());
    }
}

/// The total size of the batches of a list of keys.
pub open spec fn sum_filters(rs: Seq<SampleV>, ks: Seq<(Seq<u8>, Channel)>) -> int
    decreases ks.len(),
{
    if ks.len() == 0 {
        0
    } else {
        sum_filters(rs, ks.drop_last()) + key_filter(rs, ks.last().0, ks.last().1).len()
    }
}

/// With no records, every batch is empty.
pub proof fn lemma_sum_filters_empty(ks: Seq<(Seq<u8>, Channel)>)
    ensures
        sum_filters(Seq::<SampleV>::empty(), ks) == 0,
    decreases ks.len(),
{
    if ks.len() > 0 {
        lemma_sum_filters_empty(ks.drop_last());
    }
}

/// One more record grows the batches of distinct keys by at most one in
/// total.
pub proof fn lemma_sum_filters_snoc(rs: Seq<SampleV>, ks: Seq<(Seq<u8>, Channel)>)
    requires
        rs.len() > 0,
        forall|a: int, b: int| 0 <= a < b < ks.len() ==> #[trigger] ks[a] != #[trigger] ks[b],
    ensures
        sum_filters(rs, ks) == sum_filters(rs.drop_last(), ks) + if ks.contains(
            (rs.last().dancer, rs.last().channel),
        ) {
            1int
        } else {
            0int
        },
    decreases ks.len(),
{
    let lastkey = (rs.last().dancer, rs.last().channel);
    if ks.len() == 0 {
        assert(!ks.contains(lastkey));
    } else {
        let kp = ks.drop_last();
        assert(forall|a: int, b: int|
            0 <= a < b < kp.len() ==> #[trigger] kp[a] != #[trigger] kp[b]);
        lemma_sum_filters_snoc(rs, kp);
        let k = ks.last();
        assert(key_filter(rs, k.0, k.1).len() == key_filter(rs.drop_last(), k.0, k.1).len() + if k
            == lastkey {
            1int
        } else {
            0int
        });
        if k == lastkey {
            assert(!kp.contains(lastkey)) by {
                if kp.contains(lastkey) {
                    let m = choose|m: int| 0 <= m < kp.len() && kp[m] == lastkey;
                    assert(ks[m] == ks[ks.len() - 1]);
                }
            }
            assert(ks.contains(lastkey)) by {
                assert(ks[ks.len() - 1] == lastkey);
            }
        } else {
            assert(kp.contains(lastkey) == ks.contains(lastkey)) by {
                if kp.contains(lastkey) {
                    let m = choose|m: int| 0 <= m < kp.len() && kp[m] == lastkey;
                    assert(ks[m] == lastkey);
                }
                if ks.contains(lastkey) {
                    let m = choose|m: int| 0 <= m < ks.len() && ks[m] == lastkey;
                    assert(m < kp.len());
                    assert(kp[m] == lastkey);
                }
            }
        }
    }
}

/// The batches of distinct keys never hold more than the payload's records.
pub proof fn lemma_sum_filters_bound(rs: Seq<SampleV>, ks: Seq<(Seq<u8>, Channel)>)
    requires
        forall|a: int, b: int| 0 <= a < b < ks.len() ==> #[trigger] ks[a] != #[trigger] ks[b],
    ensures
        0 <= sum_filters(rs, ks) <= rs.len(),
    decreases rs.len(),
{
    lemma_sum_filters_nonneg(rs, ks);
    if rs.len() == 0 {
        assert(rs =~= Seq::<SampleV>::empty());
        lemma_sum_filters_empty(ks);
    } else {
        lemma_sum_filters_snoc(rs, ks);
        lemma_sum_filters_bound(rs.drop_last(), ks);
    }
}

/// Batch sizes never count below zero.
pub proof fn lemma_sum_filters_nonneg(rs: Seq<SampleV>, ks: Seq<(Seq<u8>, Channel)>)
    ensures
        sum_filters(rs, ks) >= 0,
    decreases ks.len(),
{
    if ks.len() > 0 {
        lemma_sum_filters_nonneg(rs, ks.drop_last());
    }
}

/// The accepted count of a prefix of keys stays within the total size of
/// those keys' batches.
pub proof fn lemma_accepted_upto_bound(rs: Seq<SampleV>, ks: Seq<(Seq<u8>, Channel)>)
    ensures
        0 <= accepted_upto(rs, ks) <= sum_filters(rs, ks),
    decreases ks.len(),
{
    if ks.len() > 0 {
        lemma_accepted_upto_bound(rs, ks.drop_last());
    }
}


/// The batches stand for the records: one per key, in order of first
/// appearance, each holding exactly its key's records in payload order.
pub open spec fn batches_match(batches: Seq<PendingBatch>, rs: Seq<SampleV>) -> bool {
    &&& batches.len() == keys_of(rs).len()
    &&& forall|j: int|
        0 <= j < batches.len() ==> ((#[trigger] batches[j]).dancer@, batches[j].channel)
            == keys_of(rs)[j]
    &&& forall|j: int|
        0 <= j < batches.len() ==> sample_views((#[trigger] batches[j]).samples@) == key_filter(
            rs,
            keys_of(rs)[j].0,
            keys_of(rs)[j].1,
        )
}

/// Group records into one batch per (dancer, channel) key, in order of
/// first appearance, keeping payload order within each batch.
#[verifier::rlimit(100)]
#[verifier::spinoff_prover]
fn group_batches(gs: &Vec<SensorSample>) -> (r: Vec<PendingBatch>)
    ensures
        batches_match(r@, sample_views(gs@)),
{
    let ghost rs = sample_views(gs@);
    let mut batches: Vec<PendingBatch> = Vec::new();
    let mut i: usize = 0;
    proof {
        assert(rs.take(0) =~= Seq::<SampleV>::empty());
    }
    while i < gs.len()
        invariant
            0 <= i <= gs@.len(),
            rs == sample_views(gs@),
            batches_match(batches@, rs.take(i as int)),
        decreases gs@.len() - i,
    {
        let s = &gs[i];
        let ghost p = rs.take(i as int);
        let ghost x = rs[i as int];
        proof {
            assert(x == s@);
            assert(rs.take(i as int + 1).drop_last() =~= p);
            assert(rs.take(i as int + 1).last() == x);
            lemma_keys_of_distinct(p);
        }
        let ghost xkey = (x.dancer, x.channel);
        let mut j: usize = 0;
        let mut found: bool = false;
        while j < batches.len() && !found
            invariant
                0 <= j <= batches@.len(),
                x == rs[i as int],
                s@ == x,
                batches_match(batches@, p),
                !found ==> forall|m: int| 0 <= m < j ==> #[trigger] keys_of(p)[m] != xkey,
                found ==> j < batches@.len() && keys_of(p)[j as int] == xkey,
                xkey == (x.dancer, x.channel),
            decreases batches@.len() - j + (if found { 0int } else { 1int }),
        {
            let b = &batches[j];
            if bytes_eq(&b.dancer, &s.dancer) && b.channel == s.channel {
                found = true;
            } else {
                proof {
                    assert(keys_of(p)[j as int] == (b.dancer@, b.channel));
                }
                j += 1;
            }
        }
        proof {
            if found {
                assert(keys_of(p).contains(xkey)) by {
                    assert(keys_of(p)[j as int] == xkey);
                }
            } else {
                assert(j == batches@.len());
                assert(!keys_of(p).contains(xkey)) by {
                    if keys_of(p).contains(xkey) {
                        let m = choose|m: int|
                            0 <= m < keys_of(p).len() && keys_of(p)[m] == xkey;
                    }
                }
            }
        }
        if found {
            let ghost pre = batches@;
            let mut b = batches.remove(j);
            b.samples.push(s.duplicate());
            let ghost nb = b;
            batches.insert(j, b);
            proof {
                assert(batches@ =~= pre.update(j as int, nb));
                assert(keys_of(rs.take(i as int + 1)) == keys_of(p));
                assert forall|m: int| 0 <= m < batches@.len() implies ((
                #[trigger] batches@[m]).dancer@, batches@[m].channel) == keys_of(
                    rs.take(i as int + 1),
                )[m] && sample_views(batches@[m].samples@) == key_filter(
                    rs.take(i as int + 1),
                    keys_of(rs.take(i as int + 1))[m].0,
                    keys_of(rs.take(i as int + 1))[m].1,
                ) by {
                    let kd = keys_of(p)[m].0;
                    let kc = keys_of(p)[m].1;
                    assert(key_filter(rs.take(i as int + 1), kd, kc) == key_filter(p, kd, kc)
                        + if x.dancer == kd && x.channel == kc {
                        seq![x]
                    } else {
                        Seq::<SampleV>::empty()
                    });
                    if m == j {
                        assert(keys_of(p)[m] == xkey);
                        assert(sample_views(nb.samples@) =~= sample_views(pre[m].samples@)
                            + seq![x]) by {
                            assert forall|q: int| 0 <= q < nb.samples@.len() implies sample_views(
                                nb.samples@,
                            )[q] == (sample_views(pre[m].samples@) + seq![x])[q] by {
                                assert(sample_views(nb.samples@)[q] == nb.samples@[q]@);
                                if q < pre[m].samples@.len() {
                                    assert(nb.samples@[q] == pre[m].samples@[q]);
                                    assert(sample_views(pre[m].samples@)[q]
                                        == pre[m].samples@[q]@);
                                }
                            }
                            assert(sample_views(pre[m].samples@).len()
                                == pre[m].samples@.len());
                        }
                        assert(key_filter(p, kd, kc) + seq![x] == key_filter(
                            rs.take(i as int + 1),
                            kd,
                            kc,
                        ));
                    } else {
                        assert(batches@[m] == pre[m]);
                        assert(keys_of(p)[m] != xkey);
                        assert(!(x.dancer == kd && x.channel == kc)) by {
                            if x.dancer == kd && x.channel == kc {
                                assert(keys_of(p)[m] == xkey);
                            }
                        }
                        assert(key_filter(p, kd, kc) + Seq::<SampleV>::empty() =~= key_filter(
                            p,
                            kd,
                            kc,
                        ));
                    }
                }
            }
        } else {
            let mut samples: Vec<SensorSample> = Vec::new();
            samples.push(s.duplicate());
            let b = PendingBatch {
                dancer: crate::bytes::copy_bytes(&s.dancer),
                channel: s.channel,
                samples,
            };
            let ghost pre = batches@;
            let ghost nb = b;
            batches.push(b);
            proof {
                assert(keys_of(rs.take(i as int + 1)) == keys_of(p).push(xkey));
                assert forall|m: int| 0 <= m < batches@.len() implies ((
                #[trigger] batches@[m]).dancer@, batches@[m].channel) == keys_of(
                    rs.take(i as int + 1),
                )[m] && sample_views(batches@[m].samples@) == key_filter(
                    rs.take(i as int + 1),
                    keys_of(rs.take(i as int + 1))[m].0,
                    keys_of(rs.take(i as int + 1))[m].1,
                ) by {
                    let ks1 = keys_of(rs.take(i as int + 1));
                    let kd = ks1[m].0;
                    let kc = ks1[m].1;
                    assert(key_filter(rs.take(i as int + 1), kd, kc) == key_filter(p, kd, kc)
                        + if x.dancer == kd && x.channel == kc {
                        seq![x]
                    } else {
                        Seq::<SampleV>::empty()
                    });
                    if m == batches@.len() - 1 {
                        assert(batches@[m] == nb);
                        assert(ks1[m] == xkey);
                        lemma_keys_of_contains(p);
                        lemma_absent_key_filter(p, kd, kc);
                        assert(sample_views(nb.samples@) =~= seq![x]);
                        assert(Seq::<SampleV>::empty() + seq![x] =~= seq![x]);
                    } else {
                        assert(batches@[m] == pre[m]);
                        assert(ks1[m] == keys_of(p)[m]);
                        assert(!(x.dancer == kd && x.channel == kc)) by {
                            if x.dancer == kd && x.channel == kc {
                                assert(keys_of(p)[m] == xkey);
                                assert(keys_of(p).contains(xkey));
                            }
                        }
                        assert(key_filter(p, kd, kc) + Seq::<SampleV>::empty() =~= key_filter(
                            p,
                            kd,
                            kc,
                        ));
                    }
                }
            }
        }
        i += 1;
    }
    proof {
        assert(rs.take(gs@.len() as int) =~= rs);
    }
    batches
}


/// A prefix of keys never counts more batch records than the whole list.
pub proof fn lemma_sum_filters_prefix(rs: Seq<SampleV>, ks: Seq<(Seq<u8>, Channel)>, j: int)
    requires
        0 <= j <= ks.len(),
    ensures
        sum_filters(rs, ks.take(j)) <= sum_filters(rs, ks),
    decreases ks.len(),
{
    if j == ks.len() {
        assert(ks.take(j) =~= ks);
    } else {
        assert(ks.take(j) =~= ks.drop_last().take(j));
        lemma_sum_filters_prefix(rs, ks.drop_last(), j);
    }
}

/// An acceptable batch for a listed key is exactly one whose timestamps
/// are non-decreasing: the other demands of an append hold of every batch
/// a parsed payload yields.
#[verifier::rlimit(100)]
#[verifier::spinoff_prover]
pub proof fn lemma_batch_ok_iff(rs: Seq<SampleV>, kd: Seq<u8>, kc: Channel)
    requires
        forall|k: int| 0 <= k < rs.len() ==> wf_record(#[trigger] rs[k]),
        keys_of(rs).contains((kd, kc)),
    ensures
        batch_ok(kd, kc, key_filter(rs, kd, kc)) <==> batch_sortable(key_filter(rs, kd, kc)),
{
    let kf = key_filter(rs, kd, kc);
    lemma_keys_of_contains(rs);
    lemma_key_filter_elems(rs, kd, kc);
    lemma_key_filter_complete(rs, kd, kc);
    let w = choose|i: int|
        0 <= i < rs.len() && ((#[trigger] rs[i]).dancer, rs[i].channel) == (kd, kc);
    assert(rs[w].dancer == kd && rs[w].channel == kc);
    assert(kf.contains(rs[w]));
    assert(kf.len() > 0);
    assert(wf_record(rs[w]));
    assert(crate::telemetry::wf_dancer(kd));
    assert forall|m: int| 0 <= m < kf.len() implies crate::telemetry::wf_sizes(
        kd,
        (#[trigger] kf[m]).data,
    ) by {
        assert(rs.contains(kf[m]));
        let i2 = choose|i2: int| 0 <= i2 < rs.len() && rs[i2] == kf[m];
        assert(wf_record(rs[i2]));
        assert(kf[m].dancer == kd);
    }
}

/// One more key's accepted records, and the bound that keeps the running
/// total within the payload's size.
pub proof fn lemma_accepted_step(rs: Seq<SampleV>, ks: Seq<(Seq<u8>, Channel)>, j: int)
    requires
        0 <= j < ks.len(),
        forall|a: int, b: int| 0 <= a < b < ks.len() ==> #[trigger] ks[a] != #[trigger] ks[b],
    ensures
        accepted_upto(rs, ks.take(j + 1)) == accepted_upto(rs, ks.take(j)) + if batch_sortable(
            key_filter(rs, ks[j].0, ks[j].1),
        ) {
            key_filter(rs, ks[j].0, ks[j].1).len() as int
        } else {
            0int
        },
        0 <= accepted_upto(rs, ks.take(j)),
        accepted_upto(rs, ks.take(j + 1)) <= rs.len(),
{
    assert(ks.take(j + 1).drop_last() =~= ks.take(j));
    assert(ks.take(j + 1).last() == ks[j]);
    lemma_accepted_upto_bound(rs, ks.take(j));
    lemma_accepted_upto_bound(rs, ks.take(j + 1));
    lemma_sum_filters_prefix(rs, ks, j + 1);
    lemma_sum_filters_bound(rs, ks);
}

/// One more per-key line keeps the report matching the payload.
#[verifier::rlimit(100)]
#[verifier::spinoff_prover]
pub proof fn lemma_key_count_step(pre: Seq<KeyCount>, rs: Seq<SampleV>, j: int, added: KeyCount)
    requires
        0 <= j < keys_of(rs).len(),
        key_count_views(pre) == key_counts_of(rs).take(j),
        added@ == key_counts_of(rs)[j],
    ensures
        key_count_views(pre.push(added)) == key_counts_of(rs).take(j + 1),
{
    assert(key_counts_of(rs).take(j + 1) =~= key_counts_of(rs).take(j).push(
        key_counts_of(rs)[j],
    ));
    assert(key_count_views(pre).len() == pre.len());
    assert forall|m: int| 0 <= m < pre.push(added).len() implies key_count_views(
        pre.push(added),
    )[m] == key_counts_of(rs).take(j + 1)[m] by {
        assert(key_count_views(pre.push(added))[m] == pre.push(added)[m]@);
        if m < pre.len() {
            assert(pre.push(added)[m] == pre[m]);
            assert(key_count_views(pre)[m] == pre[m]@);
        }
    }
    assert(key_count_views(pre.push(added)) =~= key_counts_of(rs).take(j + 1));
}

/// After one more key's append, the streams match one more key.
#[verifier::rlimit(100)]
#[verifier::spinoff_prover]
pub proof fn lemma_stream_step(
    s_orig: TelemetryStore,
    s_prev: TelemetryStore,
    s_new: TelemetryStore,
    rs: Seq<SampleV>,
    ks: Seq<(Seq<u8>, Channel)>,
    j: int,
    ok: bool,
)
    requires
        ks == keys_of(rs),
        0 <= j < ks.len(),
        forall|a: int, b: int| 0 <= a < b < ks.len() ==> #[trigger] ks[a] != #[trigger] ks[b],
        forall|d: Seq<u8>, c: Channel|
            #[trigger] s_prev.stream(d, c) == if (exists|m: int|
                0 <= m < j && #[trigger] ks[m] == (d, c)) {
                ingested_stream(s_orig.stream(d, c), rs, d, c)
            } else {
                s_orig.stream(d, c)
            },
        ok <==> batch_ok(ks[j].0, ks[j].1, key_filter(rs, ks[j].0, ks[j].1)),
        ok <==> batch_sortable(key_filter(rs, ks[j].0, ks[j].1)),
        ok ==> forall|d: Seq<u8>, c: Channel|
            #[trigger] s_new.stream(d, c) == if d == ks[j].0 && c == ks[j].1 {
                apply_batch(s_prev.stream(d, c), stored_of(key_filter(rs, ks[j].0, ks[j].1)))
            } else {
                s_prev.stream(d, c)
            },
        !ok ==> s_new == s_prev,
    ensures
        forall|d: Seq<u8>, c: Channel|
            #[trigger] s_new.stream(d, c) == if (exists|m: int|
                0 <= m < j + 1 && #[trigger] ks[m] == (d, c)) {
                ingested_stream(s_orig.stream(d, c), rs, d, c)
            } else {
                s_orig.stream(d, c)
            },
{
    let kd = ks[j].0;
    let kc = ks[j].1;
    assert forall|d: Seq<u8>, c: Channel| #[trigger] s_new.stream(d, c) == (if (exists|m: int|
        0 <= m < j + 1 && #[trigger] ks[m] == (d, c)) {
        ingested_stream(s_orig.stream(d, c), rs, d, c)
    } else {
        s_orig.stream(d, c)
    }) by {
        if d == kd && c == kc {
            assert(!(exists|m: int| 0 <= m < j && #[trigger] ks[m] == (d, c))) by {
                if exists|m: int| 0 <= m < j && #[trigger] ks[m] == (d, c) {
                    let m = choose|m: int| 0 <= m < j && #[trigger] ks[m] == (d, c);
                    assert(ks[m] != ks[j]);
                }
            }
            assert(s_prev.stream(d, c) == s_orig.stream(d, c));
            assert(ks[j] == (d, c));
        } else {
            assert(forall|m: int| 0 <= m < j + 1 && #[trigger] ks[m] == (d, c) ==> m < j);
            if ok {
                assert(s_new.stream(d, c) == s_prev.stream(d, c));
            }
        }
    }
}

/// Feed the store one batch per key; report the accepted count in total
/// and per key.
#[verifier::rlimit(100)]
#[verifier::spinoff_prover]
fn apply_batches(
    store: &mut TelemetryStore,
    batches: &Vec<PendingBatch>,
    Ghost(rs): Ghost<Seq<SampleV>>,
) -> (r: (usize, Vec<KeyCount>))
    requires
        old(store).wf(),
        batches_match(batches@, rs),
        forall|k: int| 0 <= k < rs.len() ==> wf_record(#[trigger] rs[k]),
        rs.len() <= usize::MAX,
    ensures
        final(store).wf(),
        r.0 == accepted_of(rs),
        key_count_views(r.1@) == key_counts_of(rs),
        forall|d: Seq<u8>, c: Channel|
            #[trigger] final(store).stream(d, c) == ingested_stream(
                old(store).stream(d, c),
                rs,
                d,
                c,
            ),
{
    let ghost ks = keys_of(rs);
    proof {
        lemma_keys_of_distinct(rs);
        lemma_keys_of_contains(rs);
        assert(ks.take(0) =~= Seq::<(Seq<u8>, Channel)>::empty());
        assert(key_counts_of(rs).take(0) =~= Seq::<KeyCountV>::empty());
        assert(key_count_views(Seq::<KeyCount>::empty()) =~= Seq::<KeyCountV>::empty());
    }
    let mut accepted: usize = 0;
    let mut per_key: Vec<KeyCount> = Vec::new();
    let mut j: usize = 0;
    while j < batches.len()
        invariant
            0 <= j <= batches@.len(),
            store.wf(),
            old(store).wf(),
            ks == keys_of(rs),
            batches_match(batches@, rs),
            forall|k: int| 0 <= k < rs.len() ==> wf_record(#[trigger] rs[k]),
            rs.len() <= usize::MAX,
            forall|a: int, b: int| 0 <= a < b < ks.len() ==> #[trigger] ks[a] != #[trigger] ks[b],
            accepted == accepted_upto(rs, ks.take(j as int)),
            key_count_views(per_key@) == key_counts_of(rs).take(j as int),
            per_key@.len() == j,
            forall|d: Seq<u8>, c: Channel|
                #[trigger] store.stream(d, c) == if (exists|m: int|
                    0 <= m < j && #[trigger] ks[m] == (d, c)) {
                    ingested_stream(old(store).stream(d, c), rs, d, c)
                } else {
                    old(store).stream(d, c)
                },
        decreases batches@.len() - j,
    {
        let b = &batches[j];
        let ghost kd = ks[j as int].0;
        let ghost kc = ks[j as int].1;
        let ghost kf = key_filter(rs, kd, kc);
        let ghost s_prev = *store;
        proof {
            assert((b.dancer@, b.channel) == ks[j as int]);
            assert(sample_views(b.samples@) == kf);
            assert(ks.contains(ks[j as int]));
            lemma_keys_of_contains(rs);
            lemma_batch_ok_iff(rs, kd, kc);
            lemma_accepted_step(rs, ks, j as int);
        }
        let (n, ok) = match store.append(&b.dancer, b.channel, &b.samples) {
            Ok(n) => (n, true),
            Err(_) => (0, false),
        };
        proof {
            assert(ok <==> batch_ok(kd, kc, kf));
            if ok {
                assert(n == kf.len());
            } else {
                assert(n == 0);
                assert(*store == s_prev);
            }
            lemma_stream_step(*old(store), s_prev, *store, rs, ks, j as int, ok);
        }
        accepted = accepted + n;
        let line = KeyCount {
            dancer: crate::bytes::copy_bytes(&b.dancer),
            channel: b.channel,
            count: n,
        };
        proof {
            assert(line@ =~= key_counts_of(rs)[j as int]);
            lemma_key_count_step(per_key@, rs, j as int, line);
        }
        per_key.push(line);
        j += 1;
    }
    proof {
        assert(ks.take(batches@.len() as int) =~= ks);
        assert(key_counts_of(rs).take(batches@.len() as int) =~= key_counts_of(rs));
        lemma_streams_complete(*old(store), *store, rs, ks, batches@.len() as int);
    }
    (accepted, per_key)
}

/// Once every listed key is processed, every stream matches the ingestion:
/// a key no record carries has an empty, trivially acceptable batch, which
/// changes nothing.
#[verifier::rlimit(100)]
#[verifier::spinoff_prover]
pub proof fn lemma_streams_complete(
    s_orig: TelemetryStore,
    s_new: TelemetryStore,
    rs: Seq<SampleV>,
    ks: Seq<(Seq<u8>, Channel)>,
    j: int,
)
    requires
        ks == keys_of(rs),
        j == ks.len(),
        forall|d: Seq<u8>, c: Channel|
            #[trigger] s_new.stream(d, c) == if (exists|m: int|
                0 <= m < j && #[trigger] ks[m] == (d, c)) {
                ingested_stream(s_orig.stream(d, c), rs, d, c)
            } else {
                s_orig.stream(d, c)
            },
    ensures
        forall|d: Seq<u8>, c: Channel|
            #[trigger] s_new.stream(d, c) == ingested_stream(s_orig.stream(d, c), rs, d, c),
{
    lemma_keys_of_contains(rs);
    assert forall|d: Seq<u8>, c: Channel| #[trigger] s_new.stream(d, c) == ingested_stream(
        s_orig.stream(d, c),
        rs,
        d,
        c,
    ) by {
        if !(exists|m: int| 0 <= m < j && #[trigger] ks[m] == (d, c)) {
            assert(!keys_of(rs).contains((d, c))) by {
                if keys_of(rs).contains((d, c)) {
                    let m = choose|m: int| 0 <= m < ks.len() && ks[m] == (d, c);
                }
            }
            assert(forall|i: int|
                0 <= i < rs.len() ==> !((#[trigger] rs[i]).dancer == d && rs[i].channel == c)) by {
                if exists|i: int|
                    0 <= i < rs.len() && (#[trigger] rs[i]).dancer == d && rs[i].channel == c {
                    let i = choose|i: int|
                        0 <= i < rs.len() && (#[trigger] rs[i]).dancer == d && rs[i].channel == c;
                    assert(((rs[i]).dancer, rs[i].channel) == (d, c));
                    assert(keys_of(rs).contains((d, c)));
                }
            }
            lemma_absent_key_filter(rs, d, c);
            assert(batch_sortable(key_filter(rs, d, c)));
            assert(stored_of(key_filter(rs, d, c)) =~= Seq::<StoredV>::empty());
            assert(apply_batch(s_new.stream(d, c), Seq::<StoredV>::empty()) == s_new.stream(d, c));
        }
    }
}

/// Ingest one bulk upload: parse, validate, group into per-key batches and
/// append each batch atomically.
///
/// Fails with `InvalidInput`, store untouched, exactly when the payload is
/// structurally unparsable.  Otherwise every key's stream has its batch
/// applied (last write wins) where the batch's timestamps are
/// non-decreasing, and is unchanged where they are not; the summary counts
/// the accepted records in total and per key, and everything else —
/// malformed records and the records of out-of-order batches — as rejected.
#[verifier::rlimit(100)]
#[verifier::spinoff_prover]
pub fn ingest_payload(store: &mut TelemetryStore, payload: &Vec<u8>) -> (r: Result<
    IngestSummary,
    ApiError,
>)
    requires
        old(store).wf(),
    ensures
        final(store).wf(),
        match r {
            Ok(s) => {
                &&& parse_payload(payload@) is Some
                &&& {
                    let gs = goods(parse_payload(payload@).unwrap());
                    &&& s.accepted == accepted_of(gs)
                    &&& s.rejected == parse_payload(payload@).unwrap().len() - accepted_of(gs)
                    &&& key_count_views(s.per_key@) == key_counts_of(gs)
                    &&& forall|d: Seq<u8>, c: Channel|
                        #[trigger] final(store).stream(d, c) == ingested_stream(
                            old(store).stream(d, c),
                            gs,
                            d,
                            c,
                        )
                }
            },
            Err(e) => {
                &&& e == ApiError::InvalidInput
                &&& parse_payload(payload@) is None
                &&& *final(store) == *old(store)
            },
        },
{
    let items = match parse(payload) {
        Ok(items) => items,
        Err(e) => {
            return Err(ApiError::InvalidInput);
        },
    };
    let ghost iv = item_views(items@);
    let items_len = items.len();
    proof {
        lemma_parsed_records_wf(payload@);
        assert(forall|i: int|
            0 <= i < iv.len() && (#[trigger] iv[i]) is Some ==> wf_record(iv[i].unwrap()));
        lemma_goods_wf(iv);
    }
    let gs = extract_goods(&items);
    let ghost rs = sample_views(gs@);
    proof {
        assert(rs == goods(iv));
        assert(rs.len() == gs@.len());
        assert(forall|k: int| 0 <= k < rs.len() ==> wf_record(#[trigger] rs[k]));
    }
    let batches = group_batches(&gs);
    let (accepted, per_key) = apply_batches(store, &batches, Ghost(rs));
    proof {
        lemma_keys_of_distinct(rs);
        lemma_accepted_upto_bound(rs, keys_of(rs));
        lemma_sum_filters_bound(rs, keys_of(rs));
        assert(accepted <= rs.len());
        assert(rs.len() <= iv.len());
    }
    let rejected = items_len - accepted;
    Ok(IngestSummary { accepted, rejected, per_key })
}

} // verus!




