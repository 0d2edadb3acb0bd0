//! The export pipeline: re-serialize a stored selection into the same wire
//! format uploads use, so any export is valid upload input.
//!
//! A selection may name one dancer, one channel and a half-open timestamp
//! range; whatever it leaves out is unrestricted.  An empty selection is an
//! empty payload, not an error.

use vstd::prelude::*;
use crate::telemetry::Channel;
use crate::telemetry::Partition;
use crate::telemetry::SensorSample;
use crate::telemetry::SampleV;
use crate::telemetry::StoredV;
use crate::telemetry::TelemetryStore;
use crate::telemetry::sample_views;
use crate::telemetry::views_of;
use crate::telemetry::as_samples;
use crate::telemetry::range_filter;
use crate::telemetry::wf_partition;
use crate::wire::encode_all;
use crate::wire::wf_record;
use crate::wire::serialize;

verus! {

/// What an export selects: a dancer, a channel, a half-open timestamp
/// range, each optional.
pub struct ExportQuery {
    pub dancer: Option<Vec<u8>>,
    pub channel: Option<Channel>,
    pub range: Option<(u64, u64)>,
}

/// Mathematical value of an [`ExportQuery`].
#[verifier::ext_equal]
pub ghost struct QueryV {
    pub dancer: Option<Seq<u8>>,
    pub channel: Option<Channel>,
    pub range: Option<(u64, u64)>,
}

impl View for ExportQuery {
    type V = QueryV;

    open spec fn view(&self) -> QueryV {
        QueryV {
            dancer: match self.dancer {
                Some(d) => Some(d@),
                None => None,
            },
            channel: self.channel,
            range: self.range,
        }
    }
}

/// Whether a partition falls under a selection.
pub open spec fn part_selected(p: Partition, q: QueryV) -> bool {
    &&& match q.dancer {
        None => true,
        Some(d) => p.dancer@ == d,
    }
    &&& match q.channel {
        None => true,
        Some(c) => p.channel == c,
    }
}

/// The part of a stream a selection's range keeps.
pub open spec fn selected_stream(s: Seq<StoredV>, range: Option<(u64, u64)>) -> Seq<StoredV> {
    match range {
        None => s,
        Some((from, to)) => range_filter(s, from, to),
    }
}

/// The records a selection exports, in partition order, each key's stream
/// in timestamp order.
pub open spec fn export_records(parts: Seq<Partition>, q: QueryV) -> Seq<SampleV>
    decreases parts.len(),
{
    if parts.len() == 0 {
        Seq::empty()
    } else {
        export_records(parts.drop_last(), q) + if part_selected(parts.last(), q) {
            as_samples(
                parts.last().dancer@,
                parts.last().channel,
                selected_stream(views_of(parts.last().samples@), q.range),
            )
        } else {
            Seq::empty()
        }
    }
}

/// Every sample a range keeps comes from the stream.
pub proof fn lemma_range_filter_elems(s: Seq<StoredV>, from: u64, to: u64)
    ensures
        forall|m: int|
            0 <= m < range_filter(s, from, to).len() ==> s.contains(
                #[trigger] range_filter(s, from, to)[m],
            ),
    decreases s.len(),
{
    if s.len() > 0 {
        let tail = s.drop_first();
        lemma_range_filter_elems(tail, from, to);
        let rf = range_filter(s, from, to);
        assert forall|m: int| 0 <= m < rf.len() implies s.contains(#[trigger] rf[m]) by {
            if crate::telemetry::in_range(s[0].timestamp, from, to) {
                if m == 0 {
                    assert(rf[0] == s[0]);
                } else {
                    assert(rf[m] == range_filter(tail, from, to)[m - 1]);
                    let i = choose|i: int|
                        0 <= i < tail.len() && tail[i] == range_filter(tail, from, to)[m - 1];
                    assert(s[i + 1] == rf[m]);
                }
            } else {
                assert(rf[m] == range_filter(tail, from, to)[m]);
                let i = choose|i: int|
                    0 <= i < tail.len() && tail[i] == range_filter(tail, from, to)[m];
                assert(s[i + 1] == rf[m]);
            }
        }
    }
}

/// Every record an export emits is well-formed for the wire format.
pub proof fn lemma_export_records_wf(parts: Seq<Partition>, q: QueryV)
    requires
        forall|i: int| 0 <= i < parts.len() ==> wf_partition(#[trigger] parts[i]),
    ensures
        forall|m: int|
            0 <= m < export_records(parts, q).len() ==> wf_record(
                #[trigger] export_records(parts, q)[m],
            ),
    decreases parts.len(),
{
    if parts.len() > 0 {
        let p = parts.drop_last();
        assert(forall|i: int| 0 <= i < p.len() ==> wf_partition(#[trigger] p[i]));
        lemma_export_records_wf(p, q);
        let er = export_records(parts, q);
        let ep = export_records(p, q);
        let lastp = parts.last();
        assert(wf_partition(lastp)) by {
            assert(parts[parts.len() - 1] == lastp);
        }
        assert forall|m: int| 0 <= m < er.len() implies wf_record(#[trigger] er[m]) by {
            if m < ep.len() {
                assert(er[m] == ep[m]);
            } else {
                assert(part_selected(lastp, q));
                let stream = views_of(lastp.samples@);
                let kept = selected_stream(stream, q.range);
                let k = m - ep.len();
                assert(er[m] == as_samples(lastp.dancer@, lastp.channel, kept)[k]);
                assert(er[m].dancer == lastp.dancer@);
                assert(er[m].data == kept[k].data);
                assert(stream.contains(kept[k])) by {
                    match q.range {
                        None => {
                            assert(stream[k] == kept[k]);
                        },
                        Some((from, to)) => {
                            lemma_range_filter_elems(stream, from, to);
                        },
                    }
                }
                let i = choose|i: int| 0 <= i < stream.len() && stream[i] == kept[k];
                assert(stream[i] == lastp.samples@[i]@);
                assert(crate::telemetry::wf_sizes(lastp.dancer@, lastp.samples@[i].data@));
            }
        }
    }
}

/// Export a selection of the store as one upload-compatible payload.
#[verifier::rlimit(100)]
#[verifier::spinoff_prover]
pub fn export_selection(store: &TelemetryStore, query: &ExportQuery) -> (r: Vec<u8>)
    requires
        store.wf(),
    ensures
        r@ == encode_all(export_records(store.parts@, query@)),
{
    let ghost q = query@;
    let ghost parts = store.parts@;
    let mut collected: Vec<SensorSample> = Vec::new();
    let mut i: usize = 0;
    proof {
        assert(parts.take(0) =~= Seq::<Partition>::empty());
        assert(sample_views(collected@) =~= export_records(parts.take(0), q));
    }
    while i < store.parts.len()
        invariant
            0 <= i <= store.parts@.len(),
            parts == store.parts@,
            q == query@,
            store.wf(),
            sample_views(collected@) == export_records(parts.take(i as int), q),
        decreases store.parts@.len() - i,
    {
        let p = &store.parts[i];
        proof {
            assert(parts.take(i as int + 1).drop_last() =~= parts.take(i as int));
            assert(parts.take(i as int + 1).last() == parts[i as int]);
        }
        let selected_dancer = match &query.dancer {
            None => true,
            Some(d) => crate::bytes::bytes_eq(&p.dancer, d),
        };
        let selected_channel = match query.channel {
            None => true,
            Some(c) => p.channel == c,
        };
        if selected_dancer && selected_channel {
            proof {
                assert(part_selected(parts[i as int], q));
            }
            let samples = match query.range {
                None => store.read_all(&p.dancer, p.channel),
                Some((from, to)) => store.read_range(&p.dancer, p.channel, from, to),
            };
            proof {
                crate::telemetry::lemma_stream_at(parts, i as int, p.dancer@, p.channel);
                assert(sample_views(samples@) == as_samples(
                    p.dancer@,
                    p.channel,
                    selected_stream(views_of(parts[i as int].samples@), q.range),
                ));
            }
            let ghost target = export_records(parts.take(i as int + 1), q);
            let mut k: usize = 0;
            while k < samples.len()
                invariant
                    0 <= k <= samples@.len(),
                    target == export_records(parts.take(i as int + 1), q),
                    sample_views(collected@) == target.take(
                        target.len() - samples@.len() + k as int,
                    ),
                    forall|m: int|
                        0 <= m < samples@.len() ==> target[target.len() - samples@.len() + m]
                            == (#[trigger] samples@[m])@,
                    samples@.len() <= target.len(),
                decreases samples@.len() - k,
            {
                let ghost pre = collected@;
                collected.push(samples[k].duplicate());
                proof {
                    let ghost upto = target.len() - samples@.len() + k as int;
                    assert(sample_views(pre).len() == pre.len());
                    assert forall|m: int| 0 <= m < collected@.len() implies sample_views(
                        collected@,
                    )[m] == target.take(upto + 1)[m] by {
                        assert(sample_views(collected@)[m] == collected@[m]@);
                        if m < pre.len() {
                            assert(collected@[m] == pre[m]);
                            assert(sample_views(pre)[m] == pre[m]@);
                        } else {
                            assert(collected@[m]@ == samples@[k as int]@);
                        }
                    }
                    assert(sample_views(collected@) =~= target.take(upto + 1));
                }
                k += 1;
            }
            proof {
                assert(target.take(target.len() as int) =~= target);
            }
        } else {
            proof {
                assert(!part_selected(parts[i as int], q));
                assert(export_records(parts.take(i as int + 1), q) =~= export_records(
                    parts.take(i as int),
                    q,
                ));
            }
        }
        i += 1;
    }
    proof {
        assert(parts.take(parts.len() as int) =~= parts);
        lemma_export_records_wf(parts, q);
        assert(sample_views(collected@).len() == collected@.len());
        assert forall|m: int| 0 <= m < collected@.len() implies wf_record(
            (#[trigger] collected@[m])@,
        ) by {
            assert(sample_views(collected@)[m] == collected@[m]@);
            assert(wf_record(export_records(parts, q)[m]));
        }
    }
    serialize(&collected)
}


/// A payload of nothing but well-formed records parses to exactly them.
pub proof fn lemma_goods_of_somes(rs: Seq<SampleV>)
    ensures
        crate::ingest::goods(rs.map_values(|r: SampleV| Some(r))) == rs,
    decreases rs.len(),
{
    let items = rs.map_values(|r: SampleV| Some(r));
    if rs.len() == 0 {
        assert(crate::ingest::goods(items) =~= rs);
    } else {
        assert(items.drop_last() =~= rs.drop_last().map_values(|r: SampleV| Some(r)));
        lemma_goods_of_somes(rs.drop_last());
        assert(items.last() == Some(rs.last()));
        assert(crate::ingest::goods(items) == rs.drop_last() + seq![rs.last()]);
        assert(rs.drop_last() + seq![rs.last()] =~= rs);
    }
}

/// A key's records of a concatenation are the concatenation of its records.
pub proof fn lemma_key_filter_concat(a: Seq<SampleV>, b: Seq<SampleV>, dancer: Seq<u8>, channel: Channel)
    ensures
        crate::ingest::key_filter(a + b, dancer, channel) == crate::ingest::key_filter(
            a,
            dancer,
            channel,
        ) + crate::ingest::key_filter(b, dancer, channel),
    decreases b.len(),
{
    if b.len() == 0 {
        assert(a + b =~= a);
        assert(crate::ingest::key_filter(b, dancer, channel) =~= Seq::<SampleV>::empty());
        assert(crate::ingest::key_filter(a, dancer, channel) + Seq::<SampleV>::empty()
            =~= crate::ingest::key_filter(a, dancer, channel));
    } else {
        assert((a + b).drop_last() =~= a + b.drop_last());
        assert((a + b).last() == b.last());
        lemma_key_filter_concat(a, b.drop_last(), dancer, channel);
        assert((crate::ingest::key_filter(a, dancer, channel) + crate::ingest::key_filter(
            b.drop_last(),
            dancer,
            channel,
        )) + (if b.last().dancer == dancer && b.last().channel == channel {
            seq![b.last()]
        } else {
            Seq::<SampleV>::empty()
        }) =~= crate::ingest::key_filter(a, dancer, channel) + crate::ingest::key_filter(
            b,
            dancer,
            channel,
        ));
    }
}

/// A key's records of a sequence that carries only that key is the whole
/// sequence.
pub proof fn lemma_key_filter_all_match(rs: Seq<SampleV>, dancer: Seq<u8>, channel: Channel)
    requires
        forall|i: int|
            0 <= i < rs.len() ==> (#[trigger] rs[i]).dancer == dancer && rs[i].channel == channel,
    ensures
        crate::ingest::key_filter(rs, dancer, channel) == rs,
    decreases rs.len(),
{
    if rs.len() > 0 {
        assert(forall|i: int|
            0 <= i < rs.drop_last().len() ==> (#[trigger] rs.drop_last()[i]).dancer == dancer
                && rs.drop_last()[i].channel == channel);
        lemma_key_filter_all_match(rs.drop_last(), dancer, channel);
        assert(rs[rs.len() - 1] == rs.last());
        assert(rs.drop_last() + seq![rs.last()] =~= rs);
    } else {
        assert(crate::ingest::key_filter(rs, dancer, channel) =~= rs);
    }
}

/// The (timestamp, payload) pairs of a reconstructed stream are the stream.
pub proof fn lemma_as_samples_stored(dancer: Seq<u8>, channel: Channel, s: Seq<StoredV>)
    ensures
        crate::telemetry::stored_of(as_samples(dancer, channel, s)) == s,
{
    assert forall|i: int| 0 <= i < s.len() implies crate::telemetry::stored_of(
        as_samples(dancer, channel, s),
    )[i] == s[i] by {
        assert(as_samples(dancer, channel, s)[i].timestamp == s[i].timestamp);
        assert(crate::telemetry::stored_of(as_samples(dancer, channel, s))[i] =~= s[i]);
    }
    assert(crate::telemetry::stored_of(as_samples(dancer, channel, s)) =~= s);
}

/// A reconstructed sorted stream makes an acceptable batch.
pub proof fn lemma_as_samples_sortable(dancer: Seq<u8>, channel: Channel, s: Seq<StoredV>)
    requires
        crate::telemetry::sorted_strict(s),
    ensures
        crate::ingest::batch_sortable(as_samples(dancer, channel, s)),
{
    let rs = as_samples(dancer, channel, s);
    assert forall|i: int| 0 <= i && i + 1 < rs.len() implies (#[trigger] rs[i]).timestamp <= rs[i
        + 1].timestamp by {
        assert(rs[i].timestamp == s[i].timestamp);
        assert(rs[i + 1].timestamp == s[i + 1].timestamp);
    }
}

/// The full-store selection.
pub open spec fn full_query() -> QueryV {
    QueryV { dancer: None, channel: None, range: None }
}

/// In a full export, each key's records are exactly that key's stream.
pub proof fn lemma_export_key_filter(parts: Seq<Partition>, dancer: Seq<u8>, channel: Channel)
    requires
        forall|i: int, j: int|
            0 <= i < j < parts.len() ==> !crate::telemetry::same_key(
                #[trigger] parts[i],
                (#[trigger] parts[j]).dancer@,
                parts[j].channel,
            ),
    ensures
        crate::ingest::key_filter(export_records(parts, full_query()), dancer, channel)
            == as_samples(dancer, channel, crate::telemetry::stream_of(parts, dancer, channel)),
    decreases parts.len(),
{
    let q = full_query();
    if parts.len() == 0 {
        assert(crate::ingest::key_filter(export_records(parts, q), dancer, channel)
            =~= Seq::<SampleV>::empty());
        assert(as_samples(dancer, channel, crate::telemetry::stream_of(parts, dancer, channel))
            =~= Seq::<SampleV>::empty());
    } else {
        let p = parts.drop_last();
        let lp = parts.last();
        assert(forall|i: int, j: int|
            0 <= i < j < p.len() ==> !crate::telemetry::same_key(
                #[trigger] p[i],
                (#[trigger] p[j]).dancer@,
                p[j].channel,
            ));
        lemma_export_key_filter(p, dancer, channel);
        assert(part_selected(lp, q));
        let block = as_samples(lp.dancer@, lp.channel, views_of(lp.samples@));
        assert(export_records(parts, q) == export_records(p, q) + block);
        lemma_key_filter_concat(export_records(p, q), block, dancer, channel);
        assert(parts =~= p.push(lp));
        if lp.dancer@ == dancer && lp.channel == channel {
            assert forall|i: int| 0 <= i < block.len() implies (#[trigger] block[i]).dancer
                == dancer && block[i].channel == channel by {}
            lemma_key_filter_all_match(block, dancer, channel);
            assert(!crate::telemetry::has_key(p, dancer, channel)) by {
                if crate::telemetry::has_key(p, dancer, channel) {
                    let i = choose|i: int|
                        0 <= i < p.len() && crate::telemetry::same_key(p[i], dancer, channel);
                    assert(crate::telemetry::same_key(parts[i], lp.dancer@, lp.channel));
                    assert(parts[parts.len() - 1] == lp);
                }
            }
            crate::telemetry::lemma_stream_absent(p, dancer, channel);
            assert(as_samples(dancer, channel, Seq::<StoredV>::empty())
                =~= Seq::<SampleV>::empty());
            crate::telemetry::lemma_stream_at(
                parts,
                parts.len() - 1,
                dancer,
                channel,
            );
            assert(Seq::<SampleV>::empty() + block =~= block);
            assert(block =~= as_samples(
                dancer,
                channel,
                crate::telemetry::stream_of(parts, dancer, channel),
            ));
        } else {
            assert(forall|i: int|
                0 <= i < block.len() ==> !((#[trigger] block[i]).dancer == dancer
                    && block[i].channel == channel)) by {
                assert forall|i: int| 0 <= i < block.len() implies !((
                #[trigger] block[i]).dancer == dancer && block[i].channel == channel) by {
                    assert(block[i].dancer == lp.dancer@ && block[i].channel == lp.channel);
                }
            }
            crate::ingest::lemma_absent_key_filter(block, dancer, channel);
            assert(crate::ingest::key_filter(export_records(parts, q), dancer, channel)
                =~= crate::ingest::key_filter(export_records(p, q), dancer, channel));
            assert(!crate::telemetry::same_key(lp, dancer, channel));
            crate::telemetry::lemma_stream_push(p, lp, dancer, channel);
            assert(crate::telemetry::stream_of(parts, dancer, channel)
                == crate::telemetry::stream_of(p, dancer, channel));
        }
    }
}


/// The batches of a payload's own keys hold every record exactly once.
pub proof fn lemma_sum_filters_total(rs: Seq<SampleV>)
    ensures
        crate::ingest::sum_filters(rs, crate::ingest::keys_of(rs)) == rs.len(),
    decreases rs.len(),
{
    let ks = crate::ingest::keys_of(rs);
    crate::ingest::lemma_keys_of_distinct(rs);
    if rs.len() == 0 {
        assert(ks =~= Seq::<(Seq<u8>, Channel)>::empty());
    } else {
        let p = rs.drop_last();
        let lastkey = (rs.last().dancer, rs.last().channel);
        lemma_sum_filters_total(p);
        crate::ingest::lemma_sum_filters_snoc(rs, ks);
        assert(ks.contains(lastkey)) by {
            crate::ingest::lemma_keys_of_contains(rs);
            assert((rs[rs.len() - 1].dancer, rs[rs.len() - 1].channel) == lastkey);
        }
        assert(crate::ingest::sum_filters(rs, ks) == crate::ingest::sum_filters(p, ks) + 1);
        let kp = crate::ingest::keys_of(p);
        if kp.contains(lastkey) {
            assert(ks == kp);
        } else {
            assert(ks == kp.push(lastkey));
            assert(ks.drop_last() =~= kp);
            assert(ks.last() == lastkey);
            crate::ingest::lemma_keys_of_contains(p);
            assert(forall|i: int|
                0 <= i < p.len() ==> !((#[trigger] p[i]).dancer == lastkey.0 && p[i].channel
                    == lastkey.1)) by {
                if exists|i: int|
                    0 <= i < p.len() && (#[trigger] p[i]).dancer == lastkey.0 && p[i].channel
                        == lastkey.1 {
                    let i = choose|i: int|
                        0 <= i < p.len() && (#[trigger] p[i]).dancer == lastkey.0 && p[i].channel
                            == lastkey.1;
                    assert(((p[i]).dancer, p[i].channel) == lastkey);
                    assert(kp.contains(lastkey));
                }
            }
            crate::ingest::lemma_absent_key_filter(p, lastkey.0, lastkey.1);
            assert(crate::ingest::sum_filters(p, ks) == crate::ingest::sum_filters(p, kp));
        }
    }
}

/// Where every key's batch is acceptable, every record is accepted.
pub proof fn lemma_accepted_eq_sum(rs: Seq<SampleV>, ks: Seq<(Seq<u8>, Channel)>)
    requires
        forall|m: int|
            0 <= m < ks.len() ==> crate::ingest::batch_sortable(
                crate::ingest::key_filter(rs, (#[trigger] ks[m]).0, ks[m].1),
            ),
    ensures
        crate::ingest::accepted_upto(rs, ks) == crate::ingest::sum_filters(rs, ks),
    decreases ks.len(),
{
    if ks.len() > 0 {
        assert(forall|m: int|
            0 <= m < ks.drop_last().len() ==> crate::ingest::batch_sortable(
                crate::ingest::key_filter(rs, (#[trigger] ks.drop_last()[m]).0, ks.drop_last()[m].1),
            ));
        lemma_accepted_eq_sum(rs, ks.drop_last());
        assert(ks[ks.len() - 1] == ks.last());
        assert(crate::ingest::batch_sortable(
            crate::ingest::key_filter(rs, ks.last().0, ks.last().1),
        ));
    }
}

/// The round trip: a full export of the store parses back to exactly the
/// records it encoded, re-ingesting them rejects nothing, and the store's
/// every stream is unchanged (idempotent re-ingestion under last-write-wins).
#[verifier::rlimit(100)]
#[verifier::spinoff_prover]
pub proof fn lemma_export_reingest_unchanged(store: TelemetryStore)
    requires
        store.wf(),
    ensures
        ({
            let exported = export_records(store.parts@, full_query());
            let payload = crate::wire::encode_all(exported);
            &&& crate::wire::parse_payload(payload) is Some
            &&& crate::ingest::goods(crate::wire::parse_payload(payload).unwrap()) == exported
            &&& crate::wire::parse_payload(payload).unwrap().len() == exported.len()
            &&& crate::ingest::accepted_of(exported) == exported.len()
            &&& forall|d: Seq<u8>, c: Channel|
                crate::ingest::ingested_stream(#[trigger] store.stream(d, c), exported, d, c)
                    == store.stream(d, c)
        }),
{
    let exported = export_records(store.parts@, full_query());
    let payload = crate::wire::encode_all(exported);
    lemma_export_records_wf(store.parts@, full_query());
    crate::wire::lemma_wire_round_trip(exported);
    assert(crate::wire::parse_payload(payload) == Some(
        exported.map_values(|r: SampleV| Some(r)),
    ));
    lemma_goods_of_somes(exported);
    assert(exported.map_values(|r: SampleV| Some(r)).len() == exported.len());
    // each key's batch is its own sorted stream, so every batch is accepted
    assert forall|m: int| 0 <= m < crate::ingest::keys_of(exported).len() implies
        crate::ingest::batch_sortable(
        crate::ingest::key_filter(
            exported,
            (#[trigger] crate::ingest::keys_of(exported)[m]).0,
            crate::ingest::keys_of(exported)[m].1,
        ),
    ) by {
        let kd = crate::ingest::keys_of(exported)[m].0;
        let kc = crate::ingest::keys_of(exported)[m].1;
        lemma_export_key_filter(store.parts@, kd, kc);
        lemma_stream_sorted(store, kd, kc);
        lemma_as_samples_sortable(kd, kc, store.stream(kd, kc));
    }
    lemma_accepted_eq_sum(exported, crate::ingest::keys_of(exported));
    lemma_sum_filters_total(exported);
    // re-applying a key's own stream changes nothing
    assert forall|d: Seq<u8>, c: Channel| crate::ingest::ingested_stream(
        #[trigger] store.stream(d, c),
        exported,
        d,
        c,
    ) == store.stream(d, c) by {
        lemma_export_key_filter(store.parts@, d, c);
        lemma_stream_sorted(store, d, c);
        lemma_as_samples_sortable(d, c, store.stream(d, c));
        lemma_as_samples_stored(d, c, store.stream(d, c));
        let stream = store.stream(d, c);
        assert(crate::telemetry::stored_of(
            crate::ingest::key_filter(exported, d, c),
        ) == stream);
        assert(forall|k: int| 0 <= k < stream.len() ==> stream.contains(#[trigger] stream[k]));
        crate::telemetry::lemma_reingest_unchanged(stream, stream);
    }
}

/// Every stored stream is strictly sorted by timestamp.
pub proof fn lemma_stream_sorted(store: TelemetryStore, dancer: Seq<u8>, channel: Channel)
    requires
        store.wf(),
    ensures
        crate::telemetry::sorted_strict(store.stream(dancer, channel)),
{
    if crate::telemetry::has_key(store.parts@, dancer, channel) {
        let i = choose|i: int|
            0 <= i < store.parts@.len() && crate::telemetry::same_key(
                store.parts@[i],
                dancer,
                channel,
            );
        crate::telemetry::lemma_stream_at(store.parts@, i, dancer, channel);
        assert(crate::telemetry::wf_partition(store.parts@[i]));
    } else {
        crate::telemetry::lemma_stream_absent(store.parts@, dancer, channel);
    }
}

} // verus!


