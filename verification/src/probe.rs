//! Offset-probe primitives: the committed-offset snapshot one throwaway
//! consumer reports for a group, the topic-partition universe such a probe
//! asks about, and watermark arithmetic.

use vstd::prelude::*;

verus! {

/// Why an offset probe failed.
#[derive(Clone, Debug, PartialEq)]
pub enum ProbeError {
    /// A broker RPC failed; the detail is the broker's message.
    Broker(String),
    /// Metadata was requested for a topic the broker does not know.
    UnknownTopic(String),
}

/// One row of a committed-offset snapshot: a topic partition and the offset
/// the probed group has committed there, absent when the group never
/// committed.
#[derive(Clone, Debug, PartialEq)]
pub struct CommittedOffset {
    pub topic: String,
    pub partition: i32,
    pub offset: Option<i64>,
}

/// Mathematical model of one committed-offset row.
#[verifier::ext_equal]
pub struct OffsetModel {
    pub topic: Seq<char>,
    pub partition: i32,
    pub offset: Option<i64>,
}

impl View for CommittedOffset {
    type V = OffsetModel;

    open spec fn view(&self) -> OffsetModel {
        OffsetModel { topic: self.topic@, partition: self.partition, offset: self.offset }
    }
}

/// The models of a whole snapshot.
pub open spec fn offsets_view(v: Seq<CommittedOffset>) -> Seq<OffsetModel> {
    v.map_values(|o: CommittedOffset| o@)
}

/// One topic of the cluster metadata: its name and its partition ids.
#[derive(Clone, Debug, PartialEq)]
pub struct TopicPartitions {
    pub name: String,
    pub partitions: Vec<i32>,
}

/// Mathematical model of one metadata topic.
#[verifier::ext_equal]
pub struct TopicPartitionsModel {
    pub name: Seq<char>,
    pub partitions: Seq<i32>,
}

impl View for TopicPartitions {
    type V = TopicPartitionsModel;

    open spec fn view(&self) -> TopicPartitionsModel {
        TopicPartitionsModel { name: self.name@, partitions: self.partitions@ }
    }
}

/// The models of a metadata listing.
pub open spec fn metadata_view(v: Seq<TopicPartitions>) -> Seq<TopicPartitionsModel> {
    v.map_values(|t: TopicPartitions| t@)
}

/// The (topic, partition) pairs of one metadata topic, in partition order.
pub open spec fn spec_topic_pairs(t: TopicPartitionsModel) -> Seq<(Seq<char>, i32)> {
    Seq::new(t.partitions.len(), |i: int| (t.name, t.partitions[i]))
}

/// The full topic-partition universe of a metadata listing, topic by topic.
pub open spec fn spec_universe(ts: Seq<TopicPartitionsModel>) -> Seq<(Seq<char>, i32)>
    decreases ts.len(),
{
    if ts.len() == 0 {
        Seq::empty()
    } else {
        spec_topic_pairs(ts[0]) + spec_universe(ts.drop_first())
    }
}

proof fn lemma_universe_snoc(ts: Seq<TopicPartitionsModel>, t: TopicPartitionsModel)
    ensures
        spec_universe(ts.push(t)) == spec_universe(ts) + spec_topic_pairs(t),
    decreases ts.len(),
{
    if ts.len() == 0 {
        assert(ts.push(t).drop_first() =~= Seq::<TopicPartitionsModel>::empty());
        assert(spec_universe(ts) + spec_topic_pairs(t) =~= spec_topic_pairs(t) + spec_universe(
            Seq::<TopicPartitionsModel>::empty(),
        ));
    } else {
        assert(ts.push(t).drop_first() =~= ts.drop_first().push(t));
        lemma_universe_snoc(ts.drop_first(), t);
        assert(spec_topic_pairs(ts[0]) + (spec_universe(ts.drop_first()) + spec_topic_pairs(t))
            =~= (spec_topic_pairs(ts[0]) + spec_universe(ts.drop_first())) + spec_topic_pairs(t));
    }
}

/// The pair views of an executable universe.
pub open spec fn universe_view(v: Seq<(String, i32)>) -> Seq<(Seq<char>, i32)> {
    v.map_values(|e: (String, i32)| (e.0@, e.1))
}

/// Flatten cluster metadata into the full topic-partition universe, the set
/// a committed-offsets probe asks about in one request.
pub fn partition_universe(topics: &Vec<TopicPartitions>) -> (r: Vec<(String, i32)>)
    ensures
        universe_view(r@) == spec_universe(metadata_view(topics@)),
{
    let ghost ts = metadata_view(topics@);
    let mut out: Vec<(String, i32)> = Vec::new();
    let mut i: usize = 0;
    proof {
        assert(universe_view(out@) =~= spec_universe(ts.take(0)));
    }
    while i < topics.len()
        invariant
            i <= topics@.len(),
            ts == metadata_view(topics@),
            universe_view(out@) == spec_universe(ts.take(i as int)),
        decreases topics@.len() - i,
    {
        let ghost out_base = out@;
        let mut j: usize = 0;
        while j < topics[i].partitions.len()
            invariant
                i < topics@.len(),
                j <= topics@[i as int].partitions@.len(),
                ts == metadata_view(topics@),
                universe_view(out@) == universe_view(out_base) + spec_topic_pairs(
                    ts[i as int],
                ).take(j as int),
            decreases topics@[i as int].partitions@.len() - j,
        {
            let ghost prev = out@;
            out.push((topics[i].name.clone(), topics[i].partitions[j]));
            proof {
                let pair_seq = spec_topic_pairs(ts[i as int]);
                assert(pair_seq.take(j + 1) =~= pair_seq.take(j as int).push(pair_seq[j as int]));
                assert(universe_view(out@) =~= universe_view(prev).push(pair_seq[j as int]));
                assert(universe_view(prev).push(pair_seq[j as int]) =~= universe_view(out_base)
                    + pair_seq.take(j + 1));
            }
            j += 1;
        }
        proof {
            assert(spec_topic_pairs(ts[i as int]).take(spec_topic_pairs(ts[i as int]).len() as int)
                =~= spec_topic_pairs(ts[i as int]));
            lemma_universe_snoc(ts.take(i as int), ts[i as int]);
            assert(ts.take(i as int).push(ts[i as int]) =~= ts.take(i + 1));
        }
        i += 1;
    }
    proof {
        assert(ts.take(ts.len() as int) =~= ts);
    }
    out
}

/// Signed 64-bit addition clamped to the representable range.
pub open spec fn spec_sat_add_i64(a: int, b: int) -> i64 {
    if a + b > i64::MAX {
        i64::MAX
    } else if a + b < i64::MIN {
        i64::MIN
    } else {
        (a + b) as i64
    }
}

/// The left-to-right clamped sum of a value sequence.
pub open spec fn spec_sat_sum(s: Seq<i64>) -> i64
    decreases s.len(),
{
    if s.len() == 0 {
        0
    } else {
        spec_sat_add_i64(spec_sat_sum(s.drop_last()) as int, s.last() as int)
    }
}

/// Add two watermarks or offsets, clamping at the 64-bit range instead of
/// overflowing.
pub fn sat_add_i64(a: i64, b: i64) -> (r: i64)
    ensures
        r == spec_sat_add_i64(a as int, b as int),
{
    if b >= 0 {
        if a > i64::MAX - b {
            i64::MAX
        } else {
            a + b
        }
    } else {
        if a < i64::MIN - b {
            i64::MIN
        } else {
            a + b
        }
    }
}

/// Sum watermarks (or committed offsets) across partitions, clamped at the
/// 64-bit range. This is the cumulative figure a topic-level report shows.
pub fn sum_watermarks(values: &Vec<i64>) -> (r: i64)
    ensures
        r == spec_sat_sum(values@),
{
    let mut total: i64 = 0;
    let mut i: usize = 0;
    proof {
        assert(values@.take(0) =~= Seq::<i64>::empty());
    }
    while i < values.len()
        invariant
            i <= values@.len(),
            total == spec_sat_sum(values@.take(i as int)),
        decreases values@.len() - i,
    {
        total = sat_add_i64(total, values[i]);
        proof {
            assert(values@.take(i + 1).drop_last() =~= values@.take(i as int));
        }
        i += 1;
    }
    proof {
        assert(values@.take(values@.len() as int) =~= values@);
    }
    total
}

} // verus!
