//! Topics: the visible-topic catalog and the per-topic half of the state
//! aggregation (the topic report and the watermark report).

use vstd::prelude::*;
use vstd::multiset::Multiset;
use vstd::seq_lib::to_multiset_insert;
use crate::activity::GroupState;
use crate::groups::{spec_group_assigned, group_is_assigned, KafkaGroup, GroupModel};
use crate::probe::{
    offsets_view,
    spec_sat_sum,
    sum_watermarks,
    CommittedOffset,
    OffsetModel,
    TopicPartitions,
    TopicPartitionsModel,
    metadata_view,
};
use crate::text::{str_le, str_eq, spec_str_le, lemma_str_le_total, lemma_str_le_trans};

verus! {

/// Why a whole aggregation was abandoned. Aggregation is fail-fast: one
/// failing group aborts the report, since a silently incomplete cluster
/// view misleads the operator.
#[derive(Clone, Debug, PartialEq)]
pub enum AggregateError {
    /// Probing this group failed; the detail says why.
    Group { name: String, cause: String },
}

/// One row of the topic catalog: the topic and its partition count.
#[derive(Clone, Debug, PartialEq)]
pub struct TopicResponse {
    pub name: String,
    pub partitions: usize,
}

/// Mathematical model of one catalog row.
#[verifier::ext_equal]
pub struct TopicResponseModel {
    pub name: Seq<char>,
    pub partitions: int,
}

impl View for TopicResponse {
    type V = TopicResponseModel;

    open spec fn view(&self) -> TopicResponseModel {
        TopicResponseModel { name: self.name@, partitions: self.partitions as int }
    }
}

/// One row of the watermark report: a topic and the sum of its partitions'
/// high watermarks.
#[derive(Clone, Debug, PartialEq)]
pub struct TopicWatermarkResponse {
    pub topic: String,
    pub watermark: usize,
}

/// One group probed on its own throwaway connection: the group as listed,
/// and the committed-offset snapshot that connection fetched for it.
#[derive(Clone, Debug)]
pub struct GroupProbe {
    pub group: KafkaGroup,
    pub offsets: Vec<CommittedOffset>,
}

/// Mathematical model of one probed group.
#[verifier::ext_equal]
pub struct ProbeModel {
    pub group: GroupModel,
    pub offsets: Seq<OffsetModel>,
}

impl View for GroupProbe {
    type V = ProbeModel;

    open spec fn view(&self) -> ProbeModel {
        ProbeModel { group: self.group@, offsets: offsets_view(self.offsets@) }
    }
}

/// The models of a set of probed groups.
pub open spec fn probes_view(v: Seq<GroupProbe>) -> Seq<ProbeModel> {
    v.map_values(|p: GroupProbe| p@)
}

/// The broker's internal offsets topic, hidden from the catalog.
pub open spec fn spec_hidden_topic() -> Seq<char> {
    "__consumer_offsets"@
}

/// The catalog rows of a metadata listing: every topic but the broker's
/// internal offsets topic, with its partition count, in listing order.
pub open spec fn spec_visible_topics(ts: Seq<TopicPartitionsModel>) -> Seq<TopicResponseModel>
    decreases ts.len(),
{
    if ts.len() == 0 {
        Seq::empty()
    } else {
        let rest = spec_visible_topics(ts.drop_first());
        if ts[0].name == spec_hidden_topic() {
            rest
        } else {
            seq![TopicResponseModel { name: ts[0].name, partitions: ts[0].partitions.len() as int }]
                + rest
        }
    }
}

/// The catalog rows' views.
pub open spec fn topic_responses_view(v: Seq<TopicResponse>) -> Seq<TopicResponseModel> {
    v.map_values(|t: TopicResponse| t@)
}

/// The catalog rows are sorted by topic name, ascending.
pub open spec fn spec_topics_sorted(rows: Seq<TopicResponse>) -> bool {
    forall|i: int, j: int|
        0 <= i < j < rows.len() ==> spec_str_le(
            (#[trigger] rows[i]).name@,
            (#[trigger] rows[j]).name@,
        )
}

fn topic_insert_position(out: &Vec<TopicResponse>, x: &TopicResponse) -> (p: usize)
    ensures
        p <= out@.len(),
        forall|k: int| 0 <= k < p ==> spec_str_le((#[trigger] out@[k]).name@, x.name@),
        p < out@.len() ==> !spec_str_le(out@[p as int].name@, x.name@),
{
    let mut p: usize = 0;
    while p < out.len()
        invariant
            p <= out@.len(),
            forall|k: int| 0 <= k < p ==> spec_str_le((#[trigger] out@[k]).name@, x.name@),
        decreases out@.len() - p,
    {
        if !str_le(out[p].name.as_str(), x.name.as_str()) {
            return p;
        }
        p += 1;
    }
    p
}

/// List the operator-visible topics with their partition counts, sorted by
/// name: every metadata topic except the broker's internal offsets topic.
pub fn get_topics(metadata: &Vec<TopicPartitions>) -> (r: Vec<TopicResponse>)
    ensures
        topic_responses_view(r@).to_multiset() == spec_visible_topics(
            metadata_view(metadata@),
        ).to_multiset(),
        spec_topics_sorted(r@),
{
    broadcast use vstd::seq_lib::group_to_multiset_ensures, to_multiset_insert;

    let ghost ts = metadata_view(metadata@);
    let mut out: Vec<TopicResponse> = Vec::new();
    let mut i: usize = 0;
    proof {
        assert(ts.skip(0) =~= ts);
        assert(topic_responses_view(out@).to_multiset().add(
            spec_visible_topics(ts).to_multiset(),
        ) =~= spec_visible_topics(ts).to_multiset());
    }
    while i < metadata.len()
        invariant
            i <= metadata@.len(),
            ts == metadata_view(metadata@),
            spec_visible_topics(ts).to_multiset() == topic_responses_view(
                out@,
            ).to_multiset().add(spec_visible_topics(ts.skip(i as int)).to_multiset()),
            spec_topics_sorted(out@),
        decreases metadata@.len() - i,
    {
        proof {
            assert(ts.skip(i as int)[0] == ts[i as int]);
            assert(ts.skip(i as int).drop_first() =~= ts.skip(i + 1));
        }
        let t = &metadata[i];
        if !str_eq(t.name.as_str(), "__consumer_offsets") {
            let row = TopicResponse { name: t.name.clone(), partitions: t.partitions.len() };
            let p = topic_insert_position(&out, &row);
            let ghost out_before = out@;
            let ghost row_model = row@;
            proof {
                assert forall|k: int| p <= k < out_before.len() implies spec_str_le(
                    row_model.name,
                    (#[trigger] out_before[k]).name@,
                ) by {
                    lemma_str_le_total(out_before[p as int].name@, row_model.name);
                    if k > p {
                        lemma_str_le_trans(
                            row_model.name,
                            out_before[p as int].name@,
                            out_before[k].name@,
                        );
                    }
                }
            }
            out.insert(p, row);
            proof {
                out_before.insert_ensures(p as int, out@[p as int]);
                let f = |t: TopicResponse| t@;
                assert(topic_responses_view(out@) =~= topic_responses_view(out_before).insert(
                    p as int,
                    row_model,
                ));
                to_multiset_insert(topic_responses_view(out_before), p as int, row_model);
                assert(spec_visible_topics(ts.skip(i as int)) == seq![row_model]
                    + spec_visible_topics(ts.skip(i + 1)));
                assert(seq![row_model] + spec_visible_topics(ts.skip(i + 1)) =~= spec_visible_topics(
                    ts.skip(i + 1),
                ).insert(0, row_model));
                to_multiset_insert(spec_visible_topics(ts.skip(i + 1)), 0, row_model);
                assert forall|x: int, y: int| 0 <= x < y < out@.len() implies spec_str_le(
                    (#[trigger] out@[x]).name@,
                    (#[trigger] out@[y]).name@,
                ) by {
                    let pp = p as int;
                    if y < pp {
                        assert(out@[x] == out_before[x] && out@[y] == out_before[y]);
                    } else if x > pp {
                        assert(out@[x] == out_before[x - 1] && out@[y] == out_before[y - 1]);
                    } else if x == pp && y > pp {
                        assert(out@[y] == out_before[y - 1]);
                    } else if y == pp {
                        assert(out@[x] == out_before[x]);
                    } else if x < pp && y > pp {
                        assert(out@[x] == out_before[x] && out@[y] == out_before[y - 1]);
                        lemma_str_le_trans(
                            out_before[x].name@,
                            row_model.name,
                            out_before[y - 1].name@,
                        );
                    }
                }
            }
        }
        i += 1;
    }
    proof {
        assert(ts.skip(ts.len() as int).len() == 0);
        assert(spec_visible_topics(ts.skip(ts.len() as int)).to_multiset().len() == 0);
        assert(topic_responses_view(out@).to_multiset().add(
            Multiset::<TopicResponseModel>::empty(),
        ) =~= topic_responses_view(out@).to_multiset());
    }
    out
}

/// Some probed group's snapshot shows a present, positive committed offset
/// on this topic.
pub open spec fn spec_probe_positive(offsets: Seq<OffsetModel>, topic: Seq<char>) -> bool {
    exists|i: int|
        0 <= i < offsets.len() && (#[trigger] offsets[i]).topic == topic && (offsets[i].offset
            matches Some(v) && v > 0)
}

fn probe_has_positive(offsets: &Vec<CommittedOffset>, topic: &String) -> (r: bool)
    ensures
        r == spec_probe_positive(offsets_view(offsets@), topic@),
{
    let ghost offs = offsets_view(offsets@);
    let mut i: usize = 0;
    while i < offsets.len()
        invariant
            i <= offsets@.len(),
            offs == offsets_view(offsets@),
            forall|k: int|
                0 <= k < i ==> !((#[trigger] offs[k]).topic == topic@ && (offs[k].offset matches
                Some(v)
                    && v > 0)),
        decreases offsets@.len() - i,
    {
        let o = &offsets[i];
        match &o.offset {
            Some(v) => {
                if *v > 0 && o.topic == *topic {
                    proof {
                        assert(offs[i as int].topic == topic@);
                    }
                    return true;
                }
            },
            None => {},
        }
        i += 1;
    }
    false
}

/// The two report flavours agree on what counts as a consumption signal: a
/// snapshot shows a positive committed offset on a topic exactly when the
/// group report finds a qualifying row for that topic in it.
pub proof fn lemma_positive_iff_qualifying(offsets: Seq<OffsetModel>, topic: Seq<char>)
    ensures
        spec_probe_positive(offsets, topic) <==> crate::groups::spec_qualifying(
            offsets,
            topic,
        ).len() > 0,
    decreases offsets.len(),
{
    if offsets.len() > 0 {
        let rest = offsets.drop_first();
        lemma_positive_iff_qualifying(rest, topic);
        if spec_probe_positive(rest, topic) {
            let i = choose|i: int|
                0 <= i < rest.len() && (#[trigger] rest[i]).topic == topic && (rest[i].offset
                    matches Some(v) && v > 0);
            assert(offsets[i + 1] == rest[i]);
            assert(spec_probe_positive(offsets, topic));
        }
        let head_qualifies = offsets[0].topic == topic && (offsets[0].offset matches Some(v) && v
            > 0);
        if spec_probe_positive(offsets, topic) && !head_qualifies {
            let i = choose|i: int|
                0 <= i < offsets.len() && (#[trigger] offsets[i]).topic == topic && (
                offsets[i].offset matches Some(v) && v > 0);
            assert(rest[i - 1] == offsets[i]);
            assert(spec_probe_positive(rest, topic));
        }
    }
}

/// The activity state of one topic under a set of probed groups: `Consuming`
/// if any group's live member is assigned to it, else `Disconnected` if any
/// group has a positive committed offset on it, else `Unconnected`.
pub open spec fn spec_topic_state(probes: Seq<ProbeModel>, topic: Seq<char>) -> GroupState {
    if exists|k: int|
        0 <= k < probes.len() && spec_group_assigned((#[trigger] probes[k]).group, topic) {
        GroupState::Consuming
    } else if exists|k: int|
        0 <= k < probes.len() && spec_probe_positive((#[trigger] probes[k]).offsets, topic) {
        GroupState::Disconnected
    } else {
        GroupState::Unconnected
    }
}

/// Classify one topic from all probed groups.
pub fn topic_state_of(probes: &Vec<GroupProbe>, topic: &String) -> (r: GroupState)
    ensures
        r == spec_topic_state(probes_view(probes@), topic@),
{
    let ghost ps = probes_view(probes@);
    let mut k: usize = 0;
    while k < probes.len()
        invariant
            k <= probes@.len(),
            ps == probes_view(probes@),
            forall|q: int| 0 <= q < k ==> !spec_group_assigned((#[trigger] ps[q]).group, topic@),
        decreases probes@.len() - k,
    {
        if group_is_assigned(&probes[k].group, topic) {
            proof {
                assert(spec_group_assigned(ps[k as int].group, topic@));
            }
            return GroupState::Consuming;
        }
        k += 1;
    }
    let mut k: usize = 0;
    while k < probes.len()
        invariant
            k <= probes@.len(),
            ps == probes_view(probes@),
            forall|q: int| 0 <= q < ps.len() ==> !spec_group_assigned((#[trigger] ps[q]).group, topic@),
            forall|q: int| 0 <= q < k ==> !spec_probe_positive((#[trigger] ps[q]).offsets, topic@),
        decreases probes@.len() - k,
    {
        if probe_has_positive(&probes[k].offsets, topic) {
            proof {
                assert(spec_probe_positive(ps[k as int].offsets, topic@));
            }
            return GroupState::Disconnected;
        }
        k += 1;
    }
    GroupState::Unconnected
}

/// Classify every topic of the universe from all probed groups: the topic
/// report. Each topic of the input gets exactly one row, in input order;
/// assignment wins over committed offsets, which win over silence.
pub fn get_topics_state(topics: &Vec<String>, probes: &Vec<GroupProbe>) -> (r: Vec<
    (String, GroupState),
>)
    ensures
        r@.len() == topics@.len(),
        forall|i: int|
            0 <= i < r@.len() ==> (#[trigger] r@[i]).0 == topics@[i] && r@[i].1 == spec_topic_state(
                probes_view(probes@),
                topics@[i]@,
            ),
{
    let mut out: Vec<(String, GroupState)> = Vec::new();
    let mut i: usize = 0;
    while i < topics.len()
        invariant
            i <= topics@.len(),
            out@.len() == i,
            forall|k: int|
                0 <= k < i ==> (#[trigger] out@[k]).0 == topics@[k] && out@[k].1
                    == spec_topic_state(probes_view(probes@), topics@[k]@),
        decreases topics@.len() - i,
    {
        let state = topic_state_of(probes, &topics[i]);
        out.push((topics[i].clone(), state));
        i += 1;
    }
    out
}

/// The clamp of a sum into the range a `usize` watermark field can carry.
pub open spec fn spec_clamp_usize(v: int) -> int {
    if v < 0 {
        0
    } else if v > usize::MAX {
        usize::MAX as int
    } else {
        v
    }
}

/// Build the watermark-report row for one topic from its partitions' high
/// watermarks: their clamped sum, the topic's total backlog position.
pub fn get_topics_watermark(topic: String, highs: &Vec<i64>) -> (r: TopicWatermarkResponse)
    ensures
        r.topic == topic,
        r.watermark as int == spec_clamp_usize(spec_sat_sum(highs@) as int),
{
    let total = sum_watermarks(highs);
    let watermark: usize = if total < 0 {
        0
    } else if (total as u64) > (usize::MAX as u64) {
        usize::MAX
    } else {
        total as usize
    };
    TopicWatermarkResponse { topic, watermark }
}

} // verus!
