//! Consumer groups: the catalog the broker reports, and the per-group half
//! of the state aggregation (the group report for one topic).

use vstd::prelude::*;
use vstd::seq_lib::{to_multiset_build, to_multiset_insert};
use crate::activity::GroupState;
use crate::codec::{assignments_view, AssignmentModel, KafkaGroupMemberAssignment};
use crate::probe::{spec_sat_sum, sat_add_i64, OffsetModel, CommittedOffset};
use crate::text::{str_le, spec_str_le, lemma_str_le_total, lemma_str_le_trans};

verus! {

/// One member of a consumer group, as the broker reports it: only its
/// decoded partition assignment matters to the reports.
#[derive(Clone, Debug, PartialEq)]
pub struct KafkaGroupMember {
    pub assignment: Vec<KafkaGroupMemberAssignment>,
}

impl View for KafkaGroupMember {
    type V = Seq<AssignmentModel>;

    open spec fn view(&self) -> Seq<AssignmentModel> {
        assignments_view(self.assignment@)
    }
}

/// A consumer group: its name and its live members.
#[derive(Clone, Debug, PartialEq)]
pub struct KafkaGroup {
    pub name: String,
    pub members: Vec<KafkaGroupMember>,
}

/// Mathematical model of a consumer group.
#[verifier::ext_equal]
pub struct GroupModel {
    pub name: Seq<char>,
    pub members: Seq<Seq<AssignmentModel>>,
}

impl View for KafkaGroup {
    type V = GroupModel;

    open spec fn view(&self) -> GroupModel {
        GroupModel {
            name: self.name@,
            members: self.members@.map_values(|m: KafkaGroupMember| m@),
        }
    }
}

/// One row of the group report: the group, its activity state, and the sums
/// of its committed offsets and of the topic's high watermarks over the
/// partitions where the group has committed.
#[derive(Debug)]
pub struct KafkaGroupResponse {
    pub name: String,
    pub state: GroupState,
    pub watermarks: (i64, i64),
}

/// Some member's assignment references this topic.
pub open spec fn spec_group_assigned(g: GroupModel, topic: Seq<char>) -> bool {
    exists|m: int, a: int|
        0 <= m < g.members.len() && 0 <= a < g.members[m].len()
            && (#[trigger] g.members[m][a]).topic == topic
}

/// Whether any live member of the group is assigned to the topic.
pub fn group_is_assigned(group: &KafkaGroup, topic: &String) -> (r: bool)
    ensures
        r == spec_group_assigned(group@, topic@),
{
    let mut m: usize = 0;
    while m < group.members.len()
        invariant
            m <= group@.members.len(),
            forall|mm: int, aa: int|
                0 <= mm < m && 0 <= aa < group@.members[mm].len()
                    ==> (#[trigger] group@.members[mm][aa]).topic != topic@,
        decreases group@.members.len() - m,
    {
        let member = &group.members[m];
        let mut a: usize = 0;
        while a < member.assignment.len()
            invariant
                m < group@.members.len(),
                a <= member@.len(),
                member@ == group@.members[m as int],
                forall|aa: int|
                    0 <= aa < a ==> (#[trigger] group@.members[m as int][aa]).topic != topic@,
            decreases member@.len() - a,
        {
            if member.assignment[a].topic == *topic {
                proof {
                    assert(group@.members[m as int][a as int].topic == topic@);
                }
                return true;
            }
            a += 1;
        }
        m += 1;
    }
    false
}

/// The (partition, committed offset) pairs of a snapshot that count as a
/// consumption signal for this topic: rows of the topic whose committed
/// offset is present and positive, in snapshot order.
pub open spec fn spec_qualifying(offsets: Seq<OffsetModel>, topic: Seq<char>) -> Seq<(i32, i64)>
    decreases offsets.len(),
{
    if offsets.len() == 0 {
        Seq::empty()
    } else {
        let o = offsets[0];
        let rest = spec_qualifying(offsets.drop_first(), topic);
        match o.offset {
            Some(v) => if o.topic == topic && v > 0 {
                seq![(o.partition, v)] + rest
            } else {
                rest
            },
            None => rest,
        }
    }
}

/// Select the rows of a committed-offset snapshot that show consumption of
/// this topic: a present, positive committed offset on one of its
/// partitions. These are the partitions whose high watermarks the group
/// report then sums.
pub fn qualifying_offsets(offsets: &Vec<CommittedOffset>, topic: &String) -> (r: Vec<(i32, i64)>)
    ensures
        r@ == spec_qualifying(crate::probe::offsets_view(offsets@), topic@),
{
    let ghost offs = crate::probe::offsets_view(offsets@);
    let mut out: Vec<(i32, i64)> = Vec::new();
    let mut i: usize = 0;
    proof {
        assert(offs.skip(0) =~= offs);
        assert(out@ + spec_qualifying(offs, topic@) =~= spec_qualifying(offs, topic@));
    }
    while i < offsets.len()
        invariant
            i <= offsets@.len(),
            offs == crate::probe::offsets_view(offsets@),
            spec_qualifying(offs, topic@) == out@ + spec_qualifying(offs.skip(i as int), topic@),
        decreases offsets@.len() - i,
    {
        let ghost prev = out@;
        proof {
            assert(offs.skip(i as int)[0] == offs[i as int]);
            assert(offs.skip(i as int).drop_first() =~= offs.skip(i + 1));
        }
        let o = &offsets[i];
        match &o.offset {
            Some(v) => {
                if *v > 0 && o.topic == *topic {
                    out.push((o.partition, *v));
                    proof {
                        assert(out@ + spec_qualifying(offs.skip(i + 1), topic@) =~= prev + (seq![
                            (offs[i as int].partition, offs[i as int].offset.unwrap()),
                        ] + spec_qualifying(offs.skip(i + 1), topic@)));
                    }
                }
            },
            None => {},
        }
        i += 1;
    }
    proof {
        assert(offs.skip(offs.len() as int).len() == 0);
        assert(out@ + Seq::<(i32, i64)>::empty() =~= out@);
    }
    out
}

/// The committed-offset halves of the qualifying rows.
pub open spec fn spec_committed_of(q: Seq<(i64, i64)>) -> Seq<i64> {
    q.map_values(|p: (i64, i64)| p.0)
}

/// The high-watermark halves of the qualifying rows.
pub open spec fn spec_highs_of(q: Seq<(i64, i64)>) -> Seq<i64> {
    q.map_values(|p: (i64, i64)| p.1)
}

/// Build the group-report row for one group, from its (committed offset,
/// high watermark) pairs on the report's topic and whether any live member
/// is assigned to that topic. A group with neither signal has no row.
/// An assigned group is `Consuming`; one with only committed offsets is
/// `Disconnected`. The row carries the clamped sums of the committed
/// offsets and of the high watermarks.
pub fn group_response(name: String, qualifying: &Vec<(i64, i64)>, consuming: bool) -> (r: Option<
    KafkaGroupResponse,
>)
    ensures
        r is Some <==> (qualifying@.len() > 0 || consuming),
        r matches Some(g) ==> ({
            &&& g.name == name
            &&& g.state == (if consuming {
                GroupState::Consuming
            } else {
                GroupState::Disconnected
            })
            &&& g.watermarks.0 == spec_sat_sum(spec_committed_of(qualifying@))
            &&& g.watermarks.1 == spec_sat_sum(spec_highs_of(qualifying@))
        }),
{
    if qualifying.len() == 0 && !consuming {
        return None;
    }
    let ghost committed = spec_committed_of(qualifying@);
    let ghost highs = spec_highs_of(qualifying@);
    let mut sum_committed: i64 = 0;
    let mut sum_high: i64 = 0;
    let mut i: usize = 0;
    proof {
        assert(committed.take(0) =~= Seq::<i64>::empty());
        assert(highs.take(0) =~= Seq::<i64>::empty());
    }
    while i < qualifying.len()
        invariant
            i <= qualifying@.len(),
            committed == spec_committed_of(qualifying@),
            highs == spec_highs_of(qualifying@),
            sum_committed == spec_sat_sum(committed.take(i as int)),
            sum_high == spec_sat_sum(highs.take(i as int)),
        decreases qualifying@.len() - i,
    {
        sum_committed = sat_add_i64(sum_committed, qualifying[i].0);
        sum_high = sat_add_i64(sum_high, qualifying[i].1);
        proof {
            assert(committed.take(i + 1).drop_last() =~= committed.take(i as int));
            assert(highs.take(i + 1).drop_last() =~= highs.take(i as int));
        }
        i += 1;
    }
    proof {
        assert(committed.take(committed.len() as int) =~= committed);
        assert(highs.take(highs.len() as int) =~= highs);
    }
    let state = if consuming {
        GroupState::Consuming
    } else {
        GroupState::Disconnected
    };
    Some(KafkaGroupResponse { name, state, watermarks: (sum_committed, sum_high) })
}

/// One group member as the broker listing hands it over: the raw assignment
/// payload, absent when the member has no assignment yet.
#[derive(Clone, Debug, PartialEq)]
pub struct RawGroupMember {
    pub assignment: Option<Vec<u8>>,
}

impl View for RawGroupMember {
    type V = Option<Seq<u8>>;

    open spec fn view(&self) -> Option<Seq<u8>> {
        match self.assignment {
            Some(ref b) => Some(b@),
            None => None,
        }
    }
}

/// One group of the broker listing, before its members are decoded.
#[derive(Clone, Debug, PartialEq)]
pub struct RawGroup {
    pub name: String,
    pub members: Vec<RawGroupMember>,
}

/// Mathematical model of one listed group.
#[verifier::ext_equal]
pub struct RawGroupModel {
    pub name: Seq<char>,
    pub members: Seq<Option<Seq<u8>>>,
}

impl View for RawGroup {
    type V = RawGroupModel;

    open spec fn view(&self) -> RawGroupModel {
        RawGroupModel {
            name: self.name@,
            members: self.members@.map_values(|m: RawGroupMember| m@),
        }
    }
}

/// The models of a broker listing.
pub open spec fn raw_groups_view(v: Seq<RawGroup>) -> Seq<RawGroupModel> {
    v.map_values(|g: RawGroup| g@)
}

/// The models of a decoded catalog.
pub open spec fn groups_view(v: Seq<KafkaGroup>) -> Seq<GroupModel> {
    v.map_values(|g: KafkaGroup| g@)
}

/// Why the catalog could not be built.
#[derive(Clone, Debug, PartialEq)]
pub enum CatalogError {
    /// A broker call failed; the detail is the broker's message.
    Broker(String),
    /// One member's assignment payload failed to decode. The group name and
    /// the member's position localize the fault.
    MemberAssignment { group: String, member: usize, cause: crate::codec::DecodeError },
}

/// The bytes a member's payload decodes from: an absent payload reads as
/// empty, which decodes to an empty assignment.
pub open spec fn spec_payload(m: Option<Seq<u8>>) -> Seq<u8> {
    match m {
        Some(b) => b,
        None => Seq::empty(),
    }
}

/// Decode all members of one group, or name the first member that fails and
/// why.
pub open spec fn spec_group_members(ms: Seq<Option<Seq<u8>>>) -> Result<
    Seq<Seq<AssignmentModel>>,
    (int, crate::codec::DecodeError),
>
    decreases ms.len(),
{
    if ms.len() == 0 {
        Ok(Seq::empty())
    } else {
        match crate::codec::spec_decode(spec_payload(ms[0])) {
            Ok(a) => match spec_group_members(ms.drop_first()) {
                Ok(t) => Ok(seq![a] + t),
                Err((i, c)) => Err((i + 1, c)),
            },
            Err(c) => Err((0, c)),
        }
    }
}

/// Build the catalog from a broker listing: drop every group whose name
/// ends with the engine's own suffix, decode each remaining member's
/// assignment, and stop at the first member that fails to decode.
pub open spec fn spec_catalog(groups: Seq<RawGroupModel>, suffix: Seq<char>) -> Result<
    Seq<GroupModel>,
    (Seq<char>, int, crate::codec::DecodeError),
>
    decreases groups.len(),
{
    if groups.len() == 0 {
        Ok(Seq::empty())
    } else {
        let g = groups[0];
        let rest = spec_catalog(groups.drop_first(), suffix);
        if crate::text::spec_ends_with(g.name, suffix) {
            rest
        } else {
            match spec_group_members(g.members) {
                Ok(ms) => match rest {
                    Ok(t) => Ok(seq![GroupModel { name: g.name, members: ms }] + t),
                    Err(e) => Err(e),
                },
                Err((mi, cause)) => Err((g.name, mi, cause)),
            }
        }
    }
}

/// List the broker's consumer groups with their decoded assignments,
/// excluding the engine's own house-keeping groups (those whose name ends
/// with `self_suffix`). A decode failure of one member aborts the whole
/// catalog and names the group and member, since a partial group report
/// would be misleading.
pub fn get_groups_without_ours(groups: &Vec<RawGroup>, self_suffix: &str) -> (r: Result<
    Vec<KafkaGroup>,
    CatalogError,
>)
    ensures
        r is Ok <==> spec_catalog(raw_groups_view(groups@), self_suffix@) is Ok,
        r matches Ok(v) ==> Ok::<_, (Seq<char>, int, crate::codec::DecodeError)>(
            groups_view(v@),
        ) == spec_catalog(raw_groups_view(groups@), self_suffix@),
        r matches Err(e) ==> (e matches CatalogError::MemberAssignment { group, member, cause }
            && spec_catalog(raw_groups_view(groups@), self_suffix@) == Err::<Seq<GroupModel>, _>(
            (group@, member as int, cause),
        )),
{
    let ghost raws = raw_groups_view(groups@);
    let ghost suffix = self_suffix@;
    let mut out: Vec<KafkaGroup> = Vec::new();
    let mut i: usize = 0;
    proof {
        assert(raws.skip(0) =~= raws);
        if spec_catalog(raws, suffix) is Ok {
            assert(groups_view(out@) + spec_catalog(raws, suffix)->Ok_0 =~= spec_catalog(
                raws,
                suffix,
            )->Ok_0);
        }
    }
    while i < groups.len()
        invariant
            i <= groups@.len(),
            raws == raw_groups_view(groups@),
            suffix == self_suffix@,
            ({
                match spec_catalog(raws.skip(i as int), suffix) {
                    Ok(rest) => spec_catalog(raws, suffix) == Ok::<
                        _,
                        (Seq<char>, int, crate::codec::DecodeError),
                    >(groups_view(out@) + rest),
                    Err(e) => spec_catalog(raws, suffix) == Err::<Seq<GroupModel>, _>(e),
                }
            }),
        decreases groups@.len() - i,
    {
        proof {
            assert(raws.skip(i as int)[0] == raws[i as int]);
            assert(raws.skip(i as int).drop_first() =~= raws.skip(i + 1));
        }
        let g = &groups[i];
        if !crate::text::str_ends_with(g.name.as_str(), self_suffix) {
            let ghost gm = raws[i as int];
            let mut members: Vec<KafkaGroupMember> = Vec::new();
            let mut j: usize = 0;
            proof {
                assert(gm.members.skip(0) =~= gm.members);
                if spec_group_members(gm.members) is Ok {
                    assert(members@.map_values(|m: KafkaGroupMember| m@) + spec_group_members(
                        gm.members,
                    )->Ok_0 =~= spec_group_members(gm.members)->Ok_0);
                }
            }
            while j < g.members.len()
                invariant
                    i < groups@.len(),
                    j <= g.members@.len(),
                    raws == raw_groups_view(groups@),
                    suffix == self_suffix@,
                    gm == raws[i as int],
                    gm == g@,
                    !crate::text::spec_ends_with(gm.name, suffix),
                    ({
                        match spec_catalog(raws.skip(i as int), suffix) {
                            Ok(rest) => spec_catalog(raws, suffix) == Ok::<
                                _,
                                (Seq<char>, int, crate::codec::DecodeError),
                            >(groups_view(out@) + rest),
                            Err(e) => spec_catalog(raws, suffix) == Err::<Seq<GroupModel>, _>(e),
                        }
                    }),
                    ({
                        match spec_group_members(gm.members.skip(j as int)) {
                            Ok(rest) => spec_group_members(gm.members) == Ok::<
                                _,
                                (int, crate::codec::DecodeError),
                            >(members@.map_values(|m: KafkaGroupMember| m@) + rest),
                            Err((mi, c)) => spec_group_members(gm.members) == Err::<
                                Seq<Seq<AssignmentModel>>,
                                _,
                            >((mi + j, c)),
                        }
                    }),
                decreases g.members@.len() - j,
            {
                proof {
                    assert(gm.members.skip(j as int)[0] == gm.members[j as int]);
                    assert(gm.members.skip(j as int).drop_first() =~= gm.members.skip(j + 1));
                }
                let parsed = match &g.members[j].assignment {
                    Some(b) => crate::codec::parse_assignment(b.as_slice()),
                    None => Ok(Vec::new()),
                };
                proof {
                    if g.members@[j as int].assignment is None {
                        assert(spec_payload(gm.members[j as int]) =~= Seq::<u8>::empty());
                        assert(crate::codec::spec_decode(Seq::<u8>::empty()) == Ok::<
                            _,
                            crate::codec::DecodeError,
                        >(Seq::<AssignmentModel>::empty()));
                        assert(assignments_view(Seq::<KafkaGroupMemberAssignment>::empty()) =~= Seq::<
                            AssignmentModel,
                        >::empty());
                    }
                }
                match parsed {
                    Ok(a) => {
                        let ghost members_before = members@;
                        members.push(KafkaGroupMember { assignment: a });
                        proof {
                            let f = |m: KafkaGroupMember| m@;
                            let rest = spec_group_members(gm.members.skip(j + 1));
                            if rest is Ok {
                                assert(members@.map_values(f) =~= members_before.map_values(
                                    f,
                                ).push(assignments_view(a@)));
                                assert(members_before.map_values(f) + (seq![
                                    assignments_view(a@),
                                ] + rest->Ok_0) =~= members@.map_values(f) + rest->Ok_0);
                            }
                        }
                    },
                    Err(c) => {
                        proof {
                            assert(crate::codec::spec_decode(spec_payload(gm.members[j as int]))
                                == Err::<Seq<AssignmentModel>, _>(c));
                            assert(spec_group_members(gm.members.skip(j as int)) == Err::<
                                Seq<Seq<AssignmentModel>>,
                                _,
                            >((0int, c)));
                            assert(spec_group_members(gm.members) == Err::<
                                Seq<Seq<AssignmentModel>>,
                                _,
                            >((j as int, c)));
                            assert(spec_catalog(raws.skip(i as int), suffix) == Err::<
                                Seq<GroupModel>,
                                _,
                            >((gm.name, j as int, c)));
                        }
                        return Err(
                            CatalogError::MemberAssignment {
                                group: g.name.clone(),
                                member: j,
                                cause: c,
                            },
                        );
                    },
                }
                j += 1;
            }
            proof {
                assert(gm.members.skip(gm.members.len() as int).len() == 0);
                assert(members@.map_values(|m: KafkaGroupMember| m@) + Seq::<
                    Seq<AssignmentModel>,
                >::empty() =~= members@.map_values(|m: KafkaGroupMember| m@));
            }
            let ghost out_before = out@;
            out.push(KafkaGroup { name: g.name.clone(), members });
            proof {
                let rest = spec_catalog(raws.skip(i + 1), suffix);
                if rest is Ok {
                    assert(groups_view(out@) =~= groups_view(out_before).push(
                        GroupModel {
                            name: gm.name,
                            members: spec_group_members(gm.members)->Ok_0,
                        },
                    ));
                    assert(groups_view(out_before) + (seq![
                        GroupModel {
                            name: gm.name,
                            members: spec_group_members(gm.members)->Ok_0,
                        },
                    ] + rest->Ok_0) =~= groups_view(out@) + rest->Ok_0);
                }
            }
        }
        i += 1;
    }
    proof {
        assert(raws.skip(raws.len() as int).len() == 0);
        assert(groups_view(out@) + Seq::<GroupModel>::empty() =~= groups_view(out@));
    }
    Ok(out)
}

/// The report rows are sorted by group name, ascending.
pub open spec fn spec_sorted_by_name(rows: Seq<KafkaGroupResponse>) -> bool {
    forall|i: int, j: int|
        0 <= i < j < rows.len() ==> spec_str_le(
            (#[trigger] rows[i]).name@,
            (#[trigger] rows[j]).name@,
        )
}

fn insert_position(out: &Vec<KafkaGroupResponse>, x: &KafkaGroupResponse) -> (p: usize)
    ensures
        p <= out@.len(),
        forall|k: int| 0 <= k < p ==> spec_str_le((#[trigger] out@[k]).name@, x.name@),
        p < out@.len() ==> !spec_str_le(out@[p as int].name@, x.name@),
{
    let mut p: usize = 0;
    while p < out.len()
        invariant
            p <= out@.len(),
            forall|k: int| 0 <= k < p ==> spec_str_le((#[trigger] out@[k]).name@, x.name@),
        decreases out@.len() - p,
    {
        if !str_le(out[p].name.as_str(), x.name.as_str()) {
            return p;
        }
        p += 1;
    }
    p
}

/// Order the report rows by group name, ascending: the same rows, sorted.
pub fn sort_groups_by_name(list: Vec<KafkaGroupResponse>) -> (r: Vec<KafkaGroupResponse>)
    ensures
        r@.to_multiset() == list@.to_multiset(),
        spec_sorted_by_name(r@),
{
    broadcast use vstd::seq_lib::group_to_multiset_ensures, to_multiset_insert;

    let mut input = list;
    let mut out: Vec<KafkaGroupResponse> = Vec::new();
    proof {
        assert(out@.to_multiset().add(input@.to_multiset()) =~= list@.to_multiset());
    }
    while input.len() > 0
        invariant
            out@.to_multiset().add(input@.to_multiset()) == list@.to_multiset(),
            spec_sorted_by_name(out@),
        decreases input@.len(),
    {
        let ghost input_before = input@;
        let x = match input.pop() {
            Some(x) => x,
            None => {
                return out;
            },
        };
        proof {
            assert(input@.push(x) =~= input_before);
            to_multiset_build(input@, x);
            assert(input_before.to_multiset() == input@.to_multiset().insert(x));
        }
        let p = insert_position(&out, &x);
        let ghost out_before = out@;
        proof {
            assert forall|k: int| p <= k < out_before.len() implies spec_str_le(
                x.name@,
                (#[trigger] out_before[k]).name@,
            ) by {
                lemma_str_le_total(out_before[p as int].name@, x.name@);
                if k > p {
                    lemma_str_le_trans(x.name@, out_before[p as int].name@, out_before[k].name@);
                }
            }
        }
        out.insert(p, x);
        proof {
            assert(out@ == out_before.insert(p as int, x));
            out_before.insert_ensures(p as int, x);
            to_multiset_insert(out_before, p as int, x);
            assert(out@.to_multiset() == out_before.to_multiset().insert(x));
            assert(out@.to_multiset().add(input@.to_multiset()) =~= list@.to_multiset());
            assert forall|i: int, j: int| 0 <= i < j < out@.len() implies spec_str_le(
                (#[trigger] out@[i]).name@,
                (#[trigger] out@[j]).name@,
            ) by {
                let pp = p as int;
                if j < pp {
                    assert(out@[i] == out_before[i] && out@[j] == out_before[j]);
                } else if i > pp {
                    assert(out@[i] == out_before[i - 1] && out@[j] == out_before[j - 1]);
                } else if i == pp && j > pp {
                    assert(out@[j] == out_before[j - 1]);
                } else if j == pp {
                    assert(out@[i] == out_before[i]);
                } else if i < pp && j > pp {
                    assert(out@[i] == out_before[i] && out@[j] == out_before[j - 1]);
                    lemma_str_le_trans(out_before[i].name@, x.name@, out_before[j - 1].name@);
                }
            }
        }
    }
    out
}

} // verus!
