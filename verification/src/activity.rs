//! Activity classification: the three-state precedence logic shared by the
//! group report and the topic report.

use vstd::prelude::*;

verus! {

/// How active a key (a consumer group, or a topic in a topic report) is.
/// Totally ordered by precedence: `Consuming` over `Disconnected` over
/// `Unconnected`.
#[derive(Clone, Copy, Debug, PartialEq, Eq, Structural)]
pub enum GroupState {
    /// Some live member assignment references the key.
    Consuming,
    /// The key has a positive committed offset somewhere but no live member.
    Disconnected,
    /// No signal at all.
    Unconnected,
}

/// One observation about a key, in whatever order the probes deliver them.
#[derive(Clone, Copy, Debug, PartialEq, Eq, Structural)]
pub enum ActivityEvent {
    /// A committed offset with this value was observed for the key.
    /// Only a positive value is a sign of past consumption.
    Offset(i64),
    /// A live member assignment referencing the key was observed.
    Assignment,
}

/// Apply one observation. A positive offset raises the key to
/// `Disconnected` unless it is already `Consuming`; an assignment raises it
/// to `Consuming` unconditionally.
pub open spec fn spec_observe(s: GroupState, e: ActivityEvent) -> GroupState {
    match e {
        ActivityEvent::Offset(v) => if v > 0 && s != GroupState::Consuming {
            GroupState::Disconnected
        } else {
            s
        },
        ActivityEvent::Assignment => GroupState::Consuming,
    }
}

/// Fold a whole observation sequence, front to back.
pub open spec fn spec_run(s: GroupState, events: Seq<ActivityEvent>) -> GroupState
    decreases events.len(),
{
    if events.len() == 0 {
        s
    } else {
        spec_run(spec_observe(s, events[0]), events.drop_first())
    }
}

/// Some event in the sequence is an assignment.
pub open spec fn has_assignment_event(events: Seq<ActivityEvent>) -> bool {
    exists|i: int| 0 <= i < events.len() && events[i] is Assignment
}

/// Some event in the sequence is a positive committed offset.
pub open spec fn has_positive_offset_event(events: Seq<ActivityEvent>) -> bool {
    exists|i: int|
        0 <= i < events.len() && ((#[trigger] events[i]) matches ActivityEvent::Offset(v) && v
            > 0)
}

/// Apply one observation to a state.
pub fn observe(state: GroupState, event: &ActivityEvent) -> (r: GroupState)
    ensures
        r == spec_observe(state, *event),
{
    match event {
        ActivityEvent::Offset(v) => {
            if *v > 0 && !matches!(state, GroupState::Consuming) {
                GroupState::Disconnected
            } else {
                state
            }
        },
        ActivityEvent::Assignment => GroupState::Consuming,
    }
}

proof fn lemma_run_general(s: GroupState, events: Seq<ActivityEvent>)
    ensures
        spec_run(s, events) == (if has_assignment_event(events) {
            GroupState::Consuming
        } else if has_positive_offset_event(events) {
            if s == GroupState::Consuming {
                GroupState::Consuming
            } else {
                GroupState::Disconnected
            }
        } else {
            s
        }),
    decreases events.len(),
{
    if events.len() > 0 {
        let e = events[0];
        let rest = events.drop_first();
        lemma_run_general(spec_observe(s, e), rest);
        if has_assignment_event(rest) {
            let i = choose|i: int| 0 <= i < rest.len() && rest[i] is Assignment;
            assert(events[i + 1] is Assignment);
        }
        if has_positive_offset_event(rest) {
            let i = choose|i: int|
                0 <= i < rest.len() && ((#[trigger] rest[i]) matches ActivityEvent::Offset(v) && v
                    > 0);
            assert(events[i + 1] == rest[i]);
            assert(has_positive_offset_event(events));
        }
        if has_assignment_event(events) && !(e is Assignment) {
            let i = choose|i: int| 0 <= i < events.len() && events[i] is Assignment;
            assert(rest[i - 1] is Assignment);
        }
        if has_positive_offset_event(events) && !(e matches ActivityEvent::Offset(v) && v > 0) {
            let i = choose|i: int|
                0 <= i < events.len() && ((#[trigger] events[i]) matches ActivityEvent::Offset(v)
                    && v > 0);
            assert(rest[i - 1] == events[i]);
            assert(has_positive_offset_event(rest));
        }
    }
}

/// Precedence law: over any interleaving of committed-offset and assignment
/// observations, a key ends `Consuming` if any assignment was observed,
/// otherwise `Disconnected` if any positive offset was observed, otherwise
/// it stays `Unconnected`.
pub proof fn lemma_activity_precedence(events: Seq<ActivityEvent>)
    ensures
        spec_run(GroupState::Unconnected, events) == (if has_assignment_event(events) {
            GroupState::Consuming
        } else if has_positive_offset_event(events) {
            GroupState::Disconnected
        } else {
            GroupState::Unconnected
        }),
{
    lemma_run_general(GroupState::Unconnected, events);
}

} // verus!
