//! The windowed message fetch: seek arithmetic, the bounded retry around
//! the transient seek error, the fetch phase machine, message decoding, and
//! the final window selection.

use vstd::prelude::*;
use vstd::seq_lib::{lemma_multiset_commutative, to_multiset_insert};
use vstd::utf8::{decode_utf8, valid_utf8};

verus! {

/// Why a windowed fetch failed.
#[derive(Clone, Debug, PartialEq)]
pub enum FetchError {
    /// A broker call failed; the detail is the broker's message.
    Broker(String),
    /// Seeking one partition kept hitting the transient state error until
    /// the attempt ceiling.
    SeekExhausted { partition: i32 },
    /// One message's bytes could not be decoded; the partition and offset
    /// localize it.
    Decode { partition: i32, offset: i64 },
}

/// Where a partition cursor should be placed before a windowed fetch.
#[derive(Clone, Copy, Debug, PartialEq, Eq, Structural)]
pub enum SeekTarget {
    /// Seek to this absolute offset.
    At(i64),
    /// Seek to the earliest offset the partition still retains.
    Beginning,
}

/// The seek offset for one partition: `high - window` when that still lies
/// inside the retained range, otherwise the earliest retained offset.
pub open spec fn spec_compute_seek(low: int, high: int, window: int) -> SeekTarget {
    if high - window > low {
        SeekTarget::At((high - window) as i64)
    } else {
        SeekTarget::Beginning
    }
}

/// Compute the seek offset for one partition from its watermarks and the
/// requested window size. A target of `Beginning` avoids seeking before
/// the retention horizon.
pub fn compute_seek(low: i64, high: i64, window: i64) -> (r: SeekTarget)
    requires
        0 <= low <= high,
        0 <= window,
    ensures
        r == spec_compute_seek(low as int, high as int, window as int),
        r matches SeekTarget::At(o) ==> low < o <= high,
        r is Beginning <==> high - window <= low,
{
    if window < high && high - window > low {
        SeekTarget::At(high - window)
    } else {
        SeekTarget::Beginning
    }
}

/// How many times a seek is attempted before the transient state error
/// becomes fatal.
pub const SEEK_RETRY_CEILING: u32 = 5;

/// How one seek attempt ended on the broker client.
#[derive(Clone, Debug, PartialEq)]
pub enum SeekOutcome {
    /// The seek was applied.
    Accepted,
    /// The client raced partition-assignment bookkeeping and reported its
    /// transient erroneous-state condition; the seek may be retried.
    Transient,
    /// Any other error; the detail is the client's message.
    Fatal(String),
}

/// What the retry discipline decides after one attempt.
#[derive(Clone, Copy, Debug, PartialEq, Eq, Structural)]
pub enum SeekStep {
    /// The seek took hold: go on to polling.
    Proceed,
    /// Try the seek again after the short backoff.
    Retry,
    /// Give up: the error is fatal, or the transient condition outlived the
    /// attempt ceiling.
    Fail,
}

/// The retry discipline: only the transient condition is ever retried, and
/// only while fewer than `SEEK_RETRY_CEILING` attempts have been made.
pub open spec fn spec_seek_step(attempts_made: u32, outcome: SeekOutcome) -> SeekStep {
    match outcome {
        SeekOutcome::Accepted => SeekStep::Proceed,
        SeekOutcome::Fatal(_) => SeekStep::Fail,
        SeekOutcome::Transient => if attempts_made < SEEK_RETRY_CEILING {
            SeekStep::Retry
        } else {
            SeekStep::Fail
        },
    }
}

/// Decide what to do after the `attempts_made`-th seek attempt ended with
/// the given outcome.
pub fn seek_step(attempts_made: u32, outcome: &SeekOutcome) -> (r: SeekStep)
    requires
        1 <= attempts_made <= SEEK_RETRY_CEILING,
    ensures
        r == spec_seek_step(attempts_made, *outcome),
{
    match outcome {
        SeekOutcome::Accepted => SeekStep::Proceed,
        SeekOutcome::Fatal(_) => SeekStep::Fail,
        SeekOutcome::Transient => {
            if attempts_made < SEEK_RETRY_CEILING {
                SeekStep::Retry
            } else {
                SeekStep::Fail
            }
        },
    }
}

/// Whether a bounded pull or a live tail is running.
#[derive(Clone, Copy, Debug, PartialEq, Eq, Structural)]
pub enum FetchMode {
    Bounded,
    Live,
}

/// Where a windowed fetch stands.
#[derive(Clone, Copy, Debug, PartialEq)]
pub enum FetchPhase {
    /// Nothing assigned yet.
    Unassigned,
    /// The partition set is being assigned.
    Assigning,
    /// Seeks are being applied; `attempts` counts the attempts already made
    /// on the partition currently seeking.
    Seeking { attempts: u32 },
    /// Waiting for the first message.
    Polling,
    /// Bounded mode: messages arrive and are collected.
    Draining,
    /// Live mode: messages are emitted as they come.
    Live,
    /// Terminal: the connection has been left unsubscribed.
    Unsubscribed,
    /// Terminal: the fetch failed.
    Failed,
}

/// What the driving loop observes.
#[derive(Clone, Debug, PartialEq)]
pub enum FetchEvent {
    /// Assignment of the partition set started.
    AssignStarted,
    /// The partition set was assigned.
    Assigned,
    /// One seek attempt ended with this outcome.
    SeekResult(SeekOutcome),
    /// Every partition's seek took hold.
    SeeksDone,
    /// A message arrived.
    Message,
    /// No message arrived within the idle timeout.
    IdleTimeout,
    /// The external stop signal fired.
    Cancelled,
}

/// A phase the machine can actually be in: while seeking, the attempt count
/// stays below the ceiling.
pub open spec fn spec_phase_wf(p: FetchPhase) -> bool {
    match p {
        FetchPhase::Seeking { attempts } => attempts < SEEK_RETRY_CEILING,
        _ => true,
    }
}

/// The fetch phase machine of the windowed fetcher. Seeking self-loops on
/// the transient error up to the attempt ceiling, then fails; polling turns
/// into draining (bounded) or live emission on the first message; an idle
/// gap ends a bounded pull and the stop signal ends a live tail, both
/// leaving the connection unsubscribed. The terminal phases absorb every
/// event.
pub open spec fn spec_fetch_step(p: FetchPhase, e: FetchEvent, mode: FetchMode) -> FetchPhase {
    match (p, e) {
        (FetchPhase::Unassigned, FetchEvent::AssignStarted) => FetchPhase::Assigning,
        (FetchPhase::Assigning, FetchEvent::Assigned) => FetchPhase::Seeking { attempts: 0 },
        (FetchPhase::Seeking { attempts }, FetchEvent::SeekResult(o)) => {
            match spec_seek_step((attempts + 1) as u32, o) {
                SeekStep::Proceed => FetchPhase::Seeking { attempts: 0 },
                SeekStep::Retry => FetchPhase::Seeking { attempts: (attempts + 1) as u32 },
                SeekStep::Fail => FetchPhase::Failed,
            }
        },
        (FetchPhase::Seeking { .. }, FetchEvent::SeeksDone) => FetchPhase::Polling,
        (FetchPhase::Polling, FetchEvent::Message) => {
            if mode is Bounded {
                FetchPhase::Draining
            } else {
                FetchPhase::Live
            }
        },
        (FetchPhase::Polling, FetchEvent::IdleTimeout) => FetchPhase::Unsubscribed,
        (FetchPhase::Polling, FetchEvent::Cancelled) => FetchPhase::Unsubscribed,
        (FetchPhase::Draining, FetchEvent::Message) => FetchPhase::Draining,
        (FetchPhase::Draining, FetchEvent::IdleTimeout) => FetchPhase::Unsubscribed,
        (FetchPhase::Draining, FetchEvent::Cancelled) => FetchPhase::Unsubscribed,
        (FetchPhase::Live, FetchEvent::Message) => FetchPhase::Live,
        (FetchPhase::Live, FetchEvent::Cancelled) => FetchPhase::Unsubscribed,
        (FetchPhase::Live, FetchEvent::IdleTimeout) => FetchPhase::Live,
        (FetchPhase::Unsubscribed, _) => FetchPhase::Unsubscribed,
        (FetchPhase::Failed, _) => FetchPhase::Failed,
        (s, _) => s,
    }
}

/// Advance the fetch phase machine by one observed event.
pub fn fetch_step(p: &FetchPhase, e: &FetchEvent, mode: FetchMode) -> (r: FetchPhase)
    requires
        spec_phase_wf(*p),
    ensures
        r == spec_fetch_step(*p, *e, mode),
        spec_phase_wf(r),
{
    match (p, e) {
        (FetchPhase::Unassigned, FetchEvent::AssignStarted) => FetchPhase::Assigning,
        (FetchPhase::Assigning, FetchEvent::Assigned) => FetchPhase::Seeking { attempts: 0 },
        (FetchPhase::Seeking { attempts }, FetchEvent::SeekResult(o)) => {
            match seek_step(*attempts + 1, o) {
                SeekStep::Proceed => FetchPhase::Seeking { attempts: 0 },
                SeekStep::Retry => FetchPhase::Seeking { attempts: *attempts + 1 },
                SeekStep::Fail => FetchPhase::Failed,
            }
        },
        (FetchPhase::Seeking { .. }, FetchEvent::SeeksDone) => FetchPhase::Polling,
        (FetchPhase::Polling, FetchEvent::Message) => {
            if matches!(mode, FetchMode::Bounded) {
                FetchPhase::Draining
            } else {
                FetchPhase::Live
            }
        },
        (FetchPhase::Polling, FetchEvent::IdleTimeout) => FetchPhase::Unsubscribed,
        (FetchPhase::Polling, FetchEvent::Cancelled) => FetchPhase::Unsubscribed,
        (FetchPhase::Draining, FetchEvent::Message) => FetchPhase::Draining,
        (FetchPhase::Draining, FetchEvent::IdleTimeout) => FetchPhase::Unsubscribed,
        (FetchPhase::Draining, FetchEvent::Cancelled) => FetchPhase::Unsubscribed,
        (FetchPhase::Live, FetchEvent::Message) => FetchPhase::Live,
        (FetchPhase::Live, FetchEvent::Cancelled) => FetchPhase::Unsubscribed,
        (FetchPhase::Live, FetchEvent::IdleTimeout) => FetchPhase::Live,
        (FetchPhase::Unsubscribed, _) => FetchPhase::Unsubscribed,
        (FetchPhase::Failed, _) => FetchPhase::Failed,
        (s, _) => *s,
    }
}

/// Fold a whole event trace through the phase machine.
pub open spec fn spec_run_fetch(p: FetchPhase, events: Seq<FetchEvent>, mode: FetchMode) -> FetchPhase
    decreases events.len(),
{
    if events.len() == 0 {
        p
    } else {
        spec_run_fetch(spec_fetch_step(p, events[0], mode), events.drop_first(), mode)
    }
}

/// A trace of `n` transient seek results.
pub open spec fn spec_transient_trace(n: nat) -> Seq<FetchEvent> {
    Seq::new(n, |i: int| FetchEvent::SeekResult(SeekOutcome::Transient))
}

/// Retry bound: when the transient seek condition repeats indefinitely, the
/// engine makes exactly `SEEK_RETRY_CEILING` attempts and then fails; no
/// trace of transient outcomes, however long, gets an attempt past the
/// ceiling or a silent success.
pub proof fn lemma_retry_bound(n: nat, mode: FetchMode)
    ensures
        n < SEEK_RETRY_CEILING ==> spec_run_fetch(
            FetchPhase::Seeking { attempts: 0 },
            spec_transient_trace(n),
            mode,
        ) == (FetchPhase::Seeking { attempts: n as u32 }),
        n >= SEEK_RETRY_CEILING ==> spec_run_fetch(
            FetchPhase::Seeking { attempts: 0 },
            spec_transient_trace(n),
            mode,
        ) == FetchPhase::Failed,
{
    lemma_retry_bound_from(0, n, mode);
}

proof fn lemma_retry_bound_from(a: u32, n: nat, mode: FetchMode)
    requires
        a < SEEK_RETRY_CEILING,
    ensures
        a + n < SEEK_RETRY_CEILING ==> spec_run_fetch(
            FetchPhase::Seeking { attempts: a },
            spec_transient_trace(n),
            mode,
        ) == (FetchPhase::Seeking { attempts: (a + n) as u32 }),
        a + n >= SEEK_RETRY_CEILING ==> spec_run_fetch(
            FetchPhase::Seeking { attempts: a },
            spec_transient_trace(n),
            mode,
        ) == FetchPhase::Failed,
    decreases n,
{
    if n > 0 {
        let trace = spec_transient_trace(n);
        assert(trace.drop_first() =~= spec_transient_trace((n - 1) as nat));
        if a + 1 < SEEK_RETRY_CEILING {
            lemma_retry_bound_from((a + 1) as u32, (n - 1) as nat, mode);
        } else {
            lemma_fetch_failed_absorbs(spec_transient_trace((n - 1) as nat), mode);
        }
    }
}

/// The failed phase is terminal: no further event leaves it.
pub proof fn lemma_fetch_failed_absorbs(events: Seq<FetchEvent>, mode: FetchMode)
    ensures
        spec_run_fetch(FetchPhase::Failed, events, mode) == FetchPhase::Failed,
    decreases events.len(),
{
    if events.len() > 0 {
        lemma_fetch_failed_absorbs(events.drop_first(), mode);
    }
}

/// One header of a raw message: its key and its optional value bytes.
#[derive(Clone, Debug, PartialEq)]
pub struct RawHeader {
    pub key: String,
    pub value: Option<Vec<u8>>,
}

/// Mathematical model of one raw header.
#[verifier::ext_equal]
pub struct RawHeaderModel {
    pub key: Seq<char>,
    pub value: Option<Seq<u8>>,
}

impl View for RawHeader {
    type V = RawHeaderModel;

    open spec fn view(&self) -> RawHeaderModel {
        RawHeaderModel {
            key: self.key@,
            value: match self.value {
                Some(ref b) => Some(b@),
                None => None,
            },
        }
    }
}

/// A message as the broker client hands it over: opaque byte fields plus
/// position and time.
#[derive(Clone, Debug, PartialEq)]
pub struct RawMessage {
    pub key: Option<Vec<u8>>,
    pub payload: Option<Vec<u8>>,
    pub headers: Option<Vec<RawHeader>>,
    pub partition: i32,
    pub offset: i64,
    pub timestamp_ms: Option<i64>,
}

/// Mathematical model of a raw message.
#[verifier::ext_equal]
pub struct RawMessageModel {
    pub key: Option<Seq<u8>>,
    pub payload: Option<Seq<u8>>,
    pub headers: Option<Seq<RawHeaderModel>>,
    pub partition: i32,
    pub offset: i64,
    pub timestamp_ms: Option<i64>,
}

impl View for RawMessage {
    type V = RawMessageModel;

    open spec fn view(&self) -> RawMessageModel {
        RawMessageModel {
            key: match self.key {
                Some(ref b) => Some(b@),
                None => None,
            },
            payload: match self.payload {
                Some(ref b) => Some(b@),
                None => None,
            },
            headers: match self.headers {
                Some(ref hs) => Some(hs@.map_values(|h: RawHeader| h@)),
                None => None,
            },
            partition: self.partition,
            offset: self.offset,
            timestamp_ms: self.timestamp_ms,
        }
    }
}

/// One decoded message of the fetch window. Key, value and header values
/// are the UTF-8 readings of the raw bytes; a message may lack any of them.
#[derive(Clone, Debug, PartialEq)]
pub struct KafkaMessageResponse {
    pub headers: Option<Vec<(String, Option<String>)>>,
    pub value: Option<String>,
    pub key: Option<String>,
    pub offset: i64,
    pub partition: i32,
    pub timestamp: i64,
}

/// Mathematical model of one decoded message.
#[verifier::ext_equal]
pub struct MessageModel {
    pub headers: Option<Seq<(Seq<char>, Option<Seq<char>>)>>,
    pub value: Option<Seq<char>>,
    pub key: Option<Seq<char>>,
    pub offset: i64,
    pub partition: i32,
    pub timestamp: i64,
}

impl View for KafkaMessageResponse {
    type V = MessageModel;

    open spec fn view(&self) -> MessageModel {
        MessageModel {
            headers: match self.headers {
                Some(ref hs) => Some(
                    hs@.map_values(
                        |h: (String, Option<String>)|
                            (
                                h.0@,
                                match h.1 {
                                    Some(ref s) => Some(s@),
                                    None => None,
                                },
                            ),
                    ),
                ),
                None => None,
            },
            value: match self.value {
                Some(ref s) => Some(s@),
                None => None,
            },
            key: match self.key {
                Some(ref s) => Some(s@),
                None => None,
            },
            offset: self.offset,
            partition: self.partition,
            timestamp: self.timestamp,
        }
    }
}

/// An optional byte field decodes when absent or valid UTF-8.
pub open spec fn spec_opt_utf8_ok(b: Option<Seq<u8>>) -> bool {
    match b {
        None => true,
        Some(bytes) => valid_utf8(bytes),
    }
}

/// The UTF-8 reading of an optional byte field.
pub open spec fn spec_opt_utf8(b: Option<Seq<u8>>) -> Option<Seq<char>> {
    match b {
        None => None,
        Some(bytes) => Some(decode_utf8(bytes)),
    }
}

/// A whole raw message decodes: key, value and every header value are
/// absent or valid UTF-8, and the timestamp is present.
pub open spec fn spec_message_ok(m: RawMessageModel) -> bool {
    &&& spec_opt_utf8_ok(m.key)
    &&& spec_opt_utf8_ok(m.payload)
    &&& (match m.headers {
        None => true,
        Some(hs) => forall|i: int| 0 <= i < hs.len() ==> spec_opt_utf8_ok((#[trigger] hs[i]).value),
    })
    &&& m.timestamp_ms is Some
}

/// The decoded form of a raw message that decodes.
pub open spec fn spec_message_of(m: RawMessageModel) -> MessageModel {
    MessageModel {
        headers: match m.headers {
            None => None,
            Some(hs) => Some(
                hs.map_values(|h: RawHeaderModel| (h.key, spec_opt_utf8(h.value))),
            ),
        },
        value: spec_opt_utf8(m.payload),
        key: spec_opt_utf8(m.key),
        offset: m.offset,
        partition: m.partition,
        timestamp: m.timestamp_ms->0,
    }
}

fn clone_bytes(b: &Vec<u8>) -> (r: Vec<u8>)
    ensures
        r@ == b@,
{
    let mut out: Vec<u8> = Vec::new();
    let mut i: usize = 0;
    while i < b.len()
        invariant
            i <= b@.len(),
            out@ =~= b@.take(i as int),
        decreases b@.len() - i,
    {
        out.push(b[i]);
        i += 1;
    }
    proof {
        assert(b@.take(b@.len() as int) =~= b@);
    }
    out
}

/// The view of an optional byte field.
pub open spec fn opt_bytes_view(b: Option<Vec<u8>>) -> Option<Seq<u8>> {
    match b {
        Some(bytes) => Some(bytes@),
        None => None,
    }
}

/// The view of an optional string.
pub open spec fn opt_string_view(s: Option<String>) -> Option<Seq<char>> {
    match s {
        Some(t) => Some(t@),
        None => None,
    }
}

fn decode_opt_bytes(b: &Option<Vec<u8>>) -> (r: Result<Option<String>, ()>)
    ensures
        r is Ok <==> spec_opt_utf8_ok(opt_bytes_view(*b)),
        r matches Ok(s) ==> opt_string_view(s) == spec_opt_utf8(opt_bytes_view(*b)),
{
    match b {
        None => Ok(None),
        Some(bytes) => match crate::codec::utf8_to_string(clone_bytes(bytes)) {
            Some(s) => Ok(Some(s)),
            None => Err(()),
        },
    }
}

/// The models of a raw header list.
pub open spec fn headers_models(hs: Seq<RawHeader>) -> Seq<RawHeaderModel> {
    hs.map_values(|h: RawHeader| h@)
}

/// Every header value of the list is absent or valid UTF-8.
pub open spec fn spec_headers_ok(hs: Seq<RawHeaderModel>) -> bool {
    forall|i: int| 0 <= i < hs.len() ==> spec_opt_utf8_ok((#[trigger] hs[i]).value)
}

/// The decoded (key, value) pairs of a header list.
pub open spec fn spec_headers_of(hs: Seq<RawHeaderModel>) -> Seq<(Seq<char>, Option<Seq<char>>)> {
    hs.map_values(|h: RawHeaderModel| (h.key, spec_opt_utf8(h.value)))
}

/// The views of decoded header pairs.
pub open spec fn header_pairs_view(v: Seq<(String, Option<String>)>) -> Seq<
    (Seq<char>, Option<Seq<char>>),
> {
    v.map_values(|p: (String, Option<String>)| (p.0@, opt_string_view(p.1)))
}

fn decode_headers(hs: &Vec<RawHeader>) -> (r: Result<Vec<(String, Option<String>)>, ()>)
    ensures
        r is Ok <==> spec_headers_ok(headers_models(hs@)),
        r matches Ok(v) ==> header_pairs_view(v@) == spec_headers_of(headers_models(hs@)),
{
    let ghost models = headers_models(hs@);
    let mut out: Vec<(String, Option<String>)> = Vec::new();
    let mut i: usize = 0;
    while i < hs.len()
        invariant
            i <= hs@.len(),
            out@.len() == i,
            models == headers_models(hs@),
            forall|k: int| 0 <= k < i ==> spec_opt_utf8_ok((#[trigger] models[k]).value),
            forall|k: int|
                0 <= k < i ==> #[trigger] header_pairs_view(out@)[k] == spec_headers_of(models)[k],
        decreases hs@.len() - i,
    {
        let h = &hs[i];
        match decode_opt_bytes(&h.value) {
            Ok(hv) => {
                let ghost out_before = out@;
                out.push((h.key.clone(), hv));
                proof {
                    assert forall|k: int| 0 <= k < i + 1 implies #[trigger] header_pairs_view(
                        out@,
                    )[k] == spec_headers_of(models)[k] by {
                        if k < i {
                            assert(header_pairs_view(out@)[k] == header_pairs_view(out_before)[k]);
                        }
                    }
                }
            },
            Err(_) => {
                proof {
                    assert(!spec_opt_utf8_ok(models[i as int].value));
                }
                return Err(());
            },
        }
        i += 1;
    }
    proof {
        assert(header_pairs_view(out@) =~= spec_headers_of(models));
    }
    Ok(out)
}

/// Decode one raw message: key, value and header values are read as UTF-8,
/// any of them may be absent, and the broker timestamp must be present.
/// Fails with `Decode`, naming the partition and offset, exactly when some
/// byte field is not UTF-8 or the timestamp is missing.
pub fn process_message(m: &RawMessage) -> (r: Result<KafkaMessageResponse, FetchError>)
    ensures
        r is Ok <==> spec_message_ok(m@),
        r matches Ok(out) ==> out@ == spec_message_of(m@),
        r matches Err(e) ==> e == (FetchError::Decode { partition: m.partition, offset: m.offset }),
{
    let ghost model = m@;
    let partition = m.partition;
    let offset = m.offset;
    let fail = FetchError::Decode { partition, offset };
    let timestamp = match m.timestamp_ms {
        Some(t) => t,
        None => {
            return Err(fail);
        },
    };
    let key = match decode_opt_bytes(&m.key) {
        Ok(k) => k,
        Err(_) => {
            return Err(fail);
        },
    };
    let value = match decode_opt_bytes(&m.payload) {
        Ok(v) => v,
        Err(_) => {
            return Err(fail);
        },
    };
    let headers = match &m.headers {
        None => None,
        Some(hs) => {
            match decode_headers(hs) {
                Ok(pairs) => Some(pairs),
                Err(_) => {
                    return Err(fail);
                },
            }
        },
    };
    let out = KafkaMessageResponse { headers, value, key, offset, partition, timestamp };
    proof {
        assert(out@ =~= spec_message_of(model));
    }
    Ok(out)
}

/// Message `a` sorts at or before message `b` in a bounded window:
/// descending by timestamp, then descending by offset.
pub open spec fn spec_msg_ge(a: KafkaMessageResponse, b: KafkaMessageResponse) -> bool {
    a.timestamp > b.timestamp || (a.timestamp == b.timestamp && a.offset >= b.offset)
}

/// The rows are in window order: (timestamp, offset) descending.
pub open spec fn spec_msgs_sorted(rows: Seq<KafkaMessageResponse>) -> bool {
    forall|i: int, j: int| 0 <= i < j < rows.len() ==> spec_msg_ge(#[trigger] rows[i], #[trigger] rows[j])
}

fn msg_ge(a: &KafkaMessageResponse, b: &KafkaMessageResponse) -> (r: bool)
    ensures
        r == spec_msg_ge(*a, *b),
{
    a.timestamp > b.timestamp || (a.timestamp == b.timestamp && a.offset >= b.offset)
}

fn msg_insert_position(out: &Vec<KafkaMessageResponse>, x: &KafkaMessageResponse) -> (p: usize)
    ensures
        p <= out@.len(),
        forall|k: int| 0 <= k < p ==> spec_msg_ge(#[trigger] out@[k], *x),
        p < out@.len() ==> !spec_msg_ge(out@[p as int], *x),
{
    let mut p: usize = 0;
    while p < out.len()
        invariant
            p <= out@.len(),
            forall|k: int| 0 <= k < p ==> spec_msg_ge(#[trigger] out@[k], *x),
        decreases out@.len() - p,
    {
        if !msg_ge(&out[p], x) {
            return p;
        }
        p += 1;
    }
    p
}

/// Sort messages into window order, (timestamp, offset) descending: the
/// same messages, reordered.
pub fn sort_messages(list: Vec<KafkaMessageResponse>) -> (r: Vec<KafkaMessageResponse>)
    ensures
        r@.to_multiset() == list@.to_multiset(),
        spec_msgs_sorted(r@),
{
    broadcast use vstd::seq_lib::group_to_multiset_ensures, to_multiset_insert;

    let mut input = list;
    let mut out: Vec<KafkaMessageResponse> = Vec::new();
    proof {
        assert(out@.to_multiset().add(input@.to_multiset()) =~= list@.to_multiset());
    }
    while input.len() > 0
        invariant
            out@.to_multiset().add(input@.to_multiset()) == list@.to_multiset(),
            spec_msgs_sorted(out@),
        decreases input@.len(),
    {
        let ghost input_before = input@;
        let x = match input.pop() {
            Some(x) => x,
            None => {
                return out;
            },
        };
        proof {
            assert(input@.push(x) =~= input_before);
            vstd::seq_lib::to_multiset_build(input@, x);
            assert(input_before.to_multiset() == input@.to_multiset().insert(x));
        }
        let p = msg_insert_position(&out, &x);
        let ghost out_before = out@;
        proof {
            assert forall|k: int| p <= k < out_before.len() implies spec_msg_ge(
                x,
                #[trigger] out_before[k],
            ) by {}
        }
        out.insert(p, x);
        proof {
            assert(out@ == out_before.insert(p as int, x));
            out_before.insert_ensures(p as int, x);
            to_multiset_insert(out_before, p as int, x);
            assert(out@.to_multiset().add(input@.to_multiset()) =~= list@.to_multiset());
            assert forall|i: int, j: int| 0 <= i < j < out@.len() implies spec_msg_ge(
                #[trigger] out@[i],
                #[trigger] out@[j],
            ) by {
                let pp = p as int;
                if j < pp {
                    assert(out@[i] == out_before[i] && out@[j] == out_before[j]);
                } else if i > pp {
                    assert(out@[i] == out_before[i - 1] && out@[j] == out_before[j - 1]);
                } else if i == pp && j > pp {
                    assert(out@[j] == out_before[j - 1]);
                } else if j == pp {
                    assert(out@[i] == out_before[i]);
                } else if i < pp && j > pp {
                    assert(out@[i] == out_before[i] && out@[j] == out_before[j - 1]);
                }
            }
        }
    }
    out
}

/// Select the bounded fetch window: the `window_size` greatest messages by
/// (timestamp, offset), in that descending order. More rows than asked for
/// can arrive because the seek arithmetic runs independently per partition;
/// the result keeps only rows of the input (by count), every kept row at or
/// above every dropped one.
pub fn select_recent(records: Vec<KafkaMessageResponse>, window_size: usize) -> (r: Vec<
    KafkaMessageResponse,
>)
    ensures
        r@.len() == (if window_size <= records@.len() {
            window_size as int
        } else {
            records@.len() as int
        }),
        spec_msgs_sorted(r@),
        r@.to_multiset().subset_of(records@.to_multiset()),
        forall|i: int, y: KafkaMessageResponse|
            #![trigger r@[i], (records@.to_multiset().sub(r@.to_multiset())).count(y)]
            0 <= i < r@.len() && (records@.to_multiset().sub(r@.to_multiset())).count(y) > 0
                ==> spec_msg_ge(r@[i], y),
{
    broadcast use vstd::multiset::group_multiset_axioms;

    let ghost input = records@;
    let mut sorted = sort_messages(records);
    let ghost full = sorted@;
    proof {
        full.to_multiset_ensures();
        input.to_multiset_ensures();
        assert(full.len() == input.len());
    }
    sorted.truncate(window_size);
    proof {
        let kept = full.take(r_len(full.len() as int, window_size as int));
        let dropped = full.skip(r_len(full.len() as int, window_size as int));
        assert(sorted@ == kept);
        assert(kept + dropped =~= full);
        lemma_multiset_commutative(kept, dropped);
        assert(input.to_multiset() == kept.to_multiset().add(dropped.to_multiset()));
        assert forall|i: int, y: KafkaMessageResponse|
            #![trigger kept[i], (input.to_multiset().sub(kept.to_multiset())).count(y)]
            0 <= i < kept.len() && (input.to_multiset().sub(kept.to_multiset())).count(y)
                > 0 implies spec_msg_ge(kept[i], y) by {
            assert(dropped.to_multiset().count(y) > 0);
            dropped.to_multiset_ensures();
            assert(dropped.contains(y));
            let j = choose|j: int| 0 <= j < dropped.len() && dropped[j] == y;
            assert(full[kept.len() + j] == y);
            assert(spec_msg_ge(full[i], full[kept.len() + j]));
        }
    }
    sorted
}

/// The length of a window cut: the window size, or the row count where that
/// is smaller.
spec fn r_len(total: int, window: int) -> int {
    if window <= total {
        window
    } else {
        total
    }
}

/// The poll timeout in milliseconds: generous before the first message (it
/// covers first-connection latency), tight afterwards (an idle gap of this
/// length means no more messages are available now).
pub fn poll_timeout_ms(received_any: bool) -> (r: u64)
    ensures
        r == (if received_any {
            3000int
        } else {
            30000int
        }),
{
    if received_any {
        3000
    } else {
        30000
    }
}

} // verus!
