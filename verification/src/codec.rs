//! Binary decoder for the consumer-group member assignment payload.
//!
//! Wire layout (big-endian): `int16` version, `int32` topic count, then for
//! each topic an `int16` name length, the UTF-8 name bytes, an `int32`
//! partition count and that many `int32` partition ids. The version field is
//! read and ignored so that future versions sharing the layout still decode.
//! An absent (empty) payload decodes to an empty assignment list. A negative
//! topic or partition count reads as zero entries; a negative name length is
//! a truncation, since no byte run can satisfy it.

use vstd::prelude::*;
use vstd::utf8::*;

verus! {

/// Why an assignment payload failed to decode.
#[derive(Clone, Copy, Debug, PartialEq, Eq, Structural)]
pub enum DecodeError {
    /// The payload ends before a declared length is satisfied.
    Truncated,
    /// A topic name is not valid UTF-8.
    Encoding,
}

/// One topic of a member's assignment: the topic name and the partition ids
/// of that topic the member consumes.
#[derive(Clone, Debug, PartialEq)]
pub struct KafkaGroupMemberAssignment {
    pub topic: String,
    pub partitions: Vec<i32>,
}

/// Mathematical model of one decoded assignment entry.
#[verifier::ext_equal]
pub struct AssignmentModel {
    pub topic: Seq<char>,
    pub partitions: Seq<i32>,
}

impl View for KafkaGroupMemberAssignment {
    type V = AssignmentModel;

    open spec fn view(&self) -> AssignmentModel {
        AssignmentModel { topic: self.topic@, partitions: self.partitions@ }
    }
}

/// The models of a sequence of assignment entries.
pub open spec fn assignments_view(v: Seq<KafkaGroupMemberAssignment>) -> Seq<AssignmentModel> {
    v.map_values(|a: KafkaGroupMemberAssignment| a@)
}

/// The unsigned value of two big-endian bytes.
pub open spec fn be_u16(b0: u8, b1: u8) -> int {
    b0 * 0x100 + b1
}

/// The unsigned value of four big-endian bytes.
pub open spec fn be_u32(b0: u8, b1: u8, b2: u8, b3: u8) -> int {
    b0 * 0x100_0000 + b1 * 0x1_0000 + b2 * 0x100 + b3
}

/// Reinterpret an unsigned 32-bit value as the two's-complement signed value.
pub open spec fn i32_of_u32(v: int) -> i32 {
    if v >= 0x8000_0000 {
        (v - 0x1_0000_0000) as i32
    } else {
        v as i32
    }
}

/// The signed 32-bit value of the four big-endian bytes at `pos`.
pub open spec fn be_i32_at(b: Seq<u8>, pos: int) -> i32 {
    i32_of_u32(be_u32(b[pos], b[pos + 1], b[pos + 2], b[pos + 3]))
}

/// Decode `n` topic entries starting at `pos`. Mirrors the sequential wire
/// reads: any region that runs past the end of `b` is a truncation, and a
/// topic name that is not valid UTF-8 is an encoding error.
pub open spec fn spec_decode_topics(b: Seq<u8>, pos: int, n: nat) -> Result<
    Seq<AssignmentModel>,
    DecodeError,
>
    decreases n,
{
    if n == 0 {
        Ok(Seq::empty())
    } else if pos + 2 > b.len() {
        Err(DecodeError::Truncated)
    } else {
        let name_len = be_u16(b[pos], b[pos + 1]);
        if name_len >= 0x8000 {
            // a negative declared name length can never be satisfied
            Err(DecodeError::Truncated)
        } else if pos + 2 + name_len > b.len() {
            Err(DecodeError::Truncated)
        } else {
            let name_bytes = b.subrange(pos + 2, pos + 2 + name_len);
            if !valid_utf8(name_bytes) {
                Err(DecodeError::Encoding)
            } else {
                let ppos = pos + 2 + name_len;
                if ppos + 4 > b.len() {
                    Err(DecodeError::Truncated)
                } else {
                    let pcount_raw = be_u32(b[ppos], b[ppos + 1], b[ppos + 2], b[ppos + 3]);
                    let pcount: int = if pcount_raw >= 0x8000_0000 {
                        0
                    } else {
                        pcount_raw as int
                    };
                    if ppos + 4 + 4 * pcount > b.len() {
                        Err(DecodeError::Truncated)
                    } else {
                        let entry = AssignmentModel {
                            topic: decode_utf8(name_bytes),
                            partitions: Seq::new(
                                pcount as nat,
                                |i: int| be_i32_at(b, ppos + 4 + 4 * i),
                            ),
                        };
                        match spec_decode_topics(b, ppos + 4 + 4 * pcount, (n - 1) as nat) {
                            Ok(rest) => Ok(seq![entry] + rest),
                            Err(e) => Err(e),
                        }
                    }
                }
            }
        }
    }
}

/// Decode a whole assignment payload. An empty payload is a member with no
/// assignment yet and decodes to the empty list; any other payload too short
/// for the version and topic-count header is truncated. A negative topic
/// count decodes as zero topics.
pub open spec fn spec_decode(b: Seq<u8>) -> Result<Seq<AssignmentModel>, DecodeError> {
    if b.len() == 0 {
        Ok(Seq::empty())
    } else if b.len() < 6 {
        Err(DecodeError::Truncated)
    } else {
        let count_raw = be_u32(b[2], b[3], b[4], b[5]);
        let count: nat = if count_raw >= 0x8000_0000 {
            0
        } else {
            count_raw as nat
        };
        spec_decode_topics(b, 6, count)
    }
}

fn read_u16_be(b: &[u8], pos: usize) -> (r: u16)
    requires
        pos + 2 <= b@.len(),
    ensures
        r == be_u16(b@[pos as int], b@[pos as int + 1]),
{
    (b[pos] as u16) * 0x100 + (b[pos + 1] as u16)
}

fn read_u32_be(b: &[u8], pos: usize) -> (r: u32)
    requires
        pos + 4 <= b@.len(),
    ensures
        r == be_u32(
            b@[pos as int],
            b@[pos as int + 1],
            b@[pos as int + 2],
            b@[pos as int + 3],
        ),
{
    (b[pos] as u32) * 0x100_0000 + (b[pos + 1] as u32) * 0x1_0000 + (b[pos + 2] as u32) * 0x100
        + (b[pos + 3] as u32)
}

fn read_i32_be(b: &[u8], pos: usize) -> (r: i32)
    requires
        pos + 4 <= b@.len(),
    ensures
        r == be_i32_at(b@, pos as int),
{
    let v = read_u32_be(b, pos);
    if v >= 0x8000_0000 {
        let d = u32::MAX - v;
        -(d as i32) - 1
    } else {
        v as i32
    }
}

/// Relies on `String::from_utf8`: succeeds exactly when the bytes are valid
/// UTF-8, and then returns the string those bytes encode.
#[verifier::external_body]
pub(crate) fn utf8_to_string(bytes: Vec<u8>) -> (r: Option<String>)
    ensures
        r is Some <==> valid_utf8(bytes@),
        r matches Some(s) ==> s@ == decode_utf8(bytes@),
{
    match String::from_utf8(bytes) {
        Ok(s) => Some(s),
        Err(_) => None,
    }
}

/// Decode a member's raw assignment payload into its topic entries.
/// The result is exactly what the wire model [`spec_decode`] gives.
pub fn parse_assignment(bytes: &[u8]) -> (r: Result<
    Vec<KafkaGroupMemberAssignment>,
    DecodeError,
>)
    ensures
        r is Ok <==> spec_decode(bytes@) is Ok,
        r matches Ok(v) ==> Ok::<_, DecodeError>(assignments_view(v@)) == spec_decode(bytes@),
        r matches Err(e) ==> Err::<Seq<AssignmentModel>, _>(e) == spec_decode(bytes@),
{
    let len = bytes.len();
    if len == 0 {
        proof {
            assert(assignments_view(Seq::<KafkaGroupMemberAssignment>::empty()) =~= Seq::<
                AssignmentModel,
            >::empty());
        }
        return Ok(Vec::new());
    }
    if len < 6 {
        return Err(DecodeError::Truncated);
    }
    let count_raw = read_u32_be(bytes, 2);
    let count: usize = if count_raw >= 0x8000_0000 {
        0
    } else {
        count_raw as usize
    };
    let mut acc: Vec<KafkaGroupMemberAssignment> = Vec::new();
    let mut pos: usize = 6;
    let mut i: usize = 0;
    while i < count
        invariant
            i <= count,
            pos <= bytes@.len(),
            len == bytes@.len(),
            bytes@.len() >= 6,
            count < 0x8000_0000,
            ({
                match spec_decode_topics(bytes@, pos as int, (count - i) as nat) {
                    Ok(rest) => spec_decode(bytes@) == Ok::<_, DecodeError>(
                        assignments_view(acc@) + rest,
                    ),
                    Err(e) => spec_decode(bytes@) == Err::<Seq<AssignmentModel>, _>(e),
                }
            }),
        decreases count - i,
    {
        let ghost rem = (count - i) as nat;
        if len - pos < 2 {
            assert(spec_decode_topics(bytes@, pos as int, rem) == Err::<
                Seq<AssignmentModel>,
                _,
            >(DecodeError::Truncated));
            return Err(DecodeError::Truncated);
        }
        let name_len_raw = read_u16_be(bytes, pos);
        if name_len_raw >= 0x8000 {
            return Err(DecodeError::Truncated);
        }
        let name_len = name_len_raw as usize;
        if name_len > len - pos - 2 {
            return Err(DecodeError::Truncated);
        }
        let name_end = pos + 2 + name_len;
        let mut name_bytes: Vec<u8> = Vec::new();
        let mut k: usize = pos + 2;
        while k < name_end
            invariant
                pos + 2 <= k <= name_end <= bytes@.len(),
                name_bytes@ =~= bytes@.subrange(pos + 2, k as int),
            decreases name_end - k,
        {
            name_bytes.push(bytes[k]);
            k += 1;
        }
        let topic = match utf8_to_string(name_bytes) {
            Some(t) => t,
            None => {
                return Err(DecodeError::Encoding);
            },
        };
        let ppos = name_end;
        if len - ppos < 4 {
            return Err(DecodeError::Truncated);
        }
        let pcount_raw = read_u32_be(bytes, ppos);
        let pcount: usize = if pcount_raw >= 0x8000_0000 {
            0
        } else {
            pcount_raw as usize
        };
        if (pcount as u64) * 4 > (len - ppos - 4) as u64 {
            return Err(DecodeError::Truncated);
        }
        let mut partitions: Vec<i32> = Vec::new();
        let mut j: usize = 0;
        while j < pcount
            invariant
                j <= pcount,
                len == bytes@.len(),
                ppos + 4 + 4 * pcount <= bytes@.len(),
                partitions@ =~= Seq::new(j as nat, |q: int| be_i32_at(bytes@, ppos + 4 + 4 * q)),
            decreases pcount - j,
        {
            partitions.push(read_i32_be(bytes, ppos + 4 + 4 * j));
            proof {
                assert(partitions@ =~= Seq::new(
                    (j + 1) as nat,
                    |q: int| be_i32_at(bytes@, ppos + 4 + 4 * q),
                ));
            }
            j += 1;
        }
        let next_pos = ppos + 4 + 4 * pcount;
        let ghost entry = AssignmentModel {
            topic: decode_utf8(bytes@.subrange(pos + 2, pos + 2 + name_len as int)),
            partitions: Seq::new(pcount as nat, |q: int| be_i32_at(bytes@, ppos + 4 + 4 * q)),
        };
        let ghost prev_acc = acc@;
        acc.push(KafkaGroupMemberAssignment { topic, partitions });
        proof {
            let step = spec_decode_topics(bytes@, pos as int, rem);
            let rest_result = spec_decode_topics(bytes@, next_pos as int, (rem - 1) as nat);
            assert(step == (match rest_result {
                Ok(rest) => Ok::<_, DecodeError>(seq![entry] + rest),
                Err(e) => Err::<Seq<AssignmentModel>, _>(e),
            }));
            if rest_result is Ok {
                assert(assignments_view(acc@) =~= assignments_view(prev_acc).push(entry));
                assert(assignments_view(prev_acc) + (seq![entry] + rest_result.unwrap())
                    =~= assignments_view(acc@) + rest_result.unwrap());
            }
        }
        pos = next_pos;
        i += 1;
    }
    proof {
        assert(spec_decode_topics(bytes@, pos as int, 0) == Ok::<_, DecodeError>(
            Seq::<AssignmentModel>::empty(),
        ));
        assert(assignments_view(acc@) + Seq::<AssignmentModel>::empty() =~= assignments_view(
            acc@,
        ));
    }
    Ok(acc)
}

/// The two big-endian bytes of an unsigned 16-bit value.
pub open spec fn u16_be_bytes(v: int) -> Seq<u8> {
    seq![(v / 0x100) as u8, (v % 0x100) as u8]
}

/// The four big-endian bytes of an unsigned 32-bit value.
pub open spec fn u32_be_bytes(v: int) -> Seq<u8> {
    seq![
        ((v / 0x100_0000) % 0x100) as u8,
        ((v / 0x1_0000) % 0x100) as u8,
        ((v / 0x100) % 0x100) as u8,
        (v % 0x100) as u8,
    ]
}

/// The two's-complement unsigned reading of a signed 32-bit value.
pub open spec fn u32_of_i32(v: i32) -> int {
    if v < 0 {
        v + 0x1_0000_0000
    } else {
        v as int
    }
}

/// The four big-endian bytes of a signed 32-bit value.
pub open spec fn i32_be_bytes(v: i32) -> Seq<u8> {
    u32_be_bytes(u32_of_i32(v))
}

/// The wire bytes of a partition-id list.
pub open spec fn spec_encode_partitions(p: Seq<i32>) -> Seq<u8>
    decreases p.len(),
{
    if p.len() == 0 {
        Seq::empty()
    } else {
        i32_be_bytes(p[0]) + spec_encode_partitions(p.drop_first())
    }
}

/// The wire bytes of one topic entry: name length, name, partition count,
/// partition ids.
pub open spec fn spec_encode_entry(a: AssignmentModel) -> Seq<u8> {
    u16_be_bytes(encode_utf8(a.topic).len() as int) + encode_utf8(a.topic) + u32_be_bytes(
        a.partitions.len() as int,
    ) + spec_encode_partitions(a.partitions)
}

/// The wire bytes of a topic-entry list.
pub open spec fn spec_encode_topics(s: Seq<AssignmentModel>) -> Seq<u8>
    decreases s.len(),
{
    if s.len() == 0 {
        Seq::empty()
    } else {
        spec_encode_entry(s[0]) + spec_encode_topics(s.drop_first())
    }
}

/// An entry fits the wire format: its name length fits a non-negative
/// `int16` and its partition count a non-negative `int32`.
pub open spec fn encodable_entry(a: AssignmentModel) -> bool {
    encode_utf8(a.topic).len() < 0x8000 && a.partitions.len() < 0x8000_0000
}

/// An assignment list fits the wire format.
pub open spec fn encodable(s: Seq<AssignmentModel>) -> bool {
    s.len() < 0x8000_0000 && forall|i: int| 0 <= i < s.len() ==> encodable_entry(#[trigger] s[i])
}

/// The wire bytes of a whole assignment payload under the given version.
pub open spec fn spec_encode(version: int, s: Seq<AssignmentModel>) -> Seq<u8> {
    u16_be_bytes(version) + u32_be_bytes(s.len() as int) + spec_encode_topics(s)
}

proof fn lemma_encode_partitions_snoc(p: Seq<i32>, v: i32)
    ensures
        spec_encode_partitions(p.push(v)) == spec_encode_partitions(p) + i32_be_bytes(v),
    decreases p.len(),
{
    if p.len() == 0 {
        assert(p.push(v).drop_first() =~= Seq::<i32>::empty());
        assert(spec_encode_partitions(p) + i32_be_bytes(v) =~= i32_be_bytes(v)
            + spec_encode_partitions(Seq::<i32>::empty()));
    } else {
        assert(p.push(v).drop_first() =~= p.drop_first().push(v));
        lemma_encode_partitions_snoc(p.drop_first(), v);
        assert(i32_be_bytes(p[0]) + (spec_encode_partitions(p.drop_first()) + i32_be_bytes(v))
            =~= (i32_be_bytes(p[0]) + spec_encode_partitions(p.drop_first())) + i32_be_bytes(v));
    }
}

proof fn lemma_encode_topics_snoc(s: Seq<AssignmentModel>, e: AssignmentModel)
    ensures
        spec_encode_topics(s.push(e)) == spec_encode_topics(s) + spec_encode_entry(e),
    decreases s.len(),
{
    if s.len() == 0 {
        assert(s.push(e).drop_first() =~= Seq::<AssignmentModel>::empty());
        assert(spec_encode_topics(s) + spec_encode_entry(e) =~= spec_encode_entry(e)
            + spec_encode_topics(Seq::<AssignmentModel>::empty()));
    } else {
        assert(s.push(e).drop_first() =~= s.drop_first().push(e));
        lemma_encode_topics_snoc(s.drop_first(), e);
        assert(spec_encode_entry(s[0]) + (spec_encode_topics(s.drop_first())
            + spec_encode_entry(e)) =~= (spec_encode_entry(s[0]) + spec_encode_topics(
            s.drop_first(),
        )) + spec_encode_entry(e));
    }
}

fn push_u16_be(out: &mut Vec<u8>, v: u16)
    ensures
        final(out)@ == old(out)@ + u16_be_bytes(v as int),
{
    out.push((v / 0x100) as u8);
    out.push((v % 0x100) as u8);
    proof {
        assert(out@ =~= old(out)@ + u16_be_bytes(v as int));
    }
}

fn push_u32_be(out: &mut Vec<u8>, v: u32)
    ensures
        final(out)@ == old(out)@ + u32_be_bytes(v as int),
{
    out.push(((v / 0x100_0000) % 0x100) as u8);
    out.push(((v / 0x1_0000) % 0x100) as u8);
    out.push(((v / 0x100) % 0x100) as u8);
    out.push((v % 0x100) as u8);
    proof {
        assert(out@ =~= old(out)@ + u32_be_bytes(v as int));
    }
}

fn push_i32_be(out: &mut Vec<u8>, v: i32)
    ensures
        final(out)@ == old(out)@ + i32_be_bytes(v),
{
    let u: u32 = if v < 0 {
        let d = -(v + 1);
        u32::MAX - (d as u32)
    } else {
        v as u32
    };
    proof {
        assert(u as int == u32_of_i32(v));
    }
    push_u32_be(out, u);
}

fn push_bytes(out: &mut Vec<u8>, bytes: &[u8])
    ensures
        final(out)@ == old(out)@ + bytes@,
{
    let ghost base = out@;
    let mut k: usize = 0;
    while k < bytes.len()
        invariant
            k <= bytes@.len(),
            out@ =~= base + bytes@.take(k as int),
        decreases bytes@.len() - k,
    {
        out.push(bytes[k]);
        k += 1;
    }
    proof {
        assert(base + bytes@.take(bytes@.len() as int) =~= base + bytes@);
    }
}

/// Encode an assignment list in the broker wire format under the given
/// version word. Returns `None` exactly when the list cannot be represented:
/// a topic name of 32 Ki bytes or more, or a topic or partition count that
/// overflows a signed 32-bit counter.
pub fn encode_assignment(version: u16, assigns: &Vec<KafkaGroupMemberAssignment>) -> (r: Option<
    Vec<u8>,
>)
    ensures
        r is Some <==> encodable(assignments_view(assigns@)),
        r matches Some(v) ==> v@ == spec_encode(version as int, assignments_view(assigns@)),
{
    let ghost s = assignments_view(assigns@);
    if assigns.len() >= 0x8000_0000 {
        return None;
    }
    let mut i: usize = 0;
    while i < assigns.len()
        invariant
            i <= assigns@.len(),
            s == assignments_view(assigns@),
            forall|k: int| 0 <= k < i ==> encodable_entry(#[trigger] s[k]),
        decreases assigns@.len() - i,
    {
        if assigns[i].topic.as_str().as_bytes().len() >= 0x8000 {
            assert(!encodable_entry(s[i as int]));
            return None;
        }
        if assigns[i].partitions.len() >= 0x8000_0000 {
            assert(!encodable_entry(s[i as int]));
            return None;
        }
        i += 1;
    }
    assert(encodable(s));
    let mut out: Vec<u8> = Vec::new();
    push_u16_be(&mut out, version);
    push_u32_be(&mut out, assigns.len() as u32);
    let ghost header = u16_be_bytes(version as int) + u32_be_bytes(s.len() as int);
    proof {
        assert(out@ =~= header);
        assert(spec_encode_topics(s.take(0)) =~= Seq::<u8>::empty());
        assert(out@ =~= header + spec_encode_topics(s.take(0)));
    }
    let mut i: usize = 0;
    while i < assigns.len()
        invariant
            i <= assigns@.len(),
            s == assignments_view(assigns@),
            encodable(s),
            out@ == header + spec_encode_topics(s.take(i as int)),
        decreases assigns@.len() - i,
    {
        let ghost out_entry_base = out@;
        let name_bytes = assigns[i].topic.as_str().as_bytes();
        push_u16_be(&mut out, name_bytes.len() as u16);
        push_bytes(&mut out, name_bytes);
        push_u32_be(&mut out, assigns[i].partitions.len() as u32);
        let ghost parts = s[i as int].partitions;
        let ghost out_parts_base = out@;
        let mut j: usize = 0;
        while j < assigns[i].partitions.len()
            invariant
                i < assigns@.len(),
                j <= parts.len(),
                parts == assignments_view(assigns@)[i as int].partitions,
                parts == assigns@[i as int]@.partitions,
                out@ == out_parts_base + spec_encode_partitions(parts.take(j as int)),
            decreases parts.len() - j,
        {
            push_i32_be(&mut out, assigns[i].partitions[j]);
            proof {
                lemma_encode_partitions_snoc(parts.take(j as int), parts[j as int]);
                assert(parts.take(j as int).push(parts[j as int]) =~= parts.take(j + 1));
            }
            j += 1;
        }
        proof {
            assert(parts.take(parts.len() as int) =~= parts);
            let entry = s[i as int];
            assert(out@ =~= out_entry_base + spec_encode_entry(entry));
            lemma_encode_topics_snoc(s.take(i as int), entry);
            assert(s.take(i as int).push(entry) =~= s.take(i + 1));
            assert(out@ =~= header + spec_encode_topics(s.take(i + 1)));
        }
        i += 1;
    }
    proof {
        assert(s.take(s.len() as int) =~= s);
    }
    Some(out)
}

proof fn lemma_be_u16_round(v: int)
    requires
        0 <= v < 0x1_0000,
    ensures
        be_u16(u16_be_bytes(v)[0], u16_be_bytes(v)[1]) == v,
{
}

proof fn lemma_be_u32_round(v: int)
    requires
        0 <= v < 0x1_0000_0000,
    ensures
        be_u32(u32_be_bytes(v)[0], u32_be_bytes(v)[1], u32_be_bytes(v)[2], u32_be_bytes(v)[3])
            == v,
{
}

proof fn lemma_be_i32_round(v: i32)
    ensures
        i32_of_u32(be_u32(i32_be_bytes(v)[0], i32_be_bytes(v)[1], i32_be_bytes(v)[2],
        i32_be_bytes(v)[3])) == v,
{
    lemma_be_u32_round(u32_of_i32(v));
}

proof fn lemma_encode_partitions_bytes(p: Seq<i32>)
    ensures
        spec_encode_partitions(p).len() == 4 * p.len(),
        forall|j: int|
            0 <= j < 4 * p.len() ==> #[trigger] spec_encode_partitions(p)[j] == i32_be_bytes(
                p[j / 4],
            )[j % 4],
    decreases p.len(),
{
    if p.len() > 0 {
        lemma_encode_partitions_bytes(p.drop_first());
        let head = i32_be_bytes(p[0]);
        let rest = spec_encode_partitions(p.drop_first());
        assert forall|j: int| 0 <= j < 4 * p.len() implies #[trigger] spec_encode_partitions(p)[j]
            == i32_be_bytes(p[j / 4])[j % 4] by {
            if j < 4 {
                assert((head + rest)[j] == head[j]);
                assert(j / 4 == 0 && j % 4 == j);
            } else {
                assert((head + rest)[j] == rest[j - 4]);
                assert(rest[j - 4] == i32_be_bytes(p.drop_first()[(j - 4) / 4])[(j - 4) % 4]);
                assert((j - 4) / 4 == j / 4 - 1 && (j - 4) % 4 == j % 4);
                assert(p.drop_first()[j / 4 - 1] == p[j / 4]);
            }
        }
    }
}

/// Where each byte of one encoded entry comes from: the name length, the
/// name, the partition count, then the partition ids.
proof fn lemma_entry_bytes(e: AssignmentModel)
    ensures
        spec_encode_entry(e).len() == 2 + encode_utf8(e.topic).len() + 4 + 4 * e.partitions.len(),
        forall|j: int|
            0 <= j < spec_encode_entry(e).len() ==> #[trigger] spec_encode_entry(e)[j] == ({
                let nl = encode_utf8(e.topic).len() as int;
                if j < 2 {
                    u16_be_bytes(nl)[j]
                } else if j < 2 + nl {
                    encode_utf8(e.topic)[j - 2]
                } else if j < 2 + nl + 4 {
                    u32_be_bytes(e.partitions.len() as int)[j - 2 - nl]
                } else {
                    spec_encode_partitions(e.partitions)[j - 2 - nl - 4]
                }
            }),
{
    lemma_encode_partitions_bytes(e.partitions);
    let a = u16_be_bytes(encode_utf8(e.topic).len() as int);
    let nb = encode_utf8(e.topic);
    let c = u32_be_bytes(e.partitions.len() as int);
    let d = spec_encode_partitions(e.partitions);
    let nl = nb.len() as int;
    assert(spec_encode_entry(e) == ((a + nb) + c) + d);
    assert forall|j: int| 0 <= j < spec_encode_entry(e).len() implies #[trigger] spec_encode_entry(
        e,
    )[j] == ({
        if j < 2 {
            a[j]
        } else if j < 2 + nl {
            nb[j - 2]
        } else if j < 2 + nl + 4 {
            c[j - 2 - nl]
        } else {
            d[j - 2 - nl - 4]
        }
    }) by {
        if j < 2 + nl + 4 {
            assert((((a + nb) + c) + d)[j] == ((a + nb) + c)[j]);
            if j < 2 + nl {
                assert(((a + nb) + c)[j] == (a + nb)[j]);
            } else {
                assert(((a + nb) + c)[j] == c[j - 2 - nl]);
            }
        } else {
            assert((((a + nb) + c) + d)[j] == d[j - 2 - nl - 4]);
        }
    }
}

/// One intact encoded entry at `pos` decodes to exactly that entry, whatever
/// the bytes after it hold.
proof fn lemma_decode_entry(b: Seq<u8>, pos: int, e: AssignmentModel, n: nat)
    requires
        n >= 1,
        encodable_entry(e),
        0 <= pos,
        pos + spec_encode_entry(e).len() <= b.len(),
        b.subrange(pos, pos + spec_encode_entry(e).len()) =~= spec_encode_entry(e),
    ensures
        spec_decode_topics(b, pos, n) == (match spec_decode_topics(
            b,
            pos + spec_encode_entry(e).len(),
            (n - 1) as nat,
        ) {
            Ok(rest) => Ok::<_, DecodeError>(seq![e] + rest),
            Err(err) => Err::<Seq<AssignmentModel>, _>(err),
        }),
{
    broadcast use encode_utf8_valid_utf8, encode_utf8_decode_utf8;

    let nb = encode_utf8(e.topic);
    let nl = nb.len() as int;
    let pc = e.partitions.len() as int;
    lemma_encode_partitions_bytes(e.partitions);
    lemma_entry_bytes(e);
    let enc = spec_encode_entry(e);
    let elen = enc.len() as int;
    assert forall|j: int| pos <= j < pos + elen implies b[j] == enc[j - pos] by {
        assert(b.subrange(pos, pos + elen)[j - pos] == enc[j - pos]);
    }

    lemma_be_u16_round(nl);
    assert(b[pos] == u16_be_bytes(nl)[0] && b[pos + 1] == u16_be_bytes(nl)[1]);
    assert(be_u16(b[pos], b[pos + 1]) == nl);

    assert(b.subrange(pos + 2, pos + 2 + nl) =~= nb);
    assert(valid_utf8(b.subrange(pos + 2, pos + 2 + nl)));
    assert(decode_utf8(b.subrange(pos + 2, pos + 2 + nl)) == e.topic);

    let ppos = pos + 2 + nl;
    lemma_be_u32_round(pc);
    assert(b[ppos] == u32_be_bytes(pc)[0] && b[ppos + 1] == u32_be_bytes(pc)[1] && b[ppos + 2]
        == u32_be_bytes(pc)[2] && b[ppos + 3] == u32_be_bytes(pc)[3]);
    assert(be_u32(b[ppos], b[ppos + 1], b[ppos + 2], b[ppos + 3]) == pc);

    let pbase = ppos + 4;
    assert forall|i: int| 0 <= i < pc implies be_i32_at(b, pbase + 4 * i) == e.partitions[i] by {
        lemma_be_i32_round(e.partitions[i]);
        let r = i32_be_bytes(e.partitions[i]);
        assert forall|k: int| 0 <= k < 4 implies b[pbase + 4 * i + k] == r[k] by {
            assert(b[pbase + 4 * i + k] == enc[pbase + 4 * i + k - pos]);
            assert(enc[2 + nl + 4 + 4 * i + k] == spec_encode_partitions(e.partitions)[4 * i + k]);
            assert(spec_encode_partitions(e.partitions)[4 * i + k] == i32_be_bytes(
                e.partitions[(4 * i + k) / 4],
            )[(4 * i + k) % 4]);
            assert((4 * i + k) / 4 == i && (4 * i + k) % 4 == k);
        }
        assert(be_u32(b[pbase + 4 * i], b[pbase + 4 * i + 1], b[pbase + 4 * i + 2], b[pbase + 4
            * i + 3]) == be_u32(r[0], r[1], r[2], r[3]));
    }
    assert(Seq::new(pc as nat, |i: int| be_i32_at(b, pbase + 4 * i)) =~= e.partitions);
    assert(AssignmentModel {
        topic: decode_utf8(b.subrange(pos + 2, pos + 2 + nl)),
        partitions: Seq::new(pc as nat, |i: int| be_i32_at(b, pbase + 4 * i)),
    } =~= e);
}

/// Round trip at the topic-list level: an exactly encoded topic list decodes
/// back to itself.
#[verifier::rlimit(50)]
proof fn lemma_decode_encoded_topics(b: Seq<u8>, pos: int, s: Seq<AssignmentModel>)
    requires
        forall|i: int| 0 <= i < s.len() ==> encodable_entry(#[trigger] s[i]),
        0 <= pos <= b.len(),
        b.len() == pos + spec_encode_topics(s).len(),
        b.subrange(pos, b.len() as int) =~= spec_encode_topics(s),
    ensures
        spec_decode_topics(b, pos, s.len()) == Ok::<_, DecodeError>(s),
    decreases s.len(),
{
    if s.len() == 0 {
        assert(s =~= Seq::<AssignmentModel>::empty());
    } else {
        let e = s[0];
        let enc = spec_encode_topics(s);
        let entry = spec_encode_entry(e);
        let elen = entry.len() as int;
        let tail = spec_encode_topics(s.drop_first());
        let end = b.len() as int;
        assert(b.subrange(pos, pos + elen) =~= entry) by {
            assert forall|i: int| 0 <= i < elen implies b.subrange(pos, pos + elen)[i]
                == entry[i] by {
                assert(b.subrange(pos, end)[i] == enc[i]);
            }
        }
        lemma_decode_entry(b, pos, e, s.len());
        assert(b.subrange(pos + elen, end) =~= tail) by {
            assert forall|i: int| 0 <= i < end - pos - elen implies b.subrange(pos + elen, end)[i]
                == tail[i] by {
                assert(b.subrange(pos, end)[elen + i] == enc[elen + i]);
            }
        }
        lemma_decode_encoded_topics(b, pos + elen, s.drop_first());
        assert(seq![e] + s.drop_first() =~= s);
    }
}

/// Round trip for a whole payload: decoding the encoding of any
/// wire-representable assignment list, under any version, yields exactly
/// that list.
pub proof fn lemma_decode_encode(version: int, s: Seq<AssignmentModel>)
    requires
        0 <= version < 0x1_0000,
        encodable(s),
    ensures
        spec_decode(spec_encode(version, s)) == Ok::<_, DecodeError>(s),
{
    let b = spec_encode(version, s);
    assert(b.len() == 6 + spec_encode_topics(s).len());
    assert(b.subrange(2, 6) =~= u32_be_bytes(s.len() as int));
    lemma_be_u32_round(s.len() as int);
    assert(be_u32(b[2], b[3], b[4], b[5]) == s.len());
    assert(b.subrange(6, b.len() as int) =~= spec_encode_topics(s));
    lemma_decode_encoded_topics(b, 6, s);
}

/// A cut strictly inside one encoded entry makes the decoder report a
/// truncation, whichever region the cut lands in.
proof fn lemma_decode_entry_truncated(b: Seq<u8>, pos: int, e: AssignmentModel, n: nat)
    requires
        n >= 1,
        encodable_entry(e),
        0 <= pos <= b.len(),
        b.len() < pos + spec_encode_entry(e).len(),
        b.subrange(pos, b.len() as int) =~= spec_encode_entry(e).take(b.len() - pos),
    ensures
        spec_decode_topics(b, pos, n) == Err::<Seq<AssignmentModel>, _>(DecodeError::Truncated),
{
    broadcast use encode_utf8_valid_utf8;

    let nb = encode_utf8(e.topic);
    let nl = nb.len() as int;
    let pc = e.partitions.len() as int;
    lemma_entry_bytes(e);
    let cut = b.len() as int;
    let enc = spec_encode_entry(e);
    assert(enc.len() == 2 + nl + 4 + 4 * pc);
    assert forall|j: int| pos <= j < cut implies b[j] == enc[j - pos] by {
        assert(b.subrange(pos, cut)[j - pos] == enc.take(cut - pos)[j - pos]);
    }
    if pos + 2 > cut {
    } else {
        lemma_be_u16_round(nl);
        assert(b[pos] == u16_be_bytes(nl)[0] && b[pos + 1] == u16_be_bytes(nl)[1]);
        assert(be_u16(b[pos], b[pos + 1]) == nl);
        if pos + 2 + nl > cut {
        } else {
            assert(b.subrange(pos + 2, pos + 2 + nl) =~= nb);
            let ppos = pos + 2 + nl;
            if ppos + 4 > cut {
            } else {
                lemma_be_u32_round(pc);
                assert(b[ppos] == u32_be_bytes(pc)[0] && b[ppos + 1] == u32_be_bytes(pc)[1]
                    && b[ppos + 2] == u32_be_bytes(pc)[2] && b[ppos + 3] == u32_be_bytes(pc)[3]);
                assert(be_u32(b[ppos], b[ppos + 1], b[ppos + 2], b[ppos + 3]) == pc);
                assert(ppos + 4 + 4 * pc > cut);
            }
        }
    }
}

/// A cut strictly inside an encoded topic list makes the decoder report a
/// truncation.
#[verifier::rlimit(100)]
proof fn lemma_decode_topics_truncated(b: Seq<u8>, pos: int, s: Seq<AssignmentModel>)
    requires
        forall|i: int| 0 <= i < s.len() ==> encodable_entry(#[trigger] s[i]),
        s.len() >= 1,
        0 <= pos <= b.len(),
        b.len() < pos + spec_encode_topics(s).len(),
        b.subrange(pos, b.len() as int) =~= spec_encode_topics(s).take(b.len() - pos),
    ensures
        spec_decode_topics(b, pos, s.len()) == Err::<Seq<AssignmentModel>, _>(
            DecodeError::Truncated,
        ),
    decreases s.len(),
{
    let e = s[0];
    let enc = spec_encode_topics(s);
    let entry = spec_encode_entry(e);
    let elen = entry.len() as int;
    let tail = spec_encode_topics(s.drop_first());
    let cut = b.len() as int;
    if cut < pos + elen {
        assert(b.subrange(pos, cut) =~= entry.take(cut - pos)) by {
            assert forall|i: int| 0 <= i < cut - pos implies b.subrange(pos, cut)[i] == entry.take(
                cut - pos,
            )[i] by {
                assert(b.subrange(pos, cut)[i] == enc.take(cut - pos)[i]);
            }
        }
        lemma_decode_entry_truncated(b, pos, e, s.len());
    } else {
        assert(b.subrange(pos, pos + elen) =~= entry) by {
            assert forall|i: int| 0 <= i < elen implies b.subrange(pos, pos + elen)[i]
                == entry[i] by {
                assert(b.subrange(pos, cut)[i] == enc.take(cut - pos)[i]);
            }
        }
        lemma_decode_entry(b, pos, e, s.len());
        assert(tail.len() > 0);
        assert(s.drop_first().len() >= 1);
        assert(b.subrange(pos + elen, cut) =~= tail.take(cut - (pos + elen))) by {
            assert forall|i: int| 0 <= i < cut - pos - elen implies #[trigger] b.subrange(
                pos + elen,
                cut,
            )[i] == tail.take(cut - (pos + elen))[i] by {
                assert(b.subrange(pos, cut)[elen + i] == enc.take(cut - pos)[elen + i]);
            }
        }
        lemma_decode_topics_truncated(b, pos + elen, s.drop_first());
    }
}

/// Truncation safety: any strict non-empty prefix of a valid encoding — a
/// cut before some declared length is satisfied — decodes to `Truncated`,
/// never to a wrong value. (The empty prefix is the one exception: an absent
/// payload deliberately decodes to an empty assignment list.)
pub proof fn lemma_decode_truncated(version: int, s: Seq<AssignmentModel>, cut: int)
    requires
        0 <= version < 0x1_0000,
        encodable(s),
        0 < cut < spec_encode(version, s).len(),
    ensures
        spec_decode(spec_encode(version, s).take(cut)) == Err::<Seq<AssignmentModel>, _>(
            DecodeError::Truncated,
        ),
{
    let full = spec_encode(version, s);
    let b = full.take(cut);
    assert(full.len() == 6 + spec_encode_topics(s).len());
    if cut < 6 {
    } else {
        assert(s.len() >= 1);
        assert(b.subrange(2, 6) =~= u32_be_bytes(s.len() as int));
        lemma_be_u32_round(s.len() as int);
        assert(be_u32(b[2], b[3], b[4], b[5]) == s.len());
        assert(b.subrange(6, cut) =~= spec_encode_topics(s).take(cut - 6));
        lemma_decode_topics_truncated(b, 6, s);
    }
}

} // verus!
