//! The message codec: big-endian field reads, header and question
//! serialization, and the decoders for questions, resource records and whole
//! messages.  Every decoder either fully succeeds or fails with a typed
//! error; no partial message is ever handed to the resolution engine.

use vstd::prelude::*;
use rand::Rng;
use vstd::slice::slice_index_get;

use crate::name::{
    decode_name, encode_name_bytes, spec_decode_name, spec_encode_name, str_bytes, valid_dns_name,
};
use crate::types::{
    DnsError, DnsHeader, DnsPacket, DnsQuestion, DnsRecord, DnsRecordData, Ipv4Addr, PacketModel,
    QuestionModel, RecordDataModel, RecordModel, CLASS_IN, TYPE_A, TYPE_NS,
};

verus! {

/// The big-endian 16-bit value of two bytes.
pub open spec fn be16(hi: u8, lo: u8) -> u16 {
    ((hi as int) * 256 + (lo as int)) as u16
}

/// The big-endian 32-bit value of four bytes.
pub open spec fn be32(b0: u8, b1: u8, b2: u8, b3: u8) -> u32 {
    ((((b0 as int) * 256 + (b1 as int)) * 256 + (b2 as int)) * 256 + (b3 as int)) as u32
}

/// The two big-endian bytes of a 16-bit value.
pub open spec fn be16_bytes(x: u16) -> Seq<u8> {
    seq![(x / 256) as u8, (x % 256) as u8]
}

/// Reads the big-endian 16-bit field at `at`.
fn read_u16(buf: &[u8], at: usize) -> (x: u16)
    requires
        at + 2 <= buf@.len(),
    ensures
        x == be16(buf@[at as int], buf@[at + 1]),
{
    let n = buf.len();
    let hi = *slice_index_get(buf, at);
    let lo = *slice_index_get(buf, at + 1);
    (hi as u16) * 256 + (lo as u16)
}

/// Reads the big-endian 32-bit field at `at`.
fn read_u32(buf: &[u8], at: usize) -> (x: u32)
    requires
        at + 4 <= buf@.len(),
    ensures
        x == be32(buf@[at as int], buf@[at + 1], buf@[at + 2], buf@[at + 3]),
{
    let n = buf.len();
    let b0 = *slice_index_get(buf, at);
    let b1 = *slice_index_get(buf, at + 1);
    let b2 = *slice_index_get(buf, at + 2);
    let b3 = *slice_index_get(buf, at + 3);
    (((b0 as u32) * 256 + (b1 as u32)) * 256 + (b2 as u32)) * 256 + (b3 as u32)
}

/// Appends the two big-endian bytes of `x` to `out`.
fn push_u16(out: &mut Vec<u8>, x: u16)
    ensures
        final(out)@ == old(out)@ + be16_bytes(x),
{
    out.push((x / 256) as u8);
    out.push((x % 256) as u8);
    assert(out@ =~= old(out)@ + be16_bytes(x));
}

/// The header the fixed 12-byte prefix of a buffer holds.
pub open spec fn spec_parse_header(buf: Seq<u8>) -> DnsHeader {
    DnsHeader {
        id: be16(buf[0], buf[1]),
        flags: be16(buf[2], buf[3]),
        num_questions: be16(buf[4], buf[5]),
        num_answers: be16(buf[6], buf[7]),
        num_authorities: be16(buf[8], buf[9]),
        num_additionals: be16(buf[10], buf[11]),
    }
}

/// The 12-byte serialization of a header, fields in order, big-endian.
pub open spec fn spec_header_bytes(h: DnsHeader) -> Seq<u8> {
    be16_bytes(h.id) + be16_bytes(h.flags) + be16_bytes(h.num_questions) + be16_bytes(
        h.num_answers,
    ) + be16_bytes(h.num_authorities) + be16_bytes(h.num_additionals)
}

impl DnsHeader {
    /// Decodes the fixed 12-byte header at the start of `buf`; fails with
    /// `Truncated` if and only if fewer than 12 bytes are available.
    pub fn parse(buf: &[u8]) -> (r: Result<DnsHeader, DnsError>)
        ensures
            buf@.len() >= 12 ==> r == Ok::<DnsHeader, DnsError>(spec_parse_header(buf@)),
            buf@.len() < 12 ==> r == Err::<DnsHeader, DnsError>(DnsError::Truncated),
    {
        if buf.len() < 12 {
            return Err(DnsError::Truncated);
        }
        Ok(
            DnsHeader {
                id: read_u16(buf, 0),
                flags: read_u16(buf, 2),
                num_questions: read_u16(buf, 4),
                num_answers: read_u16(buf, 6),
                num_authorities: read_u16(buf, 8),
                num_additionals: read_u16(buf, 10),
            },
        )
    }

    /// Serializes the header: each field as two big-endian bytes, in order.
    pub fn to_bytes(&self) -> (r: Vec<u8>)
        ensures
            r@ == spec_header_bytes(*self),
            r@.len() == 12,
    {
        let mut out: Vec<u8> = Vec::new();
        push_u16(&mut out, self.id);
        push_u16(&mut out, self.flags);
        push_u16(&mut out, self.num_questions);
        push_u16(&mut out, self.num_answers);
        push_u16(&mut out, self.num_authorities);
        push_u16(&mut out, self.num_additionals);
        assert(out@ =~= spec_header_bytes(*self));
        out
    }
}

/// What decoding a question at `cursor` gives: a name, then two big-endian
/// 16-bit fields; the consumed length is the name's length plus four.
pub open spec fn spec_parse_question(buf: Seq<u8>, cursor: int) -> Result<
    (int, QuestionModel),
    DnsError,
> {
    match spec_decode_name(buf, cursor) {
        Err(e) => Err(e),
        Ok(p) => {
            let after = cursor + p.0;
            if after + 4 <= buf.len() {
                Ok(
                    (
                        p.0 + 4,
                        QuestionModel {
                            name: p.1,
                            type_: be16(buf[after], buf[after + 1]),
                            class: be16(buf[after + 2], buf[after + 3]),
                        },
                    ),
                )
            } else {
                Err(DnsError::Truncated)
            }
        },
    }
}

/// The serialization of a question: the encoded name, then type and class.
pub open spec fn spec_question_bytes(q: QuestionModel) -> Seq<u8> {
    spec_encode_name(q.name) + be16_bytes(q.type_) + be16_bytes(q.class)
}

impl DnsQuestion {
    /// Decodes the question at `cursor_start`, exactly as
    /// `spec_parse_question` states; the consumed length is returned so the
    /// caller can step past a name of unknown encoded length.
    pub fn parse(buf: &[u8], cursor_start: usize) -> (r: Result<(usize, DnsQuestion), DnsError>)
        ensures
            match r {
                Ok(p) => {
                    &&& spec_parse_question(buf@, cursor_start as int) == Ok::<
                        (int, QuestionModel),
                        DnsError,
                    >((p.0 as int, p.1@))
                    &&& 1 <= p.0
                    &&& cursor_start + p.0 <= buf@.len()
                },
                Err(e) => spec_parse_question(buf@, cursor_start as int) == Err::<
                    (int, QuestionModel),
                    DnsError,
                >(e),
            },
    {
        let n = buf.len();
        let (name_len, name) = match decode_name(buf, cursor_start) {
            Ok(p) => p,
            Err(e) => {
                return Err(e);
            },
        };
        let after = cursor_start + name_len;
        if buf.len() - after < 4 {
            return Err(DnsError::Truncated);
        }
        let type_ = read_u16(buf, after);
        let class = read_u16(buf, after + 2);
        Ok((name_len + 4, DnsQuestion { name, type_, class }))
    }

    /// Serializes the question for an outgoing query.  The name is the
    /// printable form; it is encoded here, so every label must fit its
    /// one-byte length.
    pub fn to_bytes(&self) -> (r: Vec<u8>)
        requires
            valid_dns_name(self.name@),
        ensures
            r@ == spec_question_bytes(self@),
    {
        let mut out = encode_name_bytes(self.name.as_slice());
        push_u16(&mut out, self.type_);
        push_u16(&mut out, self.class);
        assert(out@ =~= spec_question_bytes(self@));
        out
    }
}

/// What decoding a resource record at `cursor` gives: a name, four fixed
/// fields, then a payload read according to the record's type.  An NS
/// payload is a name whose consumed length must equal the declared data
/// length; an A payload must declare exactly four bytes; any other type
/// carries exactly the declared number of raw bytes, uninterpreted.
pub open spec fn spec_parse_record(buf: Seq<u8>, cursor: int) -> Result<
    (int, RecordModel),
    DnsError,
> {
    match spec_decode_name(buf, cursor) {
        Err(e) => Err(e),
        Ok(p) => {
            let after = cursor + p.0;
            if after + 10 > buf.len() {
                Err(DnsError::Truncated)
            } else {
                let type_ = be16(buf[after], buf[after + 1]);
                let class = be16(buf[after + 2], buf[after + 3]);
                let ttl = be32(buf[after + 4], buf[after + 5], buf[after + 6], buf[after + 7]);
                let data_len = be16(buf[after + 8], buf[after + 9]) as int;
                let data_at = after + 10;
                if type_ == TYPE_NS {
                    match spec_decode_name(buf, data_at) {
                        Err(e) => Err(e),
                        Ok(q) => if q.0 == data_len {
                            Ok(
                                (
                                    p.0 + 10 + q.0,
                                    RecordModel {
                                        name: p.1,
                                        type_,
                                        class,
                                        ttl,
                                        data: RecordDataModel::Name(q.1),
                                    },
                                ),
                            )
                        } else {
                            Err(DnsError::InconsistentRecordLength)
                        },
                    }
                } else if type_ == TYPE_A {
                    if data_len != 4 {
                        Err(DnsError::InconsistentRecordLength)
                    } else if data_at + 4 > buf.len() {
                        Err(DnsError::Truncated)
                    } else {
                        Ok(
                            (
                                p.0 + 14,
                                RecordModel {
                                    name: p.1,
                                    type_,
                                    class,
                                    ttl,
                                    data: RecordDataModel::Ipv4Addr(
                                        Ipv4Addr {
                                            a: buf[data_at],
                                            b: buf[data_at + 1],
                                            c: buf[data_at + 2],
                                            d: buf[data_at + 3],
                                        },
                                    ),
                                },
                            ),
                        )
                    }
                } else {
                    if data_at + data_len > buf.len() {
                        Err(DnsError::Truncated)
                    } else {
                        Ok(
                            (
                                p.0 + 10 + data_len,
                                RecordModel {
                                    name: p.1,
                                    type_,
                                    class,
                                    ttl,
                                    data: RecordDataModel::Data(
                                        buf.subrange(data_at, data_at + data_len),
                                    ),
                                },
                            ),
                        )
                    }
                }
            }
        },
    }
}

impl DnsRecord {
    /// Decodes the resource record at `cursor_start`, exactly as
    /// `spec_parse_record` states.  The record's declared data length and
    /// the length actually consumed decoding its typed payload must agree;
    /// a divergence is an `InconsistentRecordLength` error, never silently
    /// ignored.
    pub fn parse(buf: &[u8], cursor_start: usize) -> (r: Result<(usize, DnsRecord), DnsError>)
        ensures
            match r {
                Ok(p) => {
                    &&& spec_parse_record(buf@, cursor_start as int) == Ok::<
                        (int, RecordModel),
                        DnsError,
                    >((p.0 as int, p.1@))
                    &&& 1 <= p.0
                    &&& cursor_start + p.0 <= buf@.len()
                    &&& crate::types::wf_record(p.1@)
                },
                Err(e) => spec_parse_record(buf@, cursor_start as int) == Err::<
                    (int, RecordModel),
                    DnsError,
                >(e),
            },
    {
        let n = buf.len();
        let (name_len, name) = match decode_name(buf, cursor_start) {
            Ok(p) => p,
            Err(e) => {
                return Err(e);
            },
        };
        let after = cursor_start + name_len;
        if n - after < 10 {
            return Err(DnsError::Truncated);
        }
        let type_ = read_u16(buf, after);
        let class = read_u16(buf, after + 2);
        let ttl = read_u32(buf, after + 4);
        let data_len = read_u16(buf, after + 8) as usize;
        let data_at = after + 10;
        if type_ == TYPE_NS {
            let (ns_len, ns_name) = match decode_name(buf, data_at) {
                Ok(q) => q,
                Err(e) => {
                    return Err(e);
                },
            };
            if ns_len != data_len {
                return Err(DnsError::InconsistentRecordLength);
            }
            Ok(
                (
                    name_len + 10 + ns_len,
                    DnsRecord { name, type_, class, ttl, data: DnsRecordData::Name(ns_name) },
                ),
            )
        } else if type_ == TYPE_A {
            if data_len != 4 {
                return Err(DnsError::InconsistentRecordLength);
            }
            if n - data_at < 4 {
                return Err(DnsError::Truncated);
            }
            let ip = Ipv4Addr {
                a: *slice_index_get(buf, data_at),
                b: *slice_index_get(buf, data_at + 1),
                c: *slice_index_get(buf, data_at + 2),
                d: *slice_index_get(buf, data_at + 3),
            };
            Ok(
                (
                    name_len + 14,
                    DnsRecord { name, type_, class, ttl, data: DnsRecordData::Ipv4Addr(ip) },
                ),
            )
        } else {
            if data_len > n - data_at {
                return Err(DnsError::Truncated);
            }
            let mut data: Vec<u8> = Vec::new();
            crate::name::push_range(&mut data, buf, data_at, data_at + data_len);
            Ok(
                (
                    name_len + 10 + data_len,
                    DnsRecord { name, type_, class, ttl, data: DnsRecordData::Data(data) },
                ),
            )
        }
    }
}

/// What decoding `n` consecutive questions starting at `cursor` gives.
pub open spec fn spec_parse_questions(buf: Seq<u8>, cursor: int, n: int) -> Result<
    (int, Seq<QuestionModel>),
    DnsError,
>
    decreases n,
{
    if n <= 0 {
        Ok((0, Seq::empty()))
    } else {
        match spec_parse_question(buf, cursor) {
            Err(e) => Err(e),
            Ok(p) => match spec_parse_questions(buf, cursor + p.0, n - 1) {
                Err(e) => Err(e),
                Ok(q) => Ok((p.0 + q.0, seq![p.1] + q.1)),
            },
        }
    }
}

/// What decoding `n` consecutive resource records starting at `cursor` gives.
pub open spec fn spec_parse_records(buf: Seq<u8>, cursor: int, n: int) -> Result<
    (int, Seq<RecordModel>),
    DnsError,
>
    decreases n,
{
    if n <= 0 {
        Ok((0, Seq::empty()))
    } else {
        match spec_parse_record(buf, cursor) {
            Err(e) => Err(e),
            Ok(p) => match spec_parse_records(buf, cursor + p.0, n - 1) {
                Err(e) => Err(e),
                Ok(q) => Ok((p.0 + q.0, seq![p.1] + q.1)),
            },
        }
    }
}

/// Decodes `n` consecutive questions, each continuing from the cursor
/// position the previous one left.
fn parse_questions(buf: &[u8], cursor_start: usize, n: u16) -> (r: Result<
    (usize, Vec<DnsQuestion>),
    DnsError,
>)
    requires
        cursor_start <= buf@.len(),
    ensures
        match r {
            Ok(p) => {
                &&& spec_parse_questions(buf@, cursor_start as int, n as int) == Ok::<
                    (int, Seq<QuestionModel>),
                    DnsError,
                >((p.0 as int, p.1@.map_values(|q: DnsQuestion| q@)))
                &&& cursor_start + p.0 <= buf@.len()
                &&& p.1@.len() == n
            },
            Err(e) => spec_parse_questions(buf@, cursor_start as int, n as int) == Err::<
                (int, Seq<QuestionModel>),
                DnsError,
            >(e),
        },
{
    let n_bytes = buf.len();
    let mut cursor = cursor_start;
    let mut out: Vec<DnsQuestion> = Vec::new();
    let mut i: u16 = 0;
    proof {
        match spec_parse_questions(buf@, cursor_start as int, n as int) {
            Ok(q) => {
                assert(Seq::<QuestionModel>::empty() + q.1 =~= q.1);
                assert(out@.map_values(|x: DnsQuestion| x@) =~= Seq::<QuestionModel>::empty());
            },
            Err(e) => {},
        }
    }
    while i < n
        invariant
            n_bytes == buf@.len(),
            i <= n,
            out@.len() == i,
            cursor_start <= cursor <= buf@.len(),
            match spec_parse_questions(buf@, cursor as int, n - i) {
                Ok(q) => spec_parse_questions(buf@, cursor_start as int, n as int) == Ok::<
                    (int, Seq<QuestionModel>),
                    DnsError,
                >((cursor - cursor_start + q.0, out@.map_values(|x: DnsQuestion| x@) + q.1)),
                Err(e) => spec_parse_questions(buf@, cursor_start as int, n as int) == Err::<
                    (int, Seq<QuestionModel>),
                    DnsError,
                >(e),
            },
        decreases n - i,
    {
        let ghost old_cursor = cursor as int;
        let ghost old_models = out@.map_values(|x: DnsQuestion| x@);
        match DnsQuestion::parse(buf, cursor) {
            Err(e) => {
                proof {
                    assert(spec_parse_questions(buf@, cursor as int, n - i) == Err::<
                        (int, Seq<QuestionModel>),
                        DnsError,
                    >(e));
                }
                return Err(e);
            },
            Ok(p) => {
                cursor = cursor + p.0;
                out.push(p.1);
                i = i + 1;
                proof {
                    assert(out@.map_values(|x: DnsQuestion| x@) =~= old_models.push(p.1@));
                    match spec_parse_questions(buf@, cursor as int, n - i) {
                        Ok(q2) => {
                            assert(spec_parse_questions(buf@, old_cursor, n - (i - 1)) == Ok::<
                                (int, Seq<QuestionModel>),
                                DnsError,
                            >((p.0 + q2.0, seq![p.1@] + q2.1)));
                            assert((old_models + (seq![p.1@] + q2.1)) =~= (old_models.push(p.1@)
                                + q2.1));
                        },
                        Err(e) => {
                            assert(spec_parse_questions(buf@, old_cursor, n - (i - 1)) == Err::<
                                (int, Seq<QuestionModel>),
                                DnsError,
                            >(e));
                        },
                    }
                }
            },
        }
    }
    proof {
        assert(out@.map_values(|x: DnsQuestion| x@) + Seq::<QuestionModel>::empty()
            =~= out@.map_values(|x: DnsQuestion| x@));
    }
    Ok((cursor - cursor_start, out))
}

/// Decodes `n` consecutive resource records, each continuing from the cursor
/// position the previous one left.
fn parse_records(buf: &[u8], cursor_start: usize, n: u16) -> (r: Result<
    (usize, Vec<DnsRecord>),
    DnsError,
>)
    requires
        cursor_start <= buf@.len(),
    ensures
        match r {
            Ok(p) => {
                &&& spec_parse_records(buf@, cursor_start as int, n as int) == Ok::<
                    (int, Seq<RecordModel>),
                    DnsError,
                >((p.0 as int, p.1@.map_values(|x: DnsRecord| x@)))
                &&& cursor_start + p.0 <= buf@.len()
                &&& p.1@.len() == n
                &&& forall|j: int|
                    0 <= j < p.1@.len() ==> crate::types::wf_record(#[trigger] p.1@[j]@)
            },
            Err(e) => spec_parse_records(buf@, cursor_start as int, n as int) == Err::<
                (int, Seq<RecordModel>),
                DnsError,
            >(e),
        },
{
    let n_bytes = buf.len();
    let mut cursor = cursor_start;
    let mut out: Vec<DnsRecord> = Vec::new();
    let mut i: u16 = 0;
    proof {
        match spec_parse_records(buf@, cursor_start as int, n as int) {
            Ok(q) => {
                assert(Seq::<RecordModel>::empty() + q.1 =~= q.1);
                assert(out@.map_values(|x: DnsRecord| x@) =~= Seq::<RecordModel>::empty());
            },
            Err(e) => {},
        }
    }
    while i < n
        invariant
            n_bytes == buf@.len(),
            i <= n,
            out@.len() == i,
            cursor_start <= cursor <= buf@.len(),
            forall|j: int| 0 <= j < out@.len() ==> crate::types::wf_record(#[trigger] out@[j]@),
            match spec_parse_records(buf@, cursor as int, n - i) {
                Ok(q) => spec_parse_records(buf@, cursor_start as int, n as int) == Ok::<
                    (int, Seq<RecordModel>),
                    DnsError,
                >((cursor - cursor_start + q.0, out@.map_values(|x: DnsRecord| x@) + q.1)),
                Err(e) => spec_parse_records(buf@, cursor_start as int, n as int) == Err::<
                    (int, Seq<RecordModel>),
                    DnsError,
                >(e),
            },
        decreases n - i,
    {
        let ghost old_cursor = cursor as int;
        let ghost old_models = out@.map_values(|x: DnsRecord| x@);
        match DnsRecord::parse(buf, cursor) {
            Err(e) => {
                proof {
                    assert(spec_parse_records(buf@, cursor as int, n - i) == Err::<
                        (int, Seq<RecordModel>),
                        DnsError,
                    >(e));
                }
                return Err(e);
            },
            Ok(p) => {
                cursor = cursor + p.0;
                out.push(p.1);
                i = i + 1;
                proof {
                    assert(out@.map_values(|x: DnsRecord| x@) =~= old_models.push(p.1@));
                    match spec_parse_records(buf@, cursor as int, n - i) {
                        Ok(q2) => {
                            assert(spec_parse_records(buf@, old_cursor, n - (i - 1)) == Ok::<
                                (int, Seq<RecordModel>),
                                DnsError,
                            >((p.0 + q2.0, seq![p.1@] + q2.1)));
                            assert((old_models + (seq![p.1@] + q2.1)) =~= (old_models.push(p.1@)
                                + q2.1));
                        },
                        Err(e) => {
                            assert(spec_parse_records(buf@, old_cursor, n - (i - 1)) == Err::<
                                (int, Seq<RecordModel>),
                                DnsError,
                            >(e));
                        },
                    }
                }
            },
        }
    }
    proof {
        assert(out@.map_values(|x: DnsRecord| x@) + Seq::<RecordModel>::empty()
            =~= out@.map_values(|x: DnsRecord| x@));
    }
    Ok((cursor - cursor_start, out))
}

/// What decoding a whole message gives: the header, then exactly as many
/// questions, answers, authorities and additionals as the header counts
/// declare, in that order, each section continuing from the cursor position
/// the previous one left.  Trailing bytes past the last record are ignored.
pub open spec fn spec_parse_packet(buf: Seq<u8>) -> Result<PacketModel, DnsError> {
    if buf.len() < 12 {
        Err(DnsError::Truncated)
    } else {
        let h = spec_parse_header(buf);
        match spec_parse_questions(buf, 12, h.num_questions as int) {
            Err(e) => Err(e),
            Ok(qs) => match spec_parse_records(buf, 12 + qs.0, h.num_answers as int) {
                Err(e) => Err(e),
                Ok(ans) => match spec_parse_records(
                    buf,
                    12 + qs.0 + ans.0,
                    h.num_authorities as int,
                ) {
                    Err(e) => Err(e),
                    Ok(auth) => match spec_parse_records(
                        buf,
                        12 + qs.0 + ans.0 + auth.0,
                        h.num_additionals as int,
                    ) {
                        Err(e) => Err(e),
                        Ok(add) => Ok(
                            PacketModel {
                                header: h,
                                questions: qs.1,
                                answers: ans.1,
                                authorities: auth.1,
                                additionals: add.1,
                            },
                        ),
                    },
                },
            },
        }
    }
}

impl DnsPacket {
    /// Decodes a whole message, exactly as `spec_parse_packet` states.  On
    /// success every section holds exactly as many entries as the header
    /// count for it declares, and every record's payload agrees with its
    /// type; on any failure no partial message is exposed.
    pub fn parse(buf: &[u8]) -> (r: Result<DnsPacket, DnsError>)
        ensures
            match r {
                Ok(p) => {
                    &&& spec_parse_packet(buf@) == Ok::<PacketModel, DnsError>(p@)
                    &&& crate::types::wf_packet(p@)
                    &&& p@.questions.len() == p.header.num_questions as int
                    &&& p@.answers.len() == p.header.num_answers as int
                    &&& p@.authorities.len() == p.header.num_authorities as int
                    &&& p@.additionals.len() == p.header.num_additionals as int
                },
                Err(e) => spec_parse_packet(buf@) == Err::<PacketModel, DnsError>(e),
            },
    {
        let n_bytes = buf.len();
        let header = match DnsHeader::parse(buf) {
            Ok(h) => h,
            Err(e) => {
                return Err(e);
            },
        };
        let (q_len, questions) = match parse_questions(buf, 12, header.num_questions) {
            Ok(p) => p,
            Err(e) => {
                return Err(e);
            },
        };
        let (ans_len, answers) = match parse_records(buf, 12 + q_len, header.num_answers) {
            Ok(p) => p,
            Err(e) => {
                return Err(e);
            },
        };
        let (auth_len, authorities) = match parse_records(
            buf,
            12 + q_len + ans_len,
            header.num_authorities,
        ) {
            Ok(p) => p,
            Err(e) => {
                return Err(e);
            },
        };
        let (_, additionals) = match parse_records(
            buf,
            12 + q_len + ans_len + auth_len,
            header.num_additionals,
        ) {
            Ok(p) => p,
            Err(e) => {
                return Err(e);
            },
        };
        Ok(DnsPacket { header, questions, answers, authorities, additionals })
    }
}

/// The serialization of a query for `name` with the given id: a header with
/// one question and zero records, the flag word clear, then the question,
/// type as asked and class IN.
pub open spec fn spec_query_bytes(id: u16, name: Seq<u8>, record_type: u16) -> Seq<u8> {
    spec_header_bytes(
        DnsHeader {
            id,
            flags: 0,
            num_questions: 1,
            num_answers: 0,
            num_authorities: 0,
            num_additionals: 0,
        },
    ) + spec_encode_name(name) + be16_bytes(record_type) + be16_bytes(CLASS_IN)
}

/// Builds the query message for a name given as raw bytes, with the caller's
/// id.
pub fn build_query_bytes(domain: &[u8], record_type: u16, id: u16) -> (r: Vec<u8>)
    requires
        valid_dns_name(domain@),
    ensures
        r@ == spec_query_bytes(id, domain@, record_type),
{
    let h = DnsHeader {
        id,
        flags: 0,
        num_questions: 1,
        num_answers: 0,
        num_authorities: 0,
        num_additionals: 0,
    };
    let mut out = h.to_bytes();
    let mut body = encode_name_bytes(domain);
    push_u16(&mut body, record_type);
    push_u16(&mut body, CLASS_IN);
    out.append(&mut body);
    assert(out@ =~= spec_query_bytes(id, domain@, record_type));
    out
}

/// Builds the query message for a printable domain name, with the caller's
/// id.
pub fn build_query_with_id(domain_name: &str, record_type: u16, id: u16) -> (r: Vec<u8>)
    requires
        domain_name.is_ascii(),
        valid_dns_name(str_bytes(domain_name@)),
    ensures
        r@ == spec_query_bytes(id, str_bytes(domain_name@), record_type),
{
    let bytes = domain_name.as_bytes();
    proof {
        vstd::string::is_ascii_spec_bytes(domain_name);
        assert(bytes@ =~= str_bytes(domain_name@));
    }
    build_query_bytes(bytes, record_type, id)
}

/// Relies on rand's `thread_rng` and `Rng::gen_range`: a value drawn from
/// the given range, here `1..65535`, so the result lies between 1 and 65534.
/// Nothing more is assumed of it; a fresh draw may repeat an earlier one.
#[verifier::external_body]
pub(crate) fn random_id() -> (r: u16)
    ensures
        1 <= r < 65535,
{
    rand::thread_rng().gen_range(1..65535)
}

/// Builds a query message with a fresh random 16-bit id: a header declaring
/// a single question, then the question itself.
pub fn build_query(domain_name: &str, record_type: u16) -> (r: Vec<u8>)
    requires
        domain_name.is_ascii(),
        valid_dns_name(str_bytes(domain_name@)),
    ensures
        exists|id: u16|
            1 <= id < 65535 && r@ == spec_query_bytes(id, str_bytes(domain_name@), record_type),
{
    let id = random_id();
    let r = build_query_with_id(domain_name, record_type, id);
    proof {
        assert(1 <= id < 65535 && r@ == spec_query_bytes(
            id,
            str_bytes(domain_name@),
            record_type,
        ));
    }
    r
}

/// Round trip of a built query: decoding the exact bytes that
/// `spec_query_bytes` produces recovers the header as set — one question,
/// no records — and the question itself, with the name as given, the
/// requested type and class IN.
#[verifier::rlimit(60)]
pub proof fn lemma_query_roundtrip(id: u16, name: Seq<u8>, record_type: u16)
    requires
        crate::name::strict_dns_name(name),
    ensures
        spec_parse_packet(spec_query_bytes(id, name, record_type)) == Ok::<PacketModel, DnsError>(
            PacketModel {
                header: DnsHeader {
                    id,
                    flags: 0,
                    num_questions: 1,
                    num_answers: 0,
                    num_authorities: 0,
                    num_additionals: 0,
                },
                questions: seq![QuestionModel { name, type_: record_type, class: CLASS_IN }],
                answers: Seq::empty(),
                authorities: Seq::empty(),
                additionals: Seq::empty(),
            },
        ),
{
    let h = DnsHeader {
        id,
        flags: 0,
        num_questions: 1,
        num_answers: 0,
        num_authorities: 0,
        num_additionals: 0,
    };
    let hb = spec_header_bytes(h);
    let enc = spec_encode_name(name);
    let q = spec_query_bytes(id, name, record_type);
    assert(hb =~= seq![
        (id / 256) as u8,
        (id % 256) as u8,
        0u8,
        0u8,
        0u8,
        1u8,
        0u8,
        0u8,
        0u8,
        0u8,
        0u8,
        0u8,
    ]);
    assert(q.len() == 12 + enc.len() + 4);
    assert forall|k: int| 0 <= k < 12 implies q[k] == hb[k] by {
        assert(((hb + enc) + be16_bytes(record_type))[k] == hb[k]);
    }
    assert(spec_parse_header(q) == h) by {
        assert(be16(q[0], q[1]) == id);
        assert(be16(q[2], q[3]) == 0);
        assert(be16(q[4], q[5]) == 1);
        assert(be16(q[6], q[7]) == 0);
        assert(be16(q[8], q[9]) == 0);
        assert(be16(q[10], q[11]) == 0);
    }
    let after = 12 + enc.len() as int;
    assert forall|k: int| 0 <= k < enc.len() implies q[12 + k] == enc[k] by {
        assert(((hb + enc) + be16_bytes(record_type))[12 + k] == (hb + enc)[12 + k]);
        assert((hb + enc)[12 + k] == enc[k]);
    }
    assert(q.subrange(12, 12 + enc.len() as int) =~= enc);
    crate::name::lemma_name_roundtrip(q, 12, name);
    assert(q[after] == (record_type / 256) as u8) by {
        assert(((hb + enc) + be16_bytes(record_type))[after] == be16_bytes(record_type)[0]);
    }
    assert(q[after + 1] == (record_type % 256) as u8) by {
        assert(((hb + enc) + be16_bytes(record_type))[after + 1] == be16_bytes(record_type)[1]);
    }
    assert(q[after + 2] == (CLASS_IN / 256) as u8);
    assert(q[after + 3] == (CLASS_IN % 256) as u8);
    let qm = QuestionModel { name, type_: record_type, class: CLASS_IN };
    assert(spec_parse_question(q, 12) == Ok::<(int, QuestionModel), DnsError>(
        (enc.len() as int + 4, qm),
    )) by {
        assert(be16(q[after], q[after + 1]) == record_type);
        assert(be16(q[after + 2], q[after + 3]) == CLASS_IN);
    }
    assert(spec_parse_questions(q, after + 4, 0) == Ok::<(int, Seq<QuestionModel>), DnsError>(
        (0, Seq::empty()),
    ));
    assert(spec_parse_questions(q, 12, 1) == Ok::<(int, Seq<QuestionModel>), DnsError>(
        (enc.len() as int + 4, seq![qm]),
    )) by {
        assert(seq![qm] + Seq::<QuestionModel>::empty() =~= seq![qm]);
    }
    assert(spec_parse_records(q, after + 4, 0) == Ok::<(int, Seq<RecordModel>), DnsError>(
        (0, Seq::empty()),
    ));
}

} // verus!
