//! Data model of the resolver: wire record types, decoded messages, and the
//! error taxonomy shared by the codec and the resolution engine.

use vstd::prelude::*;

verus! {

/// Wire value of an address (A) record type.
pub const TYPE_A: u16 = 1;

/// Wire value of a name-server (NS) record type.
pub const TYPE_NS: u16 = 2;

/// Wire value of the Internet class.
pub const CLASS_IN: u16 = 1;

/// Why a decode or a resolution attempt failed.
#[derive(Clone, Copy, Debug, PartialEq, Eq, Structural)]
pub enum DnsError {
    /// The buffer is shorter than a field or record being decoded requires.
    Truncated,
    /// A compression pointer is out of bounds or part of a pointer cycle.
    InvalidPointer,
    /// A record's declared data length disagrees with the length actually
    /// consumed decoding its typed payload.
    InconsistentRecordLength,
    /// A response decoded cleanly but holds neither a matching answer nor any
    /// usable referral.
    NoUsableResponse,
    /// Sending or receiving a datagram failed at the transport boundary.
    TransportFailure,
    /// The defensive bound on recursion depth or iteration count tripped.
    RecursionLimitExceeded,
}

impl DnsError {
    /// A short human-readable account of the error, for callers that print it.
    pub fn describe(&self) -> &'static str {
        match self {
            DnsError::Truncated => "response truncated",
            DnsError::InvalidPointer => "invalid compression pointer",
            DnsError::InconsistentRecordLength => "inconsistent record length",
            DnsError::NoUsableResponse => "no usable response",
            DnsError::TransportFailure => "transport failure",
            DnsError::RecursionLimitExceeded => "recursion limit exceeded",
        }
    }
}

/// An IPv4 address as four plain octets, most significant first.
#[derive(Clone, Copy, Debug, PartialEq, Eq, Structural)]
pub struct Ipv4Addr {
    pub a: u8,
    pub b: u8,
    pub c: u8,
    pub d: u8,
}

impl Ipv4Addr {
    pub fn new(a: u8, b: u8, c: u8, d: u8) -> (r: Ipv4Addr)
        ensures
            r == (Ipv4Addr { a, b, c, d }),
    {
        Ipv4Addr { a, b, c, d }
    }
}

/// The fixed 12-byte message header: an id, the flag word, and the four
/// section counts.
#[derive(Clone, Copy, Debug, PartialEq, Eq, Structural)]
pub struct DnsHeader {
    pub id: u16,
    pub flags: u16,
    pub num_questions: u16,
    pub num_answers: u16,
    pub num_authorities: u16,
    pub num_additionals: u16,
}

/// One entry of the question section.  The name is the dot-joined label
/// sequence as raw bytes: names come off the wire unvalidated.
#[derive(Debug)]
pub struct DnsQuestion {
    pub name: Vec<u8>,
    pub type_: u16,
    pub class: u16,
}

/// The typed payload of a resource record, keyed by the record's wire type.
#[derive(Debug)]
pub enum DnsRecordData {
    /// An opaque payload of a type this resolver does not interpret.
    Data(Vec<u8>),
    /// The address carried by an A record.
    Ipv4Addr(Ipv4Addr),
    /// The (possibly compressed) name carried by an NS record, decoded.
    Name(Vec<u8>),
}

/// One resource record of the answer, authority or additional section.
#[derive(Debug)]
pub struct DnsRecord {
    pub name: Vec<u8>,
    pub type_: u16,
    pub class: u16,
    pub ttl: u32,
    pub data: DnsRecordData,
}

/// A whole decoded message: header plus the four sections.
#[derive(Debug)]
pub struct DnsPacket {
    pub header: DnsHeader,
    pub questions: Vec<DnsQuestion>,
    pub answers: Vec<DnsRecord>,
    pub authorities: Vec<DnsRecord>,
    pub additionals: Vec<DnsRecord>,
}

/// Mathematical model of a question: the name as a byte sequence.
pub struct QuestionModel {
    pub name: Seq<u8>,
    pub type_: u16,
    pub class: u16,
}

/// Mathematical model of a record payload.
pub enum RecordDataModel {
    Data(Seq<u8>),
    Ipv4Addr(Ipv4Addr),
    Name(Seq<u8>),
}

/// Mathematical model of a resource record.
pub struct RecordModel {
    pub name: Seq<u8>,
    pub type_: u16,
    pub class: u16,
    pub ttl: u32,
    pub data: RecordDataModel,
}

/// Mathematical model of a whole message.
pub struct PacketModel {
    pub header: DnsHeader,
    pub questions: Seq<QuestionModel>,
    pub answers: Seq<RecordModel>,
    pub authorities: Seq<RecordModel>,
    pub additionals: Seq<RecordModel>,
}

impl View for DnsQuestion {
    type V = QuestionModel;

    open spec fn view(&self) -> QuestionModel {
        QuestionModel { name: self.name@, type_: self.type_, class: self.class }
    }
}

impl View for DnsRecordData {
    type V = RecordDataModel;

    open spec fn view(&self) -> RecordDataModel {
        match self {
            DnsRecordData::Data(bytes) => RecordDataModel::Data(bytes@),
            DnsRecordData::Ipv4Addr(ip) => RecordDataModel::Ipv4Addr(*ip),
            DnsRecordData::Name(bytes) => RecordDataModel::Name(bytes@),
        }
    }
}

impl View for DnsRecord {
    type V = RecordModel;

    open spec fn view(&self) -> RecordModel {
        RecordModel {
            name: self.name@,
            type_: self.type_,
            class: self.class,
            ttl: self.ttl,
            data: self.data@,
        }
    }
}

impl View for DnsPacket {
    type V = PacketModel;

    open spec fn view(&self) -> PacketModel {
        PacketModel {
            header: self.header,
            questions: self.questions@.map_values(|q: DnsQuestion| q@),
            answers: self.answers@.map_values(|r: DnsRecord| r@),
            authorities: self.authorities@.map_values(|r: DnsRecord| r@),
            additionals: self.additionals@.map_values(|r: DnsRecord| r@),
        }
    }
}

/// A decoded record's payload agrees with its wire type: A records carry an
/// address, NS records carry a name.
pub open spec fn wf_record(r: RecordModel) -> bool {
    &&& r.type_ == TYPE_A ==> r.data is Ipv4Addr
    &&& r.type_ == TYPE_NS ==> r.data is Name
}

/// Every record of every section of a decoded message is well formed.
pub open spec fn wf_packet(p: PacketModel) -> bool {
    &&& forall|i: int| 0 <= i < p.answers.len() ==> wf_record(#[trigger] p.answers[i])
    &&& forall|i: int| 0 <= i < p.authorities.len() ==> wf_record(#[trigger] p.authorities[i])
    &&& forall|i: int| 0 <= i < p.additionals.len() ==> wf_record(#[trigger] p.additionals[i])
}

} // verus!
