//! The resolution engine: the decisions of the iterative lookup loop.
//!
//! The engine never touches the network.  It keeps a stack of pending
//! queries — the bottom frame is the caller's question, every frame above it
//! resolves the address of a name server needed further down — and consumes
//! one decoded response at a time, deciding whether the resolution is done,
//! which server to ask next, or why it failed.  The caller performs the
//! transport between steps.

use vstd::prelude::*;
use vstd::slice::slice_to_vec;

use crate::codec::{spec_parse_packet, spec_query_bytes};
use crate::name::{is_valid_dns_name, valid_dns_name};
use crate::types::{
    DnsError, DnsPacket, DnsRecord, DnsRecordData, Ipv4Addr, PacketModel, RecordDataModel,
    RecordModel, TYPE_A, TYPE_NS,
};

verus! {

/// Cap on pending queries at once: a delegation chain that needs more than
/// this many nested name-server lookups is abandoned.
pub const MAX_DEPTH: usize = 16;

/// Cap on responses consumed over one whole resolution, nested lookups
/// included: past it every response is answered with a failure.
pub const MAX_STEPS: u32 = 64;

/// The well-known root server address the hierarchy walk starts from.
pub open spec fn spec_root_server() -> Ipv4Addr {
    Ipv4Addr { a: 198, b: 41, c: 0, d: 4 }
}

/// The well-known root server address the hierarchy walk starts from.
pub fn root_server() -> (r: Ipv4Addr)
    ensures
        r == spec_root_server(),
{
    Ipv4Addr { a: 198, b: 41, c: 0, d: 4 }
}

/// The first record of the section whose type is `t`, in document order.
pub open spec fn spec_first_of_type(rs: Seq<RecordModel>, t: u16) -> Option<RecordModel>
    decreases rs.len(),
{
    if rs.len() == 0 {
        None
    } else if rs[0].type_ == t {
        Some(rs[0])
    } else {
        spec_first_of_type(rs.skip(1), t)
    }
}

proof fn lemma_first_of_type_skip(rs: Seq<RecordModel>, t: u16, i: int)
    requires
        0 <= i <= rs.len(),
        forall|j: int| 0 <= j < i ==> rs[j].type_ != t,
    ensures
        spec_first_of_type(rs, t) == spec_first_of_type(rs.skip(i), t),
    decreases i,
{
    if i > 0 {
        assert(rs[0].type_ != t);
        assert forall|j: int| 0 <= j < i - 1 implies rs.skip(1)[j].type_ != t by {
            assert(rs[j + 1].type_ != t);
        }
        lemma_first_of_type_skip(rs.skip(1), t, i - 1);
        assert(rs.skip(1).skip(i - 1) =~= rs.skip(i));
        assert(spec_first_of_type(rs, t) == spec_first_of_type(rs.skip(1), t));
    } else {
        assert(rs.skip(0) =~= rs);
    }
}

/// Index of the first record of type `t`, if any.
fn find_first_of_type(records: &Vec<DnsRecord>, t: u16) -> (r: Option<usize>)
    ensures
        match r {
            Some(i) => {
                &&& i < records@.len()
                &&& spec_first_of_type(records@.map_values(|x: DnsRecord| x@), t) == Some(
                    records@[i as int]@,
                )
                &&& records@[i as int]@.type_ == t
            },
            None => spec_first_of_type(records@.map_values(|x: DnsRecord| x@), t) is None,
        },
{
    let ghost rs = records@.map_values(|x: DnsRecord| x@);
    let mut i: usize = 0;
    while i < records.len()
        invariant
            i <= records@.len(),
            rs == records@.map_values(|x: DnsRecord| x@),
            forall|j: int| 0 <= j < i ==> rs[j].type_ != t,
        decreases records@.len() - i,
    {
        if records[i].type_ == t {
            proof {
                lemma_first_of_type_skip(rs, t, i as int);
                assert(rs.skip(i as int)[0] == rs[i as int]);
                assert(spec_first_of_type(rs.skip(i as int), t) == Some(rs[i as int]));
            }
            return Some(i);
        }
        i += 1;
    }
    proof {
        lemma_first_of_type_skip(rs, t, rs.len() as int);
        assert(rs.skip(rs.len() as int) =~= Seq::<RecordModel>::empty());
    }
    None
}

/// A copy of a record payload, value for value.
fn clone_data(d: &DnsRecordData) -> (r: DnsRecordData)
    ensures
        r@ == d@,
{
    match d {
        DnsRecordData::Data(bytes) => DnsRecordData::Data(slice_to_vec(bytes.as_slice())),
        DnsRecordData::Ipv4Addr(ip) => DnsRecordData::Ipv4Addr(*ip),
        DnsRecordData::Name(bytes) => DnsRecordData::Name(slice_to_vec(bytes.as_slice())),
    }
}

/// The payload of the first answer whose type is the requested one, in
/// document order, or `None` when no answer matches.
pub fn get_answer(packet: &DnsPacket, record_type: u16) -> (r: Option<DnsRecordData>)
    ensures
        match spec_first_of_type(packet@.answers, record_type) {
            Some(rec) => r matches Some(d) && d@ == rec.data,
            None => r is None,
        },
{
    match find_first_of_type(&packet.answers, record_type) {
        Some(i) => Some(clone_data(&packet.answers[i].data)),
        None => None,
    }
}

/// The name carried by the first NS record of the authority section, or
/// `None` when there is none.
pub fn get_nameserver(packet: &DnsPacket) -> (r: Option<Vec<u8>>)
    requires
        crate::types::wf_packet(packet@),
    ensures
        match spec_first_of_type(packet@.authorities, TYPE_NS) {
            Some(rec) => r matches Some(name) && rec.data == RecordDataModel::Name(name@),
            None => r is None,
        },
{
    match find_first_of_type(&packet.authorities, TYPE_NS) {
        Some(i) => {
            proof {
                assert(crate::types::wf_record(packet@.authorities[i as int]));
            }
            match &packet.authorities[i].data {
                DnsRecordData::Name(name) => Some(slice_to_vec(name.as_slice())),
                _ => {
                    proof {
                        assert(false);
                    }
                    None
                },
            }
        },
        None => None,
    }
}

/// The glue address carried by the first A record of the additional
/// section, or `None` when there is none.
pub fn get_nameserver_ip(packet: &DnsPacket) -> (r: Option<Ipv4Addr>)
    requires
        crate::types::wf_packet(packet@),
    ensures
        match spec_first_of_type(packet@.additionals, TYPE_A) {
            Some(rec) => r matches Some(ip) && rec.data == RecordDataModel::Ipv4Addr(ip),
            None => r is None,
        },
{
    match find_first_of_type(&packet.additionals, TYPE_A) {
        Some(i) => {
            proof {
                assert(crate::types::wf_record(packet@.additionals[i as int]));
            }
            match &packet.additionals[i].data {
                DnsRecordData::Ipv4Addr(ip) => Some(*ip),
                _ => {
                    proof {
                        assert(false);
                    }
                    None
                },
            }
        },
        None => None,
    }
}

/// One pending query: which server to ask, for which name and type.
pub struct FrameModel {
    pub nameserver: Ipv4Addr,
    pub domain: Seq<u8>,
    pub record_type: u16,
}

/// Mathematical model of the engine's state: the stack of pending queries,
/// bottom first, and how many responses have been consumed.
pub struct ResolverModel {
    pub frames: Seq<FrameModel>,
    pub steps: u32,
}

struct QueryFrame {
    nameserver: Ipv4Addr,
    domain: Vec<u8>,
    record_type: u16,
}

impl View for QueryFrame {
    type V = FrameModel;

    closed spec fn view(&self) -> FrameModel {
        FrameModel {
            nameserver: self.nameserver,
            domain: self.domain@,
            record_type: self.record_type,
        }
    }
}

/// The engine's state between two transport exchanges.  The bottom frame is
/// the caller's question; each frame above it resolves the address of a name
/// server needed by the frame below.  The top frame is the query to send
/// next.
pub struct ResolverState {
    frames: Vec<QueryFrame>,
    steps: u32,
}

impl View for ResolverState {
    type V = ResolverModel;

    closed spec fn view(&self) -> ResolverModel {
        ResolverModel {
            frames: self.frames@.map_values(|f: QueryFrame| f@),
            steps: self.steps,
        }
    }
}

/// The engine's invariant: at least one pending query and no more than the
/// depth cap; every pending name can be encoded; every frame above the
/// bottom one looks up a name server's address, so asks for type A.
pub open spec fn wf_resolver(m: ResolverModel) -> bool {
    &&& 1 <= m.frames.len() <= MAX_DEPTH
    &&& forall|i: int| 0 <= i < m.frames.len() ==> valid_dns_name(#[trigger] m.frames[i].domain)
    &&& forall|i: int| 1 <= i < m.frames.len() ==> m.frames[i].record_type == TYPE_A
}

/// Mathematical model of one step's outcome.
pub enum StepModel {
    Continue,
    Done(RecordDataModel),
    Failed(DnsError),
}

/// What one consumed response leads to: send the top frame's query next,
/// finish with the answer's payload, or give the whole resolution up.
pub enum ResolveStep {
    Continue,
    Done(DnsRecordData),
    Failed(DnsError),
}

impl View for ResolveStep {
    type V = StepModel;

    open spec fn view(&self) -> StepModel {
        match self {
            ResolveStep::Continue => StepModel::Continue,
            ResolveStep::Done(d) => StepModel::Done(d@),
            ResolveStep::Failed(e) => StepModel::Failed(*e),
        }
    }
}

/// The stack with its top frame pointed at a new server.
pub open spec fn retarget_last(frames: Seq<FrameModel>, ip: Ipv4Addr) -> Seq<FrameModel> {
    frames.update(
        frames.len() - 1,
        FrameModel {
            nameserver: ip,
            domain: frames.last().domain,
            record_type: frames.last().record_type,
        },
    )
}

/// The engine's transition function: what one decoded response (or decode
/// failure) does to the state, and what the caller is told.  In order: a
/// failed decode fails the resolution; an answer of the requested type ends
/// the top frame (the whole resolution at the bottom frame, else the
/// finished lookup's address re-targets the frame below); otherwise a glue
/// address in the additionals re-targets the top frame; otherwise an NS
/// authority pushes a fresh lookup of the name server's own name, starting
/// from the root; otherwise the response is unusable.  The step and depth
/// caps turn runaway referral chains into `RecursionLimitExceeded`.
pub open spec fn spec_step(m: ResolverModel, decoded: Result<PacketModel, DnsError>) -> (
    ResolverModel,
    StepModel,
) {
    if m.steps >= MAX_STEPS {
        (m, StepModel::Failed(DnsError::RecursionLimitExceeded))
    } else {
        let m1 = ResolverModel { frames: m.frames, steps: (m.steps + 1) as u32 };
        match decoded {
            Err(e) => (m1, StepModel::Failed(e)),
            Ok(p) => match spec_first_of_type(p.answers, m.frames.last().record_type) {
                Some(rec) => if m.frames.len() <= 1 {
                    (m1, StepModel::Done(rec.data))
                } else {
                    match rec.data {
                        RecordDataModel::Ipv4Addr(ip) => (
                            ResolverModel {
                                frames: retarget_last(m.frames.drop_last(), ip),
                                steps: m1.steps,
                            },
                            StepModel::Continue,
                        ),
                        _ => (m1, StepModel::Failed(DnsError::NoUsableResponse)),
                    }
                },
                None => match spec_first_of_type(p.additionals, TYPE_A) {
                    Some(glue) => match glue.data {
                        RecordDataModel::Ipv4Addr(ip) => (
                            ResolverModel {
                                frames: retarget_last(m.frames, ip),
                                steps: m1.steps,
                            },
                            StepModel::Continue,
                        ),
                        _ => (m1, StepModel::Failed(DnsError::NoUsableResponse)),
                    },
                    None => match spec_first_of_type(p.authorities, TYPE_NS) {
                        Some(nsrec) => match nsrec.data {
                            RecordDataModel::Name(nsname) => if !valid_dns_name(nsname) {
                                (m1, StepModel::Failed(DnsError::NoUsableResponse))
                            } else if m.frames.len() >= MAX_DEPTH {
                                (m1, StepModel::Failed(DnsError::RecursionLimitExceeded))
                            } else {
                                (
                                    ResolverModel {
                                        frames: m.frames.push(
                                            FrameModel {
                                                nameserver: spec_root_server(),
                                                domain: nsname,
                                                record_type: TYPE_A,
                                            },
                                        ),
                                        steps: m1.steps,
                                    },
                                    StepModel::Continue,
                                )
                            },
                            _ => (m1, StepModel::Failed(DnsError::NoUsableResponse)),
                        },
                        None => (m1, StepModel::Failed(DnsError::NoUsableResponse)),
                    },
                },
            },
        }
    }
}

/// Referral precedence: when no answer matches the requested type and the
/// additional section carries a glue address, the engine re-targets the
/// same question at that address — whatever the authority section holds, it
/// never recurses on a name server's name in that case.
pub proof fn lemma_referral_precedence(
    m: ResolverModel,
    p: PacketModel,
    glue: RecordModel,
    ip: Ipv4Addr,
)
    requires
        m.steps < MAX_STEPS,
        m.frames.len() >= 1,
        spec_first_of_type(p.answers, m.frames.last().record_type) is None,
        spec_first_of_type(p.additionals, TYPE_A) == Some(glue),
        glue.data == RecordDataModel::Ipv4Addr(ip),
    ensures
        spec_step(m, Ok(p)).1 == StepModel::Continue,
        spec_step(m, Ok(p)).0.frames.len() == m.frames.len(),
        spec_step(m, Ok(p)).0.frames.last().nameserver == ip,
        spec_step(m, Ok(p)).0.frames.last().domain == m.frames.last().domain,
        spec_step(m, Ok(p)).0.frames.last().record_type == m.frames.last().record_type,
        spec_step(m, Ok(p)).0.steps == m.steps + 1,
{
}

/// Swaps the top frame's target server.
fn retarget_top(frames: &mut Vec<QueryFrame>, ip: Ipv4Addr)
    requires
        old(frames)@.len() >= 1,
    ensures
        final(frames)@.map_values(|f: QueryFrame| f@) == retarget_last(
            old(frames)@.map_values(|f: QueryFrame| f@),
            ip,
        ),
{
    match frames.pop() {
        Some(f) => {
            frames.push(QueryFrame { nameserver: ip, domain: f.domain, record_type: f.record_type });
            proof {
                assert(frames@.map_values(|f: QueryFrame| f@) =~= retarget_last(
                    old(frames)@.map_values(|f: QueryFrame| f@),
                    ip,
                ));
            }
        },
        None => {
            proof {
                assert(false);
            }
        },
    }
}

impl ResolverState {
    /// The engine's invariant, over the state's model.
    pub open spec fn wf(&self) -> bool {
        wf_resolver(self@)
    }

    /// A fresh resolution of `domain` with the requested record type,
    /// aimed at the root server.
    pub fn start(domain: Vec<u8>, record_type: u16) -> (r: ResolverState)
        requires
            valid_dns_name(domain@),
        ensures
            r.wf(),
            r@.steps == 0,
            r@.frames =~= seq![
                (FrameModel {
                    nameserver: spec_root_server(),
                    domain: domain@,
                    record_type,
                }),
            ],
    {
        let mut frames: Vec<QueryFrame> = Vec::new();
        frames.push(QueryFrame { nameserver: root_server(), domain, record_type });
        let r = ResolverState { frames, steps: 0 };
        proof {
            assert(r@.frames =~= seq![
                (FrameModel {
                    nameserver: spec_root_server(),
                    domain: r@.frames[0].domain,
                    record_type,
                }),
            ]);
        }
        r
    }

    /// How many queries are pending, nested lookups included.
    pub fn depth(&self) -> (r: usize)
        ensures
            r == self@.frames.len(),
    {
        self.frames.len()
    }

    /// How many responses have been consumed so far.
    pub fn steps_taken(&self) -> (r: u32)
        ensures
            r == self@.steps,
    {
        self.steps
    }

    /// The server the next query goes to.
    pub fn current_server(&self) -> (r: Ipv4Addr)
        requires
            self.wf(),
        ensures
            r == self@.frames.last().nameserver,
    {
        let i = self.frames.len() - 1;
        self.frames[i].nameserver
    }

    /// The name the next query asks about.
    pub fn current_domain(&self) -> (r: Vec<u8>)
        requires
            self.wf(),
        ensures
            r@ == self@.frames.last().domain,
    {
        let i = self.frames.len() - 1;
        slice_to_vec(self.frames[i].domain.as_slice())
    }

    /// The wire bytes of the next query: the top frame's name and type,
    /// under a fresh random id.
    pub fn current_query_bytes(&self) -> (r: Vec<u8>)
        requires
            self.wf(),
        ensures
            exists|id: u16|
                1 <= id < 65535 && r@ == spec_query_bytes(
                    id,
                    self@.frames.last().domain,
                    self@.frames.last().record_type,
                ),
    {
        let i = self.frames.len() - 1;
        let id = crate::codec::random_id();
        proof {
            assert(valid_dns_name(self@.frames[i as int].domain));
            assert(self@.frames[i as int] == self.frames@[i as int]@);
        }
        let r = crate::codec::build_query_bytes(
            self.frames[i].domain.as_slice(),
            self.frames[i].record_type,
            id,
        );
        proof {
            assert(1 <= id < 65535 && r@ == spec_query_bytes(
                id,
                self@.frames.last().domain,
                self@.frames.last().record_type,
            ));
        }
        r
    }

    /// Consumes one response for the top frame's query and moves the state
    /// as `spec_step` says, decoding included: the caller learns whether to
    /// send the next query, take the result, or give up, and a malformed or
    /// hostile response only ever fails this resolution attempt.
    pub fn handle_response(&mut self, response: &[u8]) -> (step: ResolveStep)
        requires
            old(self).wf(),
        ensures
            final(self).wf(),
            (final(self)@, step@) == spec_step(old(self)@, spec_parse_packet(response@)),
    {
        let ghost m0 = self@;
        if self.steps >= MAX_STEPS {
            return ResolveStep::Failed(DnsError::RecursionLimitExceeded);
        }
        self.steps = self.steps + 1;
        let packet = match DnsPacket::parse(response) {
            Err(e) => {
                return ResolveStep::Failed(e);
            },
            Ok(p) => p,
        };
        let top_idx = self.frames.len() - 1;
        let top_rtype = self.frames[top_idx].record_type;
        match get_answer(&packet, top_rtype) {
            Some(data) => {
                if self.frames.len() == 1 {
                    return ResolveStep::Done(data);
                }
                match data {
                    DnsRecordData::Ipv4Addr(ip) => {
                        self.frames.pop();
                        proof {
                            assert(self.frames@.map_values(|f: QueryFrame| f@) =~= m0.frames.drop_last());
                        }
                        retarget_top(&mut self.frames, ip);
                        ResolveStep::Continue
                    },
                    _ => ResolveStep::Failed(DnsError::NoUsableResponse),
                }
            },
            None => match get_nameserver_ip(&packet) {
                Some(ip) => {
                    retarget_top(&mut self.frames, ip);
                    ResolveStep::Continue
                },
                None => match get_nameserver(&packet) {
                    Some(ns_name) => {
                        if !is_valid_dns_name(ns_name.as_slice()) {
                            ResolveStep::Failed(DnsError::NoUsableResponse)
                        } else if self.frames.len() >= MAX_DEPTH {
                            ResolveStep::Failed(DnsError::RecursionLimitExceeded)
                        } else {
                            self.frames.push(
                                QueryFrame {
                                    nameserver: root_server(),
                                    domain: ns_name,
                                    record_type: TYPE_A,
                                },
                            );
                            proof {
                                assert(self.frames@.map_values(|f: QueryFrame| f@)
                                    =~= m0.frames.push(
                                    self.frames@[m0.frames.len() as int]@,
                                ));
                            }
                            ResolveStep::Continue
                        }
                    },
                    None => ResolveStep::Failed(DnsError::NoUsableResponse),
                },
            },
        }
    }
}

} // verus!
