use dns::engine::{
    get_answer, get_nameserver, get_nameserver_ip, ResolveStep, ResolverState, MAX_DEPTH,
    MAX_STEPS,
};
use dns::types::{DnsError, DnsHeader, DnsPacket, DnsRecordData, Ipv4Addr, CLASS_IN, TYPE_A, TYPE_NS};

fn push_u16(out: &mut Vec<u8>, x: u16) {
    out.push((x >> 8) as u8);
    out.push((x & 0xFF) as u8);
}

fn push_record(out: &mut Vec<u8>, name: &[u8], type_: u16, data: &[u8]) {
    out.extend_from_slice(name);
    push_u16(out, type_);
    push_u16(out, CLASS_IN);
    out.extend_from_slice(&[0, 0, 0, 60]);
    push_u16(out, data.len() as u16);
    out.extend_from_slice(data);
}

/// A response with the given record sections, no questions.
fn response(answers: Vec<(u16, Vec<u8>)>, authorities: Vec<(u16, Vec<u8>)>, additionals: Vec<(u16, Vec<u8>)>) -> Vec<u8> {
    let h = DnsHeader {
        id: 99,
        flags: 0x8000,
        num_questions: 0,
        num_answers: answers.len() as u16,
        num_authorities: authorities.len() as u16,
        num_additionals: additionals.len() as u16,
    };
    let mut buf = h.to_bytes();
    for (t, data) in answers.iter().chain(authorities.iter()).chain(additionals.iter()) {
        push_record(&mut buf, &[3, b'c', b'o', b'm', 0], *t, data);
    }
    buf
}

fn encode_name(name: &str) -> Vec<u8> {
    let mut out = Vec::new();
    for label in name.split('.') {
        out.push(label.len() as u8);
        out.extend_from_slice(label.as_bytes());
    }
    out.push(0);
    out
}

#[test]
fn get_answer_finds_first_matching_type() {
    let buf = response(
        vec![(TYPE_NS, encode_name("ns.com")), (TYPE_A, vec![1, 2, 3, 4]), (TYPE_A, vec![5, 6, 7, 8])],
        vec![],
        vec![],
    );
    let packet = DnsPacket::parse(&buf).unwrap();
    match get_answer(&packet, TYPE_A) {
        Some(DnsRecordData::Ipv4Addr(ip)) => assert_eq!(ip, Ipv4Addr::new(1, 2, 3, 4)),
        _ => panic!("expected the first A answer"),
    }
    assert!(get_answer(&packet, 16).is_none());
}

#[test]
fn get_nameserver_reads_first_ns_authority() {
    let buf = response(vec![], vec![(TYPE_A, vec![9, 9, 9, 9]), (TYPE_NS, encode_name("a.iana-servers.net"))], vec![]);
    let packet = DnsPacket::parse(&buf).unwrap();
    assert_eq!(get_nameserver(&packet), Some(b"a.iana-servers.net".to_vec()));
}

#[test]
fn get_nameserver_ip_reads_first_a_additional() {
    let buf = response(vec![], vec![], vec![(16, vec![1]), (TYPE_A, vec![199, 43, 135, 53])]);
    let packet = DnsPacket::parse(&buf).unwrap();
    assert_eq!(get_nameserver_ip(&packet), Some(Ipv4Addr::new(199, 43, 135, 53)));
}

#[test]
fn answer_ends_resolution() {
    let mut state = ResolverState::start(b"example.com".to_vec(), TYPE_A);
    let buf = response(vec![(TYPE_A, vec![93, 184, 216, 34])], vec![], vec![]);
    match state.handle_response(&buf) {
        ResolveStep::Done(DnsRecordData::Ipv4Addr(ip)) => {
            assert_eq!(ip, Ipv4Addr::new(93, 184, 216, 34));
        },
        _ => panic!("expected the resolution to finish"),
    }
}

#[test]
fn glue_precedes_ns_referral() {
    // empty answers, a type-A record in additionals AND a type-NS record in
    // authorities: the engine must take the glue address, not recurse
    let mut state = ResolverState::start(b"example.com".to_vec(), TYPE_A);
    let buf = response(
        vec![],
        vec![(TYPE_NS, encode_name("a.iana-servers.net"))],
        vec![(TYPE_A, vec![199, 43, 135, 53])],
    );
    match state.handle_response(&buf) {
        ResolveStep::Continue => {},
        _ => panic!("expected the resolution to go on"),
    }
    assert_eq!(state.depth(), 1);
    assert_eq!(state.current_server(), Ipv4Addr::new(199, 43, 135, 53));
    assert_eq!(state.current_domain(), b"example.com".to_vec());
}

#[test]
fn ns_referral_without_glue_recurses() {
    let mut state = ResolverState::start(b"example.com".to_vec(), TYPE_A);
    let buf = response(vec![], vec![(TYPE_NS, encode_name("ns.org"))], vec![]);
    match state.handle_response(&buf) {
        ResolveStep::Continue => {},
        _ => panic!("expected the resolution to go on"),
    }
    assert_eq!(state.depth(), 2);
    assert_eq!(state.current_domain(), b"ns.org".to_vec());
    assert_eq!(state.current_server(), Ipv4Addr::new(198, 41, 0, 4));
}

#[test]
fn end_to_end_scenario() {
    // resolving example.com type A from the root: the root's response has no
    // answer, an NS authority and its glue address; the re-query at the glue
    // address answers with the final address
    let mut state = ResolverState::start(b"example.com".to_vec(), TYPE_A);
    assert_eq!(state.current_server(), Ipv4Addr::new(198, 41, 0, 4));
    let root_response = response(
        vec![],
        vec![(TYPE_NS, encode_name("a.iana-servers.net"))],
        vec![(TYPE_A, vec![199, 43, 135, 53])],
    );
    match state.handle_response(&root_response) {
        ResolveStep::Continue => {},
        _ => panic!("expected a referral"),
    }
    assert_eq!(state.current_server(), Ipv4Addr::new(199, 43, 135, 53));
    assert_eq!(state.current_domain(), b"example.com".to_vec());
    let leaf_response = response(vec![(TYPE_A, vec![93, 184, 216, 34])], vec![], vec![]);
    match state.handle_response(&leaf_response) {
        ResolveStep::Done(DnsRecordData::Ipv4Addr(ip)) => {
            assert_eq!(ip, Ipv4Addr::new(93, 184, 216, 34));
        },
        _ => panic!("expected the final address"),
    }
}

#[test]
fn empty_response_reports_no_usable_response() {
    let mut state = ResolverState::start(b"example.com".to_vec(), TYPE_A);
    let buf = response(vec![], vec![], vec![]);
    match state.handle_response(&buf) {
        ResolveStep::Failed(DnsError::NoUsableResponse) => {},
        _ => panic!("expected a terminal failure"),
    }
    assert_eq!(state.steps_taken(), 1);
}

#[test]
fn malformed_response_fails_decode() {
    let mut state = ResolverState::start(b"example.com".to_vec(), TYPE_A);
    match state.handle_response(&[1, 2, 3]) {
        ResolveStep::Failed(DnsError::Truncated) => {},
        _ => panic!("expected a decode failure"),
    }
}

#[test]
fn depth_cap_stops_referral_chains() {
    let mut state = ResolverState::start(b"example.com".to_vec(), TYPE_A);
    let referral = response(vec![], vec![(TYPE_NS, encode_name("ns.org"))], vec![]);
    for expected_depth in 2..=MAX_DEPTH {
        match state.handle_response(&referral) {
            ResolveStep::Continue => {},
            _ => panic!("expected the chain to go on"),
        }
        assert_eq!(state.depth(), expected_depth);
    }
    match state.handle_response(&referral) {
        ResolveStep::Failed(DnsError::RecursionLimitExceeded) => {},
        _ => panic!("expected the depth cap to trip"),
    }
    assert_eq!(state.depth(), MAX_DEPTH);
}

#[test]
fn step_cap_stops_endless_retargeting() {
    let mut state = ResolverState::start(b"example.com".to_vec(), TYPE_A);
    let glue_referral = response(vec![], vec![], vec![(TYPE_A, vec![9, 9, 9, 9])]);
    for _ in 0..MAX_STEPS {
        match state.handle_response(&glue_referral) {
            ResolveStep::Continue => {},
            _ => panic!("expected the loop to go on"),
        }
    }
    match state.handle_response(&glue_referral) {
        ResolveStep::Failed(DnsError::RecursionLimitExceeded) => {},
        _ => panic!("expected the step cap to trip"),
    }
}
