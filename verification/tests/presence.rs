use raop_discovery::presence::{
    decode_browse_record, reconcile, BrowseRecordError, CandidateHost, HostId, RETRY_BUDGET,
};
use raop_discovery::rr::{encode_rr, DecodeError};

fn host(n: &[u8]) -> HostId {
    HostId {
        interface_index: 2,
        name: n.to_vec(),
        domain: b"target.local".to_vec(),
    }
}

fn candidate(n: &[u8], retries: u32) -> CandidateHost {
    CandidateHost {
        id: host(n),
        retries_remaining: retries,
    }
}

fn find_retries(stable: &[CandidateHost], n: &[u8]) -> Option<u32> {
    stable
        .iter()
        .find(|c| c.id.name == n)
        .map(|c| c.retries_remaining)
}

#[test]
fn first_sighting_grants_full_budget() {
    let stable: Vec<CandidateHost> = Vec::new();
    let sighted = vec![host(b"a")];
    let out = reconcile(&stable, &sighted);
    assert_eq!(out.stable.len(), 1);
    assert_eq!(find_retries(&out.stable, b"a"), Some(RETRY_BUDGET));
    assert_eq!(out.added.len(), 1);
    assert_eq!(out.added[0].name, b"a".to_vec());
    assert!(out.removed.is_empty());
}

#[test]
fn flap_damping_survives_budget_cycles() {
    // Sight the host once, then let it be absent. It must survive
    // RETRY_BUDGET consecutive absent cycles, losing one retry per
    // cycle, and be removed exactly on the following one.
    let mut stable = vec![candidate(b"a", RETRY_BUDGET)];
    let empty: Vec<HostId> = Vec::new();
    for cycle in 1..=RETRY_BUDGET {
        let out = reconcile(&stable, &empty);
        assert_eq!(
            find_retries(&out.stable, b"a"),
            Some(RETRY_BUDGET - cycle),
            "host must survive absent cycle {cycle}"
        );
        assert!(out.removed.is_empty(), "no removal in absent cycle {cycle}");
        assert!(out.added.is_empty());
        stable = out.stable;
    }
    let out = reconcile(&stable, &empty);
    assert!(out.stable.is_empty(), "exhausted host must leave the set");
    assert_eq!(out.removed.len(), 1, "removal reported exactly once");
    assert_eq!(out.removed[0].name, b"a".to_vec());
    // Afterwards the host is gone for good and never reported again.
    let out = reconcile(&out.stable, &empty);
    assert!(out.stable.is_empty());
    assert!(out.removed.is_empty());
}

#[test]
fn hysteresis_reset_restores_full_budget() {
    // Three absent cycles, then a re-sighting: the budget must be back
    // at RETRY_BUDGET, not at RETRY_BUDGET minus three.
    let mut stable = vec![candidate(b"a", RETRY_BUDGET)];
    let empty: Vec<HostId> = Vec::new();
    for _ in 0..3 {
        stable = reconcile(&stable, &empty).stable;
    }
    assert_eq!(find_retries(&stable, b"a"), Some(RETRY_BUDGET - 3));
    let out = reconcile(&stable, &vec![host(b"a")]);
    assert_eq!(find_retries(&out.stable, b"a"), Some(RETRY_BUDGET));
    // A re-sighting of a surviving host is no addition.
    assert!(out.added.is_empty());
    assert!(out.removed.is_empty());
}

#[test]
fn sighted_duplicates_collapse() {
    let stable: Vec<CandidateHost> = Vec::new();
    let sighted = vec![host(b"a"), host(b"a"), host(b"b")];
    let out = reconcile(&stable, &sighted);
    assert_eq!(out.stable.len(), 2);
    assert_eq!(out.added.len(), 2);
}

#[test]
fn identity_ignores_retry_budget_only() {
    // Same name on another interface is another host: the old identity
    // is treated as absent and survives decremented, the new one is an
    // addition.
    let stable = vec![candidate(b"a", 5)];
    let mut other = host(b"a");
    other.interface_index = 9;
    let out = reconcile(&stable, &vec![other]);
    assert_eq!(out.stable.len(), 2);
    assert_eq!(out.added.len(), 1);
    assert!(out.removed.is_empty());
    let by_iface = |ifx: i32| {
        out.stable
            .iter()
            .find(|c| c.id.interface_index == ifx)
            .map(|c| c.retries_remaining)
    };
    assert_eq!(by_iface(2), Some(4));
    assert_eq!(by_iface(9), Some(RETRY_BUDGET));
}

#[test]
fn decode_browse_record_accepts_pointer() {
    // A pointer record whose payload is the encoded target name.
    let target = vec![b"target".to_vec(), b"local".to_vec()];
    let payload = raop_discovery::rr::encode_name(&target);
    let name = vec![b"_raop".to_vec(), b"_tcp".to_vec(), b"local".to_vec()];
    let data = encode_rr(&name, 12, 1, 120, &payload);
    let h = decode_browse_record(4, 1, 12, &data).expect("record must decode");
    assert_eq!(h.interface_index, 4);
    assert_eq!(h.name, b"_raop._tcp.local".to_vec());
    assert_eq!(h.domain, b"target.local".to_vec());
}

#[test]
fn decode_browse_record_rejects_wrong_outer_class() {
    let data = vec![0];
    assert_eq!(
        decode_browse_record(1, 2, 12, &data),
        Err(BrowseRecordError::WrongResponseClassType)
    );
    assert_eq!(
        decode_browse_record(1, 1, 33, &data),
        Err(BrowseRecordError::WrongResponseClassType)
    );
}

#[test]
fn decode_browse_record_rejects_wrong_record_type() {
    let name = vec![b"x".to_vec()];
    let payload = vec![0u8];
    let data = encode_rr(&name, 33, 1, 120, &payload);
    assert_eq!(
        decode_browse_record(1, 1, 12, &data),
        Err(BrowseRecordError::WrongRecordClassType)
    );
}

#[test]
fn decode_browse_record_rejects_truncated() {
    let data = vec![9, b'a'];
    assert_eq!(
        decode_browse_record(1, 1, 12, &data),
        Err(BrowseRecordError::Decode(DecodeError::Truncated))
    );
}
