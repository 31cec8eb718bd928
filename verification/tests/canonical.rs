use consensus_model::config::{insert_env_sorted, GlobalConfig};
use consensus_model::encode::encode_config;
use consensus_model::explore::{contains_key, keys_equal};
use consensus_model::protocol::{add_vote, ConsensusMsg, ConsensusState, Envelope, NodeRole, Value};

fn candidate_with_votes(votes: Vec<usize>) -> ConsensusState {
    ConsensusState {
        role: NodeRole::Candidate,
        proposed_value: Some(Value::V0),
        votes_received: votes,
        decided_value: None,
    }
}

#[test]
fn votes_canonical_under_insertion_order() {
    let mut ab: Vec<usize> = Vec::new();
    add_vote(&mut ab, 0);
    add_vote(&mut ab, 1);

    let mut ba: Vec<usize> = Vec::new();
    add_vote(&mut ba, 1);
    add_vote(&mut ba, 0);

    assert_eq!(ab, ba);
    assert_eq!(ab, vec![0, 1]);

    // inserting a voter already present changes nothing
    add_vote(&mut ab, 1);
    assert_eq!(ab, vec![0, 1]);
}

#[test]
fn state_encoding_is_order_independent() {
    // votes {0, 1} collected in either order encode identically
    let mut ab: Vec<usize> = Vec::new();
    add_vote(&mut ab, 0);
    add_vote(&mut ab, 1);
    let mut ba: Vec<usize> = Vec::new();
    add_vote(&mut ba, 1);
    add_vote(&mut ba, 0);

    let c1 = GlobalConfig { states: vec![candidate_with_votes(ab)], network: Vec::new() };
    let c2 = GlobalConfig { states: vec![candidate_with_votes(ba)], network: Vec::new() };
    assert_eq!(encode_config(&c1), encode_config(&c2));
}

#[test]
fn configurations_differing_in_insertion_order_share_a_fingerprint() {
    let e1 = Envelope { src: 1, dst: 0, msg: ConsensusMsg::Vote { value: Value::V0 } };
    let e2 = Envelope { src: 0, dst: 2, msg: ConsensusMsg::Propose { value: Value::V0 } };

    let mut net_a: Vec<Envelope> = Vec::new();
    insert_env_sorted(&mut net_a, e1);
    insert_env_sorted(&mut net_a, e2);

    let mut net_b: Vec<Envelope> = Vec::new();
    insert_env_sorted(&mut net_b, e2);
    insert_env_sorted(&mut net_b, e1);

    assert_eq!(net_a, net_b);

    let base = || vec![candidate_with_votes(Vec::new())];
    let c1 = GlobalConfig { states: base(), network: net_a };
    let c2 = GlobalConfig { states: base(), network: net_b };
    let k1 = encode_config(&c1);
    let k2 = encode_config(&c2);
    assert!(keys_equal(&k1, &k2));

    // the explorer's visited set treats the two as one node
    let visited = vec![k1];
    assert!(contains_key(&visited, &k2));
}

#[test]
fn distinct_configurations_get_distinct_fingerprints() {
    let c1 = GlobalConfig { states: vec![candidate_with_votes(Vec::new())], network: Vec::new() };
    let mut decided = candidate_with_votes(Vec::new());
    decided.role = NodeRole::Decided;
    decided.decided_value = Some(Value::V1);
    let c2 = GlobalConfig { states: vec![decided], network: Vec::new() };
    let k1 = encode_config(&c1);
    let k2 = encode_config(&c2);
    assert!(!keys_equal(&k1, &k2));
    let visited = vec![k1];
    assert!(!contains_key(&visited, &k2));
}
