use consensus_model::config::{
    check_agreement, check_validity, has_decision, initial_config, insert_env_sorted,
    seed_candidate, GlobalConfig,
};
use consensus_model::explore::explore;
use consensus_model::protocol::{
    add_vote, ConsensusActor, ConsensusMsg, ConsensusState, Envelope, NodeRole, Value,
};

fn three_actor() -> ConsensusActor {
    ConsensusActor::new(vec![0, 1, 2])
}

fn decided_state(v: Value) -> ConsensusState {
    ConsensusState {
        role: NodeRole::Decided,
        proposed_value: Some(v),
        votes_received: Vec::new(),
        decided_value: Some(v),
    }
}

#[test]
fn test_three_node_consensus() {
    // Three processes, unordered non-duplicating network, full exploration.
    let actor = three_actor();
    let init = initial_config(&actor);
    let result = explore(&actor, &init, 100_000);

    assert!(result.agreement_violation.is_none(), "Agreement property violated");
    assert!(result.validity_violation.is_none(), "Validity property violated");
    assert!(result.unique_state_count() > 0, "Should explore at least some states");
}

#[test]
fn test_consensus_state_equality() {
    let state1 = ConsensusState {
        role: NodeRole::Follower,
        proposed_value: Some(Value::V0),
        votes_received: Vec::new(),
        decided_value: None,
    };

    let mut state2 = ConsensusState {
        role: NodeRole::Follower,
        proposed_value: Some(Value::V0),
        votes_received: Vec::new(),
        decided_value: None,
    };

    assert_eq!(state1, state2);

    state2.role = NodeRole::Candidate;
    assert_ne!(state1, state2);
}

#[test]
fn test_quorum_calculation() {
    let actor = three_actor();

    assert_eq!(actor.quorum_size, 2, "Quorum for 3 nodes should be 2");

    let mut votes: Vec<usize> = Vec::new();
    assert!(!actor.has_quorum(&votes), "Empty votes shouldn't be quorum");

    add_vote(&mut votes, 0);
    assert!(!actor.has_quorum(&votes), "1 vote isn't quorum for 3 nodes");

    add_vote(&mut votes, 1);
    assert!(actor.has_quorum(&votes), "2 votes should be quorum for 3 nodes");
}

#[test]
fn test_agreement_property() {
    let states = vec![decided_state(Value::V0), decided_state(Value::V0)];
    assert!(check_agreement(&states), "Same values should pass agreement");

    let bad_states = vec![decided_state(Value::V0), decided_state(Value::V1)];
    assert!(!check_agreement(&bad_states), "Different values should fail agreement");
}

#[test]
fn quorum_matches_floor_half_plus_one() {
    // floor(n / 2) + 1 for a few sizes, the two named ones among them
    let a3 = ConsensusActor::new(vec![0, 1, 2]);
    assert_eq!(a3.quorum_size, 2);
    let a5 = ConsensusActor::new(vec![0, 1, 2, 3, 4]);
    assert_eq!(a5.quorum_size, 3);
    let a1 = ConsensusActor::new(vec![0]);
    assert_eq!(a1.quorum_size, 1);
    let a4 = ConsensusActor::new(vec![0, 1, 2, 3]);
    assert_eq!(a4.quorum_size, 3);
}

fn find_env(cfg: &GlobalConfig, src: usize, dst: usize, msg: ConsensusMsg) -> usize {
    let mut i: usize = 0;
    while i < cfg.network.len() {
        let e = &cfg.network[i];
        if e.src == src && e.dst == dst && e.msg == msg {
            return i;
        }
        i += 1;
    }
    panic!("expected message is not in flight");
}

fn deliver(actor: &ConsensusActor, cfg: &GlobalConfig, src: usize, dst: usize, msg: ConsensusMsg) -> GlobalConfig {
    let k = find_env(cfg, src, dst, msg);
    consensus_model::config::apply_action(actor, cfg, k)
}

#[test]
fn end_to_end_three_processes_decide() {
    // Scripted run: seed process 0 as candidate for V0, deliver its proposals,
    // both votes, then both commits.
    let actor = three_actor();
    let c0 = initial_config(&actor);
    let c1 = seed_candidate(&actor, &c0, 0, Value::V0);
    assert_eq!(c1.states[0].role, NodeRole::Candidate);
    assert_eq!(c1.states[0].proposed_value, Some(Value::V0));
    assert_eq!(c1.network.len(), 2);

    let c2 = deliver(&actor, &c1, 0, 1, ConsensusMsg::Propose { value: Value::V0 });
    assert_eq!(c2.states[1].proposed_value, Some(Value::V0));

    let c3 = deliver(&actor, &c2, 0, 2, ConsensusMsg::Propose { value: Value::V0 });
    let c4 = deliver(&actor, &c3, 1, 0, ConsensusMsg::Vote { value: Value::V0 });
    assert_eq!(c4.states[0].votes_received, vec![1]);
    assert_eq!(c4.states[0].role, NodeRole::Candidate);

    let c5 = deliver(&actor, &c4, 2, 0, ConsensusMsg::Vote { value: Value::V0 });
    assert_eq!(c5.states[0].votes_received, vec![1, 2]);
    assert_eq!(c5.states[0].role, NodeRole::Leader);
    assert_eq!(c5.network.len(), 2);

    let c6 = deliver(&actor, &c5, 0, 1, ConsensusMsg::Commit { value: Value::V0 });
    let c7 = deliver(&actor, &c6, 0, 2, ConsensusMsg::Commit { value: Value::V0 });

    // The two commit recipients decide V0; the leader itself receives no
    // commit (it broadcasts to every peer but itself) and stays leader.
    assert_eq!(c7.states[1].decided_value, Some(Value::V0));
    assert_eq!(c7.states[1].role, NodeRole::Decided);
    assert_eq!(c7.states[2].decided_value, Some(Value::V0));
    assert_eq!(c7.states[0].decided_value, None);
    assert_eq!(c7.states[0].role, NodeRole::Leader);
    assert!(c7.network.is_empty());

    assert!(check_agreement(&c7.states));
    assert!(check_validity(&c7.states));
    assert!(has_decision(&c7.states));
}

#[test]
fn decision_is_write_once() {
    // A commit for a different value arriving at an already decided process
    // is consumed without changing the decision.
    let actor = three_actor();
    let already_decided = ConsensusState {
        role: NodeRole::Decided,
        proposed_value: None,
        votes_received: Vec::new(),
        decided_value: Some(Value::V0),
    };
    let follower = |_: usize| ConsensusState {
        role: NodeRole::Follower,
        proposed_value: None,
        votes_received: Vec::new(),
        decided_value: None,
    };
    let mut net: Vec<Envelope> = Vec::new();
    insert_env_sorted(&mut net, Envelope { src: 2, dst: 1, msg: ConsensusMsg::Commit { value: Value::V2 } });
    let cfg = GlobalConfig { states: vec![follower(0), already_decided, follower(2)], network: net };

    let after = deliver(&actor, &cfg, 2, 1, ConsensusMsg::Commit { value: Value::V2 });
    assert_eq!(after.states[1].decided_value, Some(Value::V0));
    assert_eq!(after.states[1].role, NodeRole::Decided);
    assert!(after.network.is_empty());
}

#[test]
fn seeded_exploration_holds_safety_and_witnesses_progress() {
    // Every configuration reachable from the seeded three-process run keeps
    // agreement and validity, and some reachable configuration has a decision.
    let actor = three_actor();
    let init = seed_candidate(&actor, &initial_config(&actor), 0, Value::V0);
    let result = explore(&actor, &init, 100_000);

    assert!(result.complete, "the reachable space fits the bound");
    assert!(result.unique_state_count() > 1);
    assert!(result.agreement_violation.is_none());
    assert!(result.validity_violation.is_none());
    let witness = result.progress_witness.expect("a decision is reachable");
    assert!(has_decision(&result.states[witness].states));
    // the witness path replays from the initial configuration
    let mut replayed = init;
    for e in &result.paths[witness] {
        replayed = deliver(&actor, &replayed, e.src, e.dst, e.msg);
    }
    assert!(has_decision(&replayed.states));
}

#[test]
fn unseeded_run_reports_progress_not_demonstrated() {
    // Without the seed action no process ever becomes candidate: exploration
    // completes on the single initial configuration, progress is merely not
    // demonstrated, and the safety properties hold vacuously.
    let actor = three_actor();
    let init = initial_config(&actor);
    let result = explore(&actor, &init, 100_000);

    assert!(result.complete);
    assert_eq!(result.unique_state_count(), 1);
    assert!(result.progress_witness.is_none());
    assert!(result.agreement_violation.is_none());
    assert!(result.validity_violation.is_none());
}

#[test]
fn divergent_candidates_split_the_vote() {
    // Two candidates propose different values before either has a quorum.
    // Votes for a value the candidate did not propose are ignored, so with a
    // single remaining follower neither candidate can ever reach quorum two:
    // no commit circulates, nobody decides, and agreement is never violated.
    let actor = three_actor();
    let seeded_one = seed_candidate(&actor, &initial_config(&actor), 0, Value::V1);
    let init = seed_candidate(&actor, &seeded_one, 1, Value::V2);
    assert_eq!(init.network.len(), 4);

    let result = explore(&actor, &init, 100_000);
    assert!(result.complete);
    assert!(result.unique_state_count() > 1);
    assert!(result.agreement_violation.is_none());
    assert!(result.validity_violation.is_none());
    assert!(result.progress_witness.is_none(), "split vote must block progress");
}
