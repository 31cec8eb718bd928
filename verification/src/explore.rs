//! Breadth-first exploration of the reachable configuration space.
//!
//! [`explore`] starts from an initial configuration and repeatedly expands
//! the oldest unexpanded configuration: every enabled delivery action is
//! applied, successors are deduplicated under their canonical encoding, and
//! the three reference properties — agreement and validity ("always"),
//! progress ("sometimes") — are evaluated on every configuration when it is
//! first discovered.
//!
//! Every discovered configuration is certified by its delivery path: the
//! result carries, for each state, a delivery sequence that provably replays
//! from the initial configuration to exactly that state.  A reported
//! violation or witness therefore always comes with a checked counterexample
//! path.

use vstd::prelude::*;

use crate::config::{
    agreement_s, apply_action, check_agreement, check_validity, copy_envs, deliver_m, enabled_m,
    has_decision, lemma_replay_snoc, lemma_wf_same, progress_s, replay_m, validity_s, views_of,
    wf_actor, wf_config, GlobalConfig,
};
use crate::encode::{encode_config, encode_config_spec, lemma_encode_config_canonical,
    lemma_encode_config_injective};
use crate::protocol::{ConsensusActor, Envelope};

verus! {

/// The outcome of one exploration run.
///
/// `states[i]` is the `i`-th distinct configuration discovered, `paths[i]` a
/// delivery sequence that reaches it from the initial configuration
/// (`paths[0]` is empty).  When `complete` is `true` the discovered set is
/// closed under delivery — every enabled action of every discovered state
/// leads back into the set, so it is the whole reachable space.  `complete`
/// is `false` only when the state bound was actually exhausted: exactly
/// `bound` distinct configurations were discovered, and the "always"
/// verdicts cover only those.  Which of several equally short
/// paths certifies a discovery depends on expansion order and is not part of
/// the contract.
#[derive(Debug)]
pub struct ExplorationResult {
    pub states: Vec<GlobalConfig>,
    pub paths: Vec<Vec<Envelope>>,
    pub complete: bool,
    pub agreement_violation: Option<usize>,
    pub validity_violation: Option<usize>,
    pub progress_witness: Option<usize>,
}

impl ExplorationResult {
    /// How many distinct configurations were discovered.
    pub fn unique_state_count(&self) -> (r: usize)
        ensures
            r == self.states@.len(),
    {
        self.states.len()
    }
}

/// Whether two canonical keys are equal.
pub fn keys_equal(a: &Vec<usize>, b: &Vec<usize>) -> (r: bool)
    ensures
        r == (a@ == b@),
{
    if a.len() != b.len() {
        proof {
            assert(a@ != b@);
        }
        return false;
    }
    let mut i: usize = 0;
    while i < a.len()
        invariant
            i <= a@.len(),
            a@.len() == b@.len(),
            forall|j: int| 0 <= j < i ==> a@[j] == b@[j],
        decreases a@.len() - i,
    {
        if a[i] != b[i] {
            return false;
        }
        i = i + 1;
    }
    proof {
        assert(a@ =~= b@);
    }
    true
}

/// Whether a canonical key is already among the visited keys.
pub fn contains_key(keys: &Vec<Vec<usize>>, key: &Vec<usize>) -> (r: bool)
    ensures
        r == (exists|j: int| 0 <= j < keys@.len() && (#[trigger] keys@[j])@ == key@),
{
    let mut i: usize = 0;
    while i < keys.len()
        invariant
            i <= keys@.len(),
            forall|j: int| 0 <= j < i ==> (#[trigger] keys@[j])@ != key@,
        decreases keys@.len() - i,
    {
        if keys_equal(&keys[i], key) {
            return true;
        }
        i = i + 1;
    }
    false
}

/// Explores, breadth first, every configuration reachable from `init` by
/// delivering in-flight messages, up to `bound` distinct configurations.
///
/// Every returned state is certified reachable by its path.  The property
/// verdicts pin the explored states exactly: a `None` violation means the
/// property held in every discovered state, a `Some(i)` names a discovered
/// state that breaks (or, for progress, witnesses) it.
pub fn explore(actor: &ConsensusActor, init: &GlobalConfig, bound: usize) -> (r: ExplorationResult)
    requires
        wf_actor(*actor),
        wf_config(*actor, *init),
        bound >= 1,
    ensures
        1 <= r.states@.len() <= bound,
        r.paths@.len() == r.states@.len(),
        r.states@[0]@ == init@,
        r.paths@[0]@ == Seq::<Envelope>::empty(),
        forall|i: int|
            0 <= i < r.states@.len() ==> replay_m(
                actor.peer_ids@,
                actor.quorum_size,
                init@,
                (#[trigger] r.paths@[i])@,
            ) == Some(r.states@[i]@),
        forall|i: int| 0 <= i < r.states@.len() ==> wf_config(*actor, #[trigger] r.states@[i]),
        forall|i: int, j: int|
            0 <= i < j < r.states@.len() ==> (#[trigger] r.states@[i])@ != (
            #[trigger] r.states@[j])@,
        match r.agreement_violation {
            Some(i) => (i as nat) < r.states@.len() && !agreement_s(r.states@[i as int]@.states),
            None => forall|i: int|
                0 <= i < r.states@.len() ==> agreement_s((#[trigger] r.states@[i])@.states),
        },
        match r.validity_violation {
            Some(i) => (i as nat) < r.states@.len() && !validity_s(r.states@[i as int]@.states),
            None => forall|i: int|
                0 <= i < r.states@.len() ==> validity_s((#[trigger] r.states@[i])@.states),
        },
        match r.progress_witness {
            Some(i) => (i as nat) < r.states@.len() && progress_s(r.states@[i as int]@.states),
            None => forall|i: int|
                0 <= i < r.states@.len() ==> !progress_s((#[trigger] r.states@[i])@.states),
        },
        !r.complete ==> r.states@.len() == bound,
        r.complete ==> forall|i: int, e: Envelope|
            #![trigger enabled_m(r.states@[i]@, e)]
            0 <= i < r.states@.len() && enabled_m(r.states@[i]@, e) ==> exists|j: int|
                0 <= j < r.states@.len() && (#[trigger] r.states@[j])@ == deliver_m(
                    actor.peer_ids@,
                    actor.quorum_size,
                    r.states@[i]@,
                    e,
                ),
{
    let ghost peers = actor.peer_ids@;
    let ghost quorum = actor.quorum_size;

    let mut states: Vec<GlobalConfig> = Vec::new();
    let mut paths: Vec<Vec<Envelope>> = Vec::new();
    let mut keys: Vec<Vec<usize>> = Vec::new();
    let mut agreement_violation: Option<usize> = None;
    let mut validity_violation: Option<usize> = None;
    let mut progress_witness: Option<usize> = None;

    states.push(init.clone());
    paths.push(Vec::new());
    keys.push(encode_config(init));
    proof {
        assert(states@[0]@ == init@);
        assert(views_of(states@[0].states@) == init@.states);
        assert(replay_m(peers, quorum, init@, paths@[0]@) == Some(init@));
        lemma_wf_same(*actor, *init, states@[0]);
    }
    if !check_agreement(&states[0].states) {
        agreement_violation = Some(0);
    }
    if !check_validity(&states[0].states) {
        validity_violation = Some(0);
    }
    if has_decision(&states[0].states) {
        progress_witness = Some(0);
    }

    let mut qh: usize = 0;
    let mut truncated: bool = false;
    while qh < states.len() && !truncated
        invariant
            wf_actor(*actor),
            peers == actor.peer_ids@,
            quorum == actor.quorum_size,
            states@.len() == paths@.len(),
            keys@.len() == states@.len(),
            1 <= states@.len() <= bound,
            truncated ==> states@.len() == bound,
            qh <= states@.len(),
            states@[0]@ == init@,
            paths@[0]@ == Seq::<Envelope>::empty(),
            forall|i: int|
                0 <= i < states@.len() ==> replay_m(peers, quorum, init@, (#[trigger] paths@[i])@)
                    == Some(states@[i]@),
            forall|i: int| 0 <= i < states@.len() ==> wf_config(*actor, #[trigger] states@[i]),
            forall|i: int, j: int|
                0 <= i < j < states@.len() ==> (#[trigger] states@[i])@ != (
                #[trigger] states@[j])@,
            match agreement_violation {
                Some(i) => (i as nat) < states@.len() && !agreement_s(
                    states@[i as int]@.states,
                ),
                None => forall|i: int|
                    0 <= i < states@.len() ==> agreement_s((#[trigger] states@[i])@.states),
            },
            match validity_violation {
                Some(i) => (i as nat) < states@.len() && !validity_s(states@[i as int]@.states),
                None => forall|i: int|
                    0 <= i < states@.len() ==> validity_s((#[trigger] states@[i])@.states),
            },
            match progress_witness {
                Some(i) => (i as nat) < states@.len() && progress_s(states@[i as int]@.states),
                None => forall|i: int|
                    0 <= i < states@.len() ==> !progress_s((#[trigger] states@[i])@.states),
            },
            forall|j: int|
                0 <= j < states@.len() ==> (#[trigger] keys@[j])@ == encode_config_spec(
                    states@[j],
                ),
            forall|i: int, e: Envelope|
                #![trigger enabled_m(states@[i]@, e)]
                0 <= i < qh && enabled_m(states@[i]@, e) ==> exists|j: int|
                    0 <= j < states@.len() && (#[trigger] states@[j])@ == deliver_m(
                        peers,
                        quorum,
                        states@[i]@,
                        e,
                    ),
        decreases bound - qh + (if truncated { 0int } else { 1int }),
    {
        let c = states[qh].clone();
        let p = copy_envs(&paths[qh]);
        proof {
            lemma_wf_same(*actor, states@[qh as int], c);
            assert(c@ == states@[qh as int]@);
            assert(replay_m(peers, quorum, init@, p@) == Some(c@));
        }
        let mut k: usize = 0;
        while k < c.network.len() && !truncated
            invariant
                wf_actor(*actor),
                peers == actor.peer_ids@,
                quorum == actor.quorum_size,
                wf_config(*actor, c),
                replay_m(peers, quorum, init@, p@) == Some(c@),
                k <= c.network@.len(),
                states@.len() == paths@.len(),
                keys@.len() == states@.len(),
                1 <= states@.len() <= bound,
                truncated ==> states@.len() == bound,
                qh < states@.len(),
                states@[qh as int]@ == c@,
                states@[0]@ == init@,
                paths@[0]@ == Seq::<Envelope>::empty(),
                forall|i: int|
                    0 <= i < states@.len() ==> replay_m(
                        peers,
                        quorum,
                        init@,
                        (#[trigger] paths@[i])@,
                    ) == Some(states@[i]@),
                forall|i: int| 0 <= i < states@.len() ==> wf_config(*actor, #[trigger] states@[i]),
                forall|i: int, j: int|
                    0 <= i < j < states@.len() ==> (#[trigger] states@[i])@ != (
                    #[trigger] states@[j])@,
                match agreement_violation {
                    Some(i) => (i as nat) < states@.len() && !agreement_s(
                        states@[i as int]@.states,
                    ),
                    None => forall|i: int|
                        0 <= i < states@.len() ==> agreement_s((#[trigger] states@[i])@.states),
                },
                match validity_violation {
                    Some(i) => (i as nat) < states@.len() && !validity_s(
                        states@[i as int]@.states,
                    ),
                    None => forall|i: int|
                        0 <= i < states@.len() ==> validity_s((#[trigger] states@[i])@.states),
                },
                match progress_witness {
                    Some(i) => (i as nat) < states@.len() && progress_s(
                        states@[i as int]@.states,
                    ),
                    None => forall|i: int|
                        0 <= i < states@.len() ==> !progress_s((#[trigger] states@[i])@.states),
                },
                forall|j: int|
                    0 <= j < states@.len() ==> (#[trigger] keys@[j])@ == encode_config_spec(
                        states@[j],
                    ),
                forall|i: int, e: Envelope|
                    #![trigger enabled_m(states@[i]@, e)]
                    0 <= i < qh && enabled_m(states@[i]@, e) ==> exists|j: int|
                        0 <= j < states@.len() && (#[trigger] states@[j])@ == deliver_m(
                            peers,
                            quorum,
                            states@[i]@,
                            e,
                        ),
                forall|kk: int|
                    #![trigger c.network@[kk]]
                    0 <= kk < k ==> exists|j: int|
                        0 <= j < states@.len() && (#[trigger] states@[j])@ == deliver_m(
                            peers,
                            quorum,
                            c@,
                            c.network@[kk],
                        ),
            decreases c.network@.len() - k + (if truncated {
                0int
            } else {
                1int
            }),
        {
            let succ = apply_action(actor, &c, k);
            let key = encode_config(&succ);
            if !contains_key(&keys, &key) {
                if states.len() >= bound {
                    truncated = true;
                } else {
                    let e = c.network[k];
                    let mut p2 = copy_envs(&p);
                    p2.push(e);
                    proof {
                        lemma_replay_snoc(peers, quorum, init@, p@, e);
                        assert(p2@ =~= p@.push(e));
                        assert(replay_m(peers, quorum, init@, p2@) == Some(
                            deliver_m(peers, quorum, c@, e),
                        ));
                        assert(succ@ == deliver_m(peers, quorum, c@, e));
                    }
                    let idx = states.len();
                    if agreement_violation.is_none() {
                        if !check_agreement(&succ.states) {
                            agreement_violation = Some(idx);
                        }
                    }
                    if validity_violation.is_none() {
                        if !check_validity(&succ.states) {
                            validity_violation = Some(idx);
                        }
                    }
                    if progress_witness.is_none() {
                        if has_decision(&succ.states) {
                            progress_witness = Some(idx);
                        }
                    }
                    proof {
                        assert(views_of(succ.states@) == succ@.states);
                    }
                    let ghost pre = states@;
                    states.push(succ);
                    paths.push(p2);
                    keys.push(key);
                    proof {
                        assert(forall|j: int| 0 <= j < pre.len() ==> #[trigger] states@[j] == pre[j]);
                        assert forall|i: int| 0 <= i < idx implies (#[trigger] states@[i])@
                            != succ@ by {
                            if states@[i]@ == succ@ {
                                lemma_encode_config_canonical(
                                    pre[i],
                                    succ,
                                    actor.peer_ids@.len(),
                                );
                                assert(keys@[i]@ == key@);
                            }
                        }
                        assert(states@[idx as int]@ == deliver_m(
                            peers,
                            quorum,
                            c@,
                            c.network@[k as int],
                        ));
                        assert(exists|j: int|
                            0 <= j < states@.len() && (#[trigger] states@[j])@ == deliver_m(
                                peers,
                                quorum,
                                c@,
                                c.network@[k as int],
                            ));
                        assert forall|i: int, e: Envelope|
                            #![trigger enabled_m(states@[i]@, e)]
                            0 <= i < qh && enabled_m(states@[i]@, e) implies exists|j: int|
                            0 <= j < states@.len() && (#[trigger] states@[j])@ == deliver_m(
                                peers,
                                quorum,
                                states@[i]@,
                                e,
                            ) by {
                            assert(enabled_m(pre[i]@, e));
                            let j0 = choose|j0: int|
                                0 <= j0 < pre.len() && (#[trigger] pre[j0])@ == deliver_m(
                                    peers,
                                    quorum,
                                    pre[i]@,
                                    e,
                                );
                            assert(states@[j0]@ == deliver_m(peers, quorum, states@[i]@, e));
                        }
                        assert forall|kk: int|
                            #![trigger c.network@[kk]]
                            0 <= kk < k implies exists|j: int|
                            0 <= j < states@.len() && (#[trigger] states@[j])@ == deliver_m(
                                peers,
                                quorum,
                                c@,
                                c.network@[kk],
                            ) by {
                            let j0 = choose|j0: int|
                                0 <= j0 < pre.len() && (#[trigger] pre[j0])@ == deliver_m(
                                    peers,
                                    quorum,
                                    c@,
                                    c.network@[kk],
                                );
                            assert(states@[j0]@ == deliver_m(peers, quorum, c@, c.network@[kk]));
                        }
                    }
                }
            } else {
                proof {
                    let j = choose|j: int| 0 <= j < keys@.len() && (#[trigger] keys@[j])@ == key@;
                    assert(keys@[j]@ == encode_config_spec(states@[j]));
                    assert(key@ == encode_config_spec(succ));
                    lemma_encode_config_injective(succ, states@[j]);
                    assert(states@[j]@ == deliver_m(peers, quorum, c@, c.network@[k as int]));
                    assert(exists|jj: int|
                        0 <= jj < states@.len() && (#[trigger] states@[jj])@ == deliver_m(
                            peers,
                            quorum,
                            c@,
                            c.network@[k as int],
                        ));
                }
            }
            if !truncated {
                k = k + 1;
            }
        }
        if !truncated {
            proof {
                assert(k == c.network@.len());
                assert forall|e: Envelope| enabled_m(states@[qh as int]@, e) implies exists|j: int|
                    0 <= j < states@.len() && (#[trigger] states@[j])@ == deliver_m(
                        peers,
                        quorum,
                        states@[qh as int]@,
                        e,
                    ) by {
                    broadcast use vstd::seq_lib::group_to_multiset_ensures;

                    assert(states@[qh as int]@ == c@);
                    assert(c@.network.count(e) > 0);
                    assert(c.network@.to_multiset().count(e) > 0);
                    assert(c.network@.contains(e));
                    let kk = choose|kk: int| 0 <= kk < c.network@.len() && c.network@[kk] == e;
                    assert(exists|j: int|
                        0 <= j < states@.len() && (#[trigger] states@[j])@ == deliver_m(
                            peers,
                            quorum,
                            c@,
                            c.network@[kk],
                        ));
                }
            }
            qh = qh + 1;
        }
    }

    ExplorationResult {
        states,
        paths,
        complete: !truncated,
        agreement_violation,
        validity_violation,
        progress_witness,
    }
}

} // verus!
