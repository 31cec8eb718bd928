//! Global configurations and the network model.
//!
//! A [`GlobalConfig`] is one snapshot of the whole system: every process's
//! state plus the multiset of in-flight messages.  The in-flight vector is
//! kept sorted under the total order [`env_le`], so it is the canonical
//! spelling of the multiset.  Delivery of one in-flight message is the only
//! transition; [`deliver_m`] is its mathematical model and [`replay_m`] the
//! effect of a whole delivery sequence.

use vstd::multiset::Multiset;
use vstd::prelude::*;
use vstd::relations::{sorted_by, total_ordering};

use crate::protocol::{
    bcast_m, init_state_m, kind_rank, kind_rank_exec, lemma_step_preserves_decision, lemma_step_wf,
    lemma_to_multiset_empty, msg_value, msg_value_exec, spec_step_out, spec_step_state, value_rank,
    value_rank_exec, wf_state, ConsensusActor, ConsensusMsg, ConsensusState, Envelope, NodeRole,
    StateM, Value,
};

verus! {

/// The total order on in-flight message instances used for canonical
/// network vectors: by sender, then addressee, then message rank.
pub open spec fn env_le(a: Envelope, b: Envelope) -> bool {
    if a.src != b.src {
        a.src < b.src
    } else if a.dst != b.dst {
        a.dst < b.dst
    } else if kind_rank(a.msg) != kind_rank(b.msg) {
        kind_rank(a.msg) < kind_rank(b.msg)
    } else {
        value_rank(msg_value(a.msg)) <= value_rank(msg_value(b.msg))
    }
}

/// [`env_le`] as a first-class relation.
pub open spec fn env_le_fn() -> spec_fn(Envelope, Envelope) -> bool {
    |a: Envelope, b: Envelope| env_le(a, b)
}

/// A network vector in canonical, sorted spelling.
pub open spec fn sorted_env(s: Seq<Envelope>) -> bool {
    sorted_by(s, env_le_fn())
}

/// [`env_le`] is a total order on envelopes.
pub proof fn lemma_env_le_total()
    ensures
        total_ordering(env_le_fn()),
{
    let r = env_le_fn();
    assert forall|a: Envelope, b: Envelope| #[trigger] r(a, b) && #[trigger] r(b, a) implies a
        == b by {
        assert(msg_value(a.msg) == msg_value(b.msg));
        assert(kind_rank(a.msg) == kind_rank(b.msg));
        assert(a.msg == b.msg);
    }
    assert(forall|a: Envelope| #[trigger] r(a, a));
    assert(forall|a: Envelope, b: Envelope, c: Envelope|
        #[trigger] r(a, b) && #[trigger] r(b, c) ==> #[trigger] r(a, c));
    assert(forall|a: Envelope, b: Envelope| !(#[trigger] r(a, b)) ==> #[trigger] r(b, a));
}

/// Executable comparison deciding [`env_le`].
pub fn env_le_exec(a: &Envelope, b: &Envelope) -> (r: bool)
    ensures
        r == env_le(*a, *b),
{
    if a.src != b.src {
        a.src < b.src
    } else if a.dst != b.dst {
        a.dst < b.dst
    } else {
        let ka = kind_rank_exec(a.msg);
        let kb = kind_rank_exec(b.msg);
        if ka != kb {
            ka < kb
        } else {
            value_rank_exec(msg_value_exec(a.msg)) <= value_rank_exec(msg_value_exec(b.msg))
        }
    }
}

/// Insertion of an envelope into a sorted network vector, keeping it sorted.
pub open spec fn insert_env_spec(s: Seq<Envelope>, e: Envelope) -> Seq<Envelope>
    decreases s.len(),
{
    if s.len() == 0 {
        seq![e]
    } else if env_le(s.last(), e) {
        s.push(e)
    } else {
        insert_env_spec(s.drop_last(), e).push(s.last())
    }
}

/// Sorted envelope insertion preserves sortedness and acts as multiset
/// insertion, so the sorted vector stays the canonical spelling.
pub proof fn lemma_insert_env_spec(s: Seq<Envelope>, e: Envelope)
    requires
        sorted_env(s),
    ensures
        sorted_env(insert_env_spec(s, e)),
        insert_env_spec(s, e).to_multiset() == s.to_multiset().insert(e),
    decreases s.len(),
{
    broadcast use vstd::seq_lib::group_to_multiset_ensures;
    broadcast use vstd::multiset::group_multiset_axioms;

    let r = insert_env_spec(s, e);
    if s.len() == 0 {
        assert(s =~= Seq::<Envelope>::empty());
        lemma_to_multiset_empty(s);
        assert(r =~= s.push(e));
        assert(r.to_multiset() =~= s.to_multiset().insert(e));
    } else if env_le(s.last(), e) {
        assert(r == s.push(e));
        assert(sorted_env(r)) by {
            assert forall|i: int, j: int| 0 <= i < j < r.len() implies env_le_fn()(r[i], r[j]) by {
                if j < s.len() {
                    assert(env_le_fn()(s[i], s[j]));
                } else {
                    assert(r[j] == e);
                    if i < s.len() - 1 {
                        assert(env_le_fn()(s[i], s[s.len() - 1]));
                        assert(env_le(s[i], s.last()));
                    }
                    assert(env_le(r[i], e));
                }
            }
        }
        assert(r.to_multiset() =~= s.to_multiset().insert(e));
    } else {
        let t = s.drop_last();
        assert(sorted_env(t)) by {
            assert(forall|i: int| 0 <= i < t.len() ==> #[trigger] t[i] == s[i]);
        }
        lemma_insert_env_spec(t, e);
        let rt = insert_env_spec(t, e);
        assert(r == rt.push(s.last()));
        assert(env_le(e, s.last()));
        // every member of rt is at most s.last()
        assert forall|i: int| 0 <= i < rt.len() implies env_le(#[trigger] rt[i], s.last()) by {
            assert(rt.contains(rt[i]));
            assert(rt.to_multiset().count(rt[i]) > 0);
            assert(t.to_multiset().insert(e).count(rt[i]) > 0);
            if rt[i] != e {
                assert(t.to_multiset().count(rt[i]) > 0);
                assert(t.contains(rt[i]));
                let j = choose|j: int| 0 <= j < t.len() && t[j] == rt[i];
                assert(s[j] == rt[i]);
                assert(env_le_fn()(s[j], s[s.len() - 1]));
            }
        }
        assert(sorted_env(r)) by {
            assert forall|i: int, j: int| 0 <= i < j < r.len() implies env_le_fn()(r[i], r[j]) by {
                if j < rt.len() {
                    assert(env_le_fn()(rt[i], rt[j]));
                } else {
                    assert(r[j] == s.last());
                    assert(r[i] == rt[i]);
                }
            }
        }
        assert(s =~= t.push(s.last()));
        assert(s.to_multiset() =~= t.to_multiset().insert(s.last()));
        assert(r.to_multiset() =~= rt.to_multiset().insert(s.last()));
        assert(r.to_multiset() =~= s.to_multiset().insert(e));
    }
}

/// Inserts an envelope into a sorted network vector, in place.
pub fn insert_env_sorted(net: &mut Vec<Envelope>, e: Envelope)
    ensures
        final(net)@ == insert_env_spec(old(net)@, e),
    decreases old(net)@.len(),
{
    let ghost s = net@;
    match net.pop() {
        None => {
            net.push(e);
            proof {
                assert(s.len() == 0);
                assert(net@ =~= seq![e]);
            }
        }
        Some(last) => {
            proof {
                assert(net@ =~= s.drop_last());
                assert(last == s.last());
            }
            if env_le_exec(&last, &e) {
                net.push(last);
                net.push(e);
                proof {
                    assert(net@ =~= s.push(e));
                }
            } else {
                insert_env_sorted(net, e);
                net.push(last);
            }
        }
    }
}

/// Mathematical model of a [`GlobalConfig`]: the per-process states in
/// identity order, and the in-flight messages as a multiset.
#[verifier::ext_equal]
pub ghost struct ConfigM {
    pub states: Seq<StateM>,
    pub network: Multiset<Envelope>,
}

/// One snapshot of the whole system.  Process identities are the indices
/// into `states`; `network` is kept sorted under [`env_le`].
#[derive(Debug, PartialEq, Eq)]
pub struct GlobalConfig {
    pub states: Vec<ConsensusState>,
    pub network: Vec<Envelope>,
}

/// The models of a sequence of process states.
pub open spec fn views_of(ss: Seq<ConsensusState>) -> Seq<StateM> {
    ss.map_values(|s: ConsensusState| s@)
}

impl View for GlobalConfig {
    type V = ConfigM;

    open spec fn view(&self) -> ConfigM {
        ConfigM { states: views_of(self.states@), network: self.network@.to_multiset() }
    }
}

/// Well-formedness of a run configuration: every peer identity is a real
/// process index.
pub open spec fn wf_actor(a: ConsensusActor) -> bool {
    forall|i: int|
        0 <= i < a.peer_ids@.len() ==> (#[trigger] a.peer_ids@[i] as nat) < a.peer_ids@.len()
}

/// Well-formedness of a configuration for a run with `n` processes: one state
/// per process, each state well formed, the network vector canonical, and
/// every in-flight message between real processes.
pub open spec fn wf_config_n(c: GlobalConfig, n: nat) -> bool {
    &&& c.states@.len() == n
    &&& forall|i: int| 0 <= i < c.states@.len() ==> wf_state(#[trigger] c.states@[i]@, n)
    &&& sorted_env(c.network@)
    &&& forall|i: int|
        0 <= i < c.network@.len() ==> ((#[trigger] c.network@[i]).src as nat) < n && (
        c.network@[i].dst as nat) < n
}

/// Well-formedness of a configuration for the run described by `a`.
pub open spec fn wf_config(a: ConsensusActor, c: GlobalConfig) -> bool {
    wf_config_n(c, a.peer_ids@.len())
}

/// A delivery action is enabled when its message is in flight and addressed
/// to a real process.
pub open spec fn enabled_m(c: ConfigM, e: Envelope) -> bool {
    &&& c.network.count(e) > 0
    &&& (e.dst as nat) < c.states.len()
}

/// Delivery of the in-flight message instance `e`: it is consumed, the
/// addressee takes one reducer step, and the step's emissions join the
/// in-flight multiset.
pub open spec fn deliver_m(peers: Seq<usize>, quorum: usize, c: ConfigM, e: Envelope) -> ConfigM {
    let st = c.states[e.dst as int];
    let st2 = spec_step_state(quorum, st, e.src, e.msg);
    let out = spec_step_out(peers, quorum, e.dst, st, e.src, e.msg);
    ConfigM { states: c.states.update(e.dst as int, st2), network: c.network.remove(e).add(out) }
}

/// The configuration reached by a whole delivery sequence, or `None` if some
/// step of the sequence is not enabled when its turn comes.
pub open spec fn replay_m(
    peers: Seq<usize>,
    quorum: usize,
    c: ConfigM,
    path: Seq<Envelope>,
) -> Option<ConfigM>
    decreases path.len(),
{
    if path.len() == 0 {
        Some(c)
    } else if enabled_m(c, path[0]) {
        replay_m(peers, quorum, deliver_m(peers, quorum, c, path[0]), path.drop_first())
    } else {
        None
    }
}

/// Extending a feasible delivery sequence by one enabled delivery replays to
/// the delivery's successor.
pub proof fn lemma_replay_snoc(
    peers: Seq<usize>,
    quorum: usize,
    c: ConfigM,
    path: Seq<Envelope>,
    e: Envelope,
)
    requires
        replay_m(peers, quorum, c, path) is Some,
        enabled_m(replay_m(peers, quorum, c, path)->0, e),
    ensures
        replay_m(peers, quorum, c, path.push(e)) == Some(
            deliver_m(peers, quorum, replay_m(peers, quorum, c, path)->0, e),
        ),
    decreases path.len(),
{
    let p2 = path.push(e);
    if path.len() == 0 {
        assert(replay_m(peers, quorum, c, path) == Some(c));
        assert(p2[0] == e);
        assert(enabled_m(c, e));
        let c2 = deliver_m(peers, quorum, c, e);
        assert(p2.drop_first().len() == 0);
        assert(replay_m(peers, quorum, c2, p2.drop_first()) == Some(c2));
        assert(replay_m(peers, quorum, c, p2) == Some(c2));
    } else {
        assert(p2[0] == path[0]);
        assert(enabled_m(c, path[0]));
        let c1 = deliver_m(peers, quorum, c, path[0]);
        assert(replay_m(peers, quorum, c, path) == replay_m(peers, quorum, c1, path.drop_first()));
        assert(p2.drop_first() =~= path.drop_first().push(e));
        lemma_replay_snoc(peers, quorum, c1, path.drop_first(), e);
        assert(replay_m(peers, quorum, c, p2) == replay_m(peers, quorum, c1, p2.drop_first()));
    }
}

/// Members of a broadcast: every emitted envelope goes from `me` to a peer,
/// carrying exactly the broadcast message.
pub proof fn lemma_bcast_members(peers: Seq<usize>, me: usize, m: ConsensusMsg)
    ensures
        forall|env: Envelope|
            #[trigger] bcast_m(peers, me, m).count(env) > 0 ==> env.src == me && peers.contains(
                env.dst,
            ) && env.msg == m,
    decreases peers.len(),
{
    broadcast use vstd::multiset::group_multiset_axioms;

    if peers.len() == 0 {
    } else {
        let t = peers.drop_last();
        lemma_bcast_members(t, me, m);
        assert forall|env: Envelope| #[trigger] bcast_m(peers, me, m).count(env) > 0 implies env.src
            == me && peers.contains(env.dst) && env.msg == m by {
            assert(forall|x: usize| t.contains(x) ==> peers.contains(x)) by {
                assert(forall|i: int| 0 <= i < t.len() ==> #[trigger] t[i] == peers[i]);
            }
            if peers.last() != me && env == (Envelope { src: me, dst: peers.last(), msg: m }) {
                assert(peers[peers.len() - 1] == peers.last());
                assert(peers.contains(env.dst));
            } else {
                assert(bcast_m(t, me, m).count(env) > 0);
            }
        }
    }
}

/// One delivery step never erases or changes an existing decision.
pub proof fn lemma_deliver_preserves_decision(
    peers: Seq<usize>,
    quorum: usize,
    c: ConfigM,
    e: Envelope,
    i: int,
)
    requires
        (e.dst as nat) < c.states.len(),
        0 <= i < c.states.len(),
        c.states[i].decided is Some,
    ensures
        deliver_m(peers, quorum, c, e).states.len() == c.states.len(),
        deliver_m(peers, quorum, c, e).states[i].decided == c.states[i].decided,
{
    if i == e.dst as int {
        lemma_step_preserves_decision(quorum, c.states[i], e.src, e.msg);
    }
}

/// Write-once law: once a process's decided value is set, no further
/// delivery sequence changes it.
pub proof fn lemma_replay_preserves_decision(
    peers: Seq<usize>,
    quorum: usize,
    c: ConfigM,
    path: Seq<Envelope>,
    i: int,
)
    requires
        replay_m(peers, quorum, c, path) is Some,
        0 <= i < c.states.len(),
        c.states[i].decided is Some,
    ensures
        (replay_m(peers, quorum, c, path)->0).states.len() == c.states.len(),
        (replay_m(peers, quorum, c, path)->0).states[i].decided == c.states[i].decided,
    decreases path.len(),
{
    if path.len() == 0 {
    } else {
        lemma_deliver_preserves_decision(peers, quorum, c, path[0], i);
        lemma_replay_preserves_decision(
            peers,
            quorum,
            deliver_m(peers, quorum, c, path[0]),
            path.drop_first(),
            i,
        );
    }
}

/// A single-value run: the one value `v` is the only value that occurs
/// anywhere — in flight, proposed, or decided.
pub open spec fn single_value_run(c: ConfigM, v: Value) -> bool {
    &&& forall|e: Envelope| #[trigger] c.network.count(e) > 0 ==> msg_value(e.msg) == v
    &&& forall|i: int|
        0 <= i < c.states.len() ==> match (#[trigger] c.states[i]).proposed {
            Some(w) => w == v,
            None => true,
        }
    &&& forall|i: int|
        0 <= i < c.states.len() ==> match (#[trigger] c.states[i]).decided {
            Some(w) => w == v,
            None => true,
        }
}

/// In a single-value run every decided process decided `v`, so agreement
/// holds.
pub proof fn lemma_single_value_agreement(c: ConfigM, v: Value)
    requires
        single_value_run(c, v),
    ensures
        agreement_s(c.states),
{
}

/// One delivery keeps a run single-valued: the reducer only ever emits, and
/// only ever records, the value of the message it received.
pub proof fn lemma_deliver_single_value(
    peers: Seq<usize>,
    quorum: usize,
    c: ConfigM,
    e: Envelope,
    v: Value,
)
    requires
        single_value_run(c, v),
        enabled_m(c, e),
    ensures
        single_value_run(deliver_m(peers, quorum, c, e), v),
{
    broadcast use vstd::multiset::group_multiset_axioms;

    let d = deliver_m(peers, quorum, c, e);
    assert(msg_value(e.msg) == v);
    let st = c.states[e.dst as int];
    let out = spec_step_out(peers, quorum, e.dst, st, e.src, e.msg);
    match e.msg {
        ConsensusMsg::Vote { value } => {
            lemma_bcast_members(peers, e.dst, ConsensusMsg::Commit { value });
        }
        _ => {}
    }
    assert forall|env: Envelope| #[trigger] d.network.count(env) > 0 implies msg_value(env.msg)
        == v by {
        if c.network.remove(e).count(env) > 0 {
            assert(c.network.count(env) > 0);
        } else {
            assert(out.count(env) > 0);
        }
    }
}

/// Agreement along every delivery sequence of a single-value run: a run
/// seeded with one proposed value can never violate agreement, whatever the
/// delivery order.
pub proof fn lemma_replay_single_value(
    peers: Seq<usize>,
    quorum: usize,
    c: ConfigM,
    path: Seq<Envelope>,
    v: Value,
)
    requires
        single_value_run(c, v),
        replay_m(peers, quorum, c, path) is Some,
    ensures
        single_value_run(replay_m(peers, quorum, c, path)->0, v),
        agreement_s((replay_m(peers, quorum, c, path)->0).states),
    decreases path.len(),
{
    if path.len() == 0 {
        lemma_single_value_agreement(c, v);
    } else {
        lemma_deliver_single_value(peers, quorum, c, path[0], v);
        lemma_replay_single_value(
            peers,
            quorum,
            deliver_m(peers, quorum, c, path[0]),
            path.drop_first(),
            v,
        );
    }
}

/// The all-follower configuration with one freshly seeded candidate is a
/// single-value run for the seeded value.
pub proof fn lemma_seed_single_value(
    peers: Seq<usize>,
    c0: ConfigM,
    id: usize,
    v: Value,
    c1: ConfigM,
)
    requires
        forall|i: int| 0 <= i < c0.states.len() ==> #[trigger] c0.states[i] == init_state_m(),
        c0.network == Multiset::<Envelope>::empty(),
        (id as nat) < c0.states.len(),
        c1.states == c0.states.update(
            id as int,
            StateM {
                role: NodeRole::Candidate,
                proposed: Some(v),
                votes: c0.states[id as int].votes,
                decided: None,
            },
        ),
        c1.network == c0.network.add(bcast_m(peers, id, ConsensusMsg::Propose { value: v })),
    ensures
        single_value_run(c1, v),
{
    broadcast use vstd::multiset::group_multiset_axioms;

    lemma_bcast_members(peers, id, ConsensusMsg::Propose { value: v });
    assert forall|e: Envelope| #[trigger] c1.network.count(e) > 0 implies msg_value(e.msg) == v by {
        assert(bcast_m(peers, id, ConsensusMsg::Propose { value: v }).count(e) > 0);
    }
}

/// Without a seed action nothing ever happens: from a configuration with an
/// empty network no delivery is enabled, so it is the only configuration any
/// delivery sequence reaches; and when no process has decided there,
/// progress is never witnessed while agreement holds vacuously.
pub proof fn lemma_unseeded_run_stays_initial(
    peers: Seq<usize>,
    quorum: usize,
    c: ConfigM,
    path: Seq<Envelope>,
)
    requires
        c.network == Multiset::<Envelope>::empty(),
        replay_m(peers, quorum, c, path) is Some,
    ensures
        replay_m(peers, quorum, c, path) == Some(c),
        (forall|i: int| 0 <= i < c.states.len() ==> (#[trigger] c.states[i]).decided is None)
            ==> !progress_s((replay_m(peers, quorum, c, path)->0).states) && agreement_s(
            (replay_m(peers, quorum, c, path)->0).states,
        ),
{
    broadcast use vstd::multiset::group_multiset_axioms;

    if path.len() > 0 {
        assert(c.network.count(path[0]) == 0);
        assert(false);
    }
}

/// Copies a vector of envelopes.
pub fn copy_envs(v: &Vec<Envelope>) -> (r: Vec<Envelope>)
    ensures
        r@ == v@,
{
    let mut r: Vec<Envelope> = Vec::new();
    let mut i: usize = 0;
    while i < v.len()
        invariant
            i <= v@.len(),
            r@ == v@.take(i as int),
        decreases v@.len() - i,
    {
        r.push(v[i]);
        proof {
            assert(v@.take(i as int).push(v@[i as int]) =~= v@.take(i as int + 1));
        }
        i = i + 1;
    }
    proof {
        assert(v@.take(v@.len() as int) =~= v@);
    }
    r
}

/// Copies a vector of process states, model for model.
pub fn copy_states(v: &Vec<ConsensusState>) -> (r: Vec<ConsensusState>)
    ensures
        views_of(r@) == views_of(v@),
        r@.len() == v@.len(),
{
    let mut r: Vec<ConsensusState> = Vec::new();
    let mut i: usize = 0;
    while i < v.len()
        invariant
            i <= v@.len(),
            r@.len() == i,
            forall|j: int| 0 <= j < i ==> #[trigger] r@[j]@ == v@[j]@,
        decreases v@.len() - i,
    {
        r.push(v[i].clone());
        i = i + 1;
    }
    proof {
        assert(views_of(r@) =~= views_of(v@));
    }
    r
}

impl Clone for GlobalConfig {
    /// A clone has the very same model and the very same canonical spelling.
    fn clone(&self) -> (r: Self)
        ensures
            views_of(r.states@) == views_of(self.states@),
            r.network@ == self.network@,
            r@ == self@,
    {
        GlobalConfig { states: copy_states(&self.states), network: copy_envs(&self.network) }
    }
}

/// Two configurations with the same models and the same network spelling are
/// well formed together.
pub proof fn lemma_wf_same(a: ConsensusActor, c1: GlobalConfig, c2: GlobalConfig)
    requires
        wf_config(a, c1),
        views_of(c2.states@) == views_of(c1.states@),
        c2.network@ == c1.network@,
    ensures
        wf_config(a, c2),
{
    assert(c2.states@.len() == c1.states@.len()) by {
        assert(views_of(c2.states@).len() == c2.states@.len());
        assert(views_of(c1.states@).len() == c1.states@.len());
    }
    assert forall|i: int| 0 <= i < c2.states@.len() implies wf_state(
        #[trigger] c2.states@[i]@,
        a.peer_ids@.len(),
    ) by {
        assert(views_of(c2.states@)[i] == c2.states@[i]@);
        assert(views_of(c1.states@)[i] == c1.states@[i]@);
    }
}

/// Replaces the state of process `idx`, leaving all others as they are.
fn update_states(states: &Vec<ConsensusState>, idx: usize, st2: ConsensusState) -> (r: Vec<
    ConsensusState,
>)
    requires
        (idx as nat) < states@.len(),
    ensures
        views_of(r@) == views_of(states@).update(idx as int, st2@),
{
    let mut r: Vec<ConsensusState> = Vec::new();
    let mut i: usize = 0;
    while i < states.len()
        invariant
            i <= states@.len(),
            (idx as nat) < states@.len(),
            r@.len() == i,
            forall|j: int|
                0 <= j < i ==> #[trigger] r@[j]@ == if j == idx as int {
                    st2@
                } else {
                    states@[j]@
                },
        decreases states@.len() - i,
    {
        if i == idx {
            r.push(st2.clone());
        } else {
            r.push(states[i].clone());
        }
        i = i + 1;
    }
    proof {
        assert(views_of(r@) =~= views_of(states@).update(idx as int, st2@));
    }
    r
}

/// Inserts every envelope of `out` into the sorted network vector `net`.
fn insert_all(net: &mut Vec<Envelope>, out: &Vec<Envelope>)
    requires
        sorted_env(old(net)@),
    ensures
        sorted_env(final(net)@),
        final(net)@.to_multiset() == old(net)@.to_multiset().add(out@.to_multiset()),
{
    broadcast use vstd::seq_lib::group_to_multiset_ensures;
    broadcast use vstd::multiset::group_multiset_axioms;

    let ghost base = net@.to_multiset();
    proof {
        lemma_to_multiset_empty(out@.take(0));
        assert(base.add(out@.take(0).to_multiset()) =~= base);
    }
    let mut j: usize = 0;
    while j < out.len()
        invariant
            j <= out@.len(),
            sorted_env(net@),
            net@.to_multiset() == base.add(out@.take(j as int).to_multiset()),
        decreases out@.len() - j,
    {
        proof {
            broadcast use vstd::seq_lib::group_to_multiset_ensures;
            broadcast use vstd::multiset::group_multiset_axioms;

            lemma_insert_env_spec(net@, out@[j as int]);
            assert(out@.take(j as int + 1).drop_last() =~= out@.take(j as int));
            assert(out@.take(j as int + 1) =~= out@.take(j as int).push(out@[j as int]));
            assert(out@.take(j as int).push(out@[j as int]).to_multiset() == out@.take(
                j as int,
            ).to_multiset().insert(out@[j as int]));
            assert(base.add(out@.take(j as int).to_multiset().insert(out@[j as int])) =~= base.add(
                out@.take(j as int).to_multiset(),
            ).insert(out@[j as int]));
        }
        insert_env_sorted(net, out[j]);
        j = j + 1;
    }
    proof {
        assert(out@.take(out@.len() as int) =~= out@);
    }
}

/// Applies the `k`-th enabled delivery action of configuration `c`: the
/// `k`-th in-flight message is delivered to its addressee, which takes one
/// reducer step.  The successor is a fresh configuration; `c` is not touched.
pub fn apply_action(actor: &ConsensusActor, c: &GlobalConfig, k: usize) -> (r: GlobalConfig)
    requires
        wf_actor(*actor),
        wf_config(*actor, *c),
        (k as nat) < c.network@.len(),
    ensures
        wf_config(*actor, r),
        enabled_m(c@, c.network@[k as int]),
        r@ == deliver_m(actor.peer_ids@, actor.quorum_size, c@, c.network@[k as int]),
{
    broadcast use vstd::seq_lib::group_to_multiset_ensures;
    broadcast use vstd::multiset::group_multiset_axioms;

    let ghost n = actor.peer_ids@.len();
    let ghost peers = actor.peer_ids@;
    let ghost quorum = actor.quorum_size;
    let e = c.network[k];
    proof {
        assert(c.network@.contains(e));
        assert(c.network@.to_multiset().count(e) > 0);
        assert((e.dst as nat) < n);
        assert(views_of(c.states@).len() == c.states@.len());
        assert(enabled_m(c@, e));
    }
    let st = &c.states[e.dst];
    proof {
        assert(views_of(c.states@)[e.dst as int] == st@);
    }
    let (st2, out) = actor.on_msg(e.dst, st, e.src, e.msg);
    let ghost out_m = spec_step_out(peers, quorum, e.dst, st@, e.src, e.msg);
    proof {
        lemma_step_wf(quorum, n, st@, e.src, e.msg);
    }
    let states2 = update_states(&c.states, e.dst, st2);
    let mut net2 = copy_envs(&c.network);
    let _removed = net2.remove(k);
    proof {
        assert(net2@ == c.network@.remove(k as int));
        assert(sorted_env(net2@)) by {
            assert forall|i: int, j: int| 0 <= i < j < net2@.len() implies env_le_fn()(
                net2@[i],
                net2@[j],
            ) by {
                if j < k as int {
                    assert(net2@[i] == c.network@[i] && net2@[j] == c.network@[j]);
                } else if i < k as int {
                    assert(net2@[i] == c.network@[i] && net2@[j] == c.network@[j + 1]);
                } else {
                    assert(net2@[i] == c.network@[i + 1] && net2@[j] == c.network@[j + 1]);
                }
            }
        }
        assert(net2@.to_multiset() == c.network@.to_multiset().remove(e));
    }
    insert_all(&mut net2, &out);
    let r = GlobalConfig { states: states2, network: net2 };
    proof {
        let d = deliver_m(peers, quorum, c@, e);
        assert(r@.states == d.states);
        assert(r@.network =~= d.network);
        assert(r@ =~= d);
        // well-formedness of the successor
        assert(r.states@.len() == n) by {
            assert(views_of(r.states@).len() == r.states@.len());
        }
        assert forall|i: int| 0 <= i < r.states@.len() implies wf_state(
            #[trigger] r.states@[i]@,
            n,
        ) by {
            assert(r.states@[i]@ == views_of(r.states@)[i]);
            assert(views_of(c.states@)[i] == c.states@[i]@);
        }
        // every member of the new network vector is a member of its multiset
        lemma_bcast_members(peers, e.dst, ConsensusMsg::Commit { value: msg_value(e.msg) });
        assert forall|i: int| 0 <= i < r.network@.len() implies ((#[trigger] r.network@[i]).src
            as nat) < n && (r.network@[i].dst as nat) < n by {
            let env = r.network@[i];
            assert(r.network@.contains(env));
            assert(r.network@.to_multiset().count(env) > 0);
            if c.network@.to_multiset().remove(e).count(env) > 0 {
                assert(c.network@.to_multiset().count(env) > 0);
                assert(c.network@.contains(env));
                let w = choose|w: int| 0 <= w < c.network@.len() && c.network@[w] == env;
            } else {
                assert(out_m.count(env) > 0);
                match e.msg {
                    ConsensusMsg::Propose { value } => {
                        assert(env == (Envelope {
                            src: e.dst,
                            dst: e.src,
                            msg: ConsensusMsg::Vote { value },
                        }));
                        assert((e.src as nat) < n);
                    }
                    ConsensusMsg::Vote { value } => {
                        assert(peers.contains(env.dst));
                        let w = choose|w: int| 0 <= w < peers.len() && peers[w] == env.dst;
                    }
                    ConsensusMsg::Commit { .. } => {
                        assert(false);
                    }
                }
            }
        }
    }
    r
}

/// The harness-supplied seed action: process `id`, still an undecided
/// follower without a proposal, becomes a candidate for value `v` and
/// proposes `v` to every peer.  The reducer itself never originates this
/// transition; without a seed no process ever leaves the follower role.
pub fn seed_candidate(actor: &ConsensusActor, c: &GlobalConfig, id: usize, v: Value) -> (r:
    GlobalConfig)
    requires
        wf_actor(*actor),
        wf_config(*actor, *c),
        (id as nat) < c.states@.len(),
        c.states@[id as int]@.role == NodeRole::Follower,
        c.states@[id as int]@.proposed is None,
        c.states@[id as int]@.decided is None,
    ensures
        wf_config(*actor, r),
        r@.states == c@.states.update(
            id as int,
            StateM {
                role: NodeRole::Candidate,
                proposed: Some(v),
                votes: c@.states[id as int].votes,
                decided: None,
            },
        ),
        r@.network == c@.network.add(
            bcast_m(actor.peer_ids@, id, ConsensusMsg::Propose { value: v }),
        ),
{
    broadcast use vstd::seq_lib::group_to_multiset_ensures;
    broadcast use vstd::multiset::group_multiset_axioms;

    let ghost n = actor.peer_ids@.len();
    let ghost peers = actor.peer_ids@;
    let st = &c.states[id];
    proof {
        assert(views_of(c.states@)[id as int] == st@);
    }
    let stc = st.clone();
    let st2 = ConsensusState {
        role: NodeRole::Candidate,
        proposed_value: Some(v),
        votes_received: stc.votes_received,
        decided_value: None,
    };
    proof {
        assert(st2@.votes == st@.votes);
    }
    let states2 = update_states(&c.states, id, st2);
    let out = actor.broadcast(id, ConsensusMsg::Propose { value: v });
    let mut net2 = copy_envs(&c.network);
    insert_all(&mut net2, &out);
    let r = GlobalConfig { states: states2, network: net2 };
    proof {
        assert(r@.states =~= c@.states.update(
            id as int,
            StateM {
                role: NodeRole::Candidate,
                proposed: Some(v),
                votes: c@.states[id as int].votes,
                decided: None,
            },
        )) by {
            assert(views_of(c.states@)[id as int] == c.states@[id as int]@);
        }
        assert(r@.network =~= c@.network.add(
            bcast_m(peers, id, ConsensusMsg::Propose { value: v }),
        ));
        // well-formedness
        assert(r.states@.len() == n) by {
            assert(views_of(r.states@).len() == r.states@.len());
        }
        assert forall|i: int| 0 <= i < r.states@.len() implies wf_state(
            #[trigger] r.states@[i]@,
            n,
        ) by {
            assert(r.states@[i]@ == views_of(r.states@)[i]);
            assert(views_of(c.states@)[i] == c.states@[i]@);
        }
        lemma_bcast_members(peers, id, ConsensusMsg::Propose { value: v });
        assert forall|i: int| 0 <= i < r.network@.len() implies ((#[trigger] r.network@[i]).src
            as nat) < n && (r.network@[i].dst as nat) < n by {
            let env = r.network@[i];
            assert(r.network@.contains(env));
            assert(r.network@.to_multiset().count(env) > 0);
            if c.network@.to_multiset().count(env) > 0 {
                assert(c.network@.contains(env));
                let w = choose|w: int| 0 <= w < c.network@.len() && c.network@[w] == env;
            } else {
                assert(bcast_m(peers, id, ConsensusMsg::Propose { value: v }).count(env) > 0);
                assert(peers.contains(env.dst));
                let w = choose|w: int| 0 <= w < peers.len() && peers[w] == env.dst;
            }
        }
    }
    r
}

/// Agreement over a sequence of process states: all processes that have
/// decided, decided the same value.
pub open spec fn agreement_s(ss: Seq<StateM>) -> bool {
    forall|i: int, j: int|
        0 <= i < ss.len() && 0 <= j < ss.len() && (#[trigger] ss[i].decided) is Some && (
        #[trigger] ss[j].decided) is Some ==> ss[i].decided == ss[j].decided
}

/// A value of the legal domain.
pub open spec fn legal_value(v: Value) -> bool {
    v == Value::V0 || v == Value::V1 || v == Value::V2
}

/// Validity over a sequence of process states: every decided value is a
/// member of the legal value domain.
pub open spec fn validity_s(ss: Seq<StateM>) -> bool {
    forall|i: int|
        0 <= i < ss.len() ==> match (#[trigger] ss[i]).decided {
            Some(v) => legal_value(v),
            None => true,
        }
}

/// Progress over a sequence of process states: some process has decided.
pub open spec fn progress_s(ss: Seq<StateM>) -> bool {
    exists|i: int| 0 <= i < ss.len() && (#[trigger] ss[i].decided) is Some
}

/// Validity holds of every state sequence whatsoever: a decided value is a
/// member of the value type, and every member of the value type is legal.
/// The checker still tests it structurally rather than assuming it.
pub proof fn lemma_validity_total(ss: Seq<StateM>)
    ensures
        validity_s(ss),
{
    assert forall|i: int| 0 <= i < ss.len() implies match (#[trigger] ss[i]).decided {
        Some(v) => legal_value(v),
        None => true,
    } by {
        match ss[i].decided {
            Some(v) => {
                match v {
                    Value::V0 => {}
                    Value::V1 => {}
                    Value::V2 => {}
                }
            }
            None => {}
        }
    }
}

/// Decides agreement: every pair of decided processes decided alike.
pub fn check_agreement(states: &Vec<ConsensusState>) -> (r: bool)
    ensures
        r == agreement_s(views_of(states@)),
{
    let ghost vs = views_of(states@);
    proof {
        assert(vs.len() == states@.len());
    }
    let mut seen: Option<Value> = None;
    let mut i: usize = 0;
    while i < states.len()
        invariant
            i <= states@.len(),
            vs == views_of(states@),
            vs.len() == states@.len(),
            match seen {
                None => forall|j: int| 0 <= j < i ==> (#[trigger] vs[j].decided) is None,
                Some(w) => (exists|j: int| 0 <= j < i && (#[trigger] vs[j].decided) == Some(w))
                    && (forall|j: int|
                    0 <= j < i && (#[trigger] vs[j].decided) is Some ==> vs[j].decided == Some(w)),
            },
        decreases states@.len() - i,
    {
        proof {
            assert(vs[i as int] == states@[i as int]@);
        }
        match states[i].decided_value {
            Some(v) => {
                match seen {
                    None => {
                        seen = Some(v);
                    }
                    Some(w) => {
                        if v != w {
                            proof {
                                let j = choose|j: int|
                                    0 <= j < i && (#[trigger] vs[j].decided) == Some(w);
                                assert(vs[i as int].decided == Some(v));
                                assert(!agreement_s(vs));
                            }
                            return false;
                        }
                    }
                }
            }
            None => {}
        }
        i = i + 1;
    }
    proof {
        match seen {
            None => {
                assert(agreement_s(vs));
            }
            Some(w) => {
                assert(agreement_s(vs));
            }
        }
    }
    true
}

/// Decides validity: every decided value is structurally a legal value.
pub fn check_validity(states: &Vec<ConsensusState>) -> (r: bool)
    ensures
        r == validity_s(views_of(states@)),
{
    let ghost vs = views_of(states@);
    let mut i: usize = 0;
    while i < states.len()
        invariant
            i <= states@.len(),
            vs == views_of(states@),
            vs.len() == states@.len(),
            forall|j: int|
                0 <= j < i ==> match (#[trigger] vs[j]).decided {
                    Some(v) => legal_value(v),
                    None => true,
                },
        decreases states@.len() - i,
    {
        proof {
            assert(vs[i as int] == states@[i as int]@);
        }
        match states[i].decided_value {
            Some(v) => {
                let ok = match v {
                    Value::V0 => true,
                    Value::V1 => true,
                    Value::V2 => true,
                };
                if !ok {
                    return false;
                }
            }
            None => {}
        }
        i = i + 1;
    }
    true
}

/// Decides progress: at least one process has decided.
pub fn has_decision(states: &Vec<ConsensusState>) -> (r: bool)
    ensures
        r == progress_s(views_of(states@)),
{
    let ghost vs = views_of(states@);
    let mut i: usize = 0;
    while i < states.len()
        invariant
            i <= states@.len(),
            vs == views_of(states@),
            vs.len() == states@.len(),
            forall|j: int| 0 <= j < i ==> (#[trigger] vs[j].decided) is None,
        decreases states@.len() - i,
    {
        proof {
            assert(vs[i as int] == states@[i as int]@);
        }
        if states[i].decided_value.is_some() {
            proof {
                assert(vs[i as int].decided is Some);
            }
            return true;
        }
        i = i + 1;
    }
    proof {
        assert(!progress_s(vs));
    }
    false
}

/// Builds the all-follower initial configuration with an empty network.
pub fn initial_config(actor: &ConsensusActor) -> (r: GlobalConfig)
    ensures
        r@.states.len() == actor.peer_ids@.len(),
        forall|i: int| 0 <= i < r@.states.len() ==> r@.states[i] == init_state_m(),
        r@.network == Multiset::<Envelope>::empty(),
        wf_config(*actor, r),
{
    let n = actor.peer_ids.len();
    let mut states: Vec<ConsensusState> = Vec::new();
    let mut i: usize = 0;
    while i < n
        invariant
            i <= n,
            states@.len() == i,
            forall|j: int| 0 <= j < i ==> #[trigger] states@[j]@ == init_state_m(),
        decreases n - i,
    {
        states.push(actor.on_start());
        i = i + 1;
    }
    let network: Vec<Envelope> = Vec::new();
    proof {
        lemma_to_multiset_empty(network@);
    }
    GlobalConfig { states, network }
}

} // verus!
