//! Protocol data types and the per-process consensus state machine.
//!
//! A process is a deterministic reducer: [`ConsensusActor::on_msg`] maps the
//! current [`ConsensusState`] and one incoming message to a new state and a
//! list of outgoing addressed messages, and never touches anything else.

use vstd::multiset::Multiset;
use vstd::prelude::*;

verus! {

/// The closed domain of candidate values processes may agree on.
#[derive(Clone, Copy, Debug, PartialEq, Eq, Hash, Structural)]
pub enum Value {
    V0,
    V1,
    V2,
}

/// The role a process currently plays in the protocol.
#[derive(Clone, Copy, Debug, PartialEq, Eq, Hash, Structural)]
pub enum NodeRole {
    Follower,
    Candidate,
    Leader,
    Decided,
}

/// A protocol message; the payload carries no addressing.
#[derive(Clone, Copy, Debug, PartialEq, Eq, Hash, Structural)]
pub enum ConsensusMsg {
    Propose { value: Value },
    Vote { value: Value },
    Commit { value: Value },
}

/// An addressed in-flight message instance.
#[derive(Clone, Copy, Debug, PartialEq, Eq, Hash, Structural)]
pub struct Envelope {
    pub src: usize,
    pub dst: usize,
    pub msg: ConsensusMsg,
}

/// Position of a value in the total order used for canonical encodings.
pub open spec fn value_rank(v: Value) -> usize {
    match v {
        Value::V0 => 0,
        Value::V1 => 1,
        Value::V2 => 2,
    }
}

/// Position of a message constructor in the total order used for canonical encodings.
pub open spec fn kind_rank(m: ConsensusMsg) -> usize {
    match m {
        ConsensusMsg::Propose { .. } => 0,
        ConsensusMsg::Vote { .. } => 1,
        ConsensusMsg::Commit { .. } => 2,
    }
}

/// Position of a role in the total order used for canonical encodings.
pub open spec fn role_rank(r: NodeRole) -> usize {
    match r {
        NodeRole::Follower => 0,
        NodeRole::Candidate => 1,
        NodeRole::Leader => 2,
        NodeRole::Decided => 3,
    }
}

/// The value carried by a message, whatever its constructor.
pub open spec fn msg_value(m: ConsensusMsg) -> Value {
    match m {
        ConsensusMsg::Propose { value } => value,
        ConsensusMsg::Vote { value } => value,
        ConsensusMsg::Commit { value } => value,
    }
}

/// Executable counterpart of [`value_rank`].
pub fn value_rank_exec(v: Value) -> (r: usize)
    ensures
        r == value_rank(v),
{
    match v {
        Value::V0 => 0,
        Value::V1 => 1,
        Value::V2 => 2,
    }
}

/// Executable counterpart of [`kind_rank`].
pub fn kind_rank_exec(m: ConsensusMsg) -> (r: usize)
    ensures
        r == kind_rank(m),
{
    match m {
        ConsensusMsg::Propose { .. } => 0,
        ConsensusMsg::Vote { .. } => 1,
        ConsensusMsg::Commit { .. } => 2,
    }
}

/// Executable counterpart of [`role_rank`].
pub fn role_rank_exec(r: NodeRole) -> (res: usize)
    ensures
        res == role_rank(r),
{
    match r {
        NodeRole::Follower => 0,
        NodeRole::Candidate => 1,
        NodeRole::Leader => 2,
        NodeRole::Decided => 3,
    }
}

/// Executable counterpart of [`msg_value`].
pub fn msg_value_exec(m: ConsensusMsg) -> (r: Value)
    ensures
        r == msg_value(m),
{
    match m {
        ConsensusMsg::Propose { value } => value,
        ConsensusMsg::Vote { value } => value,
        ConsensusMsg::Commit { value } => value,
    }
}

/// Mathematical model of a [`ConsensusState`]: the vote set is carried as its
/// canonical strictly increasing sequence of process identities.
#[verifier::ext_equal]
pub ghost struct StateM {
    pub role: NodeRole,
    pub proposed: Option<Value>,
    pub votes: Seq<usize>,
    pub decided: Option<Value>,
}

/// State maintained by each consensus process.
///
/// `votes_received` is kept strictly sorted, so it is the canonical
/// representation of the set of voters.
#[derive(Debug, PartialEq, Eq)]
pub struct ConsensusState {
    pub role: NodeRole,
    pub proposed_value: Option<Value>,
    pub votes_received: Vec<usize>,
    pub decided_value: Option<Value>,
}

impl View for ConsensusState {
    type V = StateM;

    open spec fn view(&self) -> StateM {
        StateM {
            role: self.role,
            proposed: self.proposed_value,
            votes: self.votes_received@,
            decided: self.decided_value,
        }
    }
}

/// A sequence of identities that is strictly increasing, hence duplicate-free
/// and the canonical spelling of its set of members.
pub open spec fn strict_sorted(s: Seq<usize>) -> bool {
    forall|i: int, j: int| 0 <= i < j < s.len() ==> s[i] < s[j]
}

/// Well-formedness of a process state in a system of `n` processes:
/// the vote sequence is canonical, every voter is a real process identity,
/// and a decided process is in the `Decided` role.
pub open spec fn wf_state(s: StateM, n: nat) -> bool {
    &&& strict_sorted(s.votes)
    &&& forall|i: int| 0 <= i < s.votes.len() ==> (#[trigger] s.votes[i] as nat) < n
    &&& (s.decided is Some ==> s.role == NodeRole::Decided)
}

/// The state every process starts in: a follower with no proposal, no votes
/// and no decision.
pub open spec fn init_state_m() -> StateM {
    StateM { role: NodeRole::Follower, proposed: None, votes: Seq::empty(), decided: None }
}

/// Insertion of an identity into a strictly sorted sequence, keeping it
/// canonical: inserting a member leaves the sequence unchanged.
pub open spec fn insert_sorted_spec(s: Seq<usize>, v: usize) -> Seq<usize>
    decreases s.len(),
{
    if s.len() == 0 {
        seq![v]
    } else if s.last() < v {
        s.push(v)
    } else if s.last() == v {
        s
    } else {
        insert_sorted_spec(s.drop_last(), v).push(s.last())
    }
}

/// Membership in a sequence extended by one element.
pub proof fn lemma_push_contains(s: Seq<usize>, v: usize)
    ensures
        forall|x: usize| #[trigger] s.push(v).contains(x) <==> (s.contains(x) || x == v),
{
    assert forall|x: usize| #[trigger] s.push(v).contains(x) implies (s.contains(x) || x == v) by {
        let i = choose|i: int| 0 <= i < s.push(v).len() && s.push(v)[i] == x;
        if i < s.len() {
            assert(s[i] == x);
        }
    }
    assert forall|x: usize| (s.contains(x) || x == v) implies #[trigger] s.push(v).contains(x) by {
        if s.contains(x) {
            let i = choose|i: int| 0 <= i < s.len() && s[i] == x;
            assert(s.push(v)[i] == x);
        } else {
            assert(s.push(v)[s.len() as int] == x);
        }
    }
}

/// In a strictly sorted sequence, dropping the last element removes exactly
/// its largest member.
pub proof fn lemma_strict_drop_last_contains(s: Seq<usize>)
    requires
        s.len() > 0,
        strict_sorted(s),
    ensures
        forall|x: usize| #[trigger] s.drop_last().contains(x) <==> (s.contains(x) && x != s.last()),
{
    let t = s.drop_last();
    assert forall|x: usize| #[trigger] t.contains(x) implies (s.contains(x) && x != s.last()) by {
        let i = choose|i: int| 0 <= i < t.len() && t[i] == x;
        assert(s[i] == x);
        assert(s[i] < s[s.len() - 1]);
    }
    assert forall|x: usize| (s.contains(x) && x != s.last()) implies #[trigger] t.contains(x) by {
        let i = choose|i: int| 0 <= i < s.len() && s[i] == x;
        assert(i != s.len() - 1);
        assert(t[i] == x);
    }
}

/// Sorted insertion preserves canonicity and acts as set insertion.
pub proof fn lemma_insert_sorted_spec(s: Seq<usize>, v: usize)
    requires
        strict_sorted(s),
    ensures
        strict_sorted(insert_sorted_spec(s, v)),
        insert_sorted_spec(s, v).to_set() == s.to_set().insert(v),
        s.contains(v) ==> insert_sorted_spec(s, v) == s,
    decreases s.len(),
{
    broadcast use vstd::set::group_set_axioms;

    let r = insert_sorted_spec(s, v);
    if s.len() == 0 {
        assert(r =~= seq![v]);
        assert(r[0] == v);
        assert(r.contains(v));
        assert forall|x: usize| #[trigger] r.contains(x) implies x == v by {
            let i = choose|i: int| 0 <= i < r.len() && r[i] == x;
        }
        assert(r.to_set() =~= s.to_set().insert(v));
    } else if s.last() < v {
        assert(forall|i: int| 0 <= i < s.len() ==> #[trigger] s[i] <= s[s.len() - 1]);
        assert(!s.contains(v)) by {
            if s.contains(v) {
                let i = choose|i: int| 0 <= i < s.len() && s[i] == v;
            }
        }
        assert(r =~= s.push(v));
        lemma_push_contains(s, v);
        assert(r.to_set() =~= s.to_set().insert(v));
        assert(strict_sorted(r)) by {
            assert(forall|i: int| 0 <= i < s.len() ==> r[i] == s[i]);
            assert(r[r.len() - 1] == v);
        }
    } else if s.last() == v {
        assert(s[s.len() - 1] == v);
        assert(s.contains(v));
        assert(r == s);
        assert(r.to_set() =~= s.to_set().insert(v));
    } else {
        let t = s.drop_last();
        assert(strict_sorted(t)) by {
            assert(forall|i: int| 0 <= i < t.len() ==> #[trigger] t[i] == s[i]);
        }
        lemma_insert_sorted_spec(t, v);
        lemma_strict_drop_last_contains(s);
        let rt = insert_sorted_spec(t, v);
        assert(r == rt.push(s.last()));
        lemma_push_contains(rt, s.last());
        // every element of rt is below s.last()
        assert forall|i: int| 0 <= i < rt.len() implies #[trigger] rt[i] < s.last() by {
            assert(rt.contains(rt[i]));
            assert(rt.to_set().contains(rt[i]));
            assert(t.to_set().insert(v).contains(rt[i]));
            if rt[i] != v {
                assert(t.to_set().contains(rt[i]));
                assert(t.contains(rt[i]));
                let j = choose|j: int| 0 <= j < t.len() && t[j] == rt[i];
                assert(s[j] == rt[i]);
                assert(s[j] < s[s.len() - 1]);
            }
        }
        assert(strict_sorted(r)) by {
            assert(forall|i: int| 0 <= i < rt.len() ==> #[trigger] r[i] == rt[i]);
            assert(r[r.len() - 1] == s.last());
        }
        assert(r.to_set() =~= s.to_set().insert(v)) by {
            assert forall|x: usize| #[trigger] r.contains(x) implies (s.contains(x) || x == v) by {
                if x != s.last() {
                    assert(rt.contains(x));
                    assert(rt.to_set().contains(x));
                    if x != v {
                        assert(t.contains(x));
                        assert(s.contains(x));
                    }
                } else {
                    assert(s[s.len() - 1] == x);
                    assert(s.contains(x));
                }
            }
            assert forall|x: usize| (s.contains(x) || x == v) implies #[trigger] r.contains(x) by {
                if x == v {
                    assert(rt.to_set().contains(v));
                    assert(rt.contains(v));
                } else if x == s.last() {
                    assert(r.contains(s.last()));
                } else {
                    assert(t.contains(x));
                    assert(rt.to_set().contains(x));
                    assert(rt.contains(x));
                }
            }
        }
        if s.contains(v) {
            assert(t.contains(v));
            assert(insert_sorted_spec(t, v) == t);
            assert(r == t.push(s.last()));
            assert(r =~= s);
        }
    }
}

/// Two strictly sorted identity sequences with the same members are the same
/// sequence: the canonical spelling of a set of identities is unique.
pub proof fn lemma_strict_sorted_unique(s1: Seq<usize>, s2: Seq<usize>)
    requires
        strict_sorted(s1),
        strict_sorted(s2),
        s1.to_set() == s2.to_set(),
    ensures
        s1 == s2,
    decreases s1.len(),
{
    broadcast use vstd::set::group_set_axioms;

    if s1.len() == 0 && s2.len() == 0 {
        assert(s1 =~= s2);
    } else if s1.len() == 0 {
        assert(s2.contains(s2.last()));
        assert(s1.to_set().contains(s2.last()));
        assert(false);
    } else if s2.len() == 0 {
        assert(s1.contains(s1.last()));
        assert(s2.to_set().contains(s1.last()));
        assert(false);
    } else {
        assert(forall|i: int| 0 <= i < s1.len() ==> #[trigger] s1[i] <= s1.last());
        assert(forall|i: int| 0 <= i < s2.len() ==> #[trigger] s2[i] <= s2.last());
        assert(s1.contains(s1.last()));
        assert(s2.contains(s2.last()));
        assert(s2.to_set().contains(s1.last()));
        assert(s1.to_set().contains(s2.last()));
        assert(s2.contains(s1.last()));
        assert(s1.contains(s2.last()));
        assert(s1.last() == s2.last());
        let t1 = s1.drop_last();
        let t2 = s2.drop_last();
        assert(strict_sorted(t1) && strict_sorted(t2)) by {
            assert(forall|i: int| 0 <= i < t1.len() ==> #[trigger] t1[i] == s1[i]);
            assert(forall|i: int| 0 <= i < t2.len() ==> #[trigger] t2[i] == s2[i]);
        }
        assert(t1.to_set() =~= t2.to_set()) by {
            lemma_strict_drop_last_contains(s1);
            lemma_strict_drop_last_contains(s2);
            assert forall|x: usize| #[trigger] t1.contains(x) implies t2.contains(x) by {
                assert(s1.contains(x) && x != s1.last());
                assert(s1.to_set().contains(x));
                assert(s2.to_set().contains(x));
                assert(s2.contains(x));
            }
            assert forall|x: usize| #[trigger] t2.contains(x) implies t1.contains(x) by {
                assert(s2.contains(x) && x != s2.last());
                assert(s2.to_set().contains(x));
                assert(s1.to_set().contains(x));
                assert(s1.contains(x));
            }
        }
        lemma_strict_sorted_unique(t1, t2);
        assert(s1 =~= t1.push(s1.last()));
        assert(s2 =~= t2.push(s2.last()));
    }
}

/// Copies a vector of identities.
fn copy_ids(v: &Vec<usize>) -> (r: Vec<usize>)
    ensures
        r@ == v@,
{
    let mut r: Vec<usize> = Vec::new();
    let mut i: usize = 0;
    while i < v.len()
        invariant
            i <= v@.len(),
            r@ == v@.take(i as int),
        decreases v@.len() - i,
    {
        r.push(v[i]);
        proof {
            assert(v@.take(i as int).push(v@[i as int]) =~= v@.take(i as int + 1));
        }
        i = i + 1;
    }
    proof {
        assert(v@.take(v@.len() as int) =~= v@);
    }
    r
}

/// Inserts an identity into a strictly sorted vote vector, keeping it
/// canonical; inserting a voter already present changes nothing.
pub fn add_vote(votes: &mut Vec<usize>, v: usize)
    ensures
        final(votes)@ == insert_sorted_spec(old(votes)@, v),
    decreases old(votes)@.len(),
{
    let ghost s = votes@;
    match votes.pop() {
        None => {
            votes.push(v);
            proof {
                assert(s.len() == 0);
                assert(votes@ =~= seq![v]);
            }
        }
        Some(last) => {
            proof {
                assert(votes@ =~= s.drop_last());
                assert(last == s.last());
            }
            if last < v {
                votes.push(last);
                votes.push(v);
                proof {
                    assert(votes@ =~= s.push(v));
                }
            } else if last == v {
                votes.push(last);
                proof {
                    assert(votes@ =~= s);
                }
            } else {
                add_vote(votes, v);
                votes.push(last);
            }
        }
    }
}

impl Clone for ConsensusState {
    /// A clone has the very same model.
    fn clone(&self) -> (r: Self)
        ensures
            r@ == self@,
    {
        ConsensusState {
            role: self.role,
            proposed_value: self.proposed_value,
            votes_received: copy_ids(&self.votes_received),
            decided_value: self.decided_value,
        }
    }
}

/// Fixed per-process configuration: the identities of all peers (own identity
/// included) and the majority quorum derived from their number.
#[derive(Debug)]
pub struct ConsensusActor {
    pub peer_ids: Vec<usize>,
    pub quorum_size: usize,
}

/// The outgoing messages of a broadcast: one copy of `m` from `me` to every
/// peer other than `me` itself.
pub open spec fn bcast_m(peers: Seq<usize>, me: usize, m: ConsensusMsg) -> Multiset<Envelope>
    decreases peers.len(),
{
    if peers.len() == 0 {
        Multiset::empty()
    } else {
        let rest = bcast_m(peers.drop_last(), me, m);
        if peers.last() == me {
            rest
        } else {
            rest.insert(Envelope { src: me, dst: peers.last(), msg: m })
        }
    }
}

/// The state part of one reducer step: how a process at state `st` reacts to
/// message `msg` arriving from `src`, with majority threshold `quorum`.
pub open spec fn spec_step_state(quorum: usize, st: StateM, src: usize, msg: ConsensusMsg) -> StateM {
    match msg {
        ConsensusMsg::Propose { value } => {
            if st.role == NodeRole::Follower && st.proposed is None {
                StateM { role: st.role, proposed: Some(value), votes: st.votes, decided: st.decided }
            } else {
                st
            }
        }
        ConsensusMsg::Vote { value } => {
            if st.role == NodeRole::Candidate && st.proposed == Some(value) {
                let votes2 = insert_sorted_spec(st.votes, src);
                if votes2.len() >= quorum as nat {
                    StateM { role: NodeRole::Leader, proposed: st.proposed, votes: votes2, decided: st.decided }
                } else {
                    StateM { role: st.role, proposed: st.proposed, votes: votes2, decided: st.decided }
                }
            } else {
                st
            }
        }
        ConsensusMsg::Commit { value } => {
            if st.decided is None {
                StateM { role: NodeRole::Decided, proposed: st.proposed, votes: st.votes, decided: Some(value) }
            } else {
                st
            }
        }
    }
}

/// The emission part of one reducer step: which messages the process sends.
pub open spec fn spec_step_out(
    peers: Seq<usize>,
    quorum: usize,
    id: usize,
    st: StateM,
    src: usize,
    msg: ConsensusMsg,
) -> Multiset<Envelope> {
    match msg {
        ConsensusMsg::Propose { value } => {
            if st.role == NodeRole::Follower && st.proposed is None {
                Multiset::empty().insert(
                    Envelope { src: id, dst: src, msg: ConsensusMsg::Vote { value } },
                )
            } else {
                Multiset::empty()
            }
        }
        ConsensusMsg::Vote { value } => {
            if st.role == NodeRole::Candidate && st.proposed == Some(value)
                && insert_sorted_spec(st.votes, src).len() >= quorum as nat {
                bcast_m(peers, id, ConsensusMsg::Commit { value })
            } else {
                Multiset::empty()
            }
        }
        ConsensusMsg::Commit { .. } => Multiset::empty(),
    }
}

/// A step never erases or changes an existing decision, whatever arrives.
pub proof fn lemma_step_preserves_decision(quorum: usize, st: StateM, src: usize, msg: ConsensusMsg)
    requires
        st.decided is Some,
    ensures
        spec_step_state(quorum, st, src, msg).decided == st.decided,
{
}

/// A step keeps a state well formed, provided the sender is a real process.
pub proof fn lemma_step_wf(quorum: usize, n: nat, st: StateM, src: usize, msg: ConsensusMsg)
    requires
        wf_state(st, n),
        (src as nat) < n,
    ensures
        wf_state(spec_step_state(quorum, st, src, msg), n),
{
    broadcast use vstd::set::group_set_axioms;

    match msg {
        ConsensusMsg::Vote { value } => {
            if st.role == NodeRole::Candidate && st.proposed == Some(value) {
                lemma_insert_sorted_spec(st.votes, src);
                let votes2 = insert_sorted_spec(st.votes, src);
                assert forall|i: int| 0 <= i < votes2.len() implies (#[trigger] votes2[i] as nat)
                    < n by {
                    assert(votes2.contains(votes2[i]));
                    assert(votes2.to_set().contains(votes2[i]));
                    if votes2[i] != src {
                        assert(st.votes.to_set().contains(votes2[i]));
                        assert(st.votes.contains(votes2[i]));
                        let j = choose|j: int| 0 <= j < st.votes.len() && st.votes[j] == votes2[i];
                    }
                }
            }
        }
        _ => {}
    }
}

/// The empty multiset of a message sequence without members.
pub proof fn lemma_to_multiset_empty(s: Seq<Envelope>)
    requires
        s.len() == 0,
    ensures
        s.to_multiset() == Multiset::<Envelope>::empty(),
{
    broadcast use vstd::seq_lib::group_to_multiset_ensures;
    broadcast use vstd::multiset::group_multiset_axioms;

    assert(s.to_multiset() =~= Multiset::<Envelope>::empty()) by {
        assert(forall|e: Envelope| !s.contains(e));
        assert(forall|e: Envelope| s.to_multiset().count(e) == 0);
    }
}

impl ConsensusActor {
    /// Builds the run configuration for the given peer set; the quorum is the
    /// strict majority `floor(n / 2) + 1` of the `n` peers.
    pub fn new(peer_ids: Vec<usize>) -> (r: ConsensusActor)
        ensures
            r.peer_ids@ == peer_ids@,
            r.quorum_size as int == peer_ids@.len() as int / 2 + 1,
    {
        let quorum_size = (peer_ids.len() / 2) + 1;
        ConsensusActor { peer_ids, quorum_size }
    }

    /// Whether a vote set of this size carries the majority quorum.
    pub fn has_quorum(&self, votes: &Vec<usize>) -> (r: bool)
        ensures
            r == (votes@.len() >= self.quorum_size as nat),
    {
        votes.len() >= self.quorum_size
    }

    /// The initial state of every process: see [`init_state_m`].
    pub fn on_start(&self) -> (r: ConsensusState)
        ensures
            r@ == init_state_m(),
    {
        ConsensusState {
            role: NodeRole::Follower,
            proposed_value: None,
            votes_received: Vec::new(),
            decided_value: None,
        }
    }

    /// Sends one copy of `msg` from `my_id` to every peer except `my_id`.
    pub fn broadcast(&self, my_id: usize, msg: ConsensusMsg) -> (r: Vec<Envelope>)
        ensures
            r@.to_multiset() == bcast_m(self.peer_ids@, my_id, msg),
    {
        proof {
            lemma_to_multiset_empty(Seq::<Envelope>::empty());
        }
        let mut out: Vec<Envelope> = Vec::new();
        let mut i: usize = 0;
        while i < self.peer_ids.len()
            invariant
                i <= self.peer_ids@.len(),
                out@.to_multiset() == bcast_m(self.peer_ids@.take(i as int), my_id, msg),
            decreases self.peer_ids@.len() - i,
        {
            broadcast use vstd::seq_lib::group_to_multiset_ensures;

            let peer = self.peer_ids[i];
            proof {
                assert(self.peer_ids@.take(i as int + 1).drop_last() =~= self.peer_ids@.take(i as int));
                assert(self.peer_ids@.take(i as int + 1).last() == self.peer_ids@[i as int]);
            }
            if peer != my_id {
                out.push(Envelope { src: my_id, dst: peer, msg });
            }
            i = i + 1;
        }
        proof {
            assert(self.peer_ids@.take(self.peer_ids@.len() as int) =~= self.peer_ids@);
        }
        out
    }

    /// One reducer step: reacts to `msg` arriving from `src` at the process
    /// `id` whose current state is `state`, and returns the new state together
    /// with the messages to send.  Pure: the result is exactly
    /// [`spec_step_state`] and [`spec_step_out`].
    pub fn on_msg(&self, id: usize, state: &ConsensusState, src: usize, msg: ConsensusMsg) -> (r: (
        ConsensusState,
        Vec<Envelope>,
    ))
        ensures
            r.0@ == spec_step_state(self.quorum_size, state@, src, msg),
            r.1@.to_multiset() == spec_step_out(
                self.peer_ids@,
                self.quorum_size,
                id,
                state@,
                src,
                msg,
            ),
    {
        broadcast use vstd::seq_lib::group_to_multiset_ensures;

        match msg {
            ConsensusMsg::Propose { value } => {
                let applies = state.role == NodeRole::Follower && state.proposed_value.is_none();
                if applies {
                    let st2 = ConsensusState {
                        role: state.role,
                        proposed_value: Some(value),
                        votes_received: copy_ids(&state.votes_received),
                        decided_value: state.decided_value,
                    };
                    let mut out: Vec<Envelope> = Vec::new();
                    out.push(Envelope { src: id, dst: src, msg: ConsensusMsg::Vote { value } });
                    proof {
                        lemma_to_multiset_empty(Seq::<Envelope>::empty());
                        assert(out@ =~= Seq::<Envelope>::empty().push(
                            Envelope { src: id, dst: src, msg: ConsensusMsg::Vote { value } },
                        ));
                    }
                    (st2, out)
                } else {
                    let out: Vec<Envelope> = Vec::new();
                    proof {
                        lemma_to_multiset_empty(out@);
                    }
                    (state.clone(), out)
                }
            }
            ConsensusMsg::Vote { value } => {
                let matching = match state.proposed_value {
                    Some(pv) => pv == value,
                    None => false,
                };
                if state.role == NodeRole::Candidate && matching {
                    let mut votes2 = copy_ids(&state.votes_received);
                    add_vote(&mut votes2, src);
                    if self.has_quorum(&votes2) {
                        let out = self.broadcast(id, ConsensusMsg::Commit { value });
                        let st2 = ConsensusState {
                            role: NodeRole::Leader,
                            proposed_value: state.proposed_value,
                            votes_received: votes2,
                            decided_value: state.decided_value,
                        };
                        (st2, out)
                    } else {
                        let st2 = ConsensusState {
                            role: state.role,
                            proposed_value: state.proposed_value,
                            votes_received: votes2,
                            decided_value: state.decided_value,
                        };
                        let out: Vec<Envelope> = Vec::new();
                        proof {
                            lemma_to_multiset_empty(out@);
                        }
                        (st2, out)
                    }
                } else {
                    let out: Vec<Envelope> = Vec::new();
                    proof {
                        lemma_to_multiset_empty(out@);
                    }
                    (state.clone(), out)
                }
            }
            ConsensusMsg::Commit { value } => {
                let out: Vec<Envelope> = Vec::new();
                proof {
                    lemma_to_multiset_empty(out@);
                }
                if state.decided_value.is_none() {
                    let st2 = ConsensusState {
                        role: NodeRole::Decided,
                        proposed_value: state.proposed_value,
                        votes_received: copy_ids(&state.votes_received),
                        decided_value: Some(value),
                    };
                    (st2, out)
                } else {
                    (state.clone(), out)
                }
            }
        }
    }
}

} // verus!
