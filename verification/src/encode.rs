//! Canonical, order-independent encoding of configurations.
//!
//! [`encode_config`] flattens a configuration into a sequence of numbers.
//! Because vote vectors and the network vector are kept in canonical sorted
//! spelling, the encoding depends only on the configuration's model: two
//! configurations that agree as (state sequence, message multiset) encode
//! identically, however their sets were built up — that is
//! [`lemma_encode_config_canonical`].  The encoding is the key under which
//! the explorer deduplicates configurations.

use vstd::prelude::*;
use vstd::std_specs::vec::spec_vec_len;

use crate::config::{env_le_fn, lemma_env_le_total, views_of, wf_config_n, GlobalConfig};
use crate::protocol::{
    kind_rank, kind_rank_exec, lemma_strict_sorted_unique, msg_value, msg_value_exec, role_rank,
    role_rank_exec, strict_sorted, value_rank, value_rank_exec, ConsensusMsg, ConsensusState,
    Envelope, NodeRole, StateM, Value,
};

verus! {

/// Encoding of an optional value: a presence tag, then the value's rank.
pub open spec fn encode_opt_value(o: Option<Value>) -> Seq<usize> {
    match o {
        None => seq![0usize, 0usize],
        Some(v) => seq![1usize, value_rank(v)],
    }
}

/// Encoding of one process state: role, proposal, vote count, the votes in
/// their canonical order, then the decision.
pub open spec fn encode_state_spec(s: StateM) -> Seq<usize> {
    seq![role_rank(s.role)] + encode_opt_value(s.proposed) + seq![s.votes.len() as usize] + s.votes
        + encode_opt_value(s.decided)
}

/// Encoding of a sequence of process states, in identity order.
pub open spec fn encode_states_spec(ss: Seq<StateM>) -> Seq<usize>
    decreases ss.len(),
{
    if ss.len() == 0 {
        Seq::empty()
    } else {
        encode_states_spec(ss.drop_last()) + encode_state_spec(ss.last())
    }
}

/// Encoding of one in-flight message instance.
pub open spec fn encode_env_spec(e: Envelope) -> Seq<usize> {
    seq![e.src, e.dst, kind_rank(e.msg), value_rank(msg_value(e.msg))]
}

/// Encoding of a network vector, in its canonical order.
pub open spec fn encode_envs_spec(es: Seq<Envelope>) -> Seq<usize>
    decreases es.len(),
{
    if es.len() == 0 {
        Seq::empty()
    } else {
        encode_envs_spec(es.drop_last()) + encode_env_spec(es.last())
    }
}

/// Encoding of a whole configuration.
pub open spec fn encode_config_spec(c: GlobalConfig) -> Seq<usize> {
    seq![c.states@.len() as usize] + encode_states_spec(views_of(c.states@)) + seq![
        c.network@.len() as usize,
    ] + encode_envs_spec(c.network@)
}

/// Appends the encoding of one process state.
fn encode_state_into(out: &mut Vec<usize>, s: &ConsensusState)
    ensures
        final(out)@ == old(out)@ + encode_state_spec(s@),
{
    let ghost base = out@;
    out.push(role_rank_exec(s.role));
    match s.proposed_value {
        None => {
            out.push(0);
            out.push(0);
        }
        Some(v) => {
            out.push(1);
            out.push(value_rank_exec(v));
        }
    }
    out.push(s.votes_received.len());
    let ghost mid = out@;
    let mut k: usize = 0;
    while k < s.votes_received.len()
        invariant
            k <= s.votes_received@.len(),
            out@ == mid + s.votes_received@.take(k as int),
        decreases s.votes_received@.len() - k,
    {
        out.push(s.votes_received[k]);
        proof {
            assert(mid + s.votes_received@.take(k as int).push(s.votes_received@[k as int]) =~= mid
                + s.votes_received@.take(k as int + 1));
        }
        k = k + 1;
    }
    proof {
        assert(s.votes_received@.take(s.votes_received@.len() as int) =~= s.votes_received@);
    }
    match s.decided_value {
        None => {
            out.push(0);
            out.push(0);
        }
        Some(v) => {
            out.push(1);
            out.push(value_rank_exec(v));
        }
    }
    proof {
        assert(out@ =~= base + encode_state_spec(s@));
    }
}

/// Computes the canonical key of a configuration: exactly
/// [`encode_config_spec`].
pub fn encode_config(c: &GlobalConfig) -> (r: Vec<usize>)
    ensures
        r@ == encode_config_spec(*c),
{
    let mut out: Vec<usize> = Vec::new();
    out.push(c.states.len());
    let ghost head = out@;
    let mut i: usize = 0;
    while i < c.states.len()
        invariant
            i <= c.states@.len(),
            out@ == head + encode_states_spec(views_of(c.states@).take(i as int)),
        decreases c.states@.len() - i,
    {
        proof {
            let vs = views_of(c.states@);
            assert(vs.take(i as int + 1).drop_last() =~= vs.take(i as int));
            assert(vs.take(i as int + 1).last() == vs[i as int]);
            assert(vs[i as int] == c.states@[i as int]@);
        }
        encode_state_into(&mut out, &c.states[i]);
        i = i + 1;
    }
    proof {
        assert(views_of(c.states@).take(views_of(c.states@).len() as int) =~= views_of(c.states@));
        assert(views_of(c.states@).len() == c.states@.len());
    }
    out.push(c.network.len());
    let ghost mid = out@;
    let mut j: usize = 0;
    while j < c.network.len()
        invariant
            j <= c.network@.len(),
            out@ == mid + encode_envs_spec(c.network@.take(j as int)),
        decreases c.network@.len() - j,
    {
        proof {
            assert(c.network@.take(j as int + 1).drop_last() =~= c.network@.take(j as int));
            assert(c.network@.take(j as int + 1).last() == c.network@[j as int]);
        }
        let e = c.network[j];
        out.push(e.src);
        out.push(e.dst);
        out.push(kind_rank_exec(e.msg));
        out.push(value_rank_exec(msg_value_exec(e.msg)));
        proof {
            assert(out@ =~= mid + encode_envs_spec(c.network@.take(j as int)) + encode_env_spec(
                c.network@[j as int],
            ));
        }
        j = j + 1;
    }
    proof {
        assert(c.network@.take(c.network@.len() as int) =~= c.network@);
        assert(out@ =~= encode_config_spec(*c));
    }
    out
}

/// The length of a state's encoding: six fixed fields plus the votes.
proof fn lemma_encode_state_len(s: StateM)
    ensures
        encode_state_spec(s).len() == 6 + s.votes.len(),
{
    match s.proposed {
        Some(_) => {}
        None => {}
    }
    match s.decided {
        Some(_) => {}
        None => {}
    }
}

/// Optional values with equal encodings are equal.
proof fn lemma_encode_opt_inj(a: Option<Value>, b: Option<Value>)
    requires
        encode_opt_value(a) == encode_opt_value(b),
    ensures
        a == b,
{
    let ea = encode_opt_value(a);
    let eb = encode_opt_value(b);
    match (a, b) {
        (Some(va), Some(vb)) => {
            assert(ea[1] == value_rank(va) && eb[1] == value_rank(vb));
            assert(value_rank(va) == value_rank(vb));
            match (va, vb) {
                (Value::V0, Value::V0) => {}
                (Value::V1, Value::V1) => {}
                (Value::V2, Value::V2) => {}
                _ => {
                    assert(false);
                }
            }
        }
        (None, None) => {}
        _ => {
            assert(ea[0] != eb[0]);
            assert(false);
        }
    }
}

/// A state's encoding determines the state, even as the prefix of a longer
/// sequence, because the vote count is part of the encoding.
proof fn lemma_encode_state_prefix(a: StateM, b: StateM, x: Seq<usize>, y: Seq<usize>)
    requires
        encode_state_spec(a) + x == encode_state_spec(b) + y,
        a.votes.len() <= usize::MAX,
        b.votes.len() <= usize::MAX,
    ensures
        a == b,
        x == y,
{
    let ea = encode_state_spec(a);
    let eb = encode_state_spec(b);
    lemma_encode_state_len(a);
    lemma_encode_state_len(b);
    assert((ea + x)[3] == ea[3]);
    assert((eb + y)[3] == eb[3]);
    assert(ea[3] == a.votes.len() as usize);
    assert(eb[3] == b.votes.len() as usize);
    assert(a.votes.len() == b.votes.len());
    assert(ea.len() == eb.len());
    assert forall|i: int| 0 <= i < ea.len() implies ea[i] == eb[i] by {
        assert((ea + x)[i] == ea[i]);
        assert((eb + y)[i] == eb[i]);
    }
    assert(ea[0] == role_rank(a.role) && eb[0] == role_rank(b.role));
    assert(a.role == b.role) by {
        match (a.role, b.role) {
            (NodeRole::Follower, NodeRole::Follower) => {}
            (NodeRole::Candidate, NodeRole::Candidate) => {}
            (NodeRole::Leader, NodeRole::Leader) => {}
            (NodeRole::Decided, NodeRole::Decided) => {}
            _ => {
                assert(false);
            }
        }
    }
    assert(encode_opt_value(a.proposed) =~= encode_opt_value(b.proposed)) by {
        assert(ea[1] == encode_opt_value(a.proposed)[0] && ea[2] == encode_opt_value(a.proposed)[1]);
        assert(eb[1] == encode_opt_value(b.proposed)[0] && eb[2] == encode_opt_value(b.proposed)[1]);
    }
    lemma_encode_opt_inj(a.proposed, b.proposed);
    let vlen = a.votes.len() as int;
    assert(a.votes =~= b.votes) by {
        assert forall|k: int| 0 <= k < vlen implies a.votes[k] == b.votes[k] by {
            assert(ea[4 + k] == a.votes[k]);
            assert(eb[4 + k] == b.votes[k]);
        }
    }
    assert(encode_opt_value(a.decided) =~= encode_opt_value(b.decided)) by {
        assert(ea[4 + vlen] == encode_opt_value(a.decided)[0]);
        assert(ea[5 + vlen] == encode_opt_value(a.decided)[1]);
        assert(eb[4 + vlen] == encode_opt_value(b.decided)[0]);
        assert(eb[5 + vlen] == encode_opt_value(b.decided)[1]);
    }
    lemma_encode_opt_inj(a.decided, b.decided);
    assert(a =~= b);
    assert(x =~= y) by {
        assert((ea + x).len() == (eb + y).len());
        assert forall|i: int| 0 <= i < x.len() implies x[i] == y[i] by {
            assert((ea + x)[ea.len() + i] == x[i]);
            assert((eb + y)[eb.len() + i] == y[i]);
        }
    }
}

/// The state-sequence encoding peels off the front as well.
proof fn lemma_encode_states_front(ss: Seq<StateM>)
    requires
        ss.len() > 0,
    ensures
        encode_states_spec(ss) == encode_state_spec(ss[0]) + encode_states_spec(ss.drop_first()),
    decreases ss.len(),
{
    if ss.len() == 1 {
        assert(ss.drop_last() =~= Seq::<StateM>::empty());
        assert(ss.drop_first() =~= Seq::<StateM>::empty());
        assert(ss.last() == ss[0]);
        assert(encode_states_spec(ss) =~= encode_state_spec(ss[0]) + encode_states_spec(
            ss.drop_first(),
        ));
    } else {
        let dl = ss.drop_last();
        let df = ss.drop_first();
        lemma_encode_states_front(dl);
        assert(dl[0] == ss[0]);
        assert(dl.drop_first() =~= df.drop_last());
        assert(df.last() == ss.last());
        assert(encode_states_spec(ss) == encode_states_spec(dl) + encode_state_spec(ss.last()));
        assert(encode_states_spec(ss) == (encode_state_spec(ss[0]) + encode_states_spec(
            df.drop_last(),
        )) + encode_state_spec(df.last()));
        assert((encode_state_spec(ss[0]) + encode_states_spec(df.drop_last()))
            + encode_state_spec(df.last()) =~= encode_state_spec(ss[0]) + (encode_states_spec(
            df.drop_last(),
        ) + encode_state_spec(df.last())));
        assert(encode_states_spec(df) == encode_states_spec(df.drop_last()) + encode_state_spec(
            df.last(),
        ));
    }
}

/// Equally long state sequences whose encodings open equal prefixed
/// sequences are equal, and so are the suffixes.
proof fn lemma_encode_states_prefix(ss1: Seq<StateM>, ss2: Seq<StateM>, x: Seq<usize>, y: Seq<usize>)
    requires
        ss1.len() == ss2.len(),
        forall|i: int| 0 <= i < ss1.len() ==> (#[trigger] ss1[i]).votes.len() <= usize::MAX,
        forall|i: int| 0 <= i < ss2.len() ==> (#[trigger] ss2[i]).votes.len() <= usize::MAX,
        encode_states_spec(ss1) + x == encode_states_spec(ss2) + y,
    ensures
        ss1 == ss2,
        x == y,
    decreases ss1.len(),
{
    if ss1.len() == 0 {
        assert(ss1 =~= ss2);
        assert(encode_states_spec(ss1) + x =~= x);
        assert(encode_states_spec(ss2) + y =~= y);
    } else {
        lemma_encode_states_front(ss1);
        lemma_encode_states_front(ss2);
        let t1 = ss1.drop_first();
        let t2 = ss2.drop_first();
        assert((encode_state_spec(ss1[0]) + encode_states_spec(t1)) + x =~= encode_state_spec(
            ss1[0],
        ) + (encode_states_spec(t1) + x));
        assert((encode_state_spec(ss2[0]) + encode_states_spec(t2)) + y =~= encode_state_spec(
            ss2[0],
        ) + (encode_states_spec(t2) + y));
        lemma_encode_state_prefix(ss1[0], ss2[0], encode_states_spec(t1) + x, encode_states_spec(
            t2,
        ) + y);
        assert(forall|i: int| 0 <= i < t1.len() ==> #[trigger] t1[i] == ss1[i + 1]);
        assert(forall|i: int| 0 <= i < t2.len() ==> #[trigger] t2[i] == ss2[i + 1]);
        lemma_encode_states_prefix(t1, t2, x, y);
        assert forall|i: int| 0 <= i < ss1.len() implies ss1[i] == ss2[i] by {
            if i > 0 {
                assert(t1[i - 1] == ss1[i]);
                assert(t2[i - 1] == ss2[i]);
            }
        }
        assert(ss1 =~= ss2);
    }
}

/// Envelopes with equal encodings are equal.
proof fn lemma_encode_env_inj(a: Envelope, b: Envelope)
    requires
        encode_env_spec(a) == encode_env_spec(b),
    ensures
        a == b,
{
    let ea = encode_env_spec(a);
    let eb = encode_env_spec(b);
    assert(ea[0] == a.src && ea[1] == a.dst && ea[2] == kind_rank(a.msg) && ea[3] == value_rank(
        msg_value(a.msg),
    ));
    assert(eb[0] == b.src && eb[1] == b.dst && eb[2] == kind_rank(b.msg) && eb[3] == value_rank(
        msg_value(b.msg),
    ));
    assert(a.msg == b.msg) by {
        match (a.msg, b.msg) {
            (ConsensusMsg::Propose { value: va }, ConsensusMsg::Propose { value: vb })
            | (ConsensusMsg::Vote { value: va }, ConsensusMsg::Vote { value: vb })
            | (ConsensusMsg::Commit { value: va }, ConsensusMsg::Commit { value: vb }) => {
                match (va, vb) {
                    (Value::V0, Value::V0) => {}
                    (Value::V1, Value::V1) => {}
                    (Value::V2, Value::V2) => {}
                    _ => {
                        assert(false);
                    }
                }
            }
            _ => {
                assert(false);
            }
        }
    }
}

/// The network encoding is four numbers per envelope.
proof fn lemma_encode_envs_len(es: Seq<Envelope>)
    ensures
        encode_envs_spec(es).len() == 4 * es.len(),
    decreases es.len(),
{
    if es.len() > 0 {
        lemma_encode_envs_len(es.drop_last());
    }
}

/// Equally long network vectors with equal encodings are equal.
proof fn lemma_encode_envs_inj(es1: Seq<Envelope>, es2: Seq<Envelope>)
    requires
        es1.len() == es2.len(),
        encode_envs_spec(es1) == encode_envs_spec(es2),
    ensures
        es1 == es2,
    decreases es1.len(),
{
    if es1.len() == 0 {
        assert(es1 =~= es2);
    } else {
        let a1 = encode_envs_spec(es1.drop_last());
        let a2 = encode_envs_spec(es2.drop_last());
        let b1 = encode_env_spec(es1.last());
        let b2 = encode_env_spec(es2.last());
        lemma_encode_envs_len(es1.drop_last());
        lemma_encode_envs_len(es2.drop_last());
        assert(a1 + b1 == a2 + b2);
        assert(a1 =~= a2) by {
            assert forall|i: int| 0 <= i < a1.len() implies a1[i] == a2[i] by {
                assert((a1 + b1)[i] == a1[i]);
                assert((a2 + b2)[i] == a2[i]);
            }
        }
        assert(b1 =~= b2) by {
            assert forall|i: int| 0 <= i < b1.len() implies b1[i] == b2[i] by {
                assert((a1 + b1)[a1.len() + i] == b1[i]);
                assert((a2 + b2)[a2.len() + i] == b2[i]);
            }
        }
        lemma_encode_envs_inj(es1.drop_last(), es2.drop_last());
        lemma_encode_env_inj(es1.last(), es2.last());
        assert forall|i: int| 0 <= i < es1.len() implies es1[i] == es2[i] by {
            if i < es1.len() - 1 {
                assert(es1.drop_last()[i] == es1[i]);
                assert(es2.drop_last()[i] == es2[i]);
            } else {
                assert(es1[i] == es1.last());
                assert(es2[i] == es2.last());
            }
        }
        assert(es1 =~= es2);
    }
}

/// Injectivity of the canonical encoding: two configurations with the same
/// fingerprint have the same model — equal per-process states and equal
/// in-flight multisets.  Together with [`lemma_encode_config_canonical`],
/// fingerprints of well-formed configurations are equal exactly when the
/// configurations are equivalent.
pub proof fn lemma_encode_config_injective(c1: GlobalConfig, c2: GlobalConfig)
    requires
        encode_config_spec(c1) == encode_config_spec(c2),
    ensures
        c1@ == c2@,
{
    broadcast use vstd::std_specs::vec::axiom_spec_len;

    let vs1 = views_of(c1.states@);
    let vs2 = views_of(c2.states@);
    let e1 = encode_config_spec(c1);
    let e2 = encode_config_spec(c2);
    assert(spec_vec_len(&c1.states) == c1.states@.len());
    assert(spec_vec_len(&c2.states) == c2.states@.len());
    assert(spec_vec_len(&c1.network) == c1.network@.len());
    assert(spec_vec_len(&c2.network) == c2.network@.len());
    assert(e1[0] == c1.states@.len() as usize);
    assert(e2[0] == c2.states@.len() as usize);
    assert(c1.states@.len() == c2.states@.len());
    assert(vs1.len() == c1.states@.len() && vs2.len() == c2.states@.len());
    assert forall|i: int| 0 <= i < vs1.len() implies (#[trigger] vs1[i]).votes.len()
        <= usize::MAX by {
        assert(vs1[i] == c1.states@[i]@);
        assert(spec_vec_len(&c1.states@[i].votes_received) == c1.states@[i].votes_received@.len());
    }
    assert forall|i: int| 0 <= i < vs2.len() implies (#[trigger] vs2[i]).votes.len()
        <= usize::MAX by {
        assert(vs2[i] == c2.states@[i]@);
        assert(spec_vec_len(&c2.states@[i].votes_received) == c2.states@[i].votes_received@.len());
    }
    let tail1 = seq![c1.network@.len() as usize] + encode_envs_spec(c1.network@);
    let tail2 = seq![c2.network@.len() as usize] + encode_envs_spec(c2.network@);
    assert(e1 =~= seq![c1.states@.len() as usize] + (encode_states_spec(vs1) + tail1));
    assert(e2 =~= seq![c2.states@.len() as usize] + (encode_states_spec(vs2) + tail2));
    assert(encode_states_spec(vs1) + tail1 =~= encode_states_spec(vs2) + tail2) by {
        assert forall|i: int| 0 <= i < e1.len() - 1 implies (encode_states_spec(vs1) + tail1)[i]
            == (encode_states_spec(vs2) + tail2)[i] by {
            assert(e1[i + 1] == (encode_states_spec(vs1) + tail1)[i]);
            assert(e2[i + 1] == (encode_states_spec(vs2) + tail2)[i]);
        }
        assert((encode_states_spec(vs1) + tail1).len() == e1.len() - 1);
        assert((encode_states_spec(vs2) + tail2).len() == e2.len() - 1);
    }
    lemma_encode_states_prefix(vs1, vs2, tail1, tail2);
    assert(tail1[0] == c1.network@.len() as usize);
    assert(tail2[0] == c2.network@.len() as usize);
    assert(c1.network@.len() == c2.network@.len());
    assert(encode_envs_spec(c1.network@) =~= encode_envs_spec(c2.network@)) by {
        assert forall|i: int| 0 <= i < tail1.len() - 1 implies encode_envs_spec(c1.network@)[i]
            == encode_envs_spec(c2.network@)[i] by {
            assert(tail1[i + 1] == encode_envs_spec(c1.network@)[i]);
            assert(tail2[i + 1] == encode_envs_spec(c2.network@)[i]);
        }
        lemma_encode_envs_len(c1.network@);
        lemma_encode_envs_len(c2.network@);
    }
    lemma_encode_envs_inj(c1.network@, c2.network@);
    assert(c1@ =~= c2@);
}

/// Order independence at the level of one process state: two states that
/// agree in role, proposal and decision and whose vote vectors spell the
/// same set of voters encode identically.
pub proof fn lemma_encode_state_order_independent(a: StateM, b: StateM)
    requires
        strict_sorted(a.votes),
        strict_sorted(b.votes),
        a.role == b.role,
        a.proposed == b.proposed,
        a.decided == b.decided,
        a.votes.to_set() == b.votes.to_set(),
    ensures
        encode_state_spec(a) == encode_state_spec(b),
{
    lemma_strict_sorted_unique(a.votes, b.votes);
    assert(a =~= b);
}

/// Order independence at the level of whole configurations: two well-formed
/// configurations with the same model — the same per-process states and the
/// same in-flight multiset, however either was built up — have the same
/// canonical network spelling and the same encoding, so the explorer treats
/// them as the same visited node.
pub proof fn lemma_encode_config_canonical(c1: GlobalConfig, c2: GlobalConfig, n: nat)
    requires
        wf_config_n(c1, n),
        wf_config_n(c2, n),
        c1@ == c2@,
    ensures
        c1.network@ == c2.network@,
        encode_config_spec(c1) == encode_config_spec(c2),
{
    lemma_env_le_total();
    vstd::seq_lib::lemma_sorted_unique(c1.network@, c2.network@, env_le_fn());
    assert(c1.network@ == c2.network@);
    assert(views_of(c1.states@) == views_of(c2.states@));
    assert(c1.states@.len() == c2.states@.len()) by {
        assert(views_of(c1.states@).len() == c1.states@.len());
        assert(views_of(c2.states@).len() == c2.states@.len());
    }
}

} // verus!
