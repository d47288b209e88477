use vstd::prelude::*;
use crate::state::StateModel;
use crate::WILDCARD;

verus! {

/// There is an epsilon edge from `a` to `b` in the state store `ss`.
pub open spec fn eps_edge(ss: Seq<StateModel>, a: usize, b: usize) -> bool {
    a < ss.len() && b < ss.len() && ss[a as int].epsilon.contains(b)
}

/// Every step of `p` follows an epsilon edge of `ss`.
pub open spec fn eps_path(ss: Seq<StateModel>, p: Seq<usize>) -> bool {
    forall|i: int| 0 <= i < p.len() - 1 ==> #[trigger] eps_edge(ss, p[i], p[i + 1])
}

/// State `b` is reachable from state `a` by zero or more epsilon edges.
pub open spec fn eps_reach(ss: Seq<StateModel>, a: usize, b: usize) -> bool {
    exists|p: Seq<usize>|
        p.len() >= 1 && p.first() == a && p.last() == b && #[trigger] eps_path(ss, p)
}

/// The epsilon closure of a set of states: everything reachable from some
/// member by zero or more epsilon edges.
pub open spec fn eps_closure_set(ss: Seq<StateModel>, from: Set<usize>) -> Set<usize> {
    Set::new(|b: usize| exists|a: usize| #[trigger] from.contains(a) && eps_reach(ss, a, b))
}

/// `s` is closed under the epsilon edges of `ss`.
pub open spec fn eps_closed(ss: Seq<StateModel>, s: Set<usize>) -> bool {
    forall|u: usize, v: usize| s.contains(u) && #[trigger] eps_edge(ss, u, v) ==> s.contains(v)
}

pub proof fn lemma_eps_reach_refl(ss: Seq<StateModel>, a: usize)
    ensures
        eps_reach(ss, a, a),
{
    let p: Seq<usize> = seq![a];
    assert(p.len() >= 1 && p.first() == a && p.last() == a && eps_path(ss, p));
}

pub proof fn lemma_eps_reach_step(ss: Seq<StateModel>, a: usize, b: usize, c: usize)
    requires
        eps_reach(ss, a, b),
        eps_edge(ss, b, c),
    ensures
        eps_reach(ss, a, c),
{
    let p = choose|p: Seq<usize>|
        p.len() >= 1 && p.first() == a && p.last() == b && #[trigger] eps_path(ss, p);
    let q = p.push(c);
    assert forall|i: int| 0 <= i < q.len() - 1 implies #[trigger] eps_edge(ss, q[i], q[i + 1]) by {
        if i < p.len() - 1 {
            assert(q[i] == p[i] && q[i + 1] == p[i + 1]);
            assert(eps_edge(ss, p[i], p[i + 1]));
        } else {
            assert(i == p.len() - 1);
            assert(q[i] == p.last() && q[i + 1] == c);
        }
    }
    assert(q.len() >= 1 && q.first() == a && q.last() == c && eps_path(ss, q));
}

pub proof fn lemma_eps_reach_trans(ss: Seq<StateModel>, a: usize, b: usize, c: usize)
    requires
        eps_reach(ss, a, b),
        eps_reach(ss, b, c),
    ensures
        eps_reach(ss, a, c),
{
    let p1 = choose|p: Seq<usize>|
        p.len() >= 1 && p.first() == a && p.last() == b && #[trigger] eps_path(ss, p);
    let p2 = choose|p: Seq<usize>|
        p.len() >= 1 && p.first() == b && p.last() == c && #[trigger] eps_path(ss, p);
    if p2.len() == 1 {
        assert(b == c);
        assert(eps_reach(ss, a, c));
    } else {
        let q = p1 + p2.subrange(1, p2.len() as int);
        assert forall|i: int| 0 <= i < q.len() - 1 implies #[trigger] eps_edge(ss, q[i], q[i + 1]) by {
            if i < p1.len() - 1 {
                assert(q[i] == p1[i] && q[i + 1] == p1[i + 1]);
                assert(eps_edge(ss, p1[i], p1[i + 1]));
            } else if i == p1.len() - 1 {
                assert(q[i] == p1.last());
                assert(q[i + 1] == p2[1]);
                assert(eps_edge(ss, p2[0], p2[1]));
            } else {
                let j = i - p1.len() + 1;
                assert(q[i] == p2[j] && q[i + 1] == p2[j + 1]);
                assert(eps_edge(ss, p2[j], p2[j + 1]));
            }
        }
        assert(q.len() >= 1 && q.first() == a && q.last() == c && eps_path(ss, q));
    }
}

/// A set that contains the first state of an epsilon path and is closed under
/// epsilon edges contains the path's last state.
pub proof fn lemma_closed_path(ss: Seq<StateModel>, s: Set<usize>, p: Seq<usize>)
    requires
        eps_path(ss, p),
        p.len() >= 1,
        s.contains(p.first()),
        eps_closed(ss, s),
    ensures
        s.contains(p.last()),
    decreases p.len(),
{
    if p.len() > 1 {
        let i0: int = 0;
        assert(0 <= i0 < p.len() - 1);
        assert(eps_edge(ss, p[i0], p[i0 + 1]));
        let p2 = p.subrange(1, p.len() as int);
        assert forall|i: int| 0 <= i < p2.len() - 1 implies #[trigger] eps_edge(
            ss,
            p2[i],
            p2[i + 1],
        ) by {
            assert(p2[i] == p[i + 1] && p2[i + 1] == p[i + 2]);
            assert(eps_edge(ss, p[i + 1], p[i + 2]));
        }
        assert(p2.first() == p[1] && p2.last() == p.last());
        lemma_closed_path(ss, s, p2);
    }
}

/// Everything epsilon-reachable from `from` lies in any epsilon-closed
/// superset of `from`.
pub proof fn lemma_closure_in_closed(ss: Seq<StateModel>, from: Set<usize>, s: Set<usize>)
    requires
        eps_closed(ss, s),
        forall|a: usize| from.contains(a) ==> s.contains(a),
    ensures
        forall|b: usize| eps_closure_set(ss, from).contains(b) ==> s.contains(b),
{
    assert forall|b: usize| eps_closure_set(ss, from).contains(b) implies s.contains(b) by {
        let a = choose|a: usize| #[trigger] from.contains(a) && eps_reach(ss, a, b);
        let p = choose|p: Seq<usize>|
            p.len() >= 1 && p.first() == a && p.last() == b && #[trigger] eps_path(ss, p);
        lemma_closed_path(ss, s, p);
    }
}

/// Taking the epsilon closure a second time adds nothing: the closure of a
/// closure equals the closure itself.
pub proof fn lemma_eps_closure_idempotent(ss: Seq<StateModel>, from: Set<usize>)
    ensures
        eps_closure_set(ss, eps_closure_set(ss, from)) == eps_closure_set(ss, from),
{
    let once = eps_closure_set(ss, from);
    let twice = eps_closure_set(ss, once);
    assert forall|b: usize| twice.contains(b) implies once.contains(b) by {
        let a = choose|a: usize| #[trigger] once.contains(a) && eps_reach(ss, a, b);
        let a0 = choose|a0: usize| #[trigger] from.contains(a0) && eps_reach(ss, a0, a);
        lemma_eps_reach_trans(ss, a0, a, b);
    }
    assert forall|b: usize| once.contains(b) implies twice.contains(b) by {
        lemma_eps_reach_refl(ss, b);
    }
    assert(twice =~= once);
}

/// The destinations that one state offers for input symbol `c`: the exact
/// transitions when there are any, otherwise the wildcard transitions.
pub open spec fn sym_targets(st: StateModel, c: char) -> Seq<usize> {
    if st.transitions.contains_key(c) {
        st.transitions[c]
    } else if st.transitions.contains_key(WILDCARD) {
        st.transitions[WILDCARD]
    } else {
        Seq::empty()
    }
}

/// All destinations offered for `c` by the states of `cur`, before taking
/// epsilon closures.
pub open spec fn step_targets(ss: Seq<StateModel>, cur: Set<usize>, c: char) -> Set<usize> {
    Set::new(
        |t: usize|
            exists|q: usize| #[trigger]
                cur.contains(q) && q < ss.len() && sym_targets(ss[q as int], c).contains(t),
    )
}

/// The destinations offered for `c` by the first `j` states of the list `qs`.
pub open spec fn targets_upto(ss: Seq<StateModel>, qs: Seq<usize>, c: char, j: int) -> Set<usize> {
    Set::new(
        |t: usize|
            exists|jj: int|
                #![auto]
                0 <= jj < j && jj < qs.len() && sym_targets(ss[qs[jj] as int], c).contains(t),
    )
}

/// The set of active states after consuming symbol `c` from the states `cur`.
pub open spec fn step_set(ss: Seq<StateModel>, cur: Set<usize>, c: char) -> Set<usize> {
    eps_closure_set(ss, step_targets(ss, cur, c))
}

/// The set of active states after consuming all of `input` from the states
/// `cur`.
pub open spec fn run_sets(ss: Seq<StateModel>, cur: Set<usize>, input: Seq<char>) -> Set<usize>
    decreases input.len(),
{
    if input.len() == 0 {
        cur
    } else {
        run_sets(ss, step_set(ss, cur, input.first()), input.drop_first())
    }
}

pub proof fn lemma_run_snoc(ss: Seq<StateModel>, cur: Set<usize>, input: Seq<char>, c: char)
    ensures
        run_sets(ss, cur, input.push(c)) == step_set(ss, run_sets(ss, cur, input), c),
    decreases input.len(),
{
    if input.len() == 0 {
        let e = Seq::<char>::empty();
        assert(input.push(c).first() == c);
        assert(input.push(c).drop_first() =~= e);
        assert(run_sets(ss, step_set(ss, cur, c), e) == step_set(ss, cur, c));
        assert(run_sets(ss, cur, e) == cur);
    } else {
        assert(input.push(c).first() == input.first());
        assert(input.push(c).drop_first() =~= input.drop_first().push(c));
        lemma_run_snoc(ss, step_set(ss, cur, input.first()), input.drop_first(), c);
    }
}

/// Some active state is accepting.
pub open spec fn has_accepting(ss: Seq<StateModel>, s: Set<usize>) -> bool {
    exists|q: usize| #[trigger] s.contains(q) && q < ss.len() && ss[q as int].accepting
}

/// The string `input` is accepted when the automaton is started in `start`.
pub open spec fn accepts_from(ss: Seq<StateModel>, start: usize, input: Seq<char>) -> bool {
    has_accepting(ss, run_sets(ss, eps_closure_set(ss, set![start]), input))
}

/// Every transition and epsilon destination of `st` lies inside a store of
/// `n` states.
pub open spec fn state_wf(st: StateModel, n: nat) -> bool {
    (forall|c: char, k: int|
        st.transitions.contains_key(c) && 0 <= k < st.transitions[c].len()
            ==> #[trigger] st.transitions[c][k] < n) && (forall|k: int|
        0 <= k < st.epsilon.len() ==> #[trigger] st.epsilon[k] < n)
}

/// Identifiers are dense (a state's identifier is its position) and every
/// edge stays inside the store.
pub open spec fn nfa_wf(ss: Seq<StateModel>) -> bool {
    forall|i: int|
        0 <= i < ss.len() ==> (#[trigger] ss[i]).id == i && state_wf(ss[i], ss.len())
}

/// A sequence of distinct state identifiers, all below `n`, has at most `n`
/// elements.
pub proof fn lemma_bounded_no_dup_len(s: Seq<usize>, n: nat)
    requires
        s.no_duplicates(),
        forall|i: int| 0 <= i < s.len() ==> s[i] < n,
    ensures
        s.len() <= n,
{
    let f = |x: usize| x as int;
    let m = s.map_values(f);
    assert(vstd::relations::injective(f)) by {
        assert forall|x: usize, y: usize| #[trigger] f(x) == #[trigger] f(y) implies x == y by {}
    }
    s.lemma_no_duplicates_injective(f);
    m.unique_seq_to_set();
    assert(m.to_set().subset_of(vstd::set_lib::set_int_range(0, n as int))) by {
        assert forall|b: int| m.to_set().contains(b) implies vstd::set_lib::set_int_range(
            0,
            n as int,
        ).contains(b) by {
            let i = choose|i: int| 0 <= i < m.len() && m[i] == b;
            assert(m[i] == f(s[i]));
        }
    }
    vstd::seq_lib::seq_to_set_is_finite(m);
    vstd::set_lib::lemma_int_range(0, n as int);
    vstd::set_lib::lemma_len_subset(m.to_set(), vstd::set_lib::set_int_range(0, n as int));
}

} // verus!
