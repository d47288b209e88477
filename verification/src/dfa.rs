use vstd::prelude::*;
use crate::alphabet::Alphabet;
use crate::arena::Arena;

verus! {

/// One deterministic state: an acceptance flag and at most one destination
/// per symbol; deterministic automata have no epsilon transitions at all.
pub struct State<A: Alphabet> {
    pub id: usize,
    pub accepting: bool,
    pub transitions: Vec<(A, usize)>,
}

/// No two pairs carry the same symbol.
pub open spec fn keys_unique<A: Alphabet>(trans: Seq<(A, usize)>) -> bool {
    forall|i: int, j: int|
        #![trigger trans[i], trans[j]]
        0 <= i < j < trans.len() ==> trans[i].0 != trans[j].0
}

/// The destination recorded for `symbol`: the first pair that carries it.
pub open spec fn spec_lookup<A: Alphabet>(trans: Seq<(A, usize)>, symbol: A) -> Option<usize>
    decreases trans.len(),
{
    if trans.len() == 0 {
        None
    } else if trans.first().0 == symbol {
        Some(trans.first().1)
    } else {
        spec_lookup(trans.drop_first(), symbol)
    }
}

proof fn lemma_lookup_none<A: Alphabet>(trans: Seq<(A, usize)>, symbol: A)
    requires
        forall|i: int| 0 <= i < trans.len() ==> (#[trigger] trans[i]).0 != symbol,
    ensures
        spec_lookup(trans, symbol).is_none(),
    decreases trans.len(),
{
    if trans.len() > 0 {
        assert(trans[0].0 != symbol);
        assert forall|i: int| 0 <= i < trans.drop_first().len() implies (#[trigger] trans.drop_first()[i]).0
            != symbol by {
            assert(trans.drop_first()[i] == trans[i + 1]);
        }
        lemma_lookup_none(trans.drop_first(), symbol);
    }
}

proof fn lemma_lookup_at<A: Alphabet>(trans: Seq<(A, usize)>, symbol: A, k: int)
    requires
        0 <= k < trans.len(),
        trans[k].0 == symbol,
        forall|j: int| 0 <= j < k ==> (#[trigger] trans[j]).0 != symbol,
    ensures
        spec_lookup(trans, symbol) == Some(trans[k].1),
    decreases trans.len(),
{
    if k == 0 {
        assert(trans.first().0 == symbol);
    } else {
        assert(trans[0].0 != symbol);
        assert forall|j: int| 0 <= j < k - 1 implies (#[trigger] trans.drop_first()[j]).0
            != symbol by {
            assert(trans.drop_first()[j] == trans[j + 1]);
        }
        assert(trans.drop_first()[k - 1] == trans[k]);
        lemma_lookup_at(trans.drop_first(), symbol, k - 1);
    }
}

impl<A: Alphabet> State<A> {
    pub fn new(id: usize, accepting: bool) -> (s: State<A>)
        ensures
            s.id == id,
            s.accepting == accepting,
            s.transitions@ == Seq::<(A, usize)>::empty(),
    {
        State { id, accepting, transitions: Vec::new() }
    }

    pub fn num_transitions(&self) -> (n: usize)
        ensures
            n == self.transitions@.len(),
    {
        self.transitions.len()
    }

    /// Record the destination for a symbol, replacing any destination
    /// already recorded for it.
    pub fn add_transition(&mut self, symbol: A, to: usize)
        requires
            keys_unique(old(self).transitions@),
        ensures
            final(self).id == old(self).id,
            final(self).accepting == old(self).accepting,
            keys_unique(final(self).transitions@),
            spec_lookup(final(self).transitions@, symbol) == Some(to),
            forall|x: A|
                x != symbol ==> spec_lookup(final(self).transitions@, x) == spec_lookup(
                    old(self).transitions@,
                    x,
                ),
            (exists|k: int|
                0 <= k < old(self).transitions@.len() && (#[trigger] old(self).transitions@[k]).0
                    == symbol && final(self).transitions@ == old(self).transitions@.update(
                    k,
                    (symbol, to),
                )) || (spec_lookup(old(self).transitions@, symbol).is_none()
                && final(self).transitions@ == old(self).transitions@.push((symbol, to))),
    {
        let ghost t0 = self.transitions@;
        let n = self.transitions.len();
        for i in 0..n
            invariant
                n == t0.len(),
                t0 == old(self).transitions@,
                self.transitions@ == t0,
                keys_unique(t0),
                self.id == old(self).id,
                self.accepting == old(self).accepting,
                forall|j: int| 0 <= j < i ==> (#[trigger] t0[j]).0 != symbol,
        {
            let hit = self.transitions[i].0.sym_eq(&symbol);
            if hit {
                self.transitions[i] = (symbol, to);
                proof {
                    let t1 = self.transitions@;
                    assert(t1 == t0.update(i as int, (symbol, to)));
                    assert forall|a: int, b: int|
                        #![trigger t1[a], t1[b]]
                        0 <= a < b < t1.len() implies t1[a].0 != t1[b].0 by {
                        if a != i && b != i {
                            assert(t1[a] == t0[a] && t1[b] == t0[b]);
                        } else if a == i {
                            assert(t1[b] == t0[b]);
                            assert(t0[a].0 == symbol);
                        } else {
                            assert(t1[a] == t0[a]);
                            assert(t0[b].0 == symbol);
                        }
                    }
                    lemma_lookup_at(t1, symbol, i as int);
                    assert forall|x: A| x != symbol implies spec_lookup(t1, x) == spec_lookup(
                        t0,
                        x,
                    ) by {
                        lemma_lookup_same(t0, t1, x);
                    }
                }
                return ;
            }
        }
        self.transitions.push((symbol, to));
        proof {
            let t1 = self.transitions@;
            assert(t1 == t0.push((symbol, to)));
            lemma_lookup_none(t0, symbol);
            assert forall|a: int, b: int|
                #![trigger t1[a], t1[b]]
                0 <= a < b < t1.len() implies t1[a].0 != t1[b].0 by {
                if b < t0.len() {
                    assert(t1[a] == t0[a] && t1[b] == t0[b]);
                } else {
                    assert(t1[a] == t0[a]);
                    assert(t0[a].0 != symbol);
                }
            }
            assert forall|j: int| 0 <= j < t0.len() implies (#[trigger] t1[j]).0 != symbol by {
                assert(t1[j] == t0[j]);
            }
            lemma_lookup_at(t1, symbol, t0.len() as int);
            assert forall|x: A| x != symbol implies spec_lookup(t1, x) == spec_lookup(t0, x) by {
                lemma_lookup_same(t0, t1, x);
            }
        }
    }

    /// The destination recorded for `symbol`, if any.
    pub fn next(&self, symbol: A) -> (r: Option<usize>)
        ensures
            r == spec_lookup(self.transitions@, symbol),
    {
        let n = self.transitions.len();
        for i in 0..n
            invariant
                n == self.transitions@.len(),
                forall|j: int| 0 <= j < i ==> (#[trigger] self.transitions@[j]).0 != symbol,
        {
            if self.transitions[i].0.sym_eq(&symbol) {
                proof {
                    lemma_lookup_at(self.transitions@, symbol, i as int);
                }
                return Some(self.transitions[i].1);
            }
        }
        proof {
            lemma_lookup_none(self.transitions@, symbol);
        }
        None
    }
}

/// Two transition lists agree on a symbol's lookup when the pairs carrying
/// other symbols stand unchanged and any pair carrying this symbol keeps its
/// position-wise mismatch pattern.
proof fn lemma_lookup_same<A: Alphabet>(t0: Seq<(A, usize)>, t1: Seq<(A, usize)>, x: A)
    requires
        t0.len() <= t1.len(),
        forall|i: int| 0 <= i < t0.len() ==> ((#[trigger] t0[i]).0 == x <==> t1[i].0 == x),
        forall|i: int| 0 <= i < t0.len() && (#[trigger] t0[i]).0 == x ==> t0[i] == t1[i],
        forall|i: int| t0.len() <= i < t1.len() ==> (#[trigger] t1[i]).0 != x,
    ensures
        spec_lookup(t1, x) == spec_lookup(t0, x),
    decreases t1.len(),
{
    if t0.len() == 0 {
        lemma_lookup_none(t1, x);
    } else if t0.first().0 == x {
        assert(t1.first() == t0.first());
    } else {
        assert(t1.first().0 != x);
        let s0 = t0.drop_first();
        let s1 = t1.drop_first();
        assert forall|i: int| 0 <= i < s0.len() implies ((#[trigger] s0[i]).0 == x <==> s1[i].0
            == x) by {
            assert(s0[i] == t0[i + 1] && s1[i] == t1[i + 1]);
        }
        assert forall|i: int| 0 <= i < s0.len() && (#[trigger] s0[i]).0 == x implies s0[i]
            == s1[i] by {
            assert(s0[i] == t0[i + 1] && s1[i] == t1[i + 1]);
        }
        assert forall|i: int| s0.len() <= i < s1.len() implies (#[trigger] s1[i]).0 != x by {
            assert(s1[i] == t1[i + 1]);
        }
        lemma_lookup_same(s0, s1, x);
    }
}

/// Each state is well keyed and every destination lies inside the store.
pub open spec fn dfa_state_ok<A: Alphabet>(st: State<A>, n: nat) -> bool {
    keys_unique(st.transitions@) && forall|k: int|
        0 <= k < st.transitions@.len() ==> (#[trigger] st.transitions@[k]).1 < n
}

/// Identifiers are dense and every state is well formed.
pub open spec fn dfa_wf<A: Alphabet>(ss: Seq<State<A>>) -> bool {
    forall|i: int| 0 <= i < ss.len() ==> (#[trigger] ss[i]).id == i && dfa_state_ok(ss[i], ss.len())
}

/// The state reached from `q` after consuming `w`, or None as soon as a
/// symbol has no transition.
pub open spec fn dfa_run<A: Alphabet>(ss: Seq<State<A>>, q: usize, w: Seq<A>) -> Option<usize>
    decreases w.len(),
{
    if q >= ss.len() {
        None
    } else if w.len() == 0 {
        Some(q)
    } else {
        match spec_lookup(ss[q as int].transitions@, w.first()) {
            None => None,
            Some(t) => dfa_run(ss, t, w.drop_first()),
        }
    }
}

/// A word is accepted when the walk from state 0 consumes it entirely and
/// ends in an accepting state; an automaton with no states accepts nothing.
pub open spec fn spec_accepts<A: Alphabet>(ss: Seq<State<A>>, w: Seq<A>) -> bool {
    ss.len() > 0 && match dfa_run(ss, 0, w) {
        None => false,
        Some(q) => q < ss.len() && ss[q as int].accepting,
    }
}

/// The number of symbol transitions in the whole store.
pub open spec fn spec_num_transitions<A: Alphabet>(ss: Seq<State<A>>) -> int
    decreases ss.len(),
{
    if ss.len() == 0 {
        0
    } else {
        ss.first().transitions@.len() + spec_num_transitions(ss.drop_first())
    }
}

proof fn lemma_num_transitions_nonneg<A: Alphabet>(ss: Seq<State<A>>)
    ensures
        spec_num_transitions(ss) >= 0,
    decreases ss.len(),
{
    if ss.len() > 0 {
        lemma_num_transitions_nonneg(ss.drop_first());
    }
}

/// All transitions of the store as (from, symbol, to) triples, in state
/// order and, within one state, in transition order.
pub open spec fn spec_transitions<A: Alphabet>(ss: Seq<State<A>>) -> Seq<(usize, A, usize)>
    decreases ss.len(),
{
    if ss.len() == 0 {
        Seq::empty()
    } else {
        ss.first().transitions@.map_values(|p: (A, usize)| (ss.first().id, p.0, p.1))
            + spec_transitions(ss.drop_first())
    }
}

/// A deterministic finite automaton: a store of states addressed by dense
/// identifiers, with direct transition lookup and no epsilon edges.
pub struct Dfa<A: Alphabet> {
    states: Arena<State<A>>,
}

impl<A: Alphabet> View for Dfa<A> {
    type V = Seq<State<A>>;

    closed spec fn view(&self) -> Seq<State<A>> {
        self.states@
    }
}

impl<A: Alphabet> Dfa<A> {
    pub fn new() -> (d: Dfa<A>)
        ensures
            d@ == Seq::<State<A>>::empty(),
            dfa_wf(d@),
    {
        Dfa { states: Arena::new() }
    }

    /// Create a new state and return its identifier, which equals its
    /// position in the store.
    pub fn add_state(&mut self, accepting: bool) -> (id: usize)
        requires
            dfa_wf(old(self)@),
        ensures
            dfa_wf(final(self)@),
            id == old(self)@.len(),
            final(self)@.len() == old(self)@.len() + 1,
            forall|i: int| 0 <= i < old(self)@.len() ==> final(self)@[i] == old(self)@[i],
            final(self)@[id as int].id == id,
            final(self)@[id as int].accepting == accepting,
            final(self)@[id as int].transitions@ == Seq::<(A, usize)>::empty(),
    {
        let id = self.states.next_id();
        let allocated = self.states.allocate(State::new(id, accepting));
        proof {
            assert(allocated == id);
            assert(self@[id as int].transitions@ =~= Seq::<(A, usize)>::empty());
            assert forall|i: int| 0 <= i < self@.len() implies (#[trigger] self@[i]).id == i
                && dfa_state_ok(self@[i], self@.len()) by {
                if i < old(self)@.len() {
                    assert(self@[i] == old(self)@[i]);
                    assert(dfa_state_ok(old(self)@[i], old(self)@.len()));
                }
            }
        }
        id
    }

    /// Record that `from` steps to `to` on `symbol`, replacing any
    /// destination already recorded for that symbol.
    pub fn add_transition(&mut self, from: usize, symbol: A, to: usize)
        requires
            dfa_wf(old(self)@),
            from < old(self)@.len(),
            to < old(self)@.len(),
        ensures
            dfa_wf(final(self)@),
            final(self)@.len() == old(self)@.len(),
            forall|i: int| 0 <= i < old(self)@.len() && i != from ==> final(self)@[i] == old(
                self,
            )@[i],
            final(self)@[from as int].id == old(self)@[from as int].id,
            final(self)@[from as int].accepting == old(self)@[from as int].accepting,
            spec_lookup(final(self)@[from as int].transitions@, symbol) == Some(to),
            forall|x: A|
                x != symbol ==> spec_lookup(final(self)@[from as int].transitions@, x)
                    == spec_lookup(old(self)@[from as int].transitions@, x),
            final(self)@[from as int].transitions@.len()
                == old(self)@[from as int].transitions@.len()
                + (if spec_lookup(old(self)@[from as int].transitions@, symbol).is_some() {
                0int
            } else {
                1int
            }),
            (exists|k: int|
                0 <= k < old(self)@[from as int].transitions@.len()
                    && (#[trigger] old(self)@[from as int].transitions@[k]).0 == symbol
                    && final(self)@[from as int].transitions@
                    == old(self)@[from as int].transitions@.update(k, (symbol, to))) || (
            spec_lookup(old(self)@[from as int].transitions@, symbol).is_none()
                && final(self)@[from as int].transitions@
                == old(self)@[from as int].transitions@.push((symbol, to))),
    {
        proof {
            assert(dfa_state_ok(old(self)@[from as int], old(self)@.len()));
            self.states.view_is_items();
        }
        let st = &mut self.states.items[from];
        st.add_transition(symbol, to);
        proof {
            self.states.view_is_items();
            assert(self@ == old(self)@.update(from as int, self@[from as int]));
            let olds = old(self)@[from as int];
            let news = self@[from as int];
            assert forall|k: int|
                0 <= k < news.transitions@.len() implies (#[trigger] news.transitions@[k]).1
                < self@.len() by {
                if exists|k2: int|
                    0 <= k2 < olds.transitions@.len() && (#[trigger] olds.transitions@[k2]).0
                        == symbol && news.transitions@ == olds.transitions@.update(
                        k2,
                        (symbol, to),
                    ) {
                    let k2 = choose|k2: int|
                        0 <= k2 < olds.transitions@.len() && (#[trigger] olds.transitions@[k2]).0
                            == symbol && news.transitions@ == olds.transitions@.update(
                            k2,
                            (symbol, to),
                        );
                    if k != k2 {
                        assert(news.transitions@[k] == olds.transitions@[k]);
                    }
                } else {
                    if k < olds.transitions@.len() {
                        assert(news.transitions@[k] == olds.transitions@[k]);
                    }
                }
            }
            assert forall|i: int| 0 <= i < self@.len() implies (#[trigger] self@[i]).id == i
                && dfa_state_ok(self@[i], self@.len()) by {
                if i != from {
                    assert(self@[i] == old(self)@[i]);
                    assert(dfa_state_ok(old(self)@[i], old(self)@.len()));
                }
            }
            if exists|k: int|
                0 <= k < olds.transitions@.len() && (#[trigger] olds.transitions@[k]).0 == symbol
                    && news.transitions@ == olds.transitions@.update(k, (symbol, to)) {
                let k = choose|k: int|
                    0 <= k < olds.transitions@.len() && (#[trigger] olds.transitions@[k]).0
                        == symbol && news.transitions@ == olds.transitions@.update(
                        k,
                        (symbol, to),
                    );
                assert forall|j: int| 0 <= j < k implies (#[trigger] olds.transitions@[j]).0
                    != symbol by {
                    assert(olds.transitions@[j].0 != olds.transitions@[k].0);
                }
                lemma_lookup_at(olds.transitions@, symbol, k);
            }
        }
    }

    /// The state with the given identifier.
    pub fn state(&self, index: usize) -> (s: &State<A>)
        requires
            index < self@.len(),
        ensures
            *s == self@[index as int],
    {
        self.states.get(index)
    }

    /// Whether the given state is accepting.
    pub fn accepting(&self, state: usize) -> (r: bool)
        requires
            state < self@.len(),
        ensures
            r == self@[state as int].accepting,
    {
        self.state(state).accepting
    }

    pub fn num_states(&self) -> (n: usize)
        ensures
            n == self@.len(),
    {
        self.states.len()
    }

    /// The total number of symbol transitions over all states.
    pub fn num_transitions(&self) -> (n: usize)
        requires
            spec_num_transitions(self@) <= usize::MAX,
        ensures
            n == spec_num_transitions(self@),
    {
        let ghost ss = self@;
        let mut total: usize = 0;
        let states = self.states.iter();
        proof {
            assert(ss.skip(0) =~= ss);
        }
        for i in 0..states.len()
            invariant
                states@ == ss,
                total + spec_num_transitions(ss.skip(i as int)) == spec_num_transitions(ss),
                spec_num_transitions(ss) <= usize::MAX,
        {
            proof {
                assert(ss.skip(i as int).first() == ss[i as int]);
                assert(ss.skip(i as int).drop_first() =~= ss.skip(i as int + 1));
                lemma_num_transitions_nonneg(ss.skip(i as int + 1));
            }
            total = total + states[i].num_transitions();
        }
        proof {
            assert(ss.skip(ss.len() as int) =~= Seq::<State<A>>::empty());
        }
        total
    }

    /// Read access to all states, in identifier order.
    pub fn states(&self) -> (r: &Vec<State<A>>)
        ensures
            r@ == self@,
    {
        self.states.iter()
    }

    /// All transitions as (from, symbol, to) triples.
    pub fn transitions(&self) -> (r: Vec<(usize, A, usize)>)
        ensures
            r@ == spec_transitions(self@),
    {
        let ghost ss = self@;
        let mut out: Vec<(usize, A, usize)> = Vec::new();
        let states = self.states.iter();
        proof {
            assert(ss.skip(0) =~= ss);
            assert(out@ + spec_transitions(ss.skip(0)) =~= spec_transitions(ss));
        }
        for i in 0..states.len()
            invariant
                states@ == ss,
                out@ + spec_transitions(ss.skip(i as int)) == spec_transitions(ss),
        {
            let st = &states[i];
            let ghost out0 = out@;
            let ghost triples = st.transitions@.map_values(|p: (A, usize)| (st.id, p.0, p.1));
            let n = st.transitions.len();
            for k in 0..n
                invariant
                    n == st.transitions@.len(),
                    triples == st.transitions@.map_values(|p: (A, usize)| (st.id, p.0, p.1)),
                    out@ == out0 + triples.take(k as int),
            {
                let pair = (st.id, st.transitions[k].0, st.transitions[k].1);
                out.push(pair);
                proof {
                    assert(out@ =~= out0 + triples.take(k as int + 1));
                }
            }
            proof {
                assert(triples.take(triples.len() as int) =~= triples);
                assert(ss.skip(i as int).first() == ss[i as int]);
                assert(ss.skip(i as int).drop_first() =~= ss.skip(i as int + 1));
                assert(out@ + spec_transitions(ss.skip(i as int + 1)) =~= spec_transitions(ss));
            }
        }
        proof {
            assert(ss.skip(ss.len() as int) =~= Seq::<State<A>>::empty());
            assert(out@ =~= spec_transitions(ss));
        }
        out
    }

    /// The destination of `current_state` on `symbol`, if one is recorded.
    pub fn next(&self, current_state: usize, symbol: A) -> (r: Option<usize>)
        requires
            current_state < self@.len(),
        ensures
            r == spec_lookup(self@[current_state as int].transitions@, symbol),
    {
        self.state(current_state).next(symbol)
    }

    /// Walk the automaton from state 0 over the whole word: reject as soon
    /// as a symbol has no transition, otherwise accept exactly when the
    /// final state is accepting.
    pub fn accepts(&self, word: &Vec<A>) -> (r: bool)
        requires
            dfa_wf(self@),
        ensures
            r == spec_accepts(self@, word@),
    {
        let ghost ss = self@;
        if self.states.is_empty() {
            return false;
        }
        let mut current: usize = 0;
        proof {
            assert(word@.skip(0) =~= word@);
        }
        let n = word.len();
        for i in 0..n
            invariant
                ss == self@,
                dfa_wf(ss),
                n == word@.len(),
                current < ss.len(),
                dfa_run(ss, 0, word@) == dfa_run(ss, current, word@.skip(i as int)),
        {
            proof {
                assert(word@.skip(i as int).first() == word@[i as int]);
                assert(word@.skip(i as int).drop_first() =~= word@.skip(i as int + 1));
            }
            match self.next(current, word[i]) {
                Some(next_state) => {
                    proof {
                        assert(dfa_state_ok(ss[current as int], ss.len()));
                        let k = choose|k: int|
                            0 <= k < ss[current as int].transitions@.len() && spec_lookup(
                                ss[current as int].transitions@,
                                word@[i as int],
                            ) == Some((#[trigger] ss[current as int].transitions@[k]).1)
                                && ss[current as int].transitions@[k].0 == word@[i as int];
                        assert(next_state < ss.len()) by {
                            lemma_lookup_in_range(ss[current as int].transitions@, word@[i as int], ss.len());
                        }
                    }
                    current = next_state;
                },
                None => {
                    return false;
                },
            }
        }
        proof {
            assert(word@.skip(n as int) =~= Seq::<A>::empty());
        }
        self.accepting(current)
    }
}

/// A destination found by lookup obeys the range bound that every recorded
/// destination obeys.
proof fn lemma_lookup_in_range<A: Alphabet>(trans: Seq<(A, usize)>, symbol: A, n: nat)
    requires
        forall|k: int| 0 <= k < trans.len() ==> (#[trigger] trans[k]).1 < n,
        spec_lookup(trans, symbol).is_some(),
    ensures
        spec_lookup(trans, symbol).unwrap() < n,
    decreases trans.len(),
{
    if trans.len() > 0 && trans.first().0 != symbol {
        assert forall|k: int| 0 <= k < trans.drop_first().len() implies (#[trigger] trans.drop_first()[k]).1
            < n by {
            assert(trans.drop_first()[k] == trans[k + 1]);
        }
        lemma_lookup_in_range(trans.drop_first(), symbol, n);
    }
}

impl<A: Alphabet> Default for Dfa<A> {
    fn default() -> (d: Self)
        ensures
            d@ == Seq::<State<A>>::empty(),
            dfa_wf(d@),
    {
        Dfa::new()
    }
}

} // verus!
