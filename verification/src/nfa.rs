use vstd::prelude::*;
use crate::state::contains_id;
use crate::state::eps_add;
use crate::state::State;
use crate::state::StateModel;
use crate::semantics::eps_edge;
use crate::semantics::eps_closed;
use crate::semantics::eps_closure_set;
use crate::semantics::eps_reach;
use crate::semantics::lemma_eps_reach_refl;
use crate::semantics::lemma_eps_reach_step;
use crate::semantics::lemma_closure_in_closed;
use crate::semantics::lemma_bounded_no_dup_len;
use crate::semantics::lemma_run_snoc;
use crate::semantics::nfa_wf;
use crate::semantics::state_wf;
use crate::semantics::sym_targets;
use crate::semantics::step_targets;
use crate::semantics::targets_upto;
use crate::semantics::step_set;
use crate::semantics::run_sets;
use crate::semantics::has_accepting;
use crate::semantics::accepts_from;
use crate::WILDCARD;
use crate::CONCAT_MARKER;
use crate::pattern::spec_insert_concat;
use crate::pattern::spec_to_postfix;
use crate::pattern::insert_explicit_concat_operator;
use crate::pattern::to_postfix;

verus! {

/// A piece of an automaton under construction: the identifiers of its single
/// entry state and its single exit state. The exit state stays accepting
/// until a composing operation consumes the fragment.
#[derive(Clone, Copy)]
pub struct Fragment {
    pub start: usize,
    pub end: usize,
}

/// The state store grown by the symbol operation: two fresh states, the
/// first carrying a single transition on `c` to the second.
pub open spec fn symbol_op(ss: Seq<StateModel>, c: char) -> (Seq<StateModel>, Fragment) {
    let f = Fragment { start: ss.len() as usize, end: (ss.len() + 1) as usize };
    (
        ss.push(
            StateModel {
                id: f.start,
                accepting: false,
                transitions: Map::empty().insert(c, seq![f.end]),
                epsilon: Seq::empty(),
            },
        ).push(
            StateModel {
                id: f.end,
                accepting: true,
                transitions: Map::empty(),
                epsilon: Seq::empty(),
            },
        ),
        f,
    )
}

/// The state store changed by the concatenation operation: the first
/// fragment's exit gains an epsilon edge to the second fragment's entry and
/// stops accepting.
pub open spec fn concat_op(ss: Seq<StateModel>, f1: Fragment, f2: Fragment) -> (
    Seq<StateModel>,
    Fragment,
) {
    (
        ss.update(
            f1.end as int,
            StateModel {
                accepting: false,
                epsilon: eps_add(ss[f1.end as int].epsilon, f2.start),
                ..ss[f1.end as int]
            },
        ),
        Fragment { start: f1.start, end: f2.end },
    )
}

/// The state store grown by the union operation: a fresh entry with epsilon
/// edges to both old entries, a fresh accepting exit, and both old exits
/// epsilon-linked to the fresh exit and no longer accepting.
pub open spec fn union_op(ss: Seq<StateModel>, f1: Fragment, f2: Fragment) -> (
    Seq<StateModel>,
    Fragment,
) {
    let f = Fragment { start: ss.len() as usize, end: (ss.len() + 1) as usize };
    (
        ss.push(
            StateModel {
                id: f.start,
                accepting: false,
                transitions: Map::empty(),
                epsilon: eps_add(eps_add(Seq::empty(), f1.start), f2.start),
            },
        ).push(
            StateModel {
                id: f.end,
                accepting: true,
                transitions: Map::empty(),
                epsilon: Seq::empty(),
            },
        ).update(
            f1.end as int,
            StateModel {
                accepting: false,
                epsilon: eps_add(ss[f1.end as int].epsilon, f.end),
                ..ss[f1.end as int]
            },
        ).update(
            f2.end as int,
            StateModel {
                accepting: false,
                epsilon: eps_add(ss[f2.end as int].epsilon, f.end),
                ..ss[f2.end as int]
            },
        ),
        f,
    )
}

/// The state store grown by the closure operation: a fresh entry with epsilon
/// edges to the old entry and to a fresh accepting exit, and the old exit
/// epsilon-linked back to the old entry and on to the fresh exit, no longer
/// accepting.
pub open spec fn closure_op(ss: Seq<StateModel>, f: Fragment) -> (Seq<StateModel>, Fragment) {
    let g = Fragment { start: ss.len() as usize, end: (ss.len() + 1) as usize };
    (
        ss.push(
            StateModel {
                id: g.start,
                accepting: false,
                transitions: Map::empty(),
                epsilon: eps_add(eps_add(Seq::empty(), f.start), g.end),
            },
        ).push(
            StateModel {
                id: g.end,
                accepting: true,
                transitions: Map::empty(),
                epsilon: Seq::empty(),
            },
        ).update(
            f.end as int,
            StateModel {
                accepting: false,
                epsilon: eps_add(eps_add(ss[f.end as int].epsilon, f.start), g.end),
                ..ss[f.end as int]
            },
        ),
        g,
    )
}


/// The postfix token stream can be built without ever popping an empty
/// operand stack, and leaves at least one fragment when it ends; `depth` is
/// the number of fragments already on the stack.
pub open spec fn postfix_ok_from(toks: Seq<char>, depth: int) -> bool
    decreases toks.len(),
{
    if toks.len() == 0 {
        depth >= 1
    } else {
        let c = toks.first();
        if c == CONCAT_MARKER || c == '|' {
            depth >= 2 && postfix_ok_from(toks.drop_first(), depth - 1)
        } else if c == '*' {
            depth >= 1 && postfix_ok_from(toks.drop_first(), depth)
        } else {
            postfix_ok_from(toks.drop_first(), depth + 1)
        }
    }
}

pub open spec fn postfix_ok(toks: Seq<char>) -> bool {
    postfix_ok_from(toks, 0)
}

/// A pattern is well formed when its postfix form can be built this way.
/// Malformed patterns (unbalanced groups, dangling operators) fail this.
pub open spec fn pattern_ok(pattern: Seq<char>) -> bool {
    postfix_ok(spec_to_postfix(spec_insert_concat(pattern)))
}


/// Decide, executably, whether a pattern is well formed: whether `parse`,
/// `Regex::new` and `is_match` accept it. It preprocesses and converts the
/// pattern exactly as `parse` does, then replays the token stream against a
/// fragment counter instead of an operand stack.
pub fn pattern_well_formed(pattern: &str) -> (r: bool)
    ensures
        r == pattern_ok(pattern@),
{
    let preprocessed = insert_explicit_concat_operator(pattern);
    let postfix = to_postfix(preprocessed.as_str());
    let ghost toks = postfix@;
    proof {
        assert(toks == spec_to_postfix(spec_insert_concat(pattern@)));
        assert(toks.skip(0) =~= toks);
    }
    let n = postfix.as_str().unicode_len();
    let mut depth: usize = 0;
    for i in 0..n
        invariant
            n == toks.len(),
            postfix@ == toks,
            toks == spec_to_postfix(spec_insert_concat(pattern@)),
            depth <= i,
            pattern_ok(pattern@) == postfix_ok_from(toks.skip(i as int), depth as int),
    {
        let t = postfix.as_str().get_char(i);
        proof {
            assert(toks.skip(i as int).first() == t);
            assert(toks.skip(i as int).drop_first() =~= toks.skip(i as int + 1));
        }
        if t == '\0' || t == '|' {
            if depth < 2 {
                return false;
            }
            depth = depth - 1;
        } else if t == '*' {
            if depth < 1 {
                return false;
            }
        } else {
            depth = depth + 1;
        }
    }
    proof {
        assert(toks.skip(n as int) =~= Seq::<char>::empty());
    }
    depth >= 1
}

/// One step of the constructor on one postfix token: a binary operator
/// consumes the two topmost fragments, the star consumes one, and any other
/// token is a literal symbol that pushes a fresh fragment. A token that
/// finds too few operands leaves everything unchanged; well-formed input
/// never reaches that case.
pub open spec fn build_step(ss: Seq<StateModel>, stack: Seq<Fragment>, t: char) -> (
    Seq<StateModel>,
    Seq<Fragment>,
) {
    if t == CONCAT_MARKER {
        if stack.len() >= 2 {
            let r = concat_op(ss, stack[stack.len() - 2], stack.last());
            (r.0, stack.drop_last().drop_last().push(r.1))
        } else {
            (ss, stack)
        }
    } else if t == '|' {
        if stack.len() >= 2 {
            let r = union_op(ss, stack[stack.len() - 2], stack.last());
            (r.0, stack.drop_last().drop_last().push(r.1))
        } else {
            (ss, stack)
        }
    } else if t == '*' {
        if stack.len() >= 1 {
            let r = closure_op(ss, stack.last());
            (r.0, stack.drop_last().push(r.1))
        } else {
            (ss, stack)
        }
    } else {
        let r = symbol_op(ss, t);
        (r.0, stack.push(r.1))
    }
}

/// The constructor run over a whole postfix token stream.
pub open spec fn build_run(ss: Seq<StateModel>, stack: Seq<Fragment>, toks: Seq<char>) -> (
    Seq<StateModel>,
    Seq<Fragment>,
)
    decreases toks.len(),
{
    if toks.len() == 0 {
        (ss, stack)
    } else {
        let r = build_step(ss, stack, toks.first());
        build_run(r.0, r.1, toks.drop_first())
    }
}

/// The final reduction: fragments left on the stack fold pairwise by
/// concatenation, left to right.
pub open spec fn reduce_run(ss: Seq<StateModel>, stack: Seq<Fragment>) -> (
    Seq<StateModel>,
    Fragment,
)
    decreases stack.len(),
{
    if stack.len() <= 1 {
        (
            ss,
            if stack.len() == 1 {
                stack[0]
            } else {
                Fragment { start: 0, end: 0 }
            },
        )
    } else {
        let r = concat_op(ss, stack[0], stack[1]);
        reduce_run(r.0, seq![r.1] + stack.subrange(2, stack.len() as int))
    }
}

/// What parsing a pattern does to a state store: preprocess, convert to
/// postfix, run the constructor, reduce what remains.
pub open spec fn spec_parse(ss0: Seq<StateModel>, pattern: Seq<char>) -> (
    Seq<StateModel>,
    Fragment,
) {
    let toks = spec_to_postfix(spec_insert_concat(pattern));
    let r = build_run(ss0, Seq::empty(), toks);
    reduce_run(r.0, r.1)
}

/// Every fragment on the operand stack points into the store, and no two
/// fragments share an exit state.
pub open spec fn stack_wf(ss: Seq<StateModel>, stack: Seq<Fragment>) -> bool {
    (forall|i: int|
        0 <= i < stack.len() ==> (#[trigger] stack[i]).start < ss.len() && stack[i].end
            < ss.len()) && (forall|i: int, j: int|
        #![trigger stack[i], stack[j]]
        0 <= i < j < stack.len() ==> stack[i].end != stack[j].end)
}

/// A non-deterministic finite automaton with epsilon transitions: a store of
/// states addressed by dense identifiers.
pub struct Nfa {
    states: Vec<State>,
}

impl View for Nfa {
    type V = Seq<StateModel>;

    closed spec fn view(&self) -> Seq<StateModel> {
        Seq::new(self.states@.len(), |i: int| self.states@[i]@)
    }
}

proof fn lemma_view_index(n: &Nfa)
    ensures
        n@.len() == n.states@.len(),
        forall|i: int| 0 <= i < n@.len() ==> #[trigger] n@[i] == n.states@[i]@,
        forall|i: int| 0 <= i < n@.len() ==> n@[i] == (#[trigger] n.states@[i])@,
{
    assert forall|i: int| 0 <= i < n@.len() implies #[trigger] n@[i] == n.states@[i]@ by {}
    assert forall|i: int| 0 <= i < n@.len() implies n@[i] == (#[trigger] n.states@[i])@ by {}
}

impl Nfa {
    pub fn new() -> (n: Nfa)
        ensures
            n@ == Seq::<StateModel>::empty(),
    {
        let n = Nfa { states: Vec::new() };
        proof {
            assert(n@ =~= Seq::<StateModel>::empty());
        }
        n
    }

    /// Create a new state and return its identifier, which equals its
    /// position in the store.
    pub fn new_state(&mut self, accepting: bool) -> (id: usize)
        ensures
            id == old(self)@.len(),
            final(self)@ == old(self)@.push(
                StateModel {
                    id: id,
                    accepting,
                    transitions: Map::empty(),
                    epsilon: Seq::empty(),
                },
            ),
    {
        let id = self.states.len();
        self.states.push(State::new(id, accepting));
        proof {
            assert(self@ =~= old(self)@.push(
                StateModel {
                    id: id,
                    accepting,
                    transitions: Map::empty(),
                    epsilon: Seq::empty(),
                },
            ));
        }
        id
    }

    pub fn state(&self, index: usize) -> (s: &State)
        requires
            index < self@.len(),
        ensures
            s@ == self@[index as int],
    {
        &self.states[index]
    }

    pub fn len(&self) -> (n: usize)
        ensures
            n == self@.len(),
    {
        self.states.len()
    }

    /// Build a fragment that matches exactly the one-symbol string `c`.
    pub fn symbol(&mut self, c: char) -> (f: Fragment)
        requires
            nfa_wf(old(self)@),
        ensures
            final(self)@ == symbol_op(old(self)@, c).0,
            f == symbol_op(old(self)@, c).1,
            f.start == old(self)@.len(),
            f.end == old(self)@.len() + 1,
            nfa_wf(final(self)@),
            final(self)@.len() == old(self)@.len() + 2,
            f.start < final(self)@.len(),
            f.end < final(self)@.len(),
    {
        let start = self.new_state(false);
        let end = self.new_state(true);
        proof {
            lemma_view_index(self);
        }
        let st = &mut self.states[start];
        st.add_transition(c, end);
        proof {
            lemma_view_index(self);
            assert(self@ =~~= symbol_op(old(self)@, c).0);
            assert forall|i: int| 0 <= i < self@.len() implies (#[trigger] self@[i]).id == i
                && state_wf(self@[i], self@.len()) by {
                if i < old(self)@.len() {
                    assert(old(self)@[i].id == i && state_wf(old(self)@[i], old(self)@.len()));
                    assert(self@[i] == old(self)@[i]);
                }
            }
        }
        Fragment { start, end }
    }

    /// Join two fragments in sequence: the result matches a string exactly
    /// when it splits into a part matched by `f1` followed by a part matched
    /// by `f2`.
    pub fn concat(&mut self, f1: Fragment, f2: Fragment) -> (f: Fragment)
        requires
            nfa_wf(old(self)@),
            f1.start < old(self)@.len(),
            f1.end < old(self)@.len(),
            f2.start < old(self)@.len(),
            f2.end < old(self)@.len(),
        ensures
            final(self)@ == concat_op(old(self)@, f1, f2).0,
            f == concat_op(old(self)@, f1, f2).1,
            nfa_wf(final(self)@),
            final(self)@.len() == old(self)@.len(),
            f.start < final(self)@.len(),
            f.end < final(self)@.len(),
    {
        proof {
            lemma_view_index(self);
        }
        let st = &mut self.states[f1.end];
        st.add_epsilon_transition(f2.start);
        st.accepting = false;
        proof {
            assert(self@ =~~= concat_op(old(self)@, f1, f2).0);
            assert forall|i: int| 0 <= i < self@.len() implies (#[trigger] self@[i]).id == i
                && state_wf(self@[i], self@.len()) by {
                assert(old(self)@[i].id == i && state_wf(old(self)@[i], old(self)@.len()));
                if i == f1.end {
                    let olds = old(self)@[i];
                    let news = self@[i];
                    assert(news.epsilon == eps_add(olds.epsilon, f2.start));
                    assert forall|k: int| 0 <= k < news.epsilon.len() implies #[trigger] news.epsilon[k]
                        < self@.len() by {
                        if k < olds.epsilon.len() {
                            assert(news.epsilon[k] == olds.epsilon[k]);
                        } else {
                            assert(news.epsilon[k] == f2.start);
                        }
                    }
                } else {
                    assert(self@[i] == old(self)@[i]);
                }
            }
        }
        Fragment { start: f1.start, end: f2.end }
    }

    /// Join two fragments as alternatives: the result matches a string
    /// exactly when `f1` or `f2` matches it.
    pub fn union(&mut self, f1: Fragment, f2: Fragment) -> (f: Fragment)
        requires
            nfa_wf(old(self)@),
            f1.start < old(self)@.len(),
            f1.end < old(self)@.len(),
            f2.start < old(self)@.len(),
            f2.end < old(self)@.len(),
            f1.end != f2.end,
        ensures
            final(self)@ == union_op(old(self)@, f1, f2).0,
            f == union_op(old(self)@, f1, f2).1,
            f.start == old(self)@.len(),
            f.end == old(self)@.len() + 1,
            nfa_wf(final(self)@),
            final(self)@.len() == old(self)@.len() + 2,
            f.start < final(self)@.len(),
            f.end < final(self)@.len(),
    {
        let start = self.new_state(false);
        let end = self.new_state(true);
        proof {
            lemma_view_index(self);
        }
        let st = &mut self.states[start];
        st.add_epsilon_transition(f1.start);
        st.add_epsilon_transition(f2.start);
        proof {
            lemma_view_index(self);
        }
        let st1 = &mut self.states[f1.end];
        st1.add_epsilon_transition(end);
        st1.accepting = false;
        proof {
            lemma_view_index(self);
        }
        let st2 = &mut self.states[f2.end];
        st2.add_epsilon_transition(end);
        st2.accepting = false;
        proof {
            lemma_view_index(self);
            assert(self@ =~~= union_op(old(self)@, f1, f2).0);
            assert forall|i: int| 0 <= i < self@.len() implies (#[trigger] self@[i]).id == i
                && state_wf(self@[i], self@.len()) by {
                let n2 = self@.len();
                if i < old(self)@.len() {
                    let olds = old(self)@[i];
                    assert(olds.id == i && state_wf(olds, old(self)@.len()));
                    if i == f1.end || i == f2.end {
                        let news = self@[i];
                        assert(news.epsilon == eps_add(olds.epsilon, end));
                        assert forall|k: int| 0 <= k < news.epsilon.len() implies #[trigger] news.epsilon[k]
                            < n2 by {
                            if k < olds.epsilon.len() {
                                assert(news.epsilon[k] == olds.epsilon[k]);
                            } else {
                                assert(news.epsilon[k] == end);
                            }
                        }
                    } else {
                        assert(self@[i] == olds);
                    }
                } else if i == start {
                    let e = self@[i].epsilon;
                    assert(e == eps_add(eps_add(Seq::empty(), f1.start), f2.start));
                    assert forall|k: int| 0 <= k < e.len() implies #[trigger] e[k] < n2 by {
                        if k < eps_add(Seq::empty(), f1.start).len() {
                            assert(e[k] == f1.start);
                        } else {
                            assert(e[k] == f2.start);
                        }
                    }
                } else {
                    assert(i == end);
                }
            }
        }
        Fragment { start, end }
    }

    /// Build the Kleene closure of a fragment: the result matches a string
    /// exactly when it splits into zero or more parts each matched by `f`.
    pub fn closure(&mut self, f: Fragment) -> (g: Fragment)
        requires
            nfa_wf(old(self)@),
            f.start < old(self)@.len(),
            f.end < old(self)@.len(),
        ensures
            final(self)@ == closure_op(old(self)@, f).0,
            g == closure_op(old(self)@, f).1,
            g.start == old(self)@.len(),
            g.end == old(self)@.len() + 1,
            nfa_wf(final(self)@),
            final(self)@.len() == old(self)@.len() + 2,
            g.start < final(self)@.len(),
            g.end < final(self)@.len(),
    {
        let start = self.new_state(false);
        let end = self.new_state(true);
        proof {
            lemma_view_index(self);
        }
        let st = &mut self.states[start];
        st.add_epsilon_transition(f.start);
        st.add_epsilon_transition(end);
        proof {
            lemma_view_index(self);
        }
        let st1 = &mut self.states[f.end];
        st1.add_epsilon_transition(f.start);
        st1.add_epsilon_transition(end);
        st1.accepting = false;
        proof {
            lemma_view_index(self);
            assert(self@ =~~= closure_op(old(self)@, f).0);
            assert forall|i: int| 0 <= i < self@.len() implies (#[trigger] self@[i]).id == i
                && state_wf(self@[i], self@.len()) by {
                let n2 = self@.len();
                if i < old(self)@.len() {
                    let olds = old(self)@[i];
                    assert(olds.id == i && state_wf(olds, old(self)@.len()));
                    if i == f.end {
                        let news = self@[i];
                        assert(news.epsilon == eps_add(eps_add(olds.epsilon, f.start), end));
                        assert forall|k: int| 0 <= k < news.epsilon.len() implies #[trigger] news.epsilon[k]
                            < n2 by {
                            let mid = eps_add(olds.epsilon, f.start);
                            if k < olds.epsilon.len() {
                                assert(news.epsilon[k] == olds.epsilon[k]);
                            } else if k < mid.len() {
                                assert(news.epsilon[k] == f.start);
                            } else {
                                assert(news.epsilon[k] == end);
                            }
                        }
                    } else {
                        assert(self@[i] == olds);
                    }
                } else if i == start {
                    let e = self@[i].epsilon;
                    assert(e == eps_add(eps_add(Seq::empty(), f.start), end));
                    assert forall|k: int| 0 <= k < e.len() implies #[trigger] e[k] < n2 by {
                        if k < eps_add(Seq::empty(), f.start).len() {
                            assert(e[k] == f.start);
                        } else {
                            assert(e[k] == end);
                        }
                    }
                } else {
                    assert(i == end);
                }
            }
        }
        Fragment { start, end }
    }

    /// All states reachable from `start` by zero or more epsilon edges,
    /// without duplicates.
    pub fn epsilon_closure(&self, start: usize) -> (r: Vec<usize>)
        requires
            nfa_wf(self@),
            start < self@.len(),
        ensures
            r@.to_set() == eps_closure_set(self@, set![start]),
            r@.no_duplicates(),
            forall|i: int| 0 <= i < r@.len() ==> r@[i] < self@.len(),
    {
        let starts: Vec<usize> = vec![start];
        let r = self.multi_epsilon_closure(starts);
        proof {
            assert(starts@.to_set() =~= set![start]);
        }
        r
    }

    /// All states reachable from any state of `start` by zero or more
    /// epsilon edges, computed by a work-list traversal.
    pub fn multi_epsilon_closure(&self, start: Vec<usize>) -> (r: Vec<usize>)
        requires
            nfa_wf(self@),
            forall|i: int| 0 <= i < start@.len() ==> start@[i] < self@.len(),
        ensures
            r@.to_set() == eps_closure_set(self@, start@.to_set()),
            r@.no_duplicates(),
            forall|i: int| 0 <= i < r@.len() ==> r@[i] < self@.len(),
    {
        let ghost ss = self@;
        let ghost init: Set<usize> = start@.to_set();
        let mut visited: Vec<usize> = Vec::new();
        let mut stack: Vec<usize> = start;
        proof {
            assert forall|i: int| 0 <= i < stack@.len() implies eps_closure_set(ss, init).contains(
                #[trigger] stack@[i],
            ) by {
                assert(stack@.contains(stack@[i]));
                assert(init.contains(stack@[i]));
                lemma_eps_reach_refl(ss, stack@[i]);
            }
        }
        while stack.len() > 0
            invariant
                ss == self@,
                nfa_wf(ss),
                visited@.no_duplicates(),
                visited@.len() <= ss.len(),
                forall|i: int| 0 <= i < visited@.len() ==> #[trigger] visited@[i] < ss.len(),
                forall|i: int| 0 <= i < stack@.len() ==> #[trigger] stack@[i] < ss.len(),
                forall|i: int|
                    0 <= i < visited@.len() ==> eps_closure_set(ss, init).contains(
                        #[trigger] visited@[i],
                    ),
                forall|i: int|
                    0 <= i < stack@.len() ==> eps_closure_set(ss, init).contains(
                        #[trigger] stack@[i],
                    ),
                forall|a: usize|
                    init.contains(a) ==> visited@.contains(a) || stack@.contains(a),
                forall|u: usize, v: usize|
                    visited@.contains(u) && #[trigger] eps_edge(ss, u, v) ==> visited@.contains(v)
                        || stack@.contains(v),
            decreases ss.len() - visited@.len(), stack@.len(),
        {
            let ghost stack_before = stack@;
            let q = stack.pop().unwrap();
            proof {
                assert(stack_before == stack@.push(q));
                assert forall|x: usize| stack_before.contains(x) implies stack@.contains(x) || x
                    == q by {
                    let i = choose|i: int| 0 <= i < stack_before.len() && stack_before[i] == x;
                    if i < stack@.len() {
                        assert(stack@[i] == x);
                    }
                }
            }
            let ghost visited0 = visited@;
            if !contains_id(&visited, q) {
                visited.push(q);
                proof {
                    lemma_bounded_no_dup_len(visited@, ss.len());
                    assert forall|x: usize| visited0.contains(x) || x == q implies visited@.contains(
                        x,
                    ) by {
                        if x == q {
                            assert(visited@[visited@.len() - 1] == q);
                        } else {
                            let i = choose|i: int| 0 <= i < visited0.len() && visited0[i] == x;
                            assert(visited@[i] == x);
                        }
                    }
                    assert forall|x: usize| visited@.contains(x) implies visited0.contains(x) || x
                        == q by {
                        let i = choose|i: int| 0 <= i < visited@.len() && visited@[i] == x;
                        if i < visited0.len() {
                            assert(visited0[i] == x);
                        }
                    }
                }
                let eps = self.state(q).next_epsilon();
                let ghost stack0 = stack@;
                for k in 0..eps.len()
                    invariant
                        ss == self@,
                        nfa_wf(ss),
                        q < ss.len(),
                        eps@ == ss[q as int].epsilon,
                        eps_closure_set(ss, init).contains(q),
                        stack@ == stack0 + eps@.take(k as int),
                        forall|i: int| 0 <= i < stack0.len() ==> #[trigger] stack0[i] < ss.len(),
                        forall|i: int|
                            0 <= i < stack0.len() ==> eps_closure_set(ss, init).contains(
                                #[trigger] stack0[i],
                            ),
                        forall|i: int| 0 <= i < stack@.len() ==> #[trigger] stack@[i] < ss.len(),
                        forall|i: int|
                            0 <= i < stack@.len() ==> eps_closure_set(ss, init).contains(
                                #[trigger] stack@[i],
                            ),
                {
                    let ghost stack_in = stack@;
                    let t = eps[k];
                    stack.push(t);
                    proof {
                        assert(state_wf(ss[q as int], ss.len()));
                        assert(t < ss.len());
                        assert(eps_edge(ss, q, t));
                        let a = choose|a: usize| #[trigger] init.contains(a) && eps_reach(ss, a, q);
                        lemma_eps_reach_step(ss, a, q, t);
                        assert(stack@ =~= stack0 + eps@.take(k as int + 1));
                    }
                }
                proof {
                    assert(eps@.take(eps@.len() as int) =~= eps@);
                    assert(stack@ == stack0 + eps@);
                    assert forall|x: usize| stack0.contains(x) implies stack@.contains(x) by {
                        let i = choose|i: int| 0 <= i < stack0.len() && stack0[i] == x;
                        assert(stack@[i] == x);
                    }
                    assert forall|u: usize, v: usize|
                        visited@.contains(u) && #[trigger] eps_edge(ss, u, v) implies visited@.contains(
                        v,
                    ) || stack@.contains(v) by {
                        if u == q {
                            assert(ss[q as int].epsilon.contains(v));
                            assert(eps@.contains(v));
                            let i = choose|i: int| 0 <= i < eps@.len() && eps@[i] == v;
                            assert(stack@[stack0.len() + i] == v);
                        } else {
                            assert(visited0.contains(u));
                        }
                    }
                    assert forall|a: usize|
                        init.contains(a) implies visited@.contains(a) || stack@.contains(a) by {}
                }
            } else {
                proof {
                    assert(visited@.contains(q));
                }
            }
        }
        proof {
            assert(eps_closed(ss, visited@.to_set())) by {
                assert forall|u: usize, v: usize|
                    visited@.to_set().contains(u) && #[trigger] eps_edge(ss, u, v) implies visited@.to_set().contains(
                    v,
                ) by {}
            }
            assert forall|a: usize| init.contains(a) implies visited@.to_set().contains(a) by {}
            lemma_closure_in_closed(ss, init, visited@.to_set());
            assert forall|b: usize| visited@.to_set().contains(b) implies eps_closure_set(
                ss,
                init,
            ).contains(b) by {
                let i = choose|i: int| 0 <= i < visited@.len() && visited@[i] == b;
            }
            assert(visited@.to_set() =~= eps_closure_set(ss, init));
        }
        visited
    }

    /// Decide whether the automaton, started in `start`, accepts the string
    /// `s`: after consuming all of `s` (exact-symbol transitions first, the
    /// wildcard as fallback, epsilon closures throughout), some active state
    /// is accepting.
    pub fn matches(&self, start: usize, s: &str) -> (r: bool)
        requires
            nfa_wf(self@),
            start < self@.len(),
        ensures
            r == accepts_from(self@, start, s@),
    {
        let ghost ss = self@;
        let ghost init = eps_closure_set(ss, set![start]);
        let starts: Vec<usize> = vec![start];
        proof {
            assert(starts@.to_set() =~= set![start]);
        }
        let mut current = self.multi_epsilon_closure(starts);
        proof {
            assert(s@.take(0) =~= Seq::<char>::empty());
            assert(current@.to_set() == run_sets(ss, init, s@.take(0)));
        }
        let n = s.unicode_len();
        for i in 0..n
            invariant
                ss == self@,
                nfa_wf(ss),
                n == s@.len(),
                current@.to_set() == run_sets(ss, init, s@.take(i as int)),
                forall|j: int| 0 <= j < current@.len() ==> #[trigger] current@[j] < ss.len(),
        {
            let c = s.get_char(i);
            let ghost cur_set = current@.to_set();
            let mut targets: Vec<usize> = Vec::new();
            proof {
                assert(targets@.to_set() =~= targets_upto(ss, current@, c, 0));
            }
            for j in 0..current.len()
                invariant
                    ss == self@,
                    nfa_wf(ss),
                    forall|k: int| 0 <= k < current@.len() ==> #[trigger] current@[k] < ss.len(),
                    forall|k: int| 0 <= k < targets@.len() ==> #[trigger] targets@[k] < ss.len(),
                    targets@.to_set() == targets_upto(ss, current@, c, j as int),
            {
                let st = self.state(current[j]);
                let ghost t0 = targets@;
                let ghost tj = sym_targets(ss[current@[j as int] as int], c);
                let exact = st.next(c);
                let chosen: Option<&Vec<usize>> = match exact {
                    Some(v) => Some(v),
                    None => st.next(WILDCARD),
                };
                proof {
                    match chosen {
                        Some(v) => {
                            assert(v@ == tj);
                        },
                        None => {
                            assert(tj =~= Seq::<usize>::empty());
                        },
                    }
                    assert(state_wf(ss[current@[j as int] as int], ss.len()));
                }
                if let Some(v) = chosen {
                    for k in 0..v.len()
                        invariant
                            ss == self@,
                            v@ == tj,
                            targets@ == t0 + v@.take(k as int),
                            forall|k2: int|
                                0 <= k2 < t0.len() ==> #[trigger] t0[k2] < ss.len(),
                            forall|k2: int|
                                0 <= k2 < tj.len() ==> #[trigger] tj[k2] < ss.len(),
                            forall|k2: int|
                                0 <= k2 < targets@.len() ==> #[trigger] targets@[k2] < ss.len(),
                    {
                        targets.push(v[k]);
                        proof {
                            assert(targets@ =~= t0 + v@.take(k as int + 1));
                        }
                    }
                    proof {
                        assert(v@.take(v@.len() as int) =~= v@);
                        assert(targets@ == t0 + tj);
                    }
                } else {
                    proof {
                        assert(targets@ =~= t0 + tj);
                    }
                }
                proof {
                    assert forall|t: usize| targets@.contains(t) implies t0.contains(t)
                        || tj.contains(t) by {
                        let idx = choose|idx: int|
                            0 <= idx < targets@.len() && targets@[idx] == t;
                        if idx < t0.len() {
                            assert(t0[idx] == t);
                        } else {
                            assert(tj[idx - t0.len()] == t);
                        }
                    }
                    assert forall|t: usize| t0.contains(t) implies targets@.contains(t) by {
                        let idx = choose|idx: int| 0 <= idx < t0.len() && t0[idx] == t;
                        assert(targets@[idx] == t);
                    }
                    assert forall|t: usize| tj.contains(t) implies targets@.contains(t) by {
                        let idx = choose|idx: int| 0 <= idx < tj.len() && tj[idx] == t;
                        assert(targets@[t0.len() + idx] == t);
                    }
                    assert(targets@.to_set() =~= targets_upto(ss, current@, c, j as int + 1)) by {
                        assert forall|t: usize| targets@.to_set().contains(t) implies targets_upto(
                            ss,
                            current@,
                            c,
                            j as int + 1,
                        ).contains(t) by {
                            if t0.contains(t) {
                                assert(targets_upto(ss, current@, c, j as int).contains(t));
                            } else {
                                assert(tj.contains(t));
                            }
                        }
                        assert forall|t: usize| targets_upto(ss, current@, c, j as int + 1).contains(
                            t,
                        ) implies targets@.to_set().contains(t) by {
                            let jj = choose|jj: int|
                                #![auto]
                                0 <= jj < j + 1 && jj < current@.len() && sym_targets(
                                    ss[current@[jj] as int],
                                    c,
                                ).contains(t);
                            if jj < j {
                                assert(targets_upto(ss, current@, c, j as int).contains(t));
                                assert(t0.contains(t));
                            } else {
                                assert(tj.contains(t));
                            }
                        }
                    }
                }
            }
            proof {
                assert(targets@.to_set() =~= step_targets(ss, cur_set, c)) by {
                    assert forall|t: usize| targets@.to_set().contains(t) implies step_targets(
                        ss,
                        cur_set,
                        c,
                    ).contains(t) by {
                        let jj = choose|jj: int|
                            #![auto]
                            0 <= jj < current@.len() && sym_targets(
                                ss[current@[jj] as int],
                                c,
                            ).contains(t);
                        assert(cur_set.contains(current@[jj]));
                    }
                    assert forall|t: usize| step_targets(ss, cur_set, c).contains(t) implies targets@.to_set().contains(
                        t,
                    ) by {
                        let q = choose|q: usize| #[trigger]
                            cur_set.contains(q) && q < ss.len() && sym_targets(
                                ss[q as int],
                                c,
                            ).contains(t);
                        assert(current@.contains(q));
                        let jj = choose|jj: int| 0 <= jj < current@.len() && current@[jj] == q;
                        assert(targets_upto(ss, current@, c, current@.len() as int).contains(t));
                    }
                }
            }
            let next = self.multi_epsilon_closure(targets);
            proof {
                assert(next@.to_set() == step_set(ss, cur_set, c));
                lemma_run_snoc(ss, init, s@.take(i as int), c);
                assert(s@.take(i as int).push(c) =~= s@.take(i as int + 1));
            }
            current = next;
        }
        proof {
            assert(s@.take(n as int) =~= s@);
        }
        let ghost final_set = current@.to_set();
        let mut found = false;
        for j in 0..current.len()
            invariant
                ss == self@,
                final_set == current@.to_set(),
                forall|k: int| 0 <= k < current@.len() ==> #[trigger] current@[k] < ss.len(),
                !found ==> forall|k: int|
                    0 <= k < j ==> !ss[#[trigger] current@[k] as int].accepting,
                found ==> has_accepting(ss, final_set),
        {
            if self.state(current[j]).accepting {
                proof {
                    assert(current@.to_set().contains(current@[j as int]));
                }
                found = true;
            }
        }
        proof {
            if !found && has_accepting(ss, final_set) {
                let q = choose|q: usize| #[trigger]
                    final_set.contains(q) && q < ss.len() && ss[q as int].accepting;
                let k = choose|k: int| 0 <= k < current@.len() && current@[k] == q;
                assert(false);
            }
        }
        found
    }
    /// Compile a pattern into this automaton: preprocess it, convert it to
    /// postfix, run Thompson's construction over the token stream, and fold
    /// any fragments left on the operand stack by concatenation.
    pub fn parse(&mut self, pattern: &str) -> (f: Fragment)
        requires
            nfa_wf(old(self)@),
            pattern_ok(pattern@),
        ensures
            final(self)@ == spec_parse(old(self)@, pattern@).0,
            f == spec_parse(old(self)@, pattern@).1,
            nfa_wf(final(self)@),
            f.start < final(self)@.len(),
            f.end < final(self)@.len(),
    {
        let ghost ss0 = self@;
        let preprocessed = insert_explicit_concat_operator(pattern);
        let postfix = to_postfix(preprocessed.as_str());
        let ghost toks = postfix@;
        proof {
            assert(toks == spec_to_postfix(spec_insert_concat(pattern@)));
            assert(toks.skip(0) =~= toks);
            assert(stack_wf(self@, Seq::<Fragment>::empty()));
        }
        let mut stack: Vec<Fragment> = Vec::new();
        let n = postfix.as_str().unicode_len();
        for i in 0..n
            invariant
                n == toks.len(),
                postfix@ == toks,
                toks == spec_to_postfix(spec_insert_concat(pattern@)),
                nfa_wf(self@),
                stack_wf(self@, stack@),
                build_run(self@, stack@, toks.skip(i as int)) == build_run(
                    ss0,
                    Seq::empty(),
                    toks,
                ),
                postfix_ok_from(toks.skip(i as int), stack@.len() as int),
        {
            let t = postfix.as_str().get_char(i);
            let ghost ss_in = self@;
            let ghost stack_in = stack@;
            proof {
                assert(toks.skip(i as int).first() == t);
                assert(toks.skip(i as int).drop_first() =~= toks.skip(i as int + 1));
            }
            if t == '\0' {
                let f2 = stack.pop().unwrap();
                let f1 = stack.pop().unwrap();
                proof {
                    assert(f2 == stack_in.last());
                    assert(f1 == stack_in[stack_in.len() - 2]);
                }
                let g = self.concat(f1, f2);
                stack.push(g);
                proof {
                    assert(stack@ =~= stack_in.drop_last().drop_last().push(g));
                    lemma_binary_stack_wf(ss_in, stack_in, self@, stack@, g);
                }
            } else if t == '|' {
                let f2 = stack.pop().unwrap();
                let f1 = stack.pop().unwrap();
                proof {
                    assert(f2 == stack_in.last());
                    assert(f1 == stack_in[stack_in.len() - 2]);
                }
                let g = self.union(f1, f2);
                stack.push(g);
                proof {
                    assert(stack@ =~= stack_in.drop_last().drop_last().push(g));
                    lemma_binary_stack_wf(ss_in, stack_in, self@, stack@, g);
                }
            } else if t == '*' {
                let f1 = stack.pop().unwrap();
                proof {
                    assert(f1 == stack_in.last());
                }
                let g = self.closure(f1);
                stack.push(g);
                proof {
                    assert(stack@ =~= stack_in.drop_last().push(g));
                    lemma_unary_stack_wf(ss_in, stack_in, self@, stack@, g);
                }
            } else {
                let g = self.symbol(t);
                stack.push(g);
                proof {
                    assert(stack@ =~= stack_in.push(g));
                    lemma_push_stack_wf(ss_in, stack_in, self@, stack@, g);
                }
            }
        }
        proof {
            assert(toks.skip(n as int) =~= Seq::<char>::empty());
        }
        let ghost ssb = self@;
        let ghost stackb = stack@;
        proof {
            assert(reduce_run(ssb, stackb) == spec_parse(ss0, pattern@));
            assert(stackb.len() >= 1);
        }
        let mut acc = stack[0];
        proof {
            assert(seq![acc] + stackb.skip(1) =~= stackb);
        }
        for k in 1..stack.len()
            invariant
                stack@ == stackb,
                1 <= k <= stackb.len(),
                nfa_wf(self@),
                stack_wf(self@, seq![acc] + stackb.skip(k as int)),
                reduce_run(self@, seq![acc] + stackb.skip(k as int)) == reduce_run(ssb, stackb),
        {
            let ghost ss_in = self@;
            let ghost q = seq![acc] + stackb.skip(k as int);
            let f2 = stack[k];
            proof {
                assert(q[0] == acc && q[1] == stackb[k as int]);
                assert(q.len() >= 2);
            }
            let g = self.concat(acc, f2);
            proof {
                let q2 = seq![g] + stackb.skip(k as int + 1);
                assert(seq![g] + q.subrange(2, q.len() as int) =~= q2);
                assert forall|i: int|
                    0 <= i < q2.len() implies (#[trigger] q2[i]).start < self@.len() && q2[i].end
                    < self@.len() by {
                    if i > 0 {
                        assert(q2[i] == q[i + 1]);
                    }
                }
                assert forall|i: int, j: int|
                    #![trigger q2[i], q2[j]]
                    0 <= i < j < q2.len() implies q2[i].end != q2[j].end by {
                    assert(q2[j] == q[j + 1]);
                    if i == 0 {
                        assert(q2[0].end == q[1].end);
                    } else {
                        assert(q2[i] == q[i + 1]);
                    }
                }
            }
            acc = g;
        }
        proof {
            assert(seq![acc] + stackb.skip(stackb.len() as int) =~= seq![acc]);
            assert(reduce_run(self@, seq![acc]) == (self@, acc));
        }
        acc
    }
}

/// A fragment whose exit is the old top fragment's exit keeps the operand
/// stack well formed after a binary operation; so does a brand-new exit.
proof fn lemma_binary_stack_wf(
    ss_in: Seq<StateModel>,
    stack_in: Seq<Fragment>,
    ss: Seq<StateModel>,
    stack: Seq<Fragment>,
    g: Fragment,
)
    requires
        stack_wf(ss_in, stack_in),
        stack_in.len() >= 2,
        stack == stack_in.drop_last().drop_last().push(g),
        ss.len() >= ss_in.len(),
        g.start < ss.len(),
        g.end < ss.len(),
        g.end == stack_in.last().end || g.end >= ss_in.len(),
    ensures
        stack_wf(ss, stack),
{
    assert forall|i: int|
        0 <= i < stack.len() implies (#[trigger] stack[i]).start < ss.len() && stack[i].end
        < ss.len() by {
        if i < stack.len() - 1 {
            assert(stack[i] == stack_in[i]);
        }
    }
    assert forall|i: int, j: int|
        #![trigger stack[i], stack[j]]
        0 <= i < j < stack.len() implies stack[i].end != stack[j].end by {
        assert(stack[i] == stack_in[i]);
        if j < stack.len() - 1 {
            assert(stack[j] == stack_in[j]);
        } else {
            assert(stack[j] == g);
            if g.end == stack_in.last().end {
                assert(stack_in[i].end != stack_in[stack_in.len() - 1].end);
            } else {
                assert(stack_in[i].end < ss_in.len());
            }
        }
    }
}

/// A fragment with a brand-new exit replacing the old top keeps the operand
/// stack well formed after the star operation.
proof fn lemma_unary_stack_wf(
    ss_in: Seq<StateModel>,
    stack_in: Seq<Fragment>,
    ss: Seq<StateModel>,
    stack: Seq<Fragment>,
    g: Fragment,
)
    requires
        stack_wf(ss_in, stack_in),
        stack_in.len() >= 1,
        stack == stack_in.drop_last().push(g),
        ss.len() >= ss_in.len(),
        g.start < ss.len(),
        g.end < ss.len(),
        g.end >= ss_in.len(),
    ensures
        stack_wf(ss, stack),
{
    assert forall|i: int|
        0 <= i < stack.len() implies (#[trigger] stack[i]).start < ss.len() && stack[i].end
        < ss.len() by {
        if i < stack.len() - 1 {
            assert(stack[i] == stack_in[i]);
        }
    }
    assert forall|i: int, j: int|
        #![trigger stack[i], stack[j]]
        0 <= i < j < stack.len() implies stack[i].end != stack[j].end by {
        assert(stack[i] == stack_in[i]);
        if j < stack.len() - 1 {
            assert(stack[j] == stack_in[j]);
        } else {
            assert(stack_in[i].end < ss_in.len());
        }
    }
}

/// A fragment with a brand-new exit pushed on top keeps the operand stack
/// well formed after a literal symbol.
proof fn lemma_push_stack_wf(
    ss_in: Seq<StateModel>,
    stack_in: Seq<Fragment>,
    ss: Seq<StateModel>,
    stack: Seq<Fragment>,
    g: Fragment,
)
    requires
        stack_wf(ss_in, stack_in),
        stack == stack_in.push(g),
        ss.len() >= ss_in.len(),
        g.start < ss.len(),
        g.end < ss.len(),
        g.end >= ss_in.len(),
    ensures
        stack_wf(ss, stack),
{
    assert forall|i: int|
        0 <= i < stack.len() implies (#[trigger] stack[i]).start < ss.len() && stack[i].end
        < ss.len() by {
        if i < stack.len() - 1 {
            assert(stack[i] == stack_in[i]);
        }
    }
    assert forall|i: int, j: int|
        #![trigger stack[i], stack[j]]
        0 <= i < j < stack.len() implies stack[i].end != stack[j].end by {
        assert(stack[i] == stack_in[i]);
        if j < stack.len() - 1 {
            assert(stack[j] == stack_in[j]);
        } else {
            assert(stack_in[i].end < ss_in.len());
        }
    }
}

} // verus!
