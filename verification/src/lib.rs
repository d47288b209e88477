use vstd::prelude::*;

pub mod alphabet;
pub mod arena;
pub mod dfa;
pub mod nfa;
pub mod pattern;
pub mod semantics;
pub mod state;

pub use alphabet::Alphabet;
pub use arena::Arena;
pub use dfa::Dfa;
pub use nfa::Fragment;
pub use nfa::pattern_well_formed;
pub use nfa::Nfa;
pub use pattern::insert_explicit_concat_operator;
pub use pattern::to_postfix;
pub use state::State;
pub use state::StateModel;

use nfa::build_run;
use nfa::closure_op;
use nfa::pattern_ok;
use nfa::reduce_run;
use nfa::spec_parse;
use nfa::symbol_op;
use nfa::union_op;
use nfa::Fragment as Frag;
use pattern::is_operator;
use pattern::popped_for_op;
use pattern::popped_for_paren;
use pattern::spec_insert_concat;
use pattern::spec_insert_concat_from;
use pattern::spec_shunt;
use pattern::spec_to_postfix;
use pattern::stack_after_op;
use pattern::stack_after_paren;
use semantics::eps_reach;
use semantics::lemma_eps_reach_step;
use state::eps_add;
use semantics::accepts_from;
use semantics::eps_closed;
use semantics::eps_closure_set;
use semantics::eps_edge;
use semantics::has_accepting;
use semantics::lemma_closure_in_closed;
use semantics::lemma_eps_reach_refl;
use semantics::nfa_wf;
use semantics::run_sets;
use semantics::step_set;
use semantics::step_targets;
use semantics::sym_targets;

verus! {

/// Marker inserted by the preprocessor between two tokens that are
/// concatenated implicitly; it is treated as an explicit binary operator by
/// the postfix converter and the constructor.
pub const CONCAT_MARKER: char = '\0';

/// A transition on this symbol is taken as a fallback for any input symbol
/// that has no exact transition of its own.
pub const WILDCARD: char = '.';

/// A compiled pattern: the automaton built for it together with the state
/// the matching engine starts from.
pub struct Regex {
    states: Nfa,
    start: usize,
}

impl View for Regex {
    type V = Seq<StateModel>;

    closed spec fn view(&self) -> Seq<StateModel> {
        self.states@
    }
}

impl Regex {
    /// The state the matching engine starts from.
    pub closed spec fn spec_start(&self) -> usize {
        self.start
    }

    /// The automaton is well formed and the start state lies inside it.
    pub open spec fn wf(&self) -> bool {
        nfa_wf(self@) && self.spec_start() < self@.len()
    }

    /// Compile a well-formed pattern.
    pub fn new(pattern: &str) -> (re: Regex)
        requires
            pattern_ok(pattern@),
        ensures
            re.wf(),
            re@ == spec_parse(Seq::empty(), pattern@).0,
            re.spec_start() == spec_parse(Seq::empty(), pattern@).1.start,
    {
        let mut states = Nfa::new();
        proof {
            assert(nfa_wf(states@));
        }
        let f = states.parse(pattern);
        Regex { states, start: f.start }
    }

    /// Decide whether the whole string `s` matches the compiled pattern.
    pub fn matches(&self, s: &str) -> (r: bool)
        requires
            self.wf(),
        ensures
            r == accepts_from(self@, self.spec_start(), s@),
    {
        self.states.matches(self.start, s)
    }
}

/// What `is_match` decides: the automaton compiled for the pattern accepts
/// the input, started from the compiled fragment's entry state.
pub open spec fn spec_is_match(pattern: Seq<char>, input: Seq<char>) -> bool {
    accepts_from(
        spec_parse(Seq::empty(), pattern).0,
        spec_parse(Seq::empty(), pattern).1.start,
        input,
    )
}


/// The closure of a set whose members have no epsilon edges is the set
/// itself.
proof fn lemma_closure_of_eps_free(ss: Seq<StateModel>, s: Set<usize>)
    requires
        forall|q: usize, v: usize| s.contains(q) ==> !eps_edge(ss, q, v),
    ensures
        eps_closure_set(ss, s) == s,
{
    assert(eps_closed(ss, s));
    lemma_closure_in_closed(ss, s, s);
    assert forall|b: usize| s.contains(b) implies eps_closure_set(ss, s).contains(b) by {
        lemma_eps_reach_refl(ss, b);
    }
    assert(eps_closure_set(ss, s) =~= s);
}

/// One instance of the law that a pattern of literal symbols matches itself
/// and nothing longer, proved for a single literal: the pattern made of the
/// one symbol `c` matches the one-symbol string `c`, and does not match it
/// with any symbol appended.
pub proof fn lemma_single_literal_matches(c: char, x: char)
    requires
        !is_operator(c),
        c != '(',
        c != ')',
    ensures
        spec_is_match(seq![c], seq![c]),
        !spec_is_match(seq![c], seq![c].push(x)),
{
    let p: Seq<char> = seq![c];
    // The preprocessor and the postfix converter leave one literal alone.
    assert(p.drop_first() =~= Seq::<char>::empty());
    assert(spec_insert_concat(p) =~= p);
    let e: Seq<char> = Seq::empty();
    assert(e.push(c) =~= p);
    assert(spec_to_postfix(p) == pattern::spec_shunt(p, e, e));
    assert(pattern::spec_shunt(p, e, e) == pattern::spec_shunt(p.drop_first(), e, e.push(c)));
    assert(pattern::spec_shunt(e, e, p) =~= p + e.reverse());
    assert(p + e.reverse() =~= p);
    assert(spec_to_postfix(spec_insert_concat(p)) == p);
    // The constructor builds exactly the two-state automaton.
    let ss0: Seq<StateModel> = Seq::empty();
    let st0: Seq<Frag> = Seq::empty();
    let r = symbol_op(ss0, c);
    let ss = r.0;
    let f = r.1;
    assert(nfa::build_step(ss0, st0, c) == (ss, st0.push(f)));
    assert(build_run(ss0, st0, p) == build_run(ss, st0.push(f), p.drop_first()));
    assert(build_run(ss, st0.push(f), Seq::empty()) == (ss, st0.push(f)));
    assert(st0.push(f).len() == 1);
    assert(reduce_run(ss, st0.push(f)) == (ss, f));
    assert(spec_parse(ss0, p) == (ss, f));
    assert(f.start == 0 && f.end == 1);
    assert(ss.len() == 2);
    let m0 = ss[0];
    let m1 = ss[1];
    assert(m0.epsilon =~= Seq::empty() && m1.epsilon =~= Seq::empty());
    // No state has an epsilon edge, so every closure is the set itself.
    assert forall|q: usize, v: usize| #[trigger] eps_edge(ss, q, v) implies false by {
        if q == 0 {
            assert(!m0.epsilon.contains(v));
        } else {
            assert(!m1.epsilon.contains(v));
        }
    }
    let s0: Set<usize> = set![0usize];
    let s1: Set<usize> = set![1usize];
    lemma_closure_of_eps_free(ss, s0);
    lemma_closure_of_eps_free(ss, s1);
    // One step on `c` moves the active set from the entry to the exit.
    assert(sym_targets(m0, c) == seq![1usize]);
    assert(step_targets(ss, s0, c) =~= s1) by {
        assert(sym_targets(ss[0], c)[0] == 1usize);
        assert(s0.contains(0usize) && sym_targets(ss[0], c).contains(1usize));
        assert forall|t: usize| step_targets(ss, s0, c).contains(t) implies s1.contains(t) by {
            let q = choose|q: usize| #[trigger]
                s0.contains(q) && q < ss.len() && sym_targets(ss[q as int], c).contains(t);
            assert(q == 0);
            let i = choose|i: int| 0 <= i < sym_targets(ss[0], c).len() && sym_targets(ss[0], c)[i]
                == t;
            assert(t == 1usize);
        }
    }
    assert(step_set(ss, s0, c) == s1);
    // Consuming exactly `c` ends in the accepting exit state.
    assert(p.drop_first() =~= Seq::<char>::empty());
    assert(run_sets(ss, s1, Seq::empty()) == s1);
    assert(run_sets(ss, s0, p) == s1);
    assert(has_accepting(ss, s1)) by {
        assert(s1.contains(1usize) && ss[1].accepting);
    }
    assert(spec_is_match(p, p));
    // One more symbol finds no transition out of the exit state.
    let p2 = p.push(x);
    assert(p2.first() == c);
    assert(p2.drop_first() =~= seq![x]);
    assert(run_sets(ss, s0, p2) == run_sets(ss, s1, seq![x]));
    let none: Set<usize> = Set::empty();
    assert(sym_targets(m1, x) =~= Seq::empty());
    assert(step_targets(ss, s1, x) =~= none) by {
        assert forall|t: usize| !step_targets(ss, s1, x).contains(t) by {
            if step_targets(ss, s1, x).contains(t) {
                let q = choose|q: usize| #[trigger]
                    s1.contains(q) && q < ss.len() && sym_targets(ss[q as int], x).contains(t);
                assert(q == 1);
            }
        }
    }
    lemma_closure_of_eps_free(ss, none);
    assert(step_set(ss, s1, x) == none);
    assert(seq![x].drop_first() =~= Seq::<char>::empty());
    assert(seq![x].first() == x);
    assert(run_sets(ss, none, Seq::empty()) == none);
    assert(run_sets(ss, s1, seq![x]) == none);
    assert(!has_accepting(ss, none)) by {
        if has_accepting(ss, none) {
            let q = choose|q: usize| #[trigger]
                none.contains(q) && q < ss.len() && ss[q as int].accepting;
        }
    }
    assert(!spec_is_match(p, p2));
}


/// The star of an alternation of two symbols: it should accept any finite
/// string over those symbols, and nothing else.
spec fn star_pat() -> Seq<char> {
    seq!['(', 'a', '|', 'b', ')', '*']
}

/// The store that compiling that pattern produces, state by state.
spec fn star_store_ok(ss: Seq<StateModel>) -> bool {
    &&& ss.len() == 8
    &&& ss[0].transitions == Map::<char, Seq<usize>>::empty().insert('a', seq![1usize])
    &&& ss[0].epsilon == Seq::<usize>::empty()
    &&& ss[1].transitions == Map::<char, Seq<usize>>::empty()
    &&& ss[1].epsilon == seq![5usize]
    &&& ss[2].transitions == Map::<char, Seq<usize>>::empty().insert('b', seq![3usize])
    &&& ss[2].epsilon == Seq::<usize>::empty()
    &&& ss[3].transitions == Map::<char, Seq<usize>>::empty()
    &&& ss[3].epsilon == seq![5usize]
    &&& ss[4].transitions == Map::<char, Seq<usize>>::empty()
    &&& ss[4].epsilon == seq![0usize, 2usize]
    &&& ss[5].transitions == Map::<char, Seq<usize>>::empty()
    &&& ss[5].epsilon == seq![4usize, 7usize]
    &&& ss[6].transitions == Map::<char, Seq<usize>>::empty()
    &&& ss[6].epsilon == seq![4usize, 7usize]
    &&& ss[7].transitions == Map::<char, Seq<usize>>::empty()
    &&& ss[7].epsilon == Seq::<usize>::empty()
    &&& ss[7].accepting
}

/// Compiling the star pattern yields the eight-state store above, started
/// in state six.
proof fn lemma_star_parse()
    ensures
        spec_parse(Seq::empty(), star_pat()).1.start == 6,
        star_store_ok(spec_parse(Seq::empty(), star_pat()).0),
{
    let e: Seq<char> = Seq::empty();
    let pat = star_pat();
    // The preprocessor inserts no marker: every adjacent pair has a group
    // delimiter, a union bar or a quantifier on the relevant side.
    let r1: Seq<char> = seq!['a', '|', 'b', ')', '*'];
    let r2: Seq<char> = seq!['|', 'b', ')', '*'];
    let r3: Seq<char> = seq!['b', ')', '*'];
    let r4: Seq<char> = seq![')', '*'];
    let r5: Seq<char> = seq!['*'];
    assert(pat.first() == '(' && pat.drop_first() =~= r1);
    assert(r1.first() == 'a' && r1.drop_first() =~= r2);
    assert(r2.first() == '|' && r2.drop_first() =~= r3);
    assert(r3.first() == 'b' && r3.drop_first() =~= r4);
    assert(r4.first() == ')' && r4.drop_first() =~= r5);
    assert(r5.first() == '*' && r5.drop_first() =~= e);
    assert(spec_insert_concat_from(e, '*') == Seq::<char>::empty());
    assert(spec_insert_concat_from(r5, ')') == seq!['*'] + spec_insert_concat_from(e, '*'));
    assert(spec_insert_concat_from(r4, 'b') == seq![')'] + spec_insert_concat_from(r5, ')'));
    assert(spec_insert_concat_from(r3, '|') == seq!['b'] + spec_insert_concat_from(r4, 'b'));
    assert(spec_insert_concat_from(r2, 'a') == seq!['|'] + spec_insert_concat_from(r3, '|'));
    assert(spec_insert_concat_from(r1, '(') == seq!['a'] + spec_insert_concat_from(r2, 'a'));
    assert(spec_insert_concat(pat) == seq!['('] + spec_insert_concat_from(r1, '('));
    assert(spec_insert_concat(pat) =~= pat);
    // The shunting yard turns it into the four postfix tokens a b | *.
    let st1: Seq<char> = seq!['('];
    let st2: Seq<char> = seq!['(', '|'];
    let st3: Seq<char> = seq!['*'];
    let toks: Seq<char> = seq!['a', 'b', '|', '*'];
    assert(spec_to_postfix(pat) == spec_shunt(pat, e, e));
    assert(e.push('(') =~= st1);
    assert(spec_shunt(pat, e, e) == spec_shunt(r1, st1, e));
    assert(!is_operator('a') && e.push('a') =~= seq!['a']);
    assert(spec_shunt(r1, st1, e) == spec_shunt(r2, st1, seq!['a']));
    assert(st1.last() == '(');
    assert(popped_for_op(st1, 0) == Seq::<char>::empty());
    assert(stack_after_op(st1, 0) == st1);
    assert(seq!['a'] + Seq::<char>::empty() =~= seq!['a']);
    assert(st1.push('|') =~= st2);
    assert(spec_shunt(r2, st1, seq!['a']) == spec_shunt(r3, st2, seq!['a']));
    assert(!is_operator('b') && seq!['a'].push('b') =~= seq!['a', 'b']);
    assert(spec_shunt(r3, st2, seq!['a']) == spec_shunt(r4, st2, seq!['a', 'b']));
    assert(st2.last() == '|' && st2.drop_last() =~= st1);
    assert(popped_for_paren(st1) == Seq::<char>::empty());
    assert(popped_for_paren(st2) == seq!['|'] + popped_for_paren(st1));
    assert(stack_after_paren(st2) == stack_after_paren(st1));
    assert(stack_after_paren(st1) =~= e);
    assert(seq!['a', 'b'] + (seq!['|'] + Seq::<char>::empty()) =~= seq!['a', 'b', '|']);
    assert(spec_shunt(r4, st2, seq!['a', 'b']) == spec_shunt(r5, e, seq!['a', 'b', '|']));
    assert(popped_for_op(e, 2) == Seq::<char>::empty());
    assert(stack_after_op(e, 2) == e);
    assert(seq!['a', 'b', '|'] + Seq::<char>::empty() =~= seq!['a', 'b', '|']);
    assert(e.push('*') =~= st3);
    assert(spec_shunt(r5, e, seq!['a', 'b', '|']) == spec_shunt(e, st3, seq!['a', 'b', '|']));
    assert(st3.reverse() =~= st3);
    assert(seq!['a', 'b', '|'] + st3 =~= toks);
    assert(spec_to_postfix(spec_insert_concat(pat)) == toks);
    // The constructor folds the four tokens into the eight-state store.
    let ss0: Seq<StateModel> = Seq::empty();
    let k0: Seq<Frag> = Seq::empty();
    let t1: Seq<char> = seq!['b', '|', '*'];
    let t2: Seq<char> = seq!['|', '*'];
    let t3: Seq<char> = seq!['*'];
    assert(toks.first() == 'a' && toks.drop_first() =~= t1);
    assert(t1.first() == 'b' && t1.drop_first() =~= t2);
    assert(t2.first() == '|' && t2.drop_first() =~= t3);
    assert(t3.first() == '*' && t3.drop_first() =~= e);
    let ra = symbol_op(ss0, 'a');
    let fa = ra.1;
    let ss1 = ra.0;
    assert(build_run(ss0, k0, toks) == build_run(ss1, k0.push(fa), t1));
    let rb = symbol_op(ss1, 'b');
    let fb = rb.1;
    let ss2 = rb.0;
    let k1 = k0.push(fa).push(fb);
    assert(build_run(ss1, k0.push(fa), t1) == build_run(ss2, k1, t2));
    assert(k1.len() == 2 && k1[0] == fa && k1.last() == fb);
    let ru = union_op(ss2, fa, fb);
    let fu = ru.1;
    let ss3 = ru.0;
    let k2 = k1.drop_last().drop_last().push(fu);
    assert(build_run(ss2, k1, t2) == build_run(ss3, k2, t3));
    assert(k2.len() == 1 && k2.last() == fu);
    let rc = closure_op(ss3, fu);
    let g = rc.1;
    let ss4 = rc.0;
    let k3 = k2.drop_last().push(g);
    assert(build_run(ss3, k2, t3) == build_run(ss4, k3, e));
    assert(build_run(ss4, k3, e) == (ss4, k3));
    assert(k3.len() == 1 && k3[0] == g);
    assert(reduce_run(ss4, k3) == (ss4, g));
    assert(spec_parse(ss0, pat) == (ss4, g));
    // Read each state of the final store off the push/update chain.
    assert(fa == (Frag { start: 0, end: 1 }));
    assert(fb == (Frag { start: 2, end: 3 }));
    assert(fu == (Frag { start: 4, end: 5 }));
    assert(g == (Frag { start: 6, end: 7 }));
    assert(eps_add(Seq::empty(), 0usize) =~= seq![0usize]);
    assert(!seq![0usize].contains(2usize));
    assert(eps_add(seq![0usize], 2usize) =~= seq![0usize, 2usize]);
    assert(eps_add(Seq::empty(), 4usize) =~= seq![4usize]);
    assert(!seq![4usize].contains(7usize));
    assert(eps_add(seq![4usize], 7usize) =~= seq![4usize, 7usize]);
    assert(eps_add(Seq::empty(), 5usize) =~= seq![5usize]);
    assert(star_store_ok(ss4));
}


/// The active sets the star automaton can be in: after no input, after an
/// input ending in the first symbol, and after one ending in the second.
spec fn star_c() -> Set<usize> {
    set![0usize, 2usize, 4usize, 6usize, 7usize]
}

spec fn star_a() -> Set<usize> {
    set![0usize, 1usize, 2usize, 4usize, 5usize, 7usize]
}

spec fn star_b() -> Set<usize> {
    set![0usize, 2usize, 3usize, 4usize, 5usize, 7usize]
}

/// Each of the three active sets is closed under the store's epsilon edges.
proof fn lemma_star_closed(ss: Seq<StateModel>, s: Set<usize>)
    requires
        star_store_ok(ss),
        s == star_c() || s == star_a() || s == star_b(),
    ensures
        eps_closed(ss, s),
{
    assert forall|u: usize, v: usize|
        s.contains(u) && #[trigger] eps_edge(ss, u, v) implies s.contains(v) by {
        let eps = ss[u as int].epsilon;
        let i = choose|i: int| 0 <= i < eps.len() && eps[i] == v;
        if u == 1 || u == 3 {
            assert(v == 5);
        } else if u == 4 {
            assert(v == 0 || v == 2);
        } else if u == 5 || u == 6 {
            assert(v == 4 || v == 7);
        } else {
            assert(eps.len() == 0);
        }
    }
}

/// The epsilon closures of the single-state seeds the matcher meets.
proof fn lemma_star_closures(ss: Seq<StateModel>)
    requires
        star_store_ok(ss),
    ensures
        eps_closure_set(ss, set![6usize]) == star_c(),
        eps_closure_set(ss, set![1usize]) == star_a(),
        eps_closure_set(ss, set![3usize]) == star_b(),
{
    assert(eps_edge(ss, 6, 4) && eps_edge(ss, 6, 7)) by {
        assert(ss[6].epsilon[0] == 4usize && ss[6].epsilon[1] == 7usize);
    }
    assert(eps_edge(ss, 5, 4) && eps_edge(ss, 5, 7)) by {
        assert(ss[5].epsilon[0] == 4usize && ss[5].epsilon[1] == 7usize);
    }
    assert(eps_edge(ss, 4, 0) && eps_edge(ss, 4, 2)) by {
        assert(ss[4].epsilon[0] == 0usize && ss[4].epsilon[1] == 2usize);
    }
    assert(eps_edge(ss, 1, 5)) by {
        assert(ss[1].epsilon[0] == 5usize);
    }
    assert(eps_edge(ss, 3, 5)) by {
        assert(ss[3].epsilon[0] == 5usize);
    }
    lemma_star_closed(ss, star_c());
    lemma_star_closed(ss, star_a());
    lemma_star_closed(ss, star_b());
    // From state six: itself, the fresh exit, and the union entry with both
    // symbol entries.
    lemma_eps_reach_refl(ss, 6);
    lemma_eps_reach_step(ss, 6, 6, 4);
    lemma_eps_reach_step(ss, 6, 6, 7);
    lemma_eps_reach_step(ss, 6, 4, 0);
    lemma_eps_reach_step(ss, 6, 4, 2);
    assert(set![6usize].contains(6usize));
    assert forall|b: usize| star_c().contains(b) implies eps_closure_set(
        ss,
        set![6usize],
    ).contains(b) by {
        assert(b == 0 || b == 2 || b == 4 || b == 6 || b == 7);
        assert(eps_reach(ss, 6, b));
    }
    lemma_closure_in_closed(ss, set![6usize], star_c());
    assert(eps_closure_set(ss, set![6usize]) =~= star_c());
    // From state one: through the old exit five back to the loop.
    lemma_eps_reach_refl(ss, 1);
    lemma_eps_reach_step(ss, 1, 1, 5);
    lemma_eps_reach_step(ss, 1, 5, 4);
    lemma_eps_reach_step(ss, 1, 5, 7);
    lemma_eps_reach_step(ss, 1, 4, 0);
    lemma_eps_reach_step(ss, 1, 4, 2);
    assert(set![1usize].contains(1usize));
    assert forall|b: usize| star_a().contains(b) implies eps_closure_set(
        ss,
        set![1usize],
    ).contains(b) by {
        assert(b == 0 || b == 1 || b == 2 || b == 4 || b == 5 || b == 7);
        assert(eps_reach(ss, 1, b));
    }
    lemma_closure_in_closed(ss, set![1usize], star_a());
    assert(eps_closure_set(ss, set![1usize]) =~= star_a());
    // From state three: symmetric to state one.
    lemma_eps_reach_refl(ss, 3);
    lemma_eps_reach_step(ss, 3, 3, 5);
    lemma_eps_reach_step(ss, 3, 5, 4);
    lemma_eps_reach_step(ss, 3, 5, 7);
    lemma_eps_reach_step(ss, 3, 4, 0);
    lemma_eps_reach_step(ss, 3, 4, 2);
    assert(set![3usize].contains(3usize));
    assert forall|b: usize| star_b().contains(b) implies eps_closure_set(
        ss,
        set![3usize],
    ).contains(b) by {
        assert(b == 0 || b == 2 || b == 3 || b == 4 || b == 5 || b == 7);
        assert(eps_reach(ss, 3, b));
    }
    lemma_closure_in_closed(ss, set![3usize], star_b());
    assert(eps_closure_set(ss, set![3usize]) =~= star_b());
}

/// Running the star automaton from any of its three active sets over any
/// string of the two symbols ends in a set that holds the accepting state.
proof fn lemma_star_run(ss: Seq<StateModel>, cur: Set<usize>, input: Seq<char>)
    requires
        star_store_ok(ss),
        cur == star_c() || cur == star_a() || cur == star_b(),
        forall|i: int| 0 <= i < input.len() ==> input[i] == 'a' || input[i] == 'b',
    ensures
        has_accepting(ss, run_sets(ss, cur, input)),
    decreases input.len(),
{
    if input.len() == 0 {
        assert(cur.contains(7usize));
        assert(has_accepting(ss, cur));
    } else {
        let c = input.first();
        assert(c == 'a' || c == 'b');
        let tgt: Set<usize> = if c == 'a' {
            set![1usize]
        } else {
            set![3usize]
        };
        assert(step_targets(ss, cur, c) =~= tgt) by {
            if c == 'a' {
                assert(sym_targets(ss[0], c) == seq![1usize]);
                assert(seq![1usize][0] == 1usize);
                assert(cur.contains(0usize) && 0 < ss.len() && sym_targets(ss[0], c).contains(
                    1usize,
                ));
            } else {
                assert(sym_targets(ss[2], c) == seq![3usize]);
                assert(seq![3usize][0] == 3usize);
                assert(cur.contains(2usize) && 2 < ss.len() && sym_targets(ss[2], c).contains(
                    3usize,
                ));
            }
            assert forall|t: usize| step_targets(ss, cur, c).contains(t) implies tgt.contains(
                t,
            ) by {
                let q = choose|q: usize| #[trigger]
                    cur.contains(q) && q < ss.len() && sym_targets(ss[q as int], c).contains(t);
                if q == 0 {
                    if c == 'a' {
                        let i = choose|i: int|
                            0 <= i < sym_targets(ss[0], c).len() && sym_targets(ss[0], c)[i] == t;
                        assert(t == 1usize);
                    } else {
                        assert(sym_targets(ss[0], c) =~= Seq::empty());
                    }
                } else if q == 2 {
                    if c == 'b' {
                        let i = choose|i: int|
                            0 <= i < sym_targets(ss[2], c).len() && sym_targets(ss[2], c)[i] == t;
                        assert(t == 3usize);
                    } else {
                        assert(sym_targets(ss[2], c) =~= Seq::empty());
                    }
                } else {
                    assert(ss[q as int].transitions == Map::<char, Seq<usize>>::empty());
                    assert(sym_targets(ss[q as int], c) =~= Seq::empty());
                }
            }
        }
        lemma_star_closures(ss);
        let nxt: Set<usize> = if c == 'a' {
            star_a()
        } else {
            star_b()
        };
        assert(step_set(ss, cur, c) == nxt);
        assert(run_sets(ss, cur, input) == run_sets(ss, nxt, input.drop_first()));
        assert forall|i: int|
            0 <= i < input.drop_first().len() implies input.drop_first()[i] == 'a'
            || input.drop_first()[i] == 'b' by {
            assert(input.drop_first()[i] == input[i + 1]);
        }
        lemma_star_run(ss, nxt, input.drop_first());
    }
}

/// The star of an alternation matches every finite string over its two
/// symbols, the empty string included: one fully general instance of the
/// closure behaviour of the compiler and the matching engine.
pub proof fn lemma_star_pattern_accepts_all(input: Seq<char>)
    requires
        forall|i: int| 0 <= i < input.len() ==> input[i] == 'a' || input[i] == 'b',
    ensures
        spec_is_match(seq!['(', 'a', '|', 'b', ')', '*'], input),
{
    lemma_star_parse();
    let ss = spec_parse(Seq::empty(), star_pat()).0;
    let start = spec_parse(Seq::empty(), star_pat()).1.start;
    assert(start == 6);
    assert(set![start] =~= set![6usize]);
    lemma_star_closures(ss);
    lemma_star_run(ss, star_c(), input);
    assert(seq!['(', 'a', '|', 'b', ')', '*'] =~= star_pat());
}

/// Compile `pattern` and decide whether the whole of `input` matches it.
pub fn is_match(pattern: &str, input: &str) -> (r: bool)
    requires
        pattern_ok(pattern@),
    ensures
        r == spec_is_match(pattern@, input@),
{
    let re = Regex::new(pattern);
    re.matches(input)
}

} // verus!
