use vstd::prelude::*;
use multimap::MultiMap;

verus! {

#[verifier::external_type_specification]
#[verifier::external_body]
#[verifier::reject_recursive_types(K)]
#[verifier::reject_recursive_types(V)]
#[verifier::reject_recursive_types(S)]
pub struct ExMultiMap<K, V, S>(MultiMap<K, V, S>);

/// The contents of a transition table: for each symbol that has at least one
/// entry, the destination identifiers in insertion order.
pub uninterp spec fn mm_entries(m: MultiMap<char, usize>) -> Map<char, Seq<usize>>;

/// Relies on multimap::MultiMap::new: the new map holds no entries.
#[verifier::external_body]
fn mm_new() -> (m: MultiMap<char, usize>)
    ensures
        mm_entries(m) =~= Map::empty(),
{
    MultiMap::new()
}

/// Relies on multimap::MultiMap::insert: the value is appended to the key's
/// vector, and a fresh key starts a one-element vector.
#[verifier::external_body]
fn mm_insert(m: &mut MultiMap<char, usize>, k: char, v: usize)
    ensures
        mm_entries(*final(m)) == mm_entries(*old(m)).insert(
            k,
            if mm_entries(*old(m)).contains_key(k) {
                mm_entries(*old(m))[k].push(v)
            } else {
                seq![v]
            },
        ),
{
    m.insert(k, v);
}

/// Relies on multimap::MultiMap::get_vec: returns the key's vector of values,
/// or None when the key has no entry.
#[verifier::external_body]
fn mm_get_vec<'a>(m: &'a MultiMap<char, usize>, k: &char) -> (r: Option<&'a Vec<usize>>)
    ensures
        match r {
            Some(v) => mm_entries(*m).contains_key(*k) && v@ == mm_entries(*m)[*k],
            None => !mm_entries(*m).contains_key(*k),
        },
{
    m.get_vec(k)
}

/// One automaton state: an acceptance flag, symbol transitions with one or
/// more destination states per symbol, and epsilon destinations reachable
/// without consuming input.
pub struct State {
    pub id: usize,
    pub accepting: bool,
    pub transitions: MultiMap<char, usize>,
    pub epsilon_transitions: Vec<usize>,
}

/// Epsilon destinations form a set: adding one that is already present
/// leaves the list unchanged.
pub open spec fn eps_add(eps: Seq<usize>, to: usize) -> Seq<usize> {
    if eps.contains(to) {
        eps
    } else {
        eps.push(to)
    }
}

pub(crate) fn contains_id(v: &Vec<usize>, x: usize) -> (r: bool)
    ensures
        r == v@.contains(x),
{
    for i in 0..v.len()
        invariant
            forall|j: int| 0 <= j < i ==> v@[j] != x,
    {
        if v[i] == x {
            return true;
        }
    }
    false
}

/// The mathematical content of a state.
pub ghost struct StateModel {
    pub id: usize,
    pub accepting: bool,
    pub transitions: Map<char, Seq<usize>>,
    pub epsilon: Seq<usize>,
}

impl View for State {
    type V = StateModel;

    open spec fn view(&self) -> StateModel {
        StateModel {
            id: self.id,
            accepting: self.accepting,
            transitions: mm_entries(self.transitions),
            epsilon: self.epsilon_transitions@,
        }
    }
}

impl State {
    pub fn new(id: usize, accepting: bool) -> (s: State)
        ensures
            s@ == (StateModel {
                id,
                accepting,
                transitions: Map::<char, Seq<usize>>::empty(),
                epsilon: Seq::<usize>::empty(),
            }),
    {
        State {
            id,
            accepting,
            transitions: mm_new(),
            epsilon_transitions: Vec::new(),
        }
    }

    /// Record one more destination for the given symbol, after any already
    /// recorded for it.
    pub fn add_transition(&mut self, symbol: char, to: usize)
        ensures
            final(self)@ == (StateModel {
                transitions: old(self)@.transitions.insert(
                    symbol,
                    if old(self)@.transitions.contains_key(symbol) {
                        old(self)@.transitions[symbol].push(to)
                    } else {
                        seq![to]
                    },
                ),
                ..old(self)@
            }),
    {
        mm_insert(&mut self.transitions, symbol, to);
    }

    /// Record one more epsilon destination; a destination that is already
    /// recorded is not recorded again.
    pub fn add_epsilon_transition(&mut self, to: usize)
        ensures
            final(self)@ == (StateModel {
                epsilon: eps_add(old(self)@.epsilon, to),
                ..old(self)@
            }),
    {
        if !contains_id(&self.epsilon_transitions, to) {
            self.epsilon_transitions.push(to);
        }
    }

    /// The destinations recorded for the given symbol, or None when there are
    /// none.
    pub fn next(&self, symbol: char) -> (r: Option<&Vec<usize>>)
        ensures
            match r {
                Some(v) => self@.transitions.contains_key(symbol) && v@ == self@.transitions[symbol],
                None => !self@.transitions.contains_key(symbol),
            },
    {
        mm_get_vec(&self.transitions, &symbol)
    }

    /// The epsilon destinations, in insertion order.
    pub fn next_epsilon(&self) -> (r: &Vec<usize>)
        ensures
            r@ == self@.epsilon,
    {
        &self.epsilon_transitions
    }
}

} // verus!
