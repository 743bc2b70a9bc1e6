//! The executable automaton and its combinators.

use crate::folds::{accepted_by_one, echoes_one};
use crate::labels::{accepted_muted, accepted_wrapped};
use crate::language::accepted_in_turn;
use crate::model::{
    lemma_string_wf, link, links, muted_edge, muted_edges, shifted_edge, shifted_edges,
    shifted_states, Edge, Machine,
};
use crate::properties::{
    lemma_all_reject_properties, lemma_and_optionally_properties, lemma_and_properties,
    lemma_consume_properties, lemma_empty_properties, lemma_one_of_properties,
    lemma_one_of_symbols_properties, lemma_or_properties, lemma_repetition_properties,
    lemma_string_properties, lemma_symbol_properties, lemma_wrap_properties,
};
use crate::repetition::accepted_repeatedly;
use crate::text::{char_text, push_char};
use vstd::prelude::*;

pub mod dump;
pub mod simulate;

verus! {

struct Transition {
    from: usize,
    to: usize,
    on: Option<char>,
    with: Option<String>,
}

/// A nondeterministic finite-state transducer.
///
/// Built only by the combinators below, each of which consumes its operands;
/// its model `self@` is always well formed.
pub struct FST {
    state_count: usize,
    accepting_states: Vec<usize>,
    transitions: Vec<Transition>,
}

impl Transition {
    spec fn edge(self) -> Edge {
        Edge {
            from: self.from as int,
            to: self.to as int,
            on: self.on,
            with: fragment_of(self.with),
        }
    }
}

spec fn edges_of(transitions: Seq<Transition>) -> Seq<Edge> {
    Seq::new(transitions.len(), |i: int| transitions[i].edge())
}

spec fn states_of(states: Seq<usize>) -> Seq<int> {
    Seq::new(states.len(), |i: int| states[i] as int)
}

/// Moves both ends of every transition up by `shift`.
fn shift_transitions(transitions: Vec<Transition>, shift: usize) -> (r: Vec<Transition>)
    requires
        forall|i: int|
            0 <= i < transitions.len() ==> {
                &&& (#[trigger] transitions[i]).from + shift <= usize::MAX
                &&& transitions[i].to + shift <= usize::MAX
            },
    ensures
        edges_of(r@) == shifted_edges(edges_of(transitions@), shift as int),
{
    let mut r: Vec<Transition> = Vec::new();
    for t in it: transitions
        invariant
            it.seq() == transitions@,
            r.len() == it.index(),
            forall|i: int|
                0 <= i < transitions.len() ==> {
                    &&& (#[trigger] transitions[i]).from + shift <= usize::MAX
                    &&& transitions[i].to + shift <= usize::MAX
                },
            forall|i: int|
                0 <= i < r.len() ==> (#[trigger] r[i]).edge() == shifted_edge(
                    transitions[i].edge(),
                    shift as int,
                ),
    {
        r.push(Transition { from: t.from + shift, to: t.to + shift, on: t.on, with: t.with });
    }
    assert(edges_of(r@) =~= shifted_edges(edges_of(transitions@), shift as int));
    r
}

/// Moves every state up by `shift`.
fn shift_states(states: Vec<usize>, shift: usize) -> (r: Vec<usize>)
    requires
        forall|i: int| 0 <= i < states.len() ==> #[trigger] states[i] + shift <= usize::MAX,
    ensures
        states_of(r@) == shifted_states(states_of(states@), shift as int),
{
    let mut r: Vec<usize> = Vec::new();
    for s in it: states
        invariant
            it.seq() == states@,
            r.len() == it.index(),
            forall|i: int| 0 <= i < states.len() ==> #[trigger] states[i] + shift <= usize::MAX,
            forall|i: int| 0 <= i < r.len() ==> #[trigger] r[i] == states[i] + shift,
    {
        r.push(s + shift);
    }
    assert(states_of(r@) =~= shifted_states(states_of(states@), shift as int));
    r
}

spec fn fragment_of(with: Option<String>) -> Option<Seq<char>> {
    match with {
        Some(s) => Some(s@),
        None => None,
    }
}

fn copy_fragment(with: &Option<String>) -> (r: Option<String>)
    ensures
        r == *with,
{
    match with {
        Some(s) => Some(s.clone()),
        None => None,
    }
}

/// Adds one epsilon transition from each state of `sources` to `to`, each
/// emitting `with`.
fn link_all(
    transitions: &mut Vec<Transition>,
    sources: &Vec<usize>,
    to: usize,
    with: &Option<String>,
)
    ensures
        edges_of(final(transitions)@) == edges_of(old(transitions)@) + links(
            states_of(sources@),
            to as int,
            fragment_of(*with),
        ),
{
    let ghost before = transitions@;
    for i in 0..sources.len()
        invariant
            transitions.len() == before.len() + i,
            forall|k: int| 0 <= k < before.len() ==> transitions[k] == before[k],
            forall|k: int|
                0 <= k < i ==> (#[trigger] transitions[before.len() + k]).edge() == link(
                    sources[k] as int,
                    to as int,
                    fragment_of(*with),
                ),
    {
        transitions.push(
            Transition { from: sources[i], to: to, on: None, with: copy_fragment(with) },
        );
    }
    let ghost added = links(states_of(sources@), to as int, fragment_of(*with));
    assert forall|k: int| 0 <= k < transitions.len() implies #[trigger] edges_of(
        transitions@,
    )[k] == (edges_of(before) + added)[k] by {
        if k >= before.len() {
            assert(transitions[before.len() + (k - before.len())].edge() == added[k
                - before.len()]);
        }
    }
    assert(edges_of(transitions@) =~= edges_of(before) + added);
}

impl View for FST {
    type V = Machine;

    closed spec fn view(&self) -> Machine {
        Machine {
            states: self.state_count as int,
            accepting: states_of(self.accepting_states@),
            edges: edges_of(self.transitions@),
        }
    }
}

impl FST {
    #[verifier::type_invariant]
    spec fn inv(self) -> bool {
        self@.wf()
    }

    /// The automaton that accepts the empty input and nothing else.
    pub fn empty() -> (r: Self)
        ensures
            r@ == Machine::empty(),
            r@.wf(),
            r@.loop_free(),
            forall|input: Seq<char>, output: Seq<char>| #[trigger]
                r@.accepts(input, output) <==> input == Seq::<char>::empty() && output
                    == Seq::<char>::empty(),
    {
        let r = Self { state_count: 1, accepting_states: vec![0], transitions: Vec::new() };
        assert(r@.accepting =~= seq![0int]);
        assert(r@.edges =~= Seq::empty());
        proof {
            lemma_empty_properties();
        }
        r
    }

    /// The automaton that accepts nothing.
    pub fn all_reject() -> (r: Self)
        ensures
            r@ == Machine::all_reject(),
            r@.wf(),
            r@.loop_free(),
            r@.consuming(),
            forall|input: Seq<char>, output: Seq<char>| !#[trigger] r@.accepts(input, output),
    {
        let r = Self { state_count: 1, accepting_states: Vec::new(), transitions: Vec::new() };
        assert(r@.accepting =~= Seq::empty());
        assert(r@.edges =~= Seq::empty());
        proof {
            lemma_all_reject_properties();
        }
        r
    }

    /// The automaton that accepts the one symbol `symbol` and echoes it.
    pub fn symbol(symbol: char) -> (r: Self)
        ensures
            r@ == Machine::symbol(symbol),
            r@.wf(),
            r@.loop_free(),
            r@.consuming(),
            forall|input: Seq<char>, output: Seq<char>| #[trigger]
                r@.accepts(input, output) <==> input == seq![symbol] && output == seq![symbol],
    {
        let r = Self {
            state_count: 2,
            accepting_states: vec![1],
            transitions: vec![
                Transition { from: 0, to: 1, on: Some(symbol), with: Some(char_text(symbol)) },
            ],
        };
        assert(r@.accepting =~= Machine::symbol(symbol).accepting);
        assert(r@.edges =~= Machine::symbol(symbol).edges);
        proof {
            lemma_symbol_properties(symbol);
        }
        r
    }

    /// Concatenation: accepts an input that `m1` accepts followed by one
    /// that `m2` accepts.
    pub fn and(m1: Self, m2: Self) -> (r: Self)
        requires
            m1@.states + m2@.states <= usize::MAX,
        ensures
            r@ == m1@.and(m2@),
            r@.wf(),
            m1@.loop_free() && m2@.loop_free() ==> r@.loop_free(),
            m1@.consuming() && m2@.loop_free() ==> r@.consuming(),
            m1@.loop_free() && m2@.consuming() ==> r@.consuming(),
            forall|input: Seq<char>, output: Seq<char>| #[trigger]
                r@.accepts(input, output) <==> accepted_in_turn(m1@, m2@, input, output),
    {
        proof {
            use_type_invariant(&m1);
            use_type_invariant(&m2);
            lemma_in_range(m1);
            lemma_in_range(m2);
            lemma_and_properties(m1@, m2@);
        }
        let ghost a = m1@;
        let ghost b = m2@;
        let FST { state_count: n1, accepting_states: a1, transitions: t1 } = m1;
        let FST { state_count: n2, accepting_states: a2, transitions: t2 } = m2;
        let mut transitions = t1;
        let mut shifted = shift_transitions(t2, n1);
        transitions.append(&mut shifted);
        assert(edges_of(transitions@) =~= a.edges + shifted_edges(b.edges, a.states));
        link_all(&mut transitions, &a1, n1, &None);
        let r = Self {
            state_count: n1 + n2,
            accepting_states: shift_states(a2, n1),
            transitions,
        };
        r
    }

    /// Like `and`, but what `m1` alone accepts is accepted too.
    pub fn and_optionally(m1: Self, m2: Self) -> (r: Self)
        requires
            m1@.states + m2@.states <= usize::MAX,
        ensures
            r@ == m1@.and_optionally(m2@),
            r@.wf(),
            m1@.loop_free() && m2@.loop_free() ==> r@.loop_free(),
            m1@.consuming() && m2@.loop_free() ==> r@.consuming(),
            forall|input: Seq<char>, output: Seq<char>| #[trigger]
                r@.accepts(input, output) <==> accepted_in_turn(m1@, m2@, input, output)
                    || m1@.accepts(input, output),
    {
        proof {
            use_type_invariant(&m1);
            use_type_invariant(&m2);
            lemma_in_range(m1);
            lemma_in_range(m2);
            lemma_and_optionally_properties(m1@, m2@);
        }
        let ghost a = m1@;
        let ghost b = m2@;
        let FST { state_count: n1, accepting_states: a1, transitions: t1 } = m1;
        let FST { state_count: n2, accepting_states: a2, transitions: t2 } = m2;
        let mut transitions = t1;
        let mut shifted = shift_transitions(t2, n1);
        transitions.append(&mut shifted);
        assert(edges_of(transitions@) =~= a.edges + shifted_edges(b.edges, a.states));
        link_all(&mut transitions, &a1, n1, &None);
        let mut accepting_states = a1;
        let mut moved = shift_states(a2, n1);
        accepting_states.append(&mut moved);
        assert(states_of(accepting_states@) =~= a.accepting + shifted_states(
            b.accepting,
            a.states,
        ));
        let r = Self { state_count: n1 + n2, accepting_states, transitions };
        r
    }

    /// Alternation: accepts what `m1` or `m2` accepts.
    pub fn or(m1: Self, m2: Self) -> (r: Self)
        requires
            m1@.states + m2@.states + 1 <= usize::MAX,
        ensures
            r@ == m1@.or(m2@),
            r@.wf(),
            m1@.loop_free() && m2@.loop_free() ==> r@.loop_free(),
            m1@.consuming() && m2@.consuming() ==> r@.consuming(),
            forall|input: Seq<char>, output: Seq<char>| #[trigger]
                r@.accepts(input, output) <==> m1@.accepts(input, output) || m2@.accepts(
                    input,
                    output,
                ),
    {
        proof {
            use_type_invariant(&m1);
            use_type_invariant(&m2);
            lemma_in_range(m1);
            lemma_in_range(m2);
            lemma_or_properties(m1@, m2@);
        }
        let ghost a = m1@;
        let ghost b = m2@;
        let FST { state_count: n1, accepting_states: a1, transitions: t1 } = m1;
        let FST { state_count: n2, accepting_states: a2, transitions: t2 } = m2;
        let mut transitions = shift_transitions(t1, 1);
        let mut shifted = shift_transitions(t2, n1 + 1);
        transitions.append(&mut shifted);
        transitions.push(Transition { from: 0, to: 1, on: None, with: None });
        transitions.push(Transition { from: 0, to: n1 + 1, on: None, with: None });
        assert(edges_of(transitions@) =~= a.or(b).edges);
        let mut accepting_states = shift_states(a1, 1);
        let mut moved = shift_states(a2, n1 + 1);
        accepting_states.append(&mut moved);
        assert(states_of(accepting_states@) =~= a.or(b).accepting);
        let r = Self { state_count: n1 + n2 + 1, accepting_states, transitions };
        r
    }

    /// The automaton that accepts exactly `s` and echoes it.
    pub fn string(s: &str) -> (r: Self)
        requires
            1 + 2 * s@.len() <= usize::MAX,
        ensures
            r@ == Machine::string(s@),
            r@.wf(),
            r@.states == 1 + 2 * s@.len(),
            r@.loop_free(),
            s@.len() > 0 ==> r@.consuming(),
            forall|input: Seq<char>, output: Seq<char>| #[trigger]
                r@.accepts(input, output) <==> input == s@ && output == s@,
    {
        let mut result = Self::empty();
        assert(s@.take(0) =~= Seq::empty());
        for c in it: s.chars()
            invariant
                it.seq() == s@,
                1 + 2 * s@.len() <= usize::MAX,
                result@ == Machine::string(s@.take(it.index())),
        {
            proof {
                lemma_string_wf(s@.take(it.index()));
                assert(s@.take(it.index() + 1).drop_last() =~= s@.take(it.index()));
            }
            result = FST::and(result, FST::symbol(c));
        }
        assert(s@.take(s@.len() as int) =~= s@);
        proof {
            lemma_string_properties(s@);
        }
        result
    }

    /// The automaton that accepts any one symbol of `symbols` and echoes it.
    pub fn one_of_symbols(symbols: Vec<char>) -> (r: Self)
        requires
            1 + 3 * symbols@.len() <= usize::MAX,
        ensures
            r@ == Machine::one_of_symbols(symbols@),
            r@.wf(),
            r@.states == 1 + 3 * symbols@.len(),
            r@.loop_free(),
            r@.consuming(),
            forall|input: Seq<char>, output: Seq<char>| #[trigger]
                r@.accepts(input, output) <==> echoes_one(symbols@, input, output),
    {
        let mut result = Self::all_reject();
        assert(symbols@.take(0) =~= Seq::empty());
        for symbol in it: symbols
            invariant
                it.seq() == symbols@,
                1 + 3 * symbols@.len() <= usize::MAX,
                result@ == Machine::one_of_symbols(symbols@.take(it.index())),
        {
            proof {
                lemma_string_wf(symbols@.take(it.index()));
                assert(symbols@.take(it.index() + 1).drop_last() =~= symbols@.take(it.index()));
            }
            result = FST::or(result, FST::symbol(symbol));
        }
        assert(symbols@.take(symbols@.len() as int) =~= symbols@);
        proof {
            lemma_one_of_symbols_properties(symbols@);
        }
        result
    }

    /// `m` with every output removed: it accepts what `m` accepts and emits
    /// nothing.
    pub fn consume(m: Self) -> (r: Self)
        ensures
            r@ == m@.consume(),
            r@.wf(),
            m@.loop_free() ==> r@.loop_free(),
            m@.consuming() ==> r@.consuming(),
            forall|input: Seq<char>, output: Seq<char>| #[trigger]
                r@.accepts(input, output) <==> accepted_muted(m@, input, output),
    {
        proof {
            use_type_invariant(&m);
            lemma_consume_properties(m@);
        }
        let FST { state_count, accepting_states, transitions: before } = m;
        let mut transitions: Vec<Transition> = Vec::new();
        for t in it: before
            invariant
                it.seq() == before@,
                transitions.len() == it.index(),
                forall|i: int|
                    0 <= i < transitions.len() ==> (#[trigger] transitions[i]).edge()
                        == muted_edge(before[i].edge()),
        {
            transitions.push(Transition { from: t.from, to: t.to, on: t.on, with: None });
        }
        assert(edges_of(transitions@) =~= muted_edges(edges_of(before@)));
        Self { state_count, accepting_states, transitions }
    }

    /// `m` between a leading fragment, `name` and a space, and a trailing
    /// space: the output of `m` labelled as a token.
    pub fn wrap(m: Self, name: &str) -> (r: Self)
        requires
            m@.states + 2 <= usize::MAX,
        ensures
            r@ == m@.wrap(name@),
            r@.wf(),
            m@.loop_free() ==> r@.loop_free(),
            m@.consuming() ==> r@.consuming(),
            forall|input: Seq<char>, output: Seq<char>| #[trigger]
                r@.accepts(input, output) <==> accepted_wrapped(m@, name@, input, output),
    {
        proof {
            use_type_invariant(&m);
            lemma_in_range(m);
            lemma_wrap_properties(m@, name@);
        }
        let ghost a = m@;
        let FST { state_count, accepting_states, transitions: before } = m;
        let mut transitions = shift_transitions(before, 2);
        let mut label = String::from_str(name);
        push_char(&mut label, ' ');
        transitions.push(Transition { from: 0, to: 2, on: None, with: Some(label) });
        assert(edges_of(transitions@) =~= shifted_edges(a.edges, 2).push(
            link(0, 2, Some(name@.push(' '))),
        ));
        let moved = shift_states(accepting_states, 2);
        link_all(&mut transitions, &moved, 1, &Some(char_text(' ')));
        let r = Self { state_count: state_count + 2, accepting_states: vec![1], transitions };
        assert(r@.accepting =~= seq![1int]);
        r
    }

    /// Alternation over all of `ms`: accepts what any of them accepts.
    pub fn one_of(ms: Vec<Self>) -> (r: Self)
        requires
            Machine::one_of(models(ms@)).states <= usize::MAX,
        ensures
            r@ == Machine::one_of(models(ms@)),
            r@.wf(),
            (forall|i: int| 0 <= i < ms.len() ==> (#[trigger] ms[i])@.loop_free())
                ==> r@.loop_free(),
            (forall|i: int| 0 <= i < ms.len() ==> (#[trigger] ms[i])@.consuming())
                ==> r@.consuming(),
            forall|input: Seq<char>, output: Seq<char>| #[trigger]
                r@.accepts(input, output) <==> accepted_by_one(models(ms@), input, output),
    {
        let ghost all = models(ms@);
        let mut result = Self::all_reject();
        assert(all.take(0) =~= Seq::empty());
        for m in it: ms
            invariant
                it.seq() == ms@,
                all == models(ms@),
                Machine::one_of(all).states <= usize::MAX,
                result@ == Machine::one_of(all.take(it.index())),
                forall|i: int| 0 <= i < it.index() ==> (#[trigger] all[i]).wf(),
        {
            proof {
                let i = it.index();
                use_type_invariant(&m);
                assert(all.take(i + 1).drop_last() =~= all.take(i));
                assert(all.take(i + 1).last() == m@);
                lemma_one_of_grows(all, i + 1);
            }
            result = Self::or(m, result);
        }
        assert(all.take(ms@.len() as int) =~= all);
        proof {
            assert forall|i: int| 0 <= i < all.len() implies #[trigger] all[i] == ms[i]@ by {}
            lemma_one_of_properties(all);
        }
        result
    }

    /// One or more repetitions of `m`.
    pub fn at_least_once(m: Self) -> (r: Self)
        ensures
            r@ == m@.at_least_once(),
            r@.wf(),
            m@.consuming() ==> r@.consuming() && r@.loop_free(),
            forall|input: Seq<char>, output: Seq<char>| #[trigger]
                r@.accepts(input, output) <==> accepted_repeatedly(m@, 1, input, output),
    {
        proof {
            use_type_invariant(&m);
            lemma_repetition_properties(m@);
        }
        let FST { state_count, accepting_states, transitions: before } = m;
        let mut transitions = before;
        link_all(&mut transitions, &accepting_states, 0, &None);
        Self { state_count, accepting_states, transitions }
    }

    /// Zero or more repetitions of `m`.
    ///
    /// State 0 is new; it starts, it alone accepts, it leads into `m`, and
    /// every accepting state of `m` leads back to it.
    pub fn repeated(m: Self) -> (r: Self)
        requires
            m@.states + 1 <= usize::MAX,
        ensures
            r@ == m@.repeated(),
            r@.wf(),
            m@.consuming() ==> r@.loop_free(),
            forall|input: Seq<char>, output: Seq<char>| #[trigger]
                r@.accepts(input, output) <==> accepted_repeatedly(m@, 0, input, output),
    {
        proof {
            use_type_invariant(&m);
            lemma_in_range(m);
            lemma_repetition_properties(m@);
        }
        let ghost a = m@;
        let FST { state_count, accepting_states, transitions: before } = m;
        let mut transitions = shift_transitions(before, 1);
        transitions.push(Transition { from: 0, to: 1, on: None, with: None });
        assert(edges_of(transitions@) =~= shifted_edges(a.edges, 1).push(link(0, 1, None)));
        let moved = shift_states(accepting_states, 1);
        link_all(&mut transitions, &moved, 0, &None);
        let r = Self { state_count: state_count + 1, accepting_states: vec![0], transitions };
        assert(r@.accepting =~= seq![0int]);
        r
    }

    /// The number of states.
    pub fn state_count(&self) -> (n: usize)
        ensures
            n == self@.states,
            self@.wf(),
    {
        proof {
            use_type_invariant(self);
        }
        self.state_count
    }
}

impl Clone for FST {
    /// A second automaton with the same states, transitions and accepting
    /// states.
    fn clone(&self) -> (r: Self)
        ensures
            r@ == self@,
    {
        proof {
            use_type_invariant(self);
        }
        let mut accepting_states: Vec<usize> = Vec::new();
        for i in 0..self.accepting_states.len()
            invariant
                accepting_states@ == self.accepting_states@.take(i as int),
        {
            accepting_states.push(self.accepting_states[i]);
            assert(self.accepting_states@.take(i + 1) =~= self.accepting_states@.take(
                i as int,
            ).push(self.accepting_states[i as int]));
        }
        assert(self.accepting_states@.take(self.accepting_states.len() as int)
            =~= self.accepting_states@);
        let mut transitions: Vec<Transition> = Vec::new();
        for i in 0..self.transitions.len()
            invariant
                transitions.len() == i,
                forall|k: int|
                    0 <= k < i ==> (#[trigger] transitions[k]).edge()
                        == self.transitions[k].edge(),
        {
            let t = &self.transitions[i];
            transitions.push(
                Transition { from: t.from, to: t.to, on: t.on, with: copy_fragment(&t.with) },
            );
        }
        assert(edges_of(transitions@) =~= edges_of(self.transitions@));
        Self { state_count: self.state_count, accepting_states, transitions }
    }
}

/// Every transition of a well-formed automaton runs between states below
/// the state count, and every accepting state lies below it.
proof fn lemma_in_range(m: FST)
    requires
        m@.wf(),
    ensures
        forall|i: int|
            0 <= i < m.transitions.len() ==> {
                &&& (#[trigger] m.transitions[i]).from < m.state_count
                &&& m.transitions[i].to < m.state_count
            },
        forall|i: int|
            0 <= i < m.accepting_states.len() ==> #[trigger] m.accepting_states[i] < m.state_count,
{
    assert forall|i: int| 0 <= i < m.transitions.len() implies {
        &&& (#[trigger] m.transitions[i]).from < m.state_count
        &&& m.transitions[i].to < m.state_count
    } by {
        assert(m@.edges[i] == m.transitions[i].edge());
    }
    assert forall|i: int| 0 <= i < m.accepting_states.len() implies #[trigger] m.accepting_states[i]
        < m.state_count by {
        assert(m@.accepting[i] == m.accepting_states[i]);
    }
}

/// The models of a sequence of automata, in order.
pub open spec fn models(ms: Seq<FST>) -> Seq<Machine> {
    Seq::new(ms.len(), |i: int| ms[i]@)
}

/// Alternation over a prefix has no more states than over the whole.
proof fn lemma_one_of_grows(machines: Seq<Machine>, n: int)
    requires
        0 <= n <= machines.len(),
        forall|i: int| 0 <= i < machines.len() ==> (#[trigger] machines[i]).states >= 0,
    ensures
        Machine::one_of(machines.take(n)).states <= Machine::one_of(machines).states,
    decreases machines.len() - n,
{
    if n < machines.len() {
        lemma_one_of_grows(machines, n + 1);
        assert(machines.take(n + 1).drop_last() =~= machines.take(n));
    } else {
        assert(machines.take(n) =~= machines);
    }
}

} // verus!
