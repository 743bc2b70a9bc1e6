//! The automaton as a mathematical object, and the constructions on it.

use vstd::prelude::*;

verus! {

/// A directed edge between two states.
///
/// `on` is the symbol the edge consumes, or `None` for an epsilon edge.
/// `with` is the fragment it emits, or `None` when it emits nothing.
pub struct Edge {
    pub from: int,
    pub to: int,
    pub on: Option<char>,
    pub with: Option<Seq<char>>,
}

/// An automaton: states are the integers below `states`, state 0 is the
/// start state.
pub struct Machine {
    pub states: int,
    pub accepting: Seq<int>,
    pub edges: Seq<Edge>,
}

/// An epsilon edge that emits `with`.
pub open spec fn link(from: int, to: int, with: Option<Seq<char>>) -> Edge {
    Edge { from, to, on: None, with }
}

/// The edge `e` with both ends moved up by `by`.
pub open spec fn shifted_edge(e: Edge, by: int) -> Edge {
    Edge { from: e.from + by, to: e.to + by, on: e.on, with: e.with }
}

/// The edge `e` with its output removed.
pub open spec fn muted_edge(e: Edge) -> Edge {
    Edge { from: e.from, to: e.to, on: e.on, with: None }
}

/// Every edge of `edges` moved up by `by`, in the same order.
pub open spec fn shifted_edges(edges: Seq<Edge>, by: int) -> Seq<Edge> {
    Seq::new(edges.len(), |i: int| shifted_edge(edges[i], by))
}

/// Every state of `states` moved up by `by`, in the same order.
pub open spec fn shifted_states(states: Seq<int>, by: int) -> Seq<int> {
    Seq::new(states.len(), |i: int| states[i] + by)
}

/// One epsilon edge from each state of `sources` to `to`, each emitting `with`.
pub open spec fn links(sources: Seq<int>, to: int, with: Option<Seq<char>>) -> Seq<Edge> {
    Seq::new(sources.len(), |i: int| link(sources[i], to, with))
}

/// Every edge of `edges` with its output removed.
pub open spec fn muted_edges(edges: Seq<Edge>) -> Seq<Edge> {
    Seq::new(edges.len(), |i: int| muted_edge(edges[i]))
}

impl Machine {
    /// The structural invariant: there is a start state, every accepting state
    /// and both ends of every edge are states, and no accepting state is
    /// listed twice.
    pub open spec fn wf(self) -> bool {
        &&& self.states >= 1
        &&& forall|i: int|
            0 <= i < self.accepting.len() ==> 0 <= #[trigger] self.accepting[i] < self.states
        &&& forall|i: int, j: int|
            0 <= i < j < self.accepting.len() ==> self.accepting[i] != self.accepting[j]
        &&& forall|i: int|
            0 <= i < self.edges.len() ==> {
                &&& 0 <= (#[trigger] self.edges[i]).from < self.states
                &&& 0 <= self.edges[i].to < self.states
            }
    }

    /// Accepts the empty input and nothing else.
    pub open spec fn empty() -> Machine {
        Machine { states: 1, accepting: seq![0int], edges: Seq::empty() }
    }

    /// Accepts nothing.
    pub open spec fn all_reject() -> Machine {
        Machine { states: 1, accepting: Seq::empty(), edges: Seq::empty() }
    }

    /// Accepts the one symbol `c` and echoes it.
    pub open spec fn symbol(c: char) -> Machine {
        Machine {
            states: 2,
            accepting: seq![1int],
            edges: seq![Edge { from: 0, to: 1, on: Some(c), with: Some(seq![c]) }],
        }
    }

    /// Concatenation: `self`, then `next`. The states of `next` follow those
    /// of `self`, and every accepting state of `self` is linked to the start
    /// of `next`.
    pub open spec fn and(self, next: Machine) -> Machine {
        Machine {
            states: self.states + next.states,
            accepting: shifted_states(next.accepting, self.states),
            edges: self.edges + shifted_edges(next.edges, self.states) + links(
                self.accepting,
                self.states,
                None,
            ),
        }
    }

    /// Like `and`, but `self` alone is accepted too.
    pub open spec fn and_optionally(self, next: Machine) -> Machine {
        Machine {
            states: self.states + next.states,
            accepting: self.accepting + shifted_states(next.accepting, self.states),
            edges: self.edges + shifted_edges(next.edges, self.states) + links(
                self.accepting,
                self.states,
                None,
            ),
        }
    }

    /// Alternation: a new start state branches into `self` (moved up by one)
    /// and into `other` (moved up past `self`).
    pub open spec fn or(self, other: Machine) -> Machine {
        Machine {
            states: self.states + other.states + 1,
            accepting: shifted_states(self.accepting, 1) + shifted_states(
                other.accepting,
                self.states + 1,
            ),
            edges: shifted_edges(self.edges, 1) + shifted_edges(other.edges, self.states + 1)
                + seq![link(0, 1, None), link(0, self.states + 1, None)],
        }
    }

    /// One or more repetitions: every accepting state is linked back to the
    /// start.
    pub open spec fn at_least_once(self) -> Machine {
        Machine {
            states: self.states,
            accepting: self.accepting,
            edges: self.edges + links(self.accepting, 0, None),
        }
    }

    /// Zero or more repetitions: a new start state, which alone accepts,
    /// leads into `self` (moved up by one), and every accepting state of
    /// `self` is linked back to it.
    pub open spec fn repeated(self) -> Machine {
        Machine {
            states: self.states + 1,
            accepting: seq![0int],
            edges: shifted_edges(self.edges, 1).push(link(0, 1, None)) + links(
                shifted_states(self.accepting, 1),
                0,
                None,
            ),
        }
    }

    /// `self` between a leading fragment, `name` and a space, and a trailing
    /// space. States 0 and 1 are new: 0 starts, 1 alone accepts.
    pub open spec fn wrap(self, name: Seq<char>) -> Machine {
        Machine {
            states: self.states + 2,
            accepting: seq![1int],
            edges: shifted_edges(self.edges, 2).push(link(0, 2, Some(name.push(' ')))) + links(
                shifted_states(self.accepting, 2),
                1,
                Some(seq![' ']),
            ),
        }
    }

    /// `self` with every output removed.
    pub open spec fn consume(self) -> Machine {
        Machine {
            states: self.states,
            accepting: self.accepting,
            edges: muted_edges(self.edges),
        }
    }

    /// Accepts exactly `text` and echoes it: the symbols of `text`
    /// concatenated in order, starting from `empty`.
    pub open spec fn string(text: Seq<char>) -> Machine
        decreases text.len(),
    {
        if text.len() == 0 {
            Machine::empty()
        } else {
            Machine::string(text.drop_last()).and(Machine::symbol(text.last()))
        }
    }

    /// Accepts any one symbol of `symbols` and echoes it: alternation folded
    /// over the symbols in order, starting from `all_reject`.
    pub open spec fn one_of_symbols(symbols: Seq<char>) -> Machine
        decreases symbols.len(),
    {
        if symbols.len() == 0 {
            Machine::all_reject()
        } else {
            Machine::one_of_symbols(symbols.drop_last()).or(Machine::symbol(symbols.last()))
        }
    }

    /// Accepts what any of `machines` accepts: alternation folded over them
    /// in order, starting from `all_reject`, each new machine on the left.
    pub open spec fn one_of(machines: Seq<Machine>) -> Machine
        decreases machines.len(),
    {
        if machines.len() == 0 {
            Machine::all_reject()
        } else {
            machines.last().or(Machine::one_of(machines.drop_last()))
        }
    }
}

/// Concatenation keeps the structural invariant.
pub proof fn lemma_and_wf(a: Machine, b: Machine)
    requires
        a.wf(),
        b.wf(),
    ensures
        a.and(b).wf(),
        a.and_optionally(b).wf(),
{
    let m = a.and(b);
    assert forall|i: int| 0 <= i < m.edges.len() implies {
        &&& 0 <= (#[trigger] m.edges[i]).from < m.states
        &&& 0 <= m.edges[i].to < m.states
    } by {
        if i < a.edges.len() {
            assert(m.edges[i] == a.edges[i]);
        } else if i < a.edges.len() + b.edges.len() {
            assert(m.edges[i] == shifted_edge(b.edges[i - a.edges.len()], a.states));
        } else {
            let k = i - a.edges.len() - b.edges.len();
            assert(m.edges[i] == link(a.accepting[k], a.states, None));
        }
    }
    let o = a.and_optionally(b);
    assert(o.edges == m.edges);
    assert forall|i: int| 0 <= i < o.accepting.len() implies 0 <= #[trigger] o.accepting[i]
        < o.states by {
        if i < a.accepting.len() {
            assert(o.accepting[i] == a.accepting[i]);
        } else {
            assert(o.accepting[i] == b.accepting[i - a.accepting.len()] + a.states);
        }
    }
    assert forall|i: int, j: int| 0 <= i < j < o.accepting.len() implies o.accepting[i]
        != o.accepting[j] by {
        if i >= a.accepting.len() {
            assert(o.accepting[i] == b.accepting[i - a.accepting.len()] + a.states);
        }
        if j >= a.accepting.len() {
            assert(o.accepting[j] == b.accepting[j - a.accepting.len()] + a.states);
        }
    }
}

/// Alternation keeps the structural invariant.
pub proof fn lemma_or_wf(a: Machine, b: Machine)
    requires
        a.wf(),
        b.wf(),
    ensures
        a.or(b).wf(),
{
    let m = a.or(b);
    assert forall|i: int| 0 <= i < m.edges.len() implies {
        &&& 0 <= (#[trigger] m.edges[i]).from < m.states
        &&& 0 <= m.edges[i].to < m.states
    } by {
        if i < a.edges.len() {
            assert(m.edges[i] == shifted_edge(a.edges[i], 1));
        } else if i < a.edges.len() + b.edges.len() {
            assert(m.edges[i] == shifted_edge(b.edges[i - a.edges.len()], a.states + 1));
        }
    }
    assert forall|i: int| 0 <= i < m.accepting.len() implies 0 <= #[trigger] m.accepting[i]
        < m.states by {
        if i < a.accepting.len() {
            assert(m.accepting[i] == a.accepting[i] + 1);
        } else {
            assert(m.accepting[i] == b.accepting[i - a.accepting.len()] + a.states + 1);
        }
    }
    assert forall|i: int, j: int| 0 <= i < j < m.accepting.len() implies m.accepting[i]
        != m.accepting[j] by {
        if i < a.accepting.len() {
            assert(m.accepting[i] == a.accepting[i] + 1);
        } else {
            assert(m.accepting[i] == b.accepting[i - a.accepting.len()] + a.states + 1);
        }
        if j < a.accepting.len() {
            assert(m.accepting[j] == a.accepting[j] + 1);
        } else {
            assert(m.accepting[j] == b.accepting[j - a.accepting.len()] + a.states + 1);
        }
    }
}

/// Repetition, wrapping and muting keep the structural invariant.
pub proof fn lemma_unary_wf(a: Machine, name: Seq<char>)
    requires
        a.wf(),
    ensures
        a.at_least_once().wf(),
        a.repeated().wf(),
        a.wrap(name).wf(),
        a.consume().wf(),
{
    let m = a.at_least_once();
    assert forall|i: int| 0 <= i < m.edges.len() implies {
        &&& 0 <= (#[trigger] m.edges[i]).from < m.states
        &&& 0 <= m.edges[i].to < m.states
    } by {
        if i < a.edges.len() {
            assert(m.edges[i] == a.edges[i]);
        } else {
            assert(m.edges[i] == link(a.accepting[i - a.edges.len()], 0, None));
        }
    }
    let r = a.repeated();
    assert forall|i: int| 0 <= i < r.edges.len() implies {
        &&& 0 <= (#[trigger] r.edges[i]).from < r.states
        &&& 0 <= r.edges[i].to < r.states
    } by {
        if i < a.edges.len() {
            assert(r.edges[i] == shifted_edge(a.edges[i], 1));
        } else if i > a.edges.len() {
            assert(r.edges[i] == link(a.accepting[i - a.edges.len() - 1] + 1, 0, None));
        }
    }
    let w = a.wrap(name);
    assert forall|i: int| 0 <= i < w.edges.len() implies {
        &&& 0 <= (#[trigger] w.edges[i]).from < w.states
        &&& 0 <= w.edges[i].to < w.states
    } by {
        if i < a.edges.len() {
            assert(w.edges[i] == shifted_edge(a.edges[i], 2));
        } else if i > a.edges.len() {
            assert(w.edges[i] == link(a.accepting[i - a.edges.len() - 1] + 2, 1, Some(seq![' '])));
        }
    }
    let c = a.consume();
    assert forall|i: int| 0 <= i < c.edges.len() implies {
        &&& 0 <= (#[trigger] c.edges[i]).from < c.states
        &&& 0 <= c.edges[i].to < c.states
    } by {
        assert(c.edges[i] == muted_edge(a.edges[i]));
    }
}

/// The folded constructions keep the structural invariant, and say how many
/// states they make.
pub proof fn lemma_string_wf(text: Seq<char>)
    ensures
        Machine::string(text).wf(),
        Machine::string(text).states == 1 + 2 * text.len(),
        Machine::one_of_symbols(text).wf(),
        Machine::one_of_symbols(text).states == 1 + 3 * text.len(),
    decreases text.len(),
{
    if text.len() > 0 {
        lemma_string_wf(text.drop_last());
        lemma_and_wf(Machine::string(text.drop_last()), Machine::symbol(text.last()));
        lemma_or_wf(Machine::one_of_symbols(text.drop_last()), Machine::symbol(text.last()));
    }
}

/// Alternation over well-formed machines is well formed.
pub proof fn lemma_one_of_wf(machines: Seq<Machine>)
    requires
        forall|i: int| 0 <= i < machines.len() ==> (#[trigger] machines[i]).wf(),
    ensures
        Machine::one_of(machines).wf(),
    decreases machines.len(),
{
    if machines.len() > 0 {
        lemma_one_of_wf(machines.drop_last());
        lemma_or_wf(machines.last(), Machine::one_of(machines.drop_last()));
    }
}

} // verus!
