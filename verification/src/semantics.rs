//! What running an automaton on an input yields.
//!
//! A run is a list of live branches, each a state with the fragments emitted
//! on the way to it. The list is kept in the order in which the branches are
//! found, and two branches that reach one state by different ways are both
//! kept.

use crate::model::{Edge, Machine};
use vstd::prelude::*;
use vstd::seq_lib::lemma_flatten_concat;

verus! {

/// One way through the automaton so far: the state reached, and the
/// fragments emitted on the way, in order.
pub struct Branch {
    pub state: int,
    pub path: Seq<Seq<char>>,
}

/// The branch every run starts from: the start state, nothing emitted.
pub open spec fn origin() -> Branch {
    Branch { state: 0, path: Seq::empty() }
}

/// Whether an edge leaves `state` and consumes `on`.
pub open spec fn takes(state: int, on: Option<char>) -> spec_fn(Edge) -> bool {
    |e: Edge| e.from == state && e.on == on
}

/// The branch `b` after it has followed `e`.
pub open spec fn advance(b: Branch, e: Edge) -> Branch {
    Branch {
        state: e.to,
        path: match e.with {
            Some(fragment) => b.path.push(fragment),
            None => b.path,
        },
    }
}

/// `advance` from a fixed branch.
pub open spec fn along(b: Branch) -> spec_fn(Edge) -> Branch {
    |e: Edge| advance(b, e)
}

/// The branches that `b` becomes by one edge of `edges` that consumes `on`,
/// in the order of the edges.
pub open spec fn fired(edges: Seq<Edge>, b: Branch, on: Option<char>) -> Seq<Branch> {
    edges.filter(takes(b.state, on)).map_values(along(b))
}

/// `fired` as a function of the branch.
pub open spec fn firing(edges: Seq<Edge>, on: Option<char>) -> spec_fn(Branch) -> Seq<Branch> {
    |b: Branch| fired(edges, b, on)
}

/// The branches that those of `live` become by one edge that consumes `on`:
/// branch by branch, and for each branch edge by edge.
pub open spec fn fired_all(edges: Seq<Edge>, live: Seq<Branch>, on: Option<char>) -> Seq<Branch> {
    live.flat_map(firing(edges, on))
}

/// Whether a branch stands in one of `accepting`.
pub open spec fn stands_in(accepting: Seq<int>) -> spec_fn(Branch) -> bool {
    |b: Branch| accepting.contains(b.state)
}

/// The text a branch has emitted: its fragments joined in order.
pub open spec fn emitted() -> spec_fn(Branch) -> Seq<char> {
    |b: Branch| b.path.flatten()
}

impl Machine {
    /// The branches reached from `live` by epsilon edges alone, `live`
    /// included: first `live`, then what `live` reaches by one epsilon edge,
    /// then what that reaches by one more, for at most `rounds` rounds.
    pub open spec fn closure(self, live: Seq<Branch>, rounds: nat) -> Seq<Branch>
        decreases rounds,
    {
        if rounds == 0 || live.len() == 0 {
            Seq::empty()
        } else {
            live + self.closure(fired_all(self.edges, live, None), (rounds - 1) as nat)
        }
    }

    /// The epsilon closure of `live`, cut after as many rounds as there are
    /// states. Without a cycle of epsilon edges no branch is lost by the cut
    /// (see `lemma_closure_settles`); with one, the uncut closure would be
    /// infinite.
    pub open spec fn epsilon_closure(self, live: Seq<Branch>) -> Seq<Branch> {
        self.closure(live, self.states as nat)
    }

    /// The live branches after `live` has consumed `symbol`.
    pub open spec fn step(self, live: Seq<Branch>, symbol: char) -> Seq<Branch> {
        self.epsilon_closure(fired_all(self.edges, live, Some(symbol)))
    }

    /// The live branches after the whole of `input` has been consumed from
    /// the start state.
    pub open spec fn run(self, input: Seq<char>) -> Seq<Branch>
        decreases input.len(),
    {
        if input.len() == 0 {
            self.epsilon_closure(seq![origin()])
        } else {
            self.step(self.run(input.drop_last()), input.last())
        }
    }

    /// What the branches of `live` that stand in an accepting state have
    /// emitted, in the order of `live`.
    pub open spec fn outputs(self, live: Seq<Branch>) -> Seq<Seq<char>> {
        live.filter(stands_in(self.accepting)).map_values(emitted())
    }

    /// The output of every accepting path for `input`, one entry per path.
    pub open spec fn matches(self, input: Seq<char>) -> Seq<Seq<char>> {
        self.outputs(self.run(input))
    }
}

/// Firing over two lists of edges, one after the other.
pub proof fn lemma_fired_add(e1: Seq<Edge>, e2: Seq<Edge>, b: Branch, on: Option<char>)
    ensures
        fired(e1 + e2, b, on) == fired(e1, b, on) + fired(e2, b, on),
{
    Seq::filter_distributes_over_add(e1, e2, takes(b.state, on));
    assert(fired(e1 + e2, b, on) =~= fired(e1, b, on) + fired(e2, b, on));
}

/// Firing over a list of edges with one more edge at its end.
pub proof fn lemma_fired_push(edges: Seq<Edge>, e: Edge, b: Branch, on: Option<char>)
    ensures
        fired(edges.push(e), b, on) == if e.from == b.state && e.on == on {
            fired(edges, b, on).push(advance(b, e))
        } else {
            fired(edges, b, on)
        },
        fired(Seq::empty(), b, on) == Seq::<Branch>::empty(),
{
    Seq::lemma_filter_push(edges, e, takes(b.state, on));
    assert(fired(edges.push(e), b, on) =~= if e.from == b.state && e.on == on {
        fired(edges, b, on).push(advance(b, e))
    } else {
        fired(edges, b, on)
    });
    Seq::<Edge>::empty().lemma_filter_len(takes(b.state, on));
    assert(fired(Seq::empty(), b, on) =~= Seq::<Branch>::empty());
}

/// Firing from two lists of branches, one after the other.
pub proof fn lemma_fired_all_add(
    edges: Seq<Edge>,
    l1: Seq<Branch>,
    l2: Seq<Branch>,
    on: Option<char>,
)
    ensures
        fired_all(edges, l1 + l2, on) == fired_all(edges, l1, on) + fired_all(edges, l2, on),
{
    let f = firing(edges, on);
    assert((l1 + l2).map_values(f) =~= l1.map_values(f) + l2.map_values(f));
    lemma_flatten_concat(l1.map_values(f), l2.map_values(f));
}

/// Firing from a list of branches with one more branch at its end.
pub proof fn lemma_fired_all_push(edges: Seq<Edge>, live: Seq<Branch>, b: Branch, on: Option<char>)
    ensures
        fired_all(edges, live.push(b), on) == fired_all(edges, live, on) + fired(edges, b, on),
        fired_all(edges, Seq::empty(), on) == Seq::<Branch>::empty(),
        fired_all(edges, seq![b], on) == fired(edges, b, on),
{
    live.lemma_flat_map_push(firing(edges, on), b);
    assert(Seq::<Branch>::empty().map_values(firing(edges, on)) =~= Seq::empty());
    assert(fired_all(edges, Seq::empty(), on) =~= Seq::<Branch>::empty());
    Seq::<Branch>::empty().lemma_flat_map_push(firing(edges, on), b);
    assert(Seq::<Branch>::empty().push(b) =~= seq![b]);
}

/// The outputs of two lists of branches, one after the other.
pub proof fn lemma_outputs_add(m: Machine, l1: Seq<Branch>, l2: Seq<Branch>)
    ensures
        m.outputs(l1 + l2) == m.outputs(l1) + m.outputs(l2),
{
    Seq::filter_distributes_over_add(l1, l2, stands_in(m.accepting));
    assert(m.outputs(l1 + l2) =~= m.outputs(l1) + m.outputs(l2));
}

/// The outputs of a list of branches with one more branch at its end.
pub proof fn lemma_outputs_push(m: Machine, live: Seq<Branch>, b: Branch)
    ensures
        m.outputs(live.push(b)) == if m.accepting.contains(b.state) {
            m.outputs(live).push(b.path.flatten())
        } else {
            m.outputs(live)
        },
        m.outputs(Seq::empty()) == Seq::<Seq<char>>::empty(),
{
    Seq::lemma_filter_push(live, b, stands_in(m.accepting));
    assert(m.outputs(live.push(b)) =~= if m.accepting.contains(b.state) {
        m.outputs(live).push(b.path.flatten())
    } else {
        m.outputs(live)
    });
    Seq::<Branch>::empty().lemma_filter_len(stands_in(m.accepting));
    assert(m.outputs(Seq::empty()) =~= Seq::<Seq<char>>::empty());
}

/// Every branch of `fired(edges, b, on)` is `b` advanced along an edge of
/// `edges` that leaves the state of `b` and consumes `on`. Returns the index
/// of such an edge for the branch at `i`.
pub proof fn lemma_fired_member(edges: Seq<Edge>, b: Branch, on: Option<char>, i: int) -> (j: int)
    requires
        0 <= i < fired(edges, b, on).len(),
    ensures
        0 <= j < edges.len(),
        edges[j].from == b.state,
        edges[j].on == on,
        fired(edges, b, on)[i] == advance(b, edges[j]),
    decreases edges.len(),
{
    if edges.len() == 0 {
        lemma_fired_push(edges, arbitrary(), b, on);
        assert(edges =~= Seq::empty());
        0
    } else {
        let rest = edges.drop_last();
        assert(edges =~= rest.push(edges.last()));
        lemma_fired_push(rest, edges.last(), b, on);
        if i < fired(rest, b, on).len() {
            lemma_fired_member(rest, b, on, i)
        } else {
            edges.len() - 1
        }
    }
}

/// Every branch of `fired_all(edges, live, on)` is a branch of `live`
/// advanced along an edge of `edges` that leaves its state and consumes
/// `on`. Returns the indices of such a branch and such an edge for the
/// branch at `i`.
pub proof fn lemma_fired_all_member(
    edges: Seq<Edge>,
    live: Seq<Branch>,
    on: Option<char>,
    i: int,
) -> (at: (int, int))
    requires
        0 <= i < fired_all(edges, live, on).len(),
    ensures
        0 <= at.0 < live.len(),
        0 <= at.1 < edges.len(),
        edges[at.1].from == live[at.0].state,
        edges[at.1].on == on,
        fired_all(edges, live, on)[i] == advance(live[at.0], edges[at.1]),
    decreases live.len(),
{
    if live.len() == 0 {
        lemma_fired_all_push(edges, live, arbitrary(), on);
        assert(live =~= Seq::empty());
        (0, 0)
    } else {
        let rest = live.drop_last();
        assert(live =~= rest.push(live.last()));
        lemma_fired_all_push(edges, rest, live.last(), on);
        let before = fired_all(edges, rest, on);
        if i < before.len() {
            lemma_fired_all_member(edges, rest, on, i)
        } else {
            let j = lemma_fired_member(edges, live.last(), on, i - before.len());
            (live.len() - 1, j)
        }
    }
}

/// Whether every branch of `live` stands in a state from `low` up to, but
/// not including, `high`.
pub open spec fn all_between(live: Seq<Branch>, low: int, high: int) -> bool {
    forall|i: int| 0 <= i < live.len() ==> low <= (#[trigger] live[i]).state < high
}

/// Firing leads to states of the machine only.
pub proof fn lemma_fired_all_in_range(m: Machine, live: Seq<Branch>, on: Option<char>)
    requires
        m.wf(),
    ensures
        all_between(fired_all(m.edges, live, on), 0, m.states),
{
    let next = fired_all(m.edges, live, on);
    assert forall|i: int| 0 <= i < next.len() implies 0 <= (#[trigger] next[i]).state
        < m.states by {
        let at = lemma_fired_all_member(m.edges, live, on, i);
    }
}

/// The closure of branches that stand in states of the machine holds only
/// such branches.
pub proof fn lemma_closure_in_range(m: Machine, live: Seq<Branch>, rounds: nat)
    requires
        m.wf(),
        all_between(live, 0, m.states),
    ensures
        all_between(m.closure(live, rounds), 0, m.states),
    decreases rounds,
{
    if rounds > 0 && live.len() > 0 {
        lemma_fired_all_in_range(m, live, None);
        lemma_closure_in_range(m, fired_all(m.edges, live, None), (rounds - 1) as nat);
    }
}

/// Every live branch of a run stands in a state of the machine.
pub proof fn lemma_run_in_range(m: Machine, input: Seq<char>)
    requires
        m.wf(),
    ensures
        all_between(m.run(input), 0, m.states),
    decreases input.len(),
{
    if input.len() == 0 {
        lemma_closure_in_range(m, seq![origin()], m.states as nat);
    } else {
        let fresh = fired_all(m.edges, m.run(input.drop_last()), Some(input.last()));
        lemma_fired_all_in_range(m, m.run(input.drop_last()), Some(input.last()));
        lemma_closure_in_range(m, fresh, m.states as nat);
    }
}

} // verus!
