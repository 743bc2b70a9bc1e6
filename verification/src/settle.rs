//! Automata without a cycle of epsilon edges, and why their epsilon closure
//! is never cut short.

use crate::model::Machine;
use crate::semantics::{fired_all, lemma_fired_all_member, origin, Branch};
use vstd::prelude::*;

verus! {

/// Whether every branch of `live` stands in a state whose rank is at least 0
/// and below `height`.
pub open spec fn all_ranked_below(live: Seq<Branch>, rank: Seq<int>, height: int) -> bool {
    forall|i: int|
        0 <= i < live.len() ==> {
            &&& 0 <= (#[trigger] live[i]).state < rank.len()
            &&& 0 <= rank[live[i].state] < height
        }
}

impl Machine {
    /// Whether `rank` shows that no run meets a cycle of epsilon edges.
    ///
    /// It gives every state a number below the count of states. The states
    /// with a number from 0 on hold the start state and every state that an
    /// edge reaches from one of them, so every state that a run can reach;
    /// among them every epsilon edge leads to a lower number.
    pub open spec fn ranked_by(self, rank: Seq<int>) -> bool {
        &&& rank.len() == self.states
        &&& forall|q: int| 0 <= q < self.states ==> #[trigger] rank[q] < self.states
        &&& rank[0] >= 0
        &&& forall|i: int|
            0 <= i < self.edges.len() && rank[(#[trigger] self.edges[i]).from] >= 0 ==> {
                &&& rank[self.edges[i].to] >= 0
                &&& self.edges[i].on is None ==> rank[self.edges[i].to] < rank[self.edges[i].from]
            }
    }

    /// Whether no state that can be reached from the start lies on a cycle
    /// of epsilon edges.
    pub open spec fn loop_free(self) -> bool {
        exists|rank: Seq<int>| #[trigger] self.ranked_by(rank)
    }

    /// Whether `rank` shows that no run meets a cycle of epsilon edges, and
    /// that no run comes to an accepting state by epsilon edges alone: every
    /// accepting state that a run can reach ranks above the start state.
    pub open spec fn consuming_by(self, rank: Seq<int>) -> bool {
        &&& self.ranked_by(rank)
        &&& forall|i: int|
            0 <= i < self.accepting.len() && rank[#[trigger] self.accepting[i]] >= 0
                ==> rank[self.accepting[i]] > rank[0]
    }

    /// Whether the automaton has no cycle of epsilon edges within reach and
    /// accepts nothing before it has consumed a symbol.
    pub open spec fn consuming(self) -> bool {
        exists|rank: Seq<int>| #[trigger] self.consuming_by(rank)
    }
}

/// One round leads from ranked states to ranked states, and by epsilon edges
/// to states of lower rank.
pub proof fn lemma_round_ranked(
    m: Machine,
    rank: Seq<int>,
    live: Seq<Branch>,
    on: Option<char>,
    height: int,
)
    requires
        m.wf(),
        m.ranked_by(rank),
        all_ranked_below(live, rank, height),
    ensures
        all_ranked_below(fired_all(m.edges, live, on), rank, m.states),
        on is None ==> all_ranked_below(fired_all(m.edges, live, on), rank, height - 1),
{
    let next = fired_all(m.edges, live, on);
    assert forall|i: int| 0 <= i < next.len() implies {
        &&& 0 <= (#[trigger] next[i]).state < rank.len()
        &&& 0 <= rank[next[i].state] < m.states
        &&& on is None ==> rank[next[i].state] < height - 1
    } by {
        let at = lemma_fired_all_member(m.edges, live, on, i);
        let b = live[at.0];
        let e = m.edges[at.1];
        assert(rank[e.from] >= 0);
        assert(rank[e.to] >= 0);
    }
}

/// Once the closure has had as many rounds as the highest rank among its
/// branches allows, further rounds find nothing; and the closure of ranked
/// branches holds only ranked branches.
pub proof fn lemma_closure_settles(
    m: Machine,
    rank: Seq<int>,
    live: Seq<Branch>,
    height: nat,
    rounds: nat,
)
    requires
        m.wf(),
        m.ranked_by(rank),
        all_ranked_below(live, rank, height as int),
        rounds >= height,
    ensures
        m.closure(live, rounds) == m.closure(live, height),
        all_ranked_below(m.closure(live, rounds), rank, height as int),
    decreases height,
{
    if live.len() > 0 {
        assert(0 <= rank[live[0].state] < height);
        let next = fired_all(m.edges, live, None);
        lemma_round_ranked(m, rank, live, None, height as int);
        lemma_closure_settles(m, rank, next, (height - 1) as nat, (rounds - 1) as nat);
    }
}

/// Every live branch of a run stands in a ranked state.
pub proof fn lemma_run_ranked(m: Machine, rank: Seq<int>, input: Seq<char>)
    requires
        m.wf(),
        m.ranked_by(rank),
    ensures
        all_ranked_below(m.run(input), rank, m.states),
    decreases input.len(),
{
    if input.len() == 0 {
        lemma_closure_settles(m, rank, seq![origin()], m.states as nat, m.states as nat);
    } else {
        let before = m.run(input.drop_last());
        lemma_run_ranked(m, rank, input.drop_last());
        lemma_round_ranked(m, rank, before, Some(input.last()), m.states);
        lemma_closure_settles(
            m,
            rank,
            fired_all(m.edges, before, Some(input.last())),
            m.states as nat,
            m.states as nat,
        );
    }
}

} // verus!
