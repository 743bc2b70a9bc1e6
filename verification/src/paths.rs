//! What an automaton accepts, said by its paths: an input is accepted with
//! an output when some path leads from the start state to an accepting
//! state, consumes the input and emits the output.

use crate::model::{shifted_edge, shifted_edges, Edge, Machine};
use crate::semantics::{
    advance, fired, fired_all, lemma_fired_all_member, lemma_fired_all_push, lemma_fired_push,
    lemma_outputs_push, origin, Branch,
};
use crate::settle::{all_ranked_below, lemma_closure_settles, lemma_round_ranked, lemma_run_ranked};
use vstd::prelude::*;

verus! {

/// The branch that `b` becomes by following the edges of `path` in order.
pub open spec fn walk(path: Seq<Edge>, b: Branch) -> Branch
    decreases path.len(),
{
    if path.len() == 0 {
        b
    } else {
        advance(walk(path.drop_last(), b), path.last())
    }
}

/// Whether `path` is a path of `edges` from the state of `b`: each of its
/// edges is one of `edges` and leaves the state that the one before it
/// leads to.
pub open spec fn walkable(edges: Seq<Edge>, path: Seq<Edge>, b: Branch) -> bool
    decreases path.len(),
{
    path.len() > 0 ==> {
        &&& walkable(edges, path.drop_last(), b)
        &&& edges.contains(path.last())
        &&& path.last().from == walk(path.drop_last(), b).state
    }
}

/// The symbols that the edges of `path` consume, in order.
pub open spec fn consumed(path: Seq<Edge>) -> Seq<char>
    decreases path.len(),
{
    if path.len() == 0 {
        Seq::empty()
    } else {
        match path.last().on {
            Some(c) => consumed(path.drop_last()).push(c),
            None => consumed(path.drop_last()),
        }
    }
}

impl Machine {
    /// Whether `path` leads from the start state to `b` and consumes `input`.
    pub open spec fn leads(self, path: Seq<Edge>, input: Seq<char>, b: Branch) -> bool {
        &&& walkable(self.edges, path, origin())
        &&& consumed(path) == input
        &&& walk(path, origin()) == b
    }

    /// Whether some path leads from the start state to `b` and consumes
    /// `input`.
    pub open spec fn reaches(self, input: Seq<char>, b: Branch) -> bool {
        exists|path: Seq<Edge>| #[trigger] self.leads(path, input, b)
    }

    /// Whether `input` is accepted with `output`: some path leads from the
    /// start state to an accepting state, consumes `input` and emits the
    /// fragments that make up `output`.
    pub open spec fn accepts(self, input: Seq<char>, output: Seq<char>) -> bool {
        exists|b: Branch|
            #![trigger self.reaches(input, b)]
            self.reaches(input, b) && self.accepting.contains(b.state) && b.path.flatten()
                == output
    }
}

/// Whether some path leads to each branch of `live` and consumes `input`.
pub open spec fn all_reached(m: Machine, live: Seq<Branch>, input: Seq<char>) -> bool {
    forall|i: int| 0 <= i < live.len() ==> m.reaches(input, #[trigger] live[i])
}

/// A path with one more edge leads where the edge leads.
pub proof fn lemma_leads_push(m: Machine, path: Seq<Edge>, input: Seq<char>, b: Branch, e: Edge)
    requires
        m.leads(path, input, b),
        m.edges.contains(e),
        e.from == b.state,
    ensures
        m.leads(
            path.push(e),
            match e.on {
                Some(c) => input.push(c),
                None => input,
            },
            advance(b, e),
        ),
{
    assert(path.push(e).drop_last() =~= path);
}

/// One round leads from reached branches to reached branches.
pub proof fn lemma_round_reached(m: Machine, live: Seq<Branch>, input: Seq<char>, on: Option<char>)
    requires
        all_reached(m, live, input),
    ensures
        all_reached(
            m,
            fired_all(m.edges, live, on),
            match on {
                Some(c) => input.push(c),
                None => input,
            },
        ),
{
    let next = fired_all(m.edges, live, on);
    let longer = match on {
        Some(c) => input.push(c),
        None => input,
    };
    assert forall|i: int| 0 <= i < next.len() implies m.reaches(longer, #[trigger] next[i]) by {
        let at = lemma_fired_all_member(m.edges, live, on, i);
        let b = live[at.0];
        let e = m.edges[at.1];
        assert(m.reaches(input, b));
        let path = choose|path: Seq<Edge>| #[trigger] m.leads(path, input, b);
        lemma_leads_push(m, path, input, b, e);
        assert(m.leads(path.push(e), longer, next[i]));
    }
}

/// The closure of reached branches holds only reached branches.
pub proof fn lemma_closure_reached(m: Machine, live: Seq<Branch>, input: Seq<char>, rounds: nat)
    requires
        all_reached(m, live, input),
    ensures
        all_reached(m, m.closure(live, rounds), input),
    decreases rounds,
{
    if rounds > 0 && live.len() > 0 {
        lemma_round_reached(m, live, input, None);
        lemma_closure_reached(m, fired_all(m.edges, live, None), input, (rounds - 1) as nat);
    }
}

/// Every live branch of a run is reached by a path that consumes the input.
pub proof fn lemma_run_reached(m: Machine, input: Seq<char>)
    ensures
        all_reached(m, m.run(input), input),
    decreases input.len(),
{
    if input.len() == 0 {
        assert(input =~= Seq::empty());
        assert(m.leads(Seq::empty(), input, origin()));
        lemma_closure_reached(m, seq![origin()], input, m.states as nat);
    } else {
        let earlier = input.drop_last();
        lemma_run_reached(m, earlier);
        lemma_round_reached(m, m.run(earlier), earlier, Some(input.last()));
        assert(earlier.push(input.last()) =~= input);
        lemma_closure_reached(
            m,
            fired_all(m.edges, m.run(earlier), Some(input.last())),
            input,
            m.states as nat,
        );
    }
}

/// A branch advanced along an edge that it takes is among what it fires.
pub proof fn lemma_fired_holds(edges: Seq<Edge>, b: Branch, e: Edge, on: Option<char>)
    requires
        edges.contains(e),
        e.from == b.state,
        e.on == on,
    ensures
        fired(edges, b, on).contains(advance(b, e)),
    decreases edges.len(),
{
    let rest = edges.drop_last();
    assert(edges =~= rest.push(edges.last()));
    lemma_fired_push(rest, edges.last(), b, on);
    if edges.last() == e {
        assert(fired(edges, b, on).last() == advance(b, e));
    } else {
        let j = choose|j: int| 0 <= j < edges.len() && edges[j] == e;
        assert(rest[j] == e);
        lemma_fired_holds(rest, b, e, on);
        let i = choose|i: int|
            0 <= i < fired(rest, b, on).len() && fired(rest, b, on)[i] == advance(b, e);
        assert(fired(edges, b, on)[i] == advance(b, e));
    }
}

/// A branch of `live` advanced along an edge that it takes is among what
/// `live` fires.
pub proof fn lemma_fired_all_holds(
    edges: Seq<Edge>,
    live: Seq<Branch>,
    b: Branch,
    e: Edge,
    on: Option<char>,
)
    requires
        live.contains(b),
        edges.contains(e),
        e.from == b.state,
        e.on == on,
    ensures
        fired_all(edges, live, on).contains(advance(b, e)),
    decreases live.len(),
{
    let rest = live.drop_last();
    assert(live =~= rest.push(live.last()));
    lemma_fired_all_push(edges, rest, live.last(), on);
    let all = fired_all(edges, live, on);
    let before = fired_all(edges, rest, on);
    if live.last() == b {
        lemma_fired_holds(edges, b, e, on);
        let i = choose|i: int|
            0 <= i < fired(edges, b, on).len() && fired(edges, b, on)[i] == advance(b, e);
        assert(all[before.len() + i] == advance(b, e));
    } else {
        let j = choose|j: int| 0 <= j < live.len() && live[j] == b;
        assert(rest[j] == b);
        lemma_fired_all_holds(edges, rest, b, e, on);
        let i = choose|i: int| 0 <= i < before.len() && before[i] == advance(b, e);
        assert(all[i] == advance(b, e));
    }
}

/// Without a cycle of epsilon edges, a closure that is not cut short holds
/// its first branches, and with each branch what the branch becomes by an
/// epsilon edge.
pub proof fn lemma_closure_closed(
    m: Machine,
    rank: Seq<int>,
    live: Seq<Branch>,
    height: nat,
    rounds: nat,
    b: Branch,
)
    requires
        m.wf(),
        m.ranked_by(rank),
        all_ranked_below(live, rank, height as int),
        rounds >= height,
        rounds >= 1,
    ensures
        live.contains(b) ==> m.closure(live, rounds).contains(b),
        m.closure(live, rounds).contains(b) ==> forall|e: Edge|
            #![trigger advance(b, e)]
            m.edges.contains(e) && e.from == b.state && e.on is None ==> m.closure(
                live,
                rounds,
            ).contains(advance(b, e)),
    decreases height,
{
    let all = m.closure(live, rounds);
    if live.len() > 0 {
        let next = fired_all(m.edges, live, None);
        let rest = m.closure(next, (rounds - 1) as nat);
        assert(all == live + rest);
        assert(0 <= rank[live[0].state] < height);
        lemma_round_ranked(m, rank, live, None, height as int);
        if live.contains(b) {
            let i = choose|i: int| 0 <= i < live.len() && live[i] == b;
            assert(all[i] == b);
        }
        if all.contains(b) {
            assert forall|e: Edge|
                #![trigger advance(b, e)]
                m.edges.contains(e) && e.from == b.state && e.on is None implies all.contains(
                advance(b, e),
            ) by {
                let i = choose|i: int| 0 <= i < all.len() && all[i] == b;
                let j = choose|j: int| 0 <= j < m.edges.len() && m.edges[j] == e;
                if i < live.len() {
                    assert(live[i] == b);
                    assert(rank[m.edges[j].to] >= 0);
                    lemma_fired_all_holds(m.edges, live, b, e, None);
                    lemma_closure_closed(
                        m,
                        rank,
                        next,
                        (height - 1) as nat,
                        (rounds - 1) as nat,
                        advance(b, e),
                    );
                } else {
                    assert(rest[i - live.len()] == b);
                    assert(rounds >= 2) by {
                        if rounds == 1 {
                            assert(rest =~= Seq::<Branch>::empty());
                        }
                    }
                    if height >= 2 {
                        lemma_closure_closed(
                            m,
                            rank,
                            next,
                            (height - 1) as nat,
                            (rounds - 1) as nat,
                            b,
                        );
                    } else {
                        lemma_closure_settles(m, rank, next, 0, (rounds - 1) as nat);
                        assert(rest =~= Seq::<Branch>::empty());
                    }
                }
                let k = choose|k: int| 0 <= k < rest.len() && rest[k] == advance(b, e);
                assert(all[live.len() + k] == advance(b, e));
            }
        }
    }
}

/// Without a cycle of epsilon edges, a run holds every branch that a path
/// leads to.
pub proof fn lemma_run_holds(m: Machine, path: Seq<Edge>)
    requires
        m.wf(),
        m.loop_free(),
        walkable(m.edges, path, origin()),
    ensures
        m.run(consumed(path)).contains(walk(path, origin())),
    decreases path.len(),
{
    let rank = choose|rank: Seq<int>| #[trigger] m.ranked_by(rank);
    let n = m.states as nat;
    if path.len() == 0 {
        let start = seq![origin()];
        assert(start[0] == origin());
        lemma_closure_closed(m, rank, start, n, n, origin());
    } else {
        let shorter = path.drop_last();
        let e = path.last();
        let b = walk(shorter, origin());
        let earlier = consumed(shorter);
        lemma_run_holds(m, shorter);
        lemma_run_ranked(m, rank, earlier);
        match e.on {
            None => {
                if earlier.len() == 0 {
                    lemma_closure_closed(m, rank, seq![origin()], n, n, b);
                } else {
                    let before = m.run(earlier.drop_last());
                    lemma_run_ranked(m, rank, earlier.drop_last());
                    lemma_round_ranked(m, rank, before, Some(earlier.last()), m.states);
                    lemma_closure_closed(
                        m,
                        rank,
                        fired_all(m.edges, before, Some(earlier.last())),
                        n,
                        n,
                        b,
                    );
                }
                assert(m.run(earlier).contains(advance(b, e)));
            },
            Some(c) => {
                let input = earlier.push(c);
                assert(input.drop_last() =~= earlier);
                let fresh = fired_all(m.edges, m.run(earlier), Some(c));
                lemma_fired_all_holds(m.edges, m.run(earlier), b, e, Some(c));
                lemma_round_ranked(m, rank, m.run(earlier), Some(c), m.states);
                lemma_closure_closed(m, rank, fresh, n, n, advance(b, e));
            },
        }
    }
}

/// An output is among the outputs of `live` exactly when a branch of `live`
/// that stands in an accepting state has emitted it.
pub proof fn lemma_outputs_hold(m: Machine, live: Seq<Branch>, output: Seq<char>)
    ensures
        m.outputs(live).contains(output) <==> exists|i: int|
            0 <= i < live.len() && m.accepting.contains((#[trigger] live[i]).state)
                && live[i].path.flatten() == output,
    decreases live.len(),
{
    if live.len() == 0 {
        lemma_outputs_push(m, live, origin());
        assert(live =~= Seq::empty());
    } else {
        let rest = live.drop_last();
        let b = live.last();
        assert(live =~= rest.push(b));
        lemma_outputs_hold(m, rest, output);
        lemma_outputs_push(m, rest, b);
        let found = m.outputs(live);
        let holds = exists|i: int|
            0 <= i < live.len() && m.accepting.contains((#[trigger] live[i]).state)
                && live[i].path.flatten() == output;
        if found.contains(output) {
            let k = choose|k: int| 0 <= k < found.len() && found[k] == output;
            if k < m.outputs(rest).len() {
                assert(m.outputs(rest)[k] == output);
                let i = choose|i: int|
                    0 <= i < rest.len() && m.accepting.contains((#[trigger] rest[i]).state)
                        && rest[i].path.flatten() == output;
                assert(live[i] == rest[i]);
            } else {
                assert(live[live.len() - 1] == b);
            }
            assert(holds);
        }
        if holds {
            let i = choose|i: int|
                0 <= i < live.len() && m.accepting.contains((#[trigger] live[i]).state)
                    && live[i].path.flatten() == output;
            if i < rest.len() {
                assert(rest[i] == live[i]);
                let k = choose|k: int|
                    0 <= k < m.outputs(rest).len() && m.outputs(rest)[k] == output;
                assert(found[k] == output);
            } else {
                assert(found[found.len() - 1] == output);
            }
        }
    }
}

/// Every entry that matching yields is the output of an accepting path for
/// the input.
pub proof fn lemma_matched_is_accepted(m: Machine, input: Seq<char>, output: Seq<char>)
    requires
        m.matches(input).contains(output),
    ensures
        m.accepts(input, output),
{
    let live = m.run(input);
    lemma_outputs_hold(m, live, output);
    let i = choose|i: int|
        0 <= i < live.len() && m.accepting.contains((#[trigger] live[i]).state)
            && live[i].path.flatten() == output;
    lemma_run_reached(m, input);
    assert(m.reaches(input, live[i]));
}

/// Without a cycle of epsilon edges, the output of every accepting path for
/// the input is among the entries that matching yields.
pub proof fn lemma_accepted_is_matched(m: Machine, input: Seq<char>, output: Seq<char>)
    requires
        m.wf(),
        m.loop_free(),
        m.accepts(input, output),
    ensures
        m.matches(input).contains(output),
{
    let b = choose|b: Branch|
        #![trigger m.reaches(input, b)]
        m.reaches(input, b) && m.accepting.contains(b.state) && b.path.flatten() == output;
    let path = choose|path: Seq<Edge>| #[trigger] m.leads(path, input, b);
    lemma_run_holds(m, path);
    let live = m.run(input);
    let i = choose|i: int| 0 <= i < live.len() && live[i] == b;
    assert(m.accepting.contains(live[i].state) && live[i].path.flatten() == output);
    lemma_outputs_hold(m, live, output);
}

/// The branch `b` with its state moved up by `by`, and `onto` emitted before
/// what it has emitted.
pub open spec fn moved(b: Branch, by: int, onto: Seq<Seq<char>>) -> Branch {
    Branch { state: b.state + by, path: onto + b.path }
}

/// A path stays a path when the edges, the path and the state of the branch
/// are moved up together; it consumes the same and emits the same, behind
/// whatever the branch had emitted before.
pub proof fn lemma_walk_moved(
    edges: Seq<Edge>,
    path: Seq<Edge>,
    b: Branch,
    by: int,
    onto: Seq<Seq<char>>,
)
    requires
        walkable(edges, path, b),
    ensures
        walkable(shifted_edges(edges, by), shifted_edges(path, by), moved(b, by, onto)),
        walk(shifted_edges(path, by), moved(b, by, onto)) == moved(walk(path, b), by, onto),
        consumed(shifted_edges(path, by)) == consumed(path),
    decreases path.len(),
{
    let far = shifted_edges(path, by);
    if path.len() == 0 {
        assert(far =~= Seq::empty());
    } else {
        let e = path.last();
        let before = walk(path.drop_last(), b);
        lemma_walk_moved(edges, path.drop_last(), b, by, onto);
        assert(far.drop_last() =~= shifted_edges(path.drop_last(), by));
        assert(far.last() == shifted_edge(e, by));
        let j = choose|j: int| 0 <= j < edges.len() && edges[j] == e;
        assert(shifted_edges(edges, by)[j] == shifted_edge(e, by));
        assert(advance(moved(before, by, onto), shifted_edge(e, by)).path =~= moved(
            advance(before, e),
            by,
            onto,
        ).path);
    }
}

/// A path with one more edge at its end, where the edge leaves the state
/// that the path leads to.
pub proof fn lemma_walk_push(edges: Seq<Edge>, path: Seq<Edge>, e: Edge, b: Branch)
    requires
        walkable(edges, path, b),
        edges.contains(e),
        e.from == walk(path, b).state,
    ensures
        walkable(edges, path.push(e), b),
        walk(path.push(e), b) == advance(walk(path, b), e),
        consumed(path.push(e)) == match e.on {
            Some(c) => consumed(path).push(c),
            None => consumed(path),
        },
{
    assert(path.push(e).drop_last() =~= path);
}

/// A path of some edges is a path of any edges that hold them all.
pub proof fn lemma_walk_wider(edges: Seq<Edge>, wider: Seq<Edge>, path: Seq<Edge>, b: Branch)
    requires
        walkable(edges, path, b),
        forall|i: int| 0 <= i < edges.len() ==> wider.contains(#[trigger] edges[i]),
    ensures
        walkable(wider, path, b),
    decreases path.len(),
{
    if path.len() > 0 {
        lemma_walk_wider(edges, wider, path.drop_last(), b);
        let j = choose|j: int| 0 <= j < edges.len() && edges[j] == path.last();
        assert(wider.contains(edges[j]));
    }
}

/// Two paths, the second from where the first leads, make one path.
pub proof fn lemma_walk_add(edges: Seq<Edge>, first: Seq<Edge>, second: Seq<Edge>, b: Branch)
    requires
        walkable(edges, first, b),
        walkable(edges, second, walk(first, b)),
    ensures
        walkable(edges, first + second, b),
        walk(first + second, b) == walk(second, walk(first, b)),
        consumed(first + second) == consumed(first) + consumed(second),
    decreases second.len(),
{
    if second.len() == 0 {
        assert(first + second =~= first);
        assert(consumed(first) + consumed(second) =~= consumed(first));
    } else {
        lemma_walk_add(edges, first, second.drop_last(), b);
        assert((first + second).drop_last() =~= first + second.drop_last());
        assert((first + second).last() == second.last());
        match second.last().on {
            Some(c) => {
                assert(consumed(first + second) =~= consumed(first) + consumed(second));
            },
            None => {},
        }
    }
}

} // verus!
