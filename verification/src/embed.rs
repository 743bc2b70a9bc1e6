//! An automaton that lives inside another with its states moved up runs
//! there as it runs alone.

use crate::model::{shifted_edge, shifted_edges, shifted_states, Edge, Machine};
use crate::semantics::{
    advance, all_between, fired, fired_all, lemma_fired_add, lemma_fired_all_add,
    lemma_fired_all_in_range, lemma_fired_all_member, lemma_fired_all_push, lemma_fired_member,
    lemma_fired_push, lemma_outputs_add, lemma_outputs_push, lemma_run_in_range, origin, Branch,
};
use crate::settle::{lemma_closure_settles, lemma_round_ranked, lemma_run_ranked};
use vstd::prelude::*;

verus! {

/// The branch `b` with its state moved up by `by`.
pub open spec fn shifted_branch(b: Branch, by: int) -> Branch {
    Branch { state: b.state + by, path: b.path }
}

/// Every branch of `live` with its state moved up by `by`, in the same order.
pub open spec fn shifted_branches(live: Seq<Branch>, by: int) -> Seq<Branch> {
    Seq::new(live.len(), |i: int| shifted_branch(live[i], by))
}

/// Whether every edge of `edges` is an epsilon edge that leaves a state
/// below `by`.
pub open spec fn all_links_below(edges: Seq<Edge>, by: int) -> bool {
    forall|i: int|
        0 <= i < edges.len() ==> (#[trigger] edges[i]).from < by && edges[i].on is None
}

/// Whether `outer` holds `inner` with its states moved up by `by`: the edges
/// of `outer` are those of `inner`, moved, between `before` and `after`,
/// which are epsilon edges that leave states below `by`; and the accepting
/// states of `outer` are those of `inner`, moved.
pub open spec fn embeds(
    outer: Machine,
    inner: Machine,
    by: int,
    before: Seq<Edge>,
    after: Seq<Edge>,
) -> bool {
    &&& by >= 0
    &&& outer.states >= inner.states
    &&& outer.edges == before + shifted_edges(inner.edges, by) + after
    &&& all_links_below(before, by)
    &&& all_links_below(after, by)
    &&& outer.accepting == shifted_states(inner.accepting, by)
}

/// No branch comes of firing when no edge leaves the state on that symbol.
pub proof fn lemma_fired_none(edges: Seq<Edge>, b: Branch, on: Option<char>)
    requires
        forall|i: int|
            0 <= i < edges.len() ==> !((#[trigger] edges[i]).from == b.state && edges[i].on == on),
    ensures
        fired(edges, b, on) == Seq::<Branch>::empty(),
{
    if fired(edges, b, on).len() > 0 {
        let j = lemma_fired_member(edges, b, on, 0);
        assert(edges[j].from == b.state && edges[j].on == on);
    }
    assert(fired(edges, b, on) =~= Seq::<Branch>::empty());
}

/// Firing commutes with moving edges and branch up together.
pub proof fn lemma_fired_shifted(edges: Seq<Edge>, b: Branch, on: Option<char>, by: int)
    ensures
        fired(shifted_edges(edges, by), shifted_branch(b, by), on) == shifted_branches(
            fired(edges, b, on),
            by,
        ),
    decreases edges.len(),
{
    if edges.len() == 0 {
        lemma_fired_push(edges, arbitrary(), b, on);
        lemma_fired_push(edges, arbitrary(), shifted_branch(b, by), on);
        assert(edges =~= Seq::empty());
        assert(shifted_edges(edges, by) =~= Seq::empty());
        assert(shifted_branches(Seq::empty(), by) =~= Seq::empty());
    } else {
        let rest = edges.drop_last();
        let e = edges.last();
        assert(edges =~= rest.push(e));
        assert(shifted_edges(edges, by) =~= shifted_edges(rest, by).push(shifted_edge(e, by)));
        lemma_fired_shifted(rest, b, on, by);
        lemma_fired_push(rest, e, b, on);
        lemma_fired_push(shifted_edges(rest, by), shifted_edge(e, by), shifted_branch(b, by), on);
        assert(advance(shifted_branch(b, by), shifted_edge(e, by)) == shifted_branch(
            advance(b, e),
            by,
        ));
        assert(shifted_branches(fired(rest, b, on).push(advance(b, e)), by) =~= shifted_branches(
            fired(rest, b, on),
            by,
        ).push(shifted_branch(advance(b, e), by)));
    }
}

/// Inside `outer`, a branch of `inner` fires as it does in `inner`.
pub proof fn lemma_fired_embedded(
    outer: Machine,
    inner: Machine,
    by: int,
    before: Seq<Edge>,
    after: Seq<Edge>,
    b: Branch,
    on: Option<char>,
)
    requires
        embeds(outer, inner, by, before, after),
        b.state >= 0,
    ensures
        fired(outer.edges, shifted_branch(b, by), on) == shifted_branches(
            fired(inner.edges, b, on),
            by,
        ),
{
    let moved = shifted_edges(inner.edges, by);
    let sb = shifted_branch(b, by);
    lemma_fired_add(before + moved, after, sb, on);
    lemma_fired_add(before, moved, sb, on);
    lemma_fired_none(before, sb, on);
    lemma_fired_none(after, sb, on);
    lemma_fired_shifted(inner.edges, b, on, by);
    assert(Seq::<Branch>::empty() + fired(moved, sb, on) + Seq::<Branch>::empty() =~= fired(
        moved,
        sb,
        on,
    ));
}

/// Inside `outer`, branches of `inner` fire as they do in `inner`.
pub proof fn lemma_fired_all_embedded(
    outer: Machine,
    inner: Machine,
    by: int,
    before: Seq<Edge>,
    after: Seq<Edge>,
    live: Seq<Branch>,
    on: Option<char>,
)
    requires
        embeds(outer, inner, by, before, after),
        all_between(live, 0, inner.states),
    ensures
        fired_all(outer.edges, shifted_branches(live, by), on) == shifted_branches(
            fired_all(inner.edges, live, on),
            by,
        ),
    decreases live.len(),
{
    if live.len() == 0 {
        lemma_fired_all_push(outer.edges, live, origin(), on);
        lemma_fired_all_push(inner.edges, live, origin(), on);
        assert(live =~= Seq::empty());
        assert(shifted_branches(live, by) =~= Seq::empty());
        assert(shifted_branches(Seq::empty(), by) =~= Seq::empty());
    } else {
        let rest = live.drop_last();
        let b = live.last();
        assert(live =~= rest.push(b));
        assert(shifted_branches(live, by) =~= shifted_branches(rest, by).push(
            shifted_branch(b, by),
        ));
        lemma_fired_all_embedded(outer, inner, by, before, after, rest, on);
        lemma_fired_embedded(outer, inner, by, before, after, b, on);
        lemma_fired_all_push(outer.edges, shifted_branches(rest, by), shifted_branch(b, by), on);
        lemma_fired_all_push(inner.edges, rest, b, on);
        assert(shifted_branches(fired_all(inner.edges, rest, on) + fired(inner.edges, b, on), by)
            =~= shifted_branches(fired_all(inner.edges, rest, on), by) + shifted_branches(
            fired(inner.edges, b, on),
            by,
        ));
    }
}

/// Inside `outer`, the closure of branches of `inner` is their closure in
/// `inner`, round for round.
pub proof fn lemma_closure_embedded(
    outer: Machine,
    inner: Machine,
    by: int,
    before: Seq<Edge>,
    after: Seq<Edge>,
    live: Seq<Branch>,
    rounds: nat,
)
    requires
        embeds(outer, inner, by, before, after),
        inner.wf(),
        all_between(live, 0, inner.states),
    ensures
        outer.closure(shifted_branches(live, by), rounds) == shifted_branches(
            inner.closure(live, rounds),
            by,
        ),
    decreases rounds,
{
    if rounds == 0 || live.len() == 0 {
        assert(shifted_branches(Seq::empty(), by) =~= Seq::empty());
    } else {
        let next = fired_all(inner.edges, live, None);
        lemma_fired_all_embedded(outer, inner, by, before, after, live, None);
        lemma_fired_all_in_range(inner, live, None);
        lemma_closure_embedded(outer, inner, by, before, after, next, (rounds - 1) as nat);
        assert(shifted_branches(live + inner.closure(next, (rounds - 1) as nat), by)
            =~= shifted_branches(live, by) + shifted_branches(
            inner.closure(next, (rounds - 1) as nat),
            by,
        ));
    }
}

/// Inside `outer`, branches that stand below `inner` consume no symbol.
pub proof fn lemma_fired_all_below(
    outer: Machine,
    inner: Machine,
    by: int,
    before: Seq<Edge>,
    after: Seq<Edge>,
    low: Seq<Branch>,
    symbol: char,
)
    requires
        embeds(outer, inner, by, before, after),
        inner.wf(),
        forall|i: int| 0 <= i < low.len() ==> (#[trigger] low[i]).state < by,
    ensures
        fired_all(outer.edges, low, Some(symbol)) == Seq::<Branch>::empty(),
{
    let next = fired_all(outer.edges, low, Some(symbol));
    if next.len() > 0 {
        let at = lemma_fired_all_member(outer.edges, low, Some(symbol), 0);
        let j = at.1;
        if j < before.len() {
            assert(outer.edges[j] == before[j]);
        } else if j < before.len() + inner.edges.len() {
            assert(outer.edges[j] == shifted_edge(inner.edges[j - before.len()], by));
        } else {
            assert(outer.edges[j] == after[j - before.len() - inner.edges.len()]);
        }
    }
    assert(next =~= Seq::<Branch>::empty());
}

/// Inside `outer`, branches of `inner` are accepted as they are in `inner`,
/// and branches that stand below `inner` are not accepted.
pub proof fn lemma_outputs_embedded(
    outer: Machine,
    inner: Machine,
    by: int,
    before: Seq<Edge>,
    after: Seq<Edge>,
    low: Seq<Branch>,
    live: Seq<Branch>,
)
    requires
        embeds(outer, inner, by, before, after),
        inner.wf(),
        forall|i: int| 0 <= i < low.len() ==> (#[trigger] low[i]).state < by,
    ensures
        outer.outputs(low) == Seq::<Seq<char>>::empty(),
        outer.outputs(shifted_branches(live, by)) == inner.outputs(live),
    decreases low.len() + live.len(),
{
    if low.len() > 0 {
        let rest = low.drop_last();
        let b = low.last();
        assert(low =~= rest.push(b));
        lemma_outputs_embedded(outer, inner, by, before, after, rest, live);
        lemma_outputs_push(outer, rest, b);
        if outer.accepting.contains(b.state) {
            let i = choose|i: int| 0 <= i < outer.accepting.len() && outer.accepting[i] == b.state;
            assert(outer.accepting[i] == inner.accepting[i] + by);
        }
    } else if live.len() > 0 {
        let rest = live.drop_last();
        let b = live.last();
        assert(live =~= rest.push(b));
        assert(shifted_branches(live, by) =~= shifted_branches(rest, by).push(
            shifted_branch(b, by),
        ));
        lemma_outputs_embedded(outer, inner, by, before, after, low, rest);
        lemma_outputs_push(outer, shifted_branches(rest, by), shifted_branch(b, by));
        lemma_outputs_push(inner, rest, b);
        if outer.accepting.contains(b.state + by) {
            let i = choose|i: int|
                0 <= i < outer.accepting.len() && outer.accepting[i] == b.state + by;
            assert(inner.accepting[i] == b.state);
        }
        if inner.accepting.contains(b.state) {
            let i = choose|i: int| 0 <= i < inner.accepting.len() && inner.accepting[i] == b.state;
            assert(outer.accepting[i] == b.state + by);
        }
    } else {
        lemma_outputs_push(outer, low, origin());
        lemma_outputs_push(inner, live, origin());
        assert(low =~= Seq::empty());
        assert(live =~= Seq::empty());
        assert(shifted_branches(live, by) =~= Seq::empty());
    }
}

/// If `outer` holds `inner`, an automaton without a cycle of epsilon edges,
/// and the run of `outer` starts with the start of the run of `inner` behind
/// branches that stand below `inner`, then the two runs stay together and
/// accept alike.
pub proof fn lemma_run_embedded(
    outer: Machine,
    inner: Machine,
    by: int,
    before: Seq<Edge>,
    after: Seq<Edge>,
    head: Seq<Branch>,
    input: Seq<char>,
)
    requires
        embeds(outer, inner, by, before, after),
        inner.wf(),
        inner.loop_free(),
        forall|i: int| 0 <= i < head.len() ==> (#[trigger] head[i]).state < by,
        outer.epsilon_closure(seq![origin()]) == head + shifted_branches(
            inner.epsilon_closure(seq![origin()]),
            by,
        ),
    ensures
        outer.run(input) == (if input.len() == 0 {
            head
        } else {
            Seq::empty()
        }) + shifted_branches(inner.run(input), by),
        outer.matches(input) == inner.matches(input),
    decreases input.len(),
{
    let low = if input.len() == 0 {
        head
    } else {
        Seq::empty()
    };
    if input.len() > 0 {
        let earlier = input.drop_last();
        let symbol = input.last();
        let low_earlier = if earlier.len() == 0 {
            head
        } else {
            Seq::empty()
        };
        lemma_run_embedded(outer, inner, by, before, after, head, earlier);
        lemma_run_in_range(inner, earlier);
        let fresh = fired_all(inner.edges, inner.run(earlier), Some(symbol));
        lemma_fired_all_add(
            outer.edges,
            low_earlier,
            shifted_branches(inner.run(earlier), by),
            Some(symbol),
        );
        lemma_fired_all_below(outer, inner, by, before, after, low_earlier, symbol);
        lemma_fired_all_embedded(
            outer,
            inner,
            by,
            before,
            after,
            inner.run(earlier),
            Some(symbol),
        );
        assert(fired_all(outer.edges, outer.run(earlier), Some(symbol)) =~= shifted_branches(
            fresh,
            by,
        ));
        lemma_fired_all_in_range(inner, inner.run(earlier), Some(symbol));
        lemma_closure_embedded(outer, inner, by, before, after, fresh, outer.states as nat);
        let rank = choose|rank: Seq<int>| #[trigger] inner.ranked_by(rank);
        lemma_run_ranked(inner, rank, earlier);
        lemma_round_ranked(inner, rank, inner.run(earlier), Some(symbol), inner.states);
        lemma_closure_settles(inner, rank, fresh, inner.states as nat, outer.states as nat);
        assert(outer.run(input) =~= low + shifted_branches(inner.run(input), by));
    }
    lemma_outputs_add(outer, low, shifted_branches(inner.run(input), by));
    lemma_outputs_embedded(outer, inner, by, before, after, low, inner.run(input));
    assert(outer.matches(input) =~= inner.matches(input));
}

} // verus!
