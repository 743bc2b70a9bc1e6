//! An automaton followed by `empty`: its run, with one branch more in the
//! added state for every branch that the automaton alone would accept.

use crate::model::{lemma_and_wf, link, links, shifted_edges, Edge, Machine};
use crate::embed::lemma_fired_none;
use crate::semantics::{
    advance, all_between, fired, fired_all, lemma_fired_add, lemma_fired_all_in_range,
    lemma_fired_all_push, lemma_fired_push, lemma_outputs_add, lemma_outputs_push,
    lemma_run_in_range, origin, Branch,
};
use crate::settle::{lemma_closure_settles, lemma_round_ranked, lemma_run_ranked};
use vstd::prelude::*;

verus! {

/// Whether a branch stands in a state below `bound`.
pub open spec fn stands_below(bound: int) -> spec_fn(Branch) -> bool {
    |b: Branch| b.state < bound
}

/// The branches of `live` that stand below `bound`, in order.
pub open spec fn kept(live: Seq<Branch>, bound: int) -> Seq<Branch> {
    live.filter(stands_below(bound))
}

/// The branch `b` moved to `state`, with what it has emitted.
pub open spec fn sunk(b: Branch, state: int) -> Branch {
    Branch { state, path: b.path }
}

/// What `kept` keeps of a list with one more branch at its end, and of the
/// empty list.
pub proof fn lemma_kept_push(live: Seq<Branch>, b: Branch, bound: int)
    ensures
        kept(live.push(b), bound) == if b.state < bound {
            kept(live, bound).push(b)
        } else {
            kept(live, bound)
        },
        kept(Seq::empty(), bound) == Seq::<Branch>::empty(),
{
    Seq::lemma_filter_push(live, b, stands_below(bound));
    Seq::<Branch>::empty().lemma_filter_len(stands_below(bound));
    assert(kept(Seq::empty(), bound) =~= Seq::<Branch>::empty());
}

/// What `kept` keeps of two lists, one after the other.
pub proof fn lemma_kept_add(l1: Seq<Branch>, l2: Seq<Branch>, bound: int)
    ensures
        kept(l1 + l2, bound) == kept(l1, bound) + kept(l2, bound),
{
    Seq::filter_distributes_over_add(l1, l2, stands_below(bound));
}

/// `kept` keeps the whole of a list that stands below the bound.
pub proof fn lemma_kept_all(live: Seq<Branch>, bound: int)
    requires
        forall|i: int| 0 <= i < live.len() ==> (#[trigger] live[i]).state < bound,
    ensures
        kept(live, bound) == live,
    decreases live.len(),
{
    if live.len() == 0 {
        lemma_kept_push(live, origin(), bound);
        assert(live =~= Seq::empty());
    } else {
        assert(live =~= live.drop_last().push(live.last()));
        lemma_kept_all(live.drop_last(), bound);
        lemma_kept_push(live.drop_last(), live.last(), bound);
    }
}

/// Branches none of which stands in an accepting state yield no output.
pub proof fn lemma_outputs_none(m: Machine, live: Seq<Branch>)
    requires
        forall|i: int| 0 <= i < live.len() ==> !m.accepting.contains((#[trigger] live[i]).state),
    ensures
        m.outputs(live) == Seq::<Seq<char>>::empty(),
    decreases live.len(),
{
    if live.len() == 0 {
        lemma_outputs_push(m, live, origin());
        assert(live =~= Seq::empty());
    } else {
        assert(live =~= live.drop_last().push(live.last()));
        lemma_outputs_none(m, live.drop_last());
        lemma_outputs_push(m, live.drop_last(), live.last());
    }
}

/// Along links from distinct `sources` to `to`, a branch moves to `to` if it
/// stands in one of the sources and the links are asked for without a
/// symbol, and nowhere otherwise.
pub proof fn lemma_fired_links(sources: Seq<int>, to: int, b: Branch, on: Option<char>)
    requires
        forall|i: int, j: int| 0 <= i < j < sources.len() ==> sources[i] != sources[j],
    ensures
        fired(links(sources, to, None), b, on) == if on is None && sources.contains(b.state) {
            seq![sunk(b, to)]
        } else {
            Seq::empty()
        },
    decreases sources.len(),
{
    if sources.len() == 0 {
        lemma_fired_push(Seq::empty(), arbitrary(), b, on);
        assert(links(sources, to, None) =~= Seq::empty());
    } else {
        let rest = sources.drop_last();
        let q = sources.last();
        assert(sources =~= rest.push(q));
        assert(links(sources, to, None) =~= links(rest, to, None).push(link(q, to, None)));
        lemma_fired_links(rest, to, b, on);
        lemma_fired_push(links(rest, to, None), link(q, to, None), b, on);
        assert(advance(b, link(q, to, None)) == sunk(b, to));
        if rest.contains(b.state) {
            let i = choose|i: int| 0 <= i < rest.len() && rest[i] == b.state;
            assert(sources[i] == b.state);
            assert(sources[i] != sources[sources.len() - 1]);
        }
        if sources.contains(b.state) && q != b.state {
            let i = choose|i: int| 0 <= i < sources.len() && sources[i] == b.state;
            assert(rest[i] == b.state);
        }
        if q == b.state {
            assert(sources[sources.len() - 1] == b.state);
            assert(Seq::<Branch>::empty().push(sunk(b, to)) =~= seq![sunk(b, to)]);
        }
    }
}

/// How a branch fires in `m` followed by `empty`: below the added state as
/// in `m`, and from each accepting state of `m` into the added state as
/// well; from the added state nowhere.
pub proof fn lemma_fired_before_empty(m: Machine, b: Branch, on: Option<char>)
    requires
        m.wf(),
        0 <= b.state <= m.states,
    ensures
        fired(m.and(Machine::empty()).edges, b, on) == fired(m.edges, b, on) + (if on is None
            && m.accepting.contains(b.state) {
            seq![sunk(b, m.states)]
        } else {
            Seq::empty()
        }),
        b.state == m.states ==> fired(m.edges, b, on) == Seq::<Branch>::empty(),
{
    let outer = m.and(Machine::empty());
    let none = shifted_edges(Seq::<Edge>::empty(), m.states);
    let tail = links(m.accepting, m.states, None);
    assert(none =~= Seq::<Edge>::empty());
    assert(outer.edges =~= m.edges + tail);
    lemma_fired_add(m.edges, tail, b, on);
    lemma_fired_links(m.accepting, m.states, b, on);
    if b.state == m.states {
        lemma_fired_none(m.edges, b, on);
    }
}

/// One round in `m` followed by `empty`: below the added state it is the
/// round of `m`, and what reaches the added state is what `m` accepts before
/// the round.
pub proof fn lemma_round_before_empty(m: Machine, live: Seq<Branch>, on: Option<char>)
    requires
        m.wf(),
        all_between(live, 0, m.states + 1),
    ensures
        kept(fired_all(m.and(Machine::empty()).edges, live, on), m.states) == fired_all(
            m.edges,
            kept(live, m.states),
            on,
        ),
        m.and(Machine::empty()).outputs(fired_all(m.and(Machine::empty()).edges, live, on)) == (
        if on is None {
            m.outputs(kept(live, m.states))
        } else {
            Seq::empty()
        }),
    decreases live.len(),
{
    let outer = m.and(Machine::empty());
    let n = m.states;
    assert(outer.accepting =~= seq![n]);
    if live.len() == 0 {
        assert(live =~= Seq::empty());
        lemma_fired_all_push(outer.edges, live, origin(), on);
        lemma_fired_all_push(m.edges, live, origin(), on);
        lemma_kept_push(live, origin(), n);
        lemma_outputs_push(outer, live, origin());
        lemma_outputs_push(m, live, origin());
    } else {
        let rest = live.drop_last();
        let b = live.last();
        assert(live =~= rest.push(b));
        lemma_round_before_empty(m, rest, on);
        lemma_fired_all_push(outer.edges, rest, b, on);
        lemma_fired_before_empty(m, b, on);
        lemma_kept_push(rest, b, n);
        let own = fired(m.edges, b, on);
        let tail = if on is None && m.accepting.contains(b.state) {
            seq![sunk(b, n)]
        } else {
            Seq::empty()
        };
        let earlier = fired_all(outer.edges, rest, on);
        lemma_kept_add(earlier, own + tail, n);
        lemma_kept_add(own, tail, n);
        lemma_outputs_add(outer, earlier, own + tail);
        lemma_outputs_add(outer, own, tail);
        // What `m` itself fires stays below the added state.
        lemma_fired_all_push(m.edges, Seq::empty(), b, on);
        lemma_fired_all_in_range(m, seq![b], on);
        lemma_kept_all(own, n);
        assert forall|i: int| 0 <= i < own.len() implies !outer.accepting.contains(
            (#[trigger] own[i]).state,
        ) by {
            if outer.accepting.contains(own[i].state) {
                let k = choose|k: int|
                    0 <= k < outer.accepting.len() && outer.accepting[k] == own[i].state;
            }
        }
        lemma_outputs_none(outer, own);
        // The branch in the added state is dropped by `kept` and accepted.
        assert(tail =~= if on is None && m.accepting.contains(b.state) {
            Seq::<Branch>::empty().push(sunk(b, n))
        } else {
            Seq::empty()
        });
        lemma_kept_push(Seq::empty(), sunk(b, n), n);
        lemma_outputs_push(outer, Seq::empty(), sunk(b, n));
        assert(outer.accepting[0] == n);
        assert(kept(tail, n) =~= Seq::<Branch>::empty());
        assert(outer.outputs(tail) =~= if on is None && m.accepting.contains(b.state) {
            seq![b.path.flatten()]
        } else {
            Seq::empty()
        });
        if b.state < n {
            lemma_fired_all_push(m.edges, kept(rest, n), b, on);
            lemma_outputs_push(m, kept(rest, n), b);
            assert(m.outputs(kept(rest, n)).push(b.path.flatten()) =~= m.outputs(kept(rest, n))
                + seq![b.path.flatten()]);
        } else {
            assert(!m.accepting.contains(b.state)) by {
                if m.accepting.contains(b.state) {
                    let k = choose|k: int| 0 <= k < m.accepting.len() && m.accepting[k] == b.state;
                }
            }
        }
        assert(kept(fired_all(outer.edges, live, on), n) =~= fired_all(
            m.edges,
            kept(live, n),
            on,
        ));
        assert(outer.outputs(fired_all(outer.edges, live, on)) =~= (if on is None {
            m.outputs(kept(live, n))
        } else {
            Seq::empty()
        }));
    }
}

/// The closure in `m` followed by `empty` is, below the added state, the
/// closure in `m`.
pub proof fn lemma_closure_kept(m: Machine, live: Seq<Branch>, rounds: nat)
    requires
        m.wf(),
        all_between(live, 0, m.states + 1),
    ensures
        kept(m.and(Machine::empty()).closure(live, rounds), m.states) == m.closure(
            kept(live, m.states),
            rounds,
        ),
    decreases rounds,
{
    let outer = m.and(Machine::empty());
    let n = m.states;
    let below = kept(live, n);
    lemma_kept_push(Seq::empty(), origin(), n);
    if rounds == 0 {
    } else if live.len() == 0 {
        assert(live =~= Seq::empty());
    } else {
        let shorter = (rounds - 1) as nat;
        let next = fired_all(outer.edges, live, None);
        let rest = outer.closure(next, shorter);
        let inner_next = fired_all(m.edges, below, None);
        let inner_rest = m.closure(inner_next, shorter);
        lemma_and_wf(m, Machine::empty());
        lemma_fired_all_in_range(outer, live, None);
        lemma_round_before_empty(m, live, None);
        lemma_closure_kept(m, next, shorter);
        lemma_kept_add(live, rest, n);
        assert(kept(outer.closure(live, rounds), n) == below + inner_rest);
        if below.len() == 0 {
            assert(below =~= Seq::empty());
            lemma_fired_all_push(m.edges, Seq::empty(), origin(), None);
            assert(inner_rest =~= Seq::<Branch>::empty());
            assert(below + inner_rest =~= Seq::<Branch>::empty());
        }
    }
}

/// What the closure in `m` followed by `empty` accepts is what its first
/// branches accept and what `m` accepts in its closure one round short.
pub proof fn lemma_closure_sunk(m: Machine, live: Seq<Branch>, rounds: nat)
    requires
        m.wf(),
        all_between(live, 0, m.states + 1),
        rounds >= 1,
    ensures
        m.and(Machine::empty()).outputs(m.and(Machine::empty()).closure(live, rounds)) == m.and(
            Machine::empty(),
        ).outputs(live) + m.outputs(m.closure(kept(live, m.states), (rounds - 1) as nat)),
    decreases rounds,
{
    let outer = m.and(Machine::empty());
    let n = m.states;
    let below = kept(live, n);
    let shorter = (rounds - 1) as nat;
    let none = Seq::<Seq<char>>::empty();
    lemma_kept_push(Seq::empty(), origin(), n);
    lemma_outputs_push(outer, Seq::empty(), origin());
    lemma_outputs_push(m, Seq::empty(), origin());
    if live.len() == 0 {
        assert(live =~= Seq::empty());
        assert(none + none =~= none);
    } else {
        let next = fired_all(outer.edges, live, None);
        let rest = outer.closure(next, shorter);
        let inner_next = fired_all(m.edges, below, None);
        lemma_and_wf(m, Machine::empty());
        lemma_fired_all_in_range(outer, live, None);
        lemma_round_before_empty(m, live, None);
        lemma_outputs_add(outer, live, rest);
        assert(outer.outputs(outer.closure(live, rounds)) == outer.outputs(live) + outer.outputs(
            rest,
        ));
        if shorter == 0 {
            assert(rest =~= Seq::<Branch>::empty());
        } else {
            let least = (shorter - 1) as nat;
            let inner_rest = m.closure(inner_next, least);
            lemma_closure_sunk(m, next, shorter);
            assert(outer.outputs(rest) == m.outputs(below) + m.outputs(inner_rest));
            lemma_outputs_add(m, below, inner_rest);
            if below.len() == 0 {
                assert(below =~= Seq::empty());
                lemma_fired_all_push(m.edges, Seq::empty(), origin(), None);
                assert(inner_rest =~= Seq::<Branch>::empty());
                assert(none + none =~= none);
            }
        }
    }
}

/// The run of `m` followed by `empty`, for `m` without a cycle of epsilon
/// edges: below the added state it is the run of `m`, and it accepts what
/// `m` accepts.
pub proof fn lemma_run_before_empty(m: Machine, input: Seq<char>)
    requires
        m.wf(),
        m.loop_free(),
    ensures
        kept(m.and(Machine::empty()).run(input), m.states) == m.run(input),
        m.and(Machine::empty()).matches(input) == m.matches(input),
    decreases input.len(),
{
    let outer = m.and(Machine::empty());
    let n = m.states;
    assert(outer.accepting =~= seq![n]);
    lemma_and_wf(m, Machine::empty());
    lemma_outputs_push(outer, Seq::empty(), origin());
    let rank = choose|rank: Seq<int>| #[trigger] m.ranked_by(rank);
    if input.len() == 0 {
        let start = seq![origin()];
        lemma_kept_all(start, n);
        lemma_closure_kept(m, start, outer.states as nat);
        lemma_closure_sunk(m, start, outer.states as nat);
        lemma_closure_settles(m, rank, start, n as nat, outer.states as nat);
        assert(start =~= Seq::<Branch>::empty().push(origin()));
        assert(!outer.accepting.contains(0)) by {
            if outer.accepting.contains(0) {
                let k = choose|k: int| 0 <= k < outer.accepting.len() && outer.accepting[k] == 0;
            }
        }
        assert(Seq::<Seq<char>>::empty() + m.matches(input) =~= m.matches(input));
    } else {
        let earlier = input.drop_last();
        let symbol = input.last();
        lemma_run_before_empty(m, earlier);
        lemma_run_in_range(outer, earlier);
        lemma_run_in_range(m, earlier);
        let fresh = fired_all(outer.edges, outer.run(earlier), Some(symbol));
        let inner_fresh = fired_all(m.edges, m.run(earlier), Some(symbol));
        lemma_round_before_empty(m, outer.run(earlier), Some(symbol));
        lemma_fired_all_in_range(outer, outer.run(earlier), Some(symbol));
        lemma_fired_all_in_range(m, m.run(earlier), Some(symbol));
        lemma_closure_kept(m, fresh, outer.states as nat);
        lemma_closure_sunk(m, fresh, outer.states as nat);
        lemma_run_ranked(m, rank, earlier);
        lemma_round_ranked(m, rank, m.run(earlier), Some(symbol), n);
        lemma_closure_settles(m, rank, inner_fresh, n as nat, outer.states as nat);
        assert(Seq::<Seq<char>>::empty() + m.matches(input) =~= m.matches(input));
    }
}

} // verus!
