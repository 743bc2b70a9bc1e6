//! Algebraic laws of the constructions, stated of what the automata accept
//! and emit.

use crate::embed::{
    embeds, lemma_closure_embedded, lemma_fired_embedded, lemma_fired_none, lemma_run_embedded,
    shifted_branch, shifted_branches,
};
use crate::language::{accepted_in_turn, law_and_accepts, law_empty_accepts, law_or_accepts};
use crate::model::{link, links, shifted_edge, shifted_edges, shifted_states, Edge, Machine};
use crate::semantics::{
    fired_all, lemma_fired_add, lemma_fired_all_in_range, lemma_fired_all_push, lemma_fired_push,
    lemma_outputs_push, origin, Branch,
};
use crate::settle::{all_ranked_below, lemma_closure_settles, lemma_round_ranked};
use crate::sink::lemma_run_before_empty;
use vstd::prelude::*;

verus! {

/// Without accepting states nothing is accepted.
proof fn lemma_outputs_without_accepting(m: Machine, live: Seq<Branch>)
    requires
        m.accepting.len() == 0,
    ensures
        m.outputs(live) == Seq::<Seq<char>>::empty(),
    decreases live.len(),
{
    if live.len() == 0 {
        lemma_outputs_push(m, live, origin());
        assert(live =~= Seq::empty());
    } else {
        assert(live =~= live.drop_last().push(live.last()));
        lemma_outputs_without_accepting(m, live.drop_last());
        lemma_outputs_push(m, live.drop_last(), live.last());
    }
}

/// `all_reject` accepts no input.
pub proof fn law_all_reject_matches_nothing(input: Seq<char>)
    ensures
        Machine::all_reject().matches(input) == Seq::<Seq<char>>::empty(),
{
    lemma_outputs_without_accepting(Machine::all_reject(), Machine::all_reject().run(input));
}

/// `empty` is a left identity of concatenation: for an automaton `m` without
/// a cycle of epsilon edges, `empty` followed by `m` yields on every input
/// what `m` yields, entry for entry.
pub proof fn law_empty_and(m: Machine, input: Seq<char>)
    requires
        m.wf(),
        m.loop_free(),
    ensures
        Machine::empty().and(m).matches(input) == m.matches(input),
{
    let outer = Machine::empty().and(m);
    let before = Seq::<Edge>::empty();
    let moved = shifted_edges(m.edges, 1);
    let after = links(seq![0int], 1, None);
    let start = seq![origin()];
    assert(embeds(outer, m, 1, before, after));
    assert(outer.epsilon_closure(start) == start + shifted_branches(m.epsilon_closure(start), 1))
        by {
        lemma_fired_all_push(outer.edges, Seq::empty(), origin(), None);
        lemma_fired_add(before + moved, after, origin(), None);
        lemma_fired_add(before, moved, origin(), None);
        lemma_fired_none(before, origin(), None);
        assert forall|i: int| 0 <= i < moved.len() implies !((#[trigger] moved[i]).from == 0
            && moved[i].on == None::<char>) by {
            assert(moved[i] == shifted_edge(m.edges[i], 1));
        }
        lemma_fired_none(moved, origin(), None);
        assert(after =~= Seq::<Edge>::empty().push(link(0, 1, None)));
        lemma_fired_push(Seq::empty(), link(0, 1, None), origin(), None);
        assert(fired_all(outer.edges, start, None) =~= shifted_branches(start, 1));
        lemma_closure_embedded(outer, m, 1, before, after, start, m.states as nat);
    }
    lemma_run_embedded(outer, m, 1, before, after, start, input);
}

/// `empty` is a right identity of concatenation: for an automaton `m`
/// without a cycle of epsilon edges, `m` followed by `empty` yields on every
/// input what `m` yields, entry for entry.
pub proof fn law_and_empty(m: Machine, input: Seq<char>)
    requires
        m.wf(),
        m.loop_free(),
    ensures
        m.and(Machine::empty()).matches(input) == m.matches(input),
{
    lemma_run_before_empty(m, input);
}

/// `all_reject` is a left identity of alternation: for an automaton `m`
/// without a cycle of epsilon edges, `all_reject` or `m` yields on every
/// input what `m` yields, entry for entry.
pub proof fn law_all_reject_or(m: Machine, input: Seq<char>)
    requires
        m.wf(),
        m.loop_free(),
    ensures
        Machine::all_reject().or(m).matches(input) == m.matches(input),
{
    let outer = Machine::all_reject().or(m);
    let before = shifted_edges(Seq::<Edge>::empty(), 1);
    let moved = shifted_edges(m.edges, 2);
    let after = seq![link(0, 1, None), link(0, 2, None)];
    let start = seq![origin()];
    let side = Branch { state: 1, path: Seq::empty() };
    let head = seq![origin(), side];
    let first = fired_all(m.edges, start, None);
    assert(outer.accepting =~= shifted_states(m.accepting, 2));
    assert(embeds(outer, m, 2, before, after));
    assert forall|i: int| 0 <= i < moved.len() implies (#[trigger] moved[i]).from >= 2 by {
        assert(moved[i] == shifted_edge(m.edges[i], 2));
    }
    // The first round leads to the two sides.
    assert(fired_all(outer.edges, start, None) == seq![side, shifted_branch(origin(), 2)]) by {
        lemma_fired_all_push(outer.edges, Seq::empty(), origin(), None);
        lemma_fired_add(before + moved, after, origin(), None);
        lemma_fired_add(before, moved, origin(), None);
        lemma_fired_none(before, origin(), None);
        lemma_fired_none(moved, origin(), None);
        let one = Seq::<Edge>::empty().push(link(0, 1, None));
        assert(after =~= one.push(link(0, 2, None)));
        lemma_fired_push(Seq::empty(), link(0, 1, None), origin(), None);
        lemma_fired_push(one, link(0, 2, None), origin(), None);
        assert(fired_all(outer.edges, start, None) =~= seq![side, shifted_branch(origin(), 2)]);
    }
    // The second round leaves the dead side behind and enters `m`.
    let second = seq![side, shifted_branch(origin(), 2)];
    assert(fired_all(outer.edges, second, None) == shifted_branches(first, 2)) by {
        assert(second =~= seq![side].push(shifted_branch(origin(), 2)));
        lemma_fired_all_push(outer.edges, seq![side], shifted_branch(origin(), 2), None);
        lemma_fired_all_push(outer.edges, Seq::empty(), side, None);
        assert forall|i: int| 0 <= i < outer.edges.len() implies !((
        #[trigger] outer.edges[i]).from == 1) by {
            if i < before.len() {
            } else if i < before.len() + moved.len() {
                assert(outer.edges[i] == moved[i - before.len()]);
            } else {
                assert(outer.edges[i] == after[i - before.len() - moved.len()]);
            }
        }
        lemma_fired_none(outer.edges, side, None);
        lemma_fired_embedded(outer, m, 2, before, after, origin(), None);
        lemma_fired_all_push(m.edges, Seq::empty(), origin(), None);
        assert(fired_all(outer.edges, second, None) =~= shifted_branches(first, 2));
    }
    // From there on the closure is that of `m`, which one round less completes.
    let rank = choose|rank: Seq<int>| #[trigger] m.ranked_by(rank);
    assert(all_ranked_below(start, rank, m.states));
    lemma_round_ranked(m, rank, start, None, m.states);
    lemma_closure_settles(m, rank, first, (m.states - 1) as nat, m.states as nat);
    lemma_fired_all_in_range(m, start, None);
    lemma_closure_embedded(outer, m, 2, before, after, first, m.states as nat);
    let rest = m.closure(first, (m.states - 1) as nat);
    assert(m.epsilon_closure(start) == start + rest);
    assert(outer.epsilon_closure(start) == start + outer.closure(second, (m.states + 1) as nat));
    assert(outer.closure(second, (m.states + 1) as nat) == second + shifted_branches(rest, 2));
    assert(outer.epsilon_closure(start) =~= head + shifted_branches(start + rest, 2));
    lemma_run_embedded(outer, m, 2, before, after, head, input);
}

/// `empty` is an identity of concatenation, on either side, for every
/// automaton: with it the automaton accepts the same inputs with the same
/// outputs.
pub proof fn law_empty_identity_accepts(m: Machine, input: Seq<char>, output: Seq<char>)
    requires
        m.wf(),
    ensures
        Machine::empty().and(m).accepts(input, output) <==> m.accepts(input, output),
        m.and(Machine::empty()).accepts(input, output) <==> m.accepts(input, output),
{
    let e = Machine::empty();
    let none = Seq::<char>::empty();
    law_and_accepts(e, m, input, output);
    law_and_accepts(m, e, input, output);
    law_empty_accepts(none, none);
    assert(none + input =~= input && input + none =~= input);
    assert(none + output =~= output && output + none =~= output);
    if accepted_in_turn(e, m, input, output) {
        let (i1, o1, i2, o2) = choose|
            i1: Seq<char>,
            o1: Seq<char>,
            i2: Seq<char>,
            o2: Seq<char>,
        |
            #![trigger e.accepts(i1, o1), m.accepts(i2, o2)]
            e.accepts(i1, o1) && m.accepts(i2, o2) && input == i1 + i2 && output == o1 + o2;
        law_empty_accepts(i1, o1);
        assert(i1 + i2 =~= i2 && o1 + o2 =~= o2);
    }
    if accepted_in_turn(m, e, input, output) {
        let (i1, o1, i2, o2) = choose|
            i1: Seq<char>,
            o1: Seq<char>,
            i2: Seq<char>,
            o2: Seq<char>,
        |
            #![trigger m.accepts(i1, o1), e.accepts(i2, o2)]
            m.accepts(i1, o1) && e.accepts(i2, o2) && input == i1 + i2 && output == o1 + o2;
        law_empty_accepts(i2, o2);
        assert(i1 + i2 =~= i1 && o1 + o2 =~= o1);
    }
    if m.accepts(input, output) {
        assert(e.accepts(none, none) && m.accepts(input, output));
        assert(accepted_in_turn(e, m, input, output));
        assert(m.accepts(input, output) && e.accepts(none, none));
        assert(accepted_in_turn(m, e, input, output));
    }
}

/// `all_reject` is an identity of alternation, on either side, for every
/// automaton: with it the automaton accepts the same inputs with the same
/// outputs.
pub proof fn law_all_reject_identity_accepts(m: Machine, input: Seq<char>, output: Seq<char>)
    requires
        m.wf(),
    ensures
        Machine::all_reject().or(m).accepts(input, output) <==> m.accepts(input, output),
        m.or(Machine::all_reject()).accepts(input, output) <==> m.accepts(input, output),
{
    law_or_accepts(Machine::all_reject(), m, input, output);
    law_or_accepts(m, Machine::all_reject(), input, output);
    law_empty_accepts(input, output);
}

} // verus!
