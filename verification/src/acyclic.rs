//! Which constructions yield automata without a cycle of epsilon edges.

use crate::model::{lemma_and_wf, lemma_or_wf, link, muted_edge, shifted_edge, Machine};
use vstd::prelude::*;

verus! {

/// The primitive automata have no cycle of epsilon edges.
pub proof fn lemma_primitives_loop_free(c: char)
    ensures
        Machine::empty().loop_free(),
        Machine::all_reject().loop_free(),
        Machine::symbol(c).loop_free(),
{
    assert(Machine::empty().ranked_by(seq![0int]));
    assert(Machine::all_reject().ranked_by(seq![0int]));
    assert(Machine::symbol(c).ranked_by(seq![1int, 0int]));
}

/// Concatenation of automata without a cycle of epsilon edges has none.
pub proof fn lemma_and_loop_free(a: Machine, b: Machine)
    requires
        a.wf(),
        b.wf(),
        a.loop_free(),
        b.loop_free(),
    ensures
        a.and(b).loop_free(),
        a.and_optionally(b).loop_free(),
{
    let ra = choose|rank: Seq<int>| #[trigger] a.ranked_by(rank);
    let rb = choose|rank: Seq<int>| #[trigger] b.ranked_by(rank);
    let m = a.and(b);
    let rank = Seq::new(
        m.states as nat,
        |q: int|
            if q >= a.states {
                rb[q - a.states]
            } else if ra[q] >= 0 {
                ra[q] + b.states
            } else {
                -1
            },
    );
    assert forall|i: int| 0 <= i < m.edges.len() && rank[(#[trigger] m.edges[i]).from] >= 0 implies {
        &&& rank[m.edges[i].to] >= 0
        &&& m.edges[i].on is None ==> rank[m.edges[i].to] < rank[m.edges[i].from]
    } by {
        if i < a.edges.len() {
            assert(m.edges[i] == a.edges[i]);
        } else if i < a.edges.len() + b.edges.len() {
            assert(m.edges[i] == shifted_edge(b.edges[i - a.edges.len()], a.states));
        } else {
            let k = i - a.edges.len() - b.edges.len();
            assert(m.edges[i] == link(a.accepting[k], a.states, None));
        }
    }
    assert(m.ranked_by(rank));
    assert(a.and_optionally(b).edges == m.edges);
    assert(a.and_optionally(b).ranked_by(rank));
}

/// Alternation of automata without a cycle of epsilon edges has none.
pub proof fn lemma_or_loop_free(a: Machine, b: Machine)
    requires
        a.wf(),
        b.wf(),
        a.loop_free(),
        b.loop_free(),
    ensures
        a.or(b).loop_free(),
{
    let ra = choose|rank: Seq<int>| #[trigger] a.ranked_by(rank);
    let rb = choose|rank: Seq<int>| #[trigger] b.ranked_by(rank);
    let m = a.or(b);
    let rank = Seq::new(
        m.states as nat,
        |q: int|
            if q == 0 {
                a.states + b.states
            } else if q <= a.states {
                ra[q - 1]
            } else {
                rb[q - a.states - 1]
            },
    );
    assert forall|i: int| 0 <= i < m.edges.len() && rank[(#[trigger] m.edges[i]).from] >= 0 implies {
        &&& rank[m.edges[i].to] >= 0
        &&& m.edges[i].on is None ==> rank[m.edges[i].to] < rank[m.edges[i].from]
    } by {
        if i < a.edges.len() {
            assert(m.edges[i] == shifted_edge(a.edges[i], 1));
        } else if i < a.edges.len() + b.edges.len() {
            assert(m.edges[i] == shifted_edge(b.edges[i - a.edges.len()], a.states + 1));
        }
    }
    assert(m.ranked_by(rank));
}

/// Wrapping and muting an automaton without a cycle of epsilon edges yields
/// one without.
pub proof fn lemma_wrap_loop_free(a: Machine, name: Seq<char>)
    requires
        a.wf(),
        a.loop_free(),
    ensures
        a.wrap(name).loop_free(),
        a.consume().loop_free(),
{
    let ra = choose|rank: Seq<int>| #[trigger] a.ranked_by(rank);
    let w = a.wrap(name);
    let rank = Seq::new(
        w.states as nat,
        |q: int|
            if q == 0 {
                a.states + 1
            } else if q == 1 {
                0
            } else if ra[q - 2] >= 0 {
                ra[q - 2] + 1
            } else {
                -1
            },
    );
    assert forall|i: int| 0 <= i < w.edges.len() && rank[(#[trigger] w.edges[i]).from] >= 0 implies {
        &&& rank[w.edges[i].to] >= 0
        &&& w.edges[i].on is None ==> rank[w.edges[i].to] < rank[w.edges[i].from]
    } by {
        if i < a.edges.len() {
            assert(w.edges[i] == shifted_edge(a.edges[i], 2));
        } else if i > a.edges.len() {
            assert(w.edges[i] == link(a.accepting[i - a.edges.len() - 1] + 2, 1, Some(seq![' '])));
        }
    }
    assert(w.ranked_by(rank));
    let c = a.consume();
    assert forall|i: int| 0 <= i < c.edges.len() && ra[(#[trigger] c.edges[i]).from] >= 0 implies {
        &&& ra[c.edges[i].to] >= 0
        &&& c.edges[i].on is None ==> ra[c.edges[i].to] < ra[c.edges[i].from]
    } by {
        assert(c.edges[i] == muted_edge(a.edges[i]));
    }
    assert(c.ranked_by(ra));
}

/// An automaton that accepts nothing before it has consumed a symbol has no
/// cycle of epsilon edges.
pub proof fn lemma_consuming_loop_free(a: Machine)
    requires
        a.consuming(),
    ensures
        a.loop_free(),
{
    let rank = choose|rank: Seq<int>| #[trigger] a.consuming_by(rank);
    assert(a.ranked_by(rank));
}

/// `symbol` and `all_reject` accept nothing before they have consumed a
/// symbol.
pub proof fn lemma_primitives_consuming(c: char)
    ensures
        Machine::all_reject().consuming(),
        Machine::symbol(c).consuming(),
{
    assert(Machine::all_reject().consuming_by(seq![0int]));
    assert(Machine::symbol(c).consuming_by(seq![0int, 1int]));
}

/// Concatenation accepts nothing before it has consumed a symbol where the
/// second automaton does not.
pub proof fn lemma_and_consuming_second(a: Machine, b: Machine)
    requires
        a.wf(),
        b.wf(),
        a.loop_free(),
        b.consuming(),
    ensures
        a.and(b).consuming(),
{
    let ra = choose|rank: Seq<int>| #[trigger] a.ranked_by(rank);
    let rb = choose|rank: Seq<int>| #[trigger] b.consuming_by(rank);
    let m = a.and(b);
    let rank = Seq::new(
        m.states as nat,
        |q: int|
            if q < a.states {
                if ra[q] >= 0 {
                    ra[q] + rb[0] + 1
                } else {
                    -1
                }
            } else if rb[q - a.states] > rb[0] {
                rb[q - a.states] + a.states
            } else {
                rb[q - a.states]
            },
    );
    assert forall|i: int| 0 <= i < m.edges.len() && rank[(#[trigger] m.edges[i]).from] >= 0 implies {
        &&& rank[m.edges[i].to] >= 0
        &&& m.edges[i].on is None ==> rank[m.edges[i].to] < rank[m.edges[i].from]
    } by {
        if i < a.edges.len() {
            assert(m.edges[i] == a.edges[i]);
        } else if i < a.edges.len() + b.edges.len() {
            assert(m.edges[i] == shifted_edge(b.edges[i - a.edges.len()], a.states));
        } else {
            let k = i - a.edges.len() - b.edges.len();
            assert(m.edges[i] == link(a.accepting[k], a.states, None));
        }
    }
    assert forall|i: int|
        0 <= i < m.accepting.len() && rank[#[trigger] m.accepting[i]] >= 0 implies rank[m.accepting[i]]
        > rank[0] by {
        assert(m.accepting[i] == b.accepting[i] + a.states);
    }
    assert(m.consuming_by(rank));
}

/// Concatenation, with or without the second part, accepts nothing before
/// it has consumed a symbol where the first automaton does not.
pub proof fn lemma_and_consuming_first(a: Machine, b: Machine)
    requires
        a.wf(),
        b.wf(),
        a.consuming(),
        b.loop_free(),
    ensures
        a.and(b).consuming(),
        a.and_optionally(b).consuming(),
{
    let ra = choose|rank: Seq<int>| #[trigger] a.consuming_by(rank);
    let rb = choose|rank: Seq<int>| #[trigger] b.ranked_by(rank);
    let m = a.and(b);
    let o = a.and_optionally(b);
    let rank = Seq::new(
        m.states as nat,
        |q: int|
            if q < a.states {
                if ra[q] > ra[0] {
                    ra[q] + b.states
                } else {
                    ra[q]
                }
            } else if rb[q - a.states] >= 0 {
                rb[q - a.states] + ra[0] + 1
            } else {
                -1
            },
    );
    assert forall|i: int| 0 <= i < m.edges.len() && rank[(#[trigger] m.edges[i]).from] >= 0 implies {
        &&& rank[m.edges[i].to] >= 0
        &&& m.edges[i].on is None ==> rank[m.edges[i].to] < rank[m.edges[i].from]
    } by {
        if i < a.edges.len() {
            assert(m.edges[i] == a.edges[i]);
        } else if i < a.edges.len() + b.edges.len() {
            assert(m.edges[i] == shifted_edge(b.edges[i - a.edges.len()], a.states));
        } else {
            let k = i - a.edges.len() - b.edges.len();
            assert(m.edges[i] == link(a.accepting[k], a.states, None));
        }
    }
    assert forall|i: int|
        0 <= i < m.accepting.len() && rank[#[trigger] m.accepting[i]] >= 0 implies rank[m.accepting[i]]
        > rank[0] by {
        assert(m.accepting[i] == b.accepting[i] + a.states);
    }
    assert(m.consuming_by(rank));
    assert(o.edges == m.edges);
    assert forall|i: int|
        0 <= i < o.accepting.len() && rank[#[trigger] o.accepting[i]] >= 0 implies rank[o.accepting[i]]
        > rank[0] by {
        if i < a.accepting.len() {
            assert(o.accepting[i] == a.accepting[i]);
        } else {
            assert(o.accepting[i] == b.accepting[i - a.accepting.len()] + a.states);
        }
    }
    assert(o.consuming_by(rank));
}

/// Alternation accepts nothing before it has consumed a symbol where
/// neither automaton does.
pub proof fn lemma_or_consuming(a: Machine, b: Machine)
    requires
        a.wf(),
        b.wf(),
        a.consuming(),
        b.consuming(),
    ensures
        a.or(b).consuming(),
{
    let ra = choose|rank: Seq<int>| #[trigger] a.consuming_by(rank);
    let rb = choose|rank: Seq<int>| #[trigger] b.consuming_by(rank);
    let m = a.or(b);
    let top = if ra[0] > rb[0] {
        ra[0] + 1
    } else {
        rb[0] + 1
    };
    let rank = Seq::new(
        m.states as nat,
        |q: int|
            if q == 0 {
                top
            } else if q <= a.states {
                if ra[q - 1] > ra[0] {
                    ra[q - 1] + b.states + 1
                } else {
                    ra[q - 1]
                }
            } else if rb[q - a.states - 1] > rb[0] {
                rb[q - a.states - 1] + a.states + 1
            } else {
                rb[q - a.states - 1]
            },
    );
    assert forall|i: int| 0 <= i < m.edges.len() && rank[(#[trigger] m.edges[i]).from] >= 0 implies {
        &&& rank[m.edges[i].to] >= 0
        &&& m.edges[i].on is None ==> rank[m.edges[i].to] < rank[m.edges[i].from]
    } by {
        if i < a.edges.len() {
            assert(m.edges[i] == shifted_edge(a.edges[i], 1));
        } else if i < a.edges.len() + b.edges.len() {
            assert(m.edges[i] == shifted_edge(b.edges[i - a.edges.len()], a.states + 1));
        }
    }
    assert forall|i: int|
        0 <= i < m.accepting.len() && rank[#[trigger] m.accepting[i]] >= 0 implies rank[m.accepting[i]]
        > rank[0] by {
        if i < a.accepting.len() {
            assert(m.accepting[i] == a.accepting[i] + 1);
        } else {
            assert(m.accepting[i] == b.accepting[i - a.accepting.len()] + a.states + 1);
        }
    }
    assert(m.consuming_by(rank));
}

/// Wrapping and muting an automaton that accepts nothing before it has
/// consumed a symbol yields one of the same kind.
pub proof fn lemma_wrap_consuming(a: Machine, name: Seq<char>)
    requires
        a.wf(),
        a.consuming(),
    ensures
        a.wrap(name).consuming(),
        a.consume().consuming(),
{
    let ra = choose|rank: Seq<int>| #[trigger] a.consuming_by(rank);
    let w = a.wrap(name);
    let rank = Seq::new(
        w.states as nat,
        |q: int|
            if q == 0 {
                ra[0] + 1
            } else if q == 1 {
                ra[0] + 2
            } else if ra[q - 2] > ra[0] {
                ra[q - 2] + 2
            } else {
                ra[q - 2]
            },
    );
    assert forall|i: int| 0 <= i < w.edges.len() && rank[(#[trigger] w.edges[i]).from] >= 0 implies {
        &&& rank[w.edges[i].to] >= 0
        &&& w.edges[i].on is None ==> rank[w.edges[i].to] < rank[w.edges[i].from]
    } by {
        if i < a.edges.len() {
            assert(w.edges[i] == shifted_edge(a.edges[i], 2));
        } else if i > a.edges.len() {
            assert(w.edges[i] == link(a.accepting[i - a.edges.len() - 1] + 2, 1, Some(seq![' '])));
        }
    }
    assert(w.consuming_by(rank));
    let c = a.consume();
    assert forall|i: int| 0 <= i < c.edges.len() && ra[(#[trigger] c.edges[i]).from] >= 0 implies {
        &&& ra[c.edges[i].to] >= 0
        &&& c.edges[i].on is None ==> ra[c.edges[i].to] < ra[c.edges[i].from]
    } by {
        assert(c.edges[i] == muted_edge(a.edges[i]));
    }
    assert(c.consuming_by(ra));
}

/// The repetitions of an automaton that accepts nothing before it has
/// consumed a symbol have no cycle of epsilon edges; `at_least_once` again
/// accepts nothing before it has consumed a symbol.
pub proof fn lemma_repetition_loop_free(a: Machine)
    requires
        a.wf(),
        a.consuming(),
    ensures
        a.at_least_once().consuming(),
        a.at_least_once().loop_free(),
        a.repeated().loop_free(),
{
    let rank = choose|rank: Seq<int>| #[trigger] a.consuming_by(rank);
    let m = a.at_least_once();
    assert forall|i: int| 0 <= i < m.edges.len() && rank[(#[trigger] m.edges[i]).from] >= 0 implies {
        &&& rank[m.edges[i].to] >= 0
        &&& m.edges[i].on is None ==> rank[m.edges[i].to] < rank[m.edges[i].from]
    } by {
        if i < a.edges.len() {
            assert(m.edges[i] == a.edges[i]);
        } else {
            assert(m.edges[i] == link(a.accepting[i - a.edges.len()], 0, None));
        }
    }
    assert(m.consuming_by(rank));
    assert(m.ranked_by(rank));
    let r = a.repeated();
    let lifted = Seq::new(
        r.states as nat,
        |q: int|
            if q == 0 {
                rank[0] + 1
            } else if rank[q - 1] > rank[0] {
                rank[q - 1] + 1
            } else {
                rank[q - 1]
            },
    );
    assert forall|i: int| 0 <= i < r.edges.len() && lifted[(#[trigger] r.edges[i]).from]
        >= 0 implies {
        &&& lifted[r.edges[i].to] >= 0
        &&& r.edges[i].on is None ==> lifted[r.edges[i].to] < lifted[r.edges[i].from]
    } by {
        if i < a.edges.len() {
            assert(r.edges[i] == shifted_edge(a.edges[i], 1));
        } else if i > a.edges.len() {
            assert(r.edges[i] == link(a.accepting[i - a.edges.len() - 1] + 1, 0, None));
        }
    }
    assert(r.ranked_by(lifted));
}

/// The automata for a text and for a set of symbols have no cycle of epsilon
/// edges.
pub proof fn lemma_string_loop_free(text: Seq<char>)
    ensures
        Machine::string(text).wf(),
        Machine::string(text).loop_free(),
        Machine::one_of_symbols(text).wf(),
        Machine::one_of_symbols(text).loop_free(),
    decreases text.len(),
{
    lemma_primitives_loop_free('a');
    if text.len() > 0 {
        lemma_string_loop_free(text.drop_last());
        lemma_primitives_loop_free(text.last());
        let s = Machine::string(text.drop_last());
        let o = Machine::one_of_symbols(text.drop_last());
        let c = Machine::symbol(text.last());
        lemma_and_wf(s, c);
        lemma_and_loop_free(s, c);
        lemma_or_wf(o, c);
        lemma_or_loop_free(o, c);
    }
}

/// Alternation over automata without a cycle of epsilon edges has none.
pub proof fn lemma_one_of_loop_free(machines: Seq<Machine>)
    requires
        forall|i: int| 0 <= i < machines.len() ==> (#[trigger] machines[i]).wf(),
        forall|i: int| 0 <= i < machines.len() ==> (#[trigger] machines[i]).loop_free(),
    ensures
        Machine::one_of(machines).wf(),
        Machine::one_of(machines).loop_free(),
    decreases machines.len(),
{
    lemma_primitives_loop_free('a');
    if machines.len() > 0 {
        lemma_one_of_loop_free(machines.drop_last());
        lemma_or_wf(machines.last(), Machine::one_of(machines.drop_last()));
        lemma_or_loop_free(machines.last(), Machine::one_of(machines.drop_last()));
    }
}

/// The automaton for a text that is not empty, and the automaton for a set
/// of symbols, accept nothing before they have consumed a symbol.
pub proof fn lemma_string_consuming(text: Seq<char>)
    ensures
        text.len() > 0 ==> Machine::string(text).consuming(),
        Machine::one_of_symbols(text).consuming(),
    decreases text.len(),
{
    lemma_primitives_consuming('a');
    if text.len() > 0 {
        let first = text.drop_last();
        let c = Machine::symbol(text.last());
        lemma_string_consuming(first);
        lemma_string_loop_free(first);
        lemma_primitives_consuming(text.last());
        lemma_and_consuming_second(Machine::string(first), c);
        lemma_or_consuming(Machine::one_of_symbols(first), c);
    }
}

/// Alternation over automata that accept nothing before they have consumed
/// a symbol is of the same kind.
pub proof fn lemma_one_of_consuming(machines: Seq<Machine>)
    requires
        forall|i: int| 0 <= i < machines.len() ==> (#[trigger] machines[i]).wf(),
        forall|i: int| 0 <= i < machines.len() ==> (#[trigger] machines[i]).consuming(),
    ensures
        Machine::one_of(machines).wf(),
        Machine::one_of(machines).consuming(),
    decreases machines.len(),
{
    lemma_primitives_consuming('a');
    if machines.len() > 0 {
        lemma_one_of_consuming(machines.drop_last());
        lemma_or_wf(machines.last(), Machine::one_of(machines.drop_last()));
        lemma_or_consuming(machines.last(), Machine::one_of(machines.drop_last()));
    }
}

} // verus!
