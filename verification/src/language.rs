//! What the constructions accept, in terms of what their operands accept.

use crate::model::{link, links, shifted_edge, shifted_edges, Edge, Machine};
use crate::paths::{
    consumed, lemma_walk_add, lemma_walk_moved, lemma_walk_push, lemma_walk_wider, moved, walk,
    walkable,
};
use crate::semantics::{origin, Branch};
use vstd::prelude::*;
use vstd::seq_lib::lemma_flatten_concat;

verus! {

/// Whether `input` and `output` fall into two parts, one after the other, of
/// which `a` accepts the first and `b` the second.
pub open spec fn accepted_in_turn(
    a: Machine,
    b: Machine,
    input: Seq<char>,
    output: Seq<char>,
) -> bool {
    exists|i1: Seq<char>, o1: Seq<char>, i2: Seq<char>, o2: Seq<char>|
        #![trigger a.accepts(i1, o1), b.accepts(i2, o2)]
        a.accepts(i1, o1) && b.accepts(i2, o2) && input == i1 + i2 && output == o1 + o2
}

/// A path of `a` followed by `b` falls into a path of `a` and, once it has
/// left `a` by the link from one of its accepting states, a path of `b`.
///
/// Returns the two paths; the second is empty while the path is in `a`.
proof fn lemma_and_path(a: Machine, b: Machine, path: Seq<Edge>) -> (parts: (
    Seq<Edge>,
    Seq<Edge>,
))
    requires
        a.wf(),
        b.wf(),
        walkable(a.and(b).edges, path, origin()),
    ensures
        walkable(a.edges, parts.0, origin()),
        walkable(b.edges, parts.1, origin()),
        0 <= walk(path, origin()).state < a.states + b.states,
        walk(path, origin()).state < a.states ==> parts.0 == path,
        walk(path, origin()).state >= a.states ==> {
            &&& a.accepting.contains(walk(parts.0, origin()).state)
            &&& consumed(path) == consumed(parts.0) + consumed(parts.1)
            &&& walk(path, origin()) == moved(
                walk(parts.1, origin()),
                a.states,
                walk(parts.0, origin()).path,
            )
        },
    decreases path.len(),
{
    let outer = a.and(b);
    if path.len() == 0 {
        (path, Seq::empty())
    } else {
        let shorter = path.drop_last();
        let e = path.last();
        let before = walk(shorter, origin());
        let earlier = lemma_and_path(a, b, shorter);
        let j = choose|j: int| 0 <= j < outer.edges.len() && outer.edges[j] == e;
        if j < a.edges.len() {
            assert(e == a.edges[j]);
            (path, Seq::empty())
        } else if j < a.edges.len() + b.edges.len() {
            let own = b.edges[j - a.edges.len()];
            assert(e == shifted_edge(own, a.states));
            let second = earlier.1.push(own);
            assert(second.drop_last() =~= earlier.1);
            assert(consumed(path) =~= consumed(earlier.0) + consumed(second));
            assert(walk(path, origin()).path =~= moved(
                walk(second, origin()),
                a.states,
                walk(earlier.0, origin()).path,
            ).path);
            (earlier.0, second)
        } else {
            let k = j - a.edges.len() - b.edges.len();
            assert(e == link(a.accepting[k], a.states, None));
            assert(consumed(path) =~= consumed(shorter) + consumed(Seq::empty()));
            assert(walk(path, origin()).path =~= moved(origin(), a.states, before.path).path);
            (shorter, Seq::empty())
        }
    }
}

/// A path of `a` to one of its accepting states and a path of `b` make a
/// path of `a` followed by `b`. Returns that path.
proof fn lemma_and_joined(a: Machine, b: Machine, first: Seq<Edge>, second: Seq<Edge>) -> (path:
    Seq<Edge>)
    requires
        walkable(a.edges, first, origin()),
        a.accepting.contains(walk(first, origin()).state),
        walkable(b.edges, second, origin()),
    ensures
        walkable(a.and(b).edges, path, origin()),
        consumed(path) == consumed(first) + consumed(second),
        walk(path, origin()) == moved(
            walk(second, origin()),
            a.states,
            walk(first, origin()).path,
        ),
{
    let outer = a.and(b);
    let reached = walk(first, origin());
    let over = link(reached.state, a.states, None);
    let far = shifted_edges(second, a.states);
    let held = shifted_edges(b.edges, a.states);
    let tail = links(a.accepting, a.states, None);
    assert forall|i: int| 0 <= i < a.edges.len() implies outer.edges.contains(
        #[trigger] a.edges[i],
    ) by {
        assert(outer.edges[i] == a.edges[i]);
    }
    assert forall|i: int| 0 <= i < held.len() implies outer.edges.contains(#[trigger] held[i]) by {
        assert(outer.edges[a.edges.len() + i] == held[i]);
    }
    let k = choose|k: int| 0 <= k < a.accepting.len() && a.accepting[k] == reached.state;
    assert(outer.edges[a.edges.len() + held.len() + k] == over);
    lemma_walk_wider(a.edges, outer.edges, first, origin());
    // Over the link.
    let across = first.push(over);
    assert(across.drop_last() =~= first);
    assert(consumed(across) == consumed(first));
    let landed = walk(across, origin());
    assert(landed == moved(origin(), a.states, reached.path)) by {
        assert(landed.path =~= moved(origin(), a.states, reached.path).path);
    }
    // And on through `b`.
    lemma_walk_moved(b.edges, second, origin(), a.states, reached.path);
    lemma_walk_wider(held, outer.edges, far, landed);
    lemma_walk_add(outer.edges, across, far, origin());
    across + far
}

/// Concatenation accepts what falls into a part that the first automaton
/// accepts and a part that the second accepts, and nothing else.
pub proof fn law_and_accepts(a: Machine, b: Machine, input: Seq<char>, output: Seq<char>)
    requires
        a.wf(),
        b.wf(),
    ensures
        a.and(b).accepts(input, output) <==> accepted_in_turn(a, b, input, output),
{
    let outer = a.and(b);
    if outer.accepts(input, output) {
        let end = choose|end: Branch|
            #![trigger outer.reaches(input, end)]
            outer.reaches(input, end) && outer.accepting.contains(end.state) && end.path.flatten()
                == output;
        let path = choose|path: Seq<Edge>| #[trigger] outer.leads(path, input, end);
        let parts = lemma_and_path(a, b, path);
        let k = choose|k: int| 0 <= k < outer.accepting.len() && outer.accepting[k] == end.state;
        assert(outer.accepting[k] == b.accepting[k] + a.states);
        let e1 = walk(parts.0, origin());
        let e2 = walk(parts.1, origin());
        assert(a.leads(parts.0, consumed(parts.0), e1));
        assert(b.leads(parts.1, consumed(parts.1), e2));
        assert(a.reaches(consumed(parts.0), e1));
        assert(b.reaches(consumed(parts.1), e2));
        assert(e2.state == b.accepting[k]);
        lemma_flatten_concat(e1.path, e2.path);
        assert(a.accepts(consumed(parts.0), e1.path.flatten()));
        assert(b.accepts(consumed(parts.1), e2.path.flatten()));
        assert(accepted_in_turn(a, b, input, output));
    }
    if accepted_in_turn(a, b, input, output) {
        let (i1, o1, i2, o2) = choose|
            i1: Seq<char>,
            o1: Seq<char>,
            i2: Seq<char>,
            o2: Seq<char>,
        |
            #![trigger a.accepts(i1, o1), b.accepts(i2, o2)]
            a.accepts(i1, o1) && b.accepts(i2, o2) && input == i1 + i2 && output == o1 + o2;
        let e1 = choose|e1: Branch|
            #![trigger a.reaches(i1, e1)]
            a.reaches(i1, e1) && a.accepting.contains(e1.state) && e1.path.flatten() == o1;
        let e2 = choose|e2: Branch|
            #![trigger b.reaches(i2, e2)]
            b.reaches(i2, e2) && b.accepting.contains(e2.state) && e2.path.flatten() == o2;
        let first = choose|path: Seq<Edge>| #[trigger] a.leads(path, i1, e1);
        let second = choose|path: Seq<Edge>| #[trigger] b.leads(path, i2, e2);
        let path = lemma_and_joined(a, b, first, second);
        let end = walk(path, origin());
        assert(outer.leads(path, input, end));
        let k = choose|k: int| 0 <= k < b.accepting.len() && b.accepting[k] == e2.state;
        assert(outer.accepting[k] == end.state);
        lemma_flatten_concat(e1.path, e2.path);
        assert(outer.reaches(input, end));
    }
}

/// Optional concatenation accepts what concatenation accepts and what the
/// first automaton accepts alone, and nothing else.
pub proof fn law_and_optionally_accepts(
    a: Machine,
    b: Machine,
    input: Seq<char>,
    output: Seq<char>,
)
    requires
        a.wf(),
        b.wf(),
    ensures
        a.and_optionally(b).accepts(input, output) <==> accepted_in_turn(a, b, input, output)
            || a.accepts(input, output),
{
    let outer = a.and_optionally(b);
    assert(outer.edges == a.and(b).edges);
    if outer.accepts(input, output) {
        let end = choose|end: Branch|
            #![trigger outer.reaches(input, end)]
            outer.reaches(input, end) && outer.accepting.contains(end.state) && end.path.flatten()
                == output;
        let path = choose|path: Seq<Edge>| #[trigger] outer.leads(path, input, end);
        let parts = lemma_and_path(a, b, path);
        let k = choose|k: int| 0 <= k < outer.accepting.len() && outer.accepting[k] == end.state;
        if k < a.accepting.len() {
            assert(end.state == a.accepting[k]);
            assert(a.leads(path, input, end));
            assert(a.reaches(input, end));
        } else {
            let own = k - a.accepting.len();
            assert(outer.accepting[k] == b.accepting[own] + a.states);
            let e1 = walk(parts.0, origin());
            let e2 = walk(parts.1, origin());
            assert(a.leads(parts.0, consumed(parts.0), e1));
            assert(b.leads(parts.1, consumed(parts.1), e2));
            assert(a.reaches(consumed(parts.0), e1));
            assert(b.reaches(consumed(parts.1), e2));
            assert(e2.state == b.accepting[own]);
            lemma_flatten_concat(e1.path, e2.path);
            assert(a.accepts(consumed(parts.0), e1.path.flatten()));
            assert(b.accepts(consumed(parts.1), e2.path.flatten()));
            assert(accepted_in_turn(a, b, input, output));
        }
    }
    if a.accepts(input, output) {
        let end = choose|end: Branch|
            #![trigger a.reaches(input, end)]
            a.reaches(input, end) && a.accepting.contains(end.state) && end.path.flatten()
                == output;
        let path = choose|path: Seq<Edge>| #[trigger] a.leads(path, input, end);
        assert forall|i: int| 0 <= i < a.edges.len() implies outer.edges.contains(
            #[trigger] a.edges[i],
        ) by {
            assert(outer.edges[i] == a.edges[i]);
        }
        lemma_walk_wider(a.edges, outer.edges, path, origin());
        assert(outer.leads(path, input, end));
        let k = choose|k: int| 0 <= k < a.accepting.len() && a.accepting[k] == end.state;
        assert(outer.accepting[k] == end.state);
        assert(outer.reaches(input, end));
    }
    if accepted_in_turn(a, b, input, output) {
        let (i1, o1, i2, o2) = choose|
            i1: Seq<char>,
            o1: Seq<char>,
            i2: Seq<char>,
            o2: Seq<char>,
        |
            #![trigger a.accepts(i1, o1), b.accepts(i2, o2)]
            a.accepts(i1, o1) && b.accepts(i2, o2) && input == i1 + i2 && output == o1 + o2;
        let e1 = choose|e1: Branch|
            #![trigger a.reaches(i1, e1)]
            a.reaches(i1, e1) && a.accepting.contains(e1.state) && e1.path.flatten() == o1;
        let e2 = choose|e2: Branch|
            #![trigger b.reaches(i2, e2)]
            b.reaches(i2, e2) && b.accepting.contains(e2.state) && e2.path.flatten() == o2;
        let first = choose|path: Seq<Edge>| #[trigger] a.leads(path, i1, e1);
        let second = choose|path: Seq<Edge>| #[trigger] b.leads(path, i2, e2);
        let path = lemma_and_joined(a, b, first, second);
        let end = walk(path, origin());
        assert(outer.leads(path, input, end));
        let k = choose|k: int| 0 <= k < b.accepting.len() && b.accepting[k] == e2.state;
        assert(outer.accepting[a.accepting.len() + k] == end.state);
        lemma_flatten_concat(e1.path, e2.path);
        assert(outer.reaches(input, end));
    }
}

/// A path of `a` or `b` is empty, or it is a path of `a`, or of `b`, behind
/// the link from the new start state. Returns that path of `a` or `b`.
proof fn lemma_or_path(a: Machine, b: Machine, path: Seq<Edge>) -> (side: Seq<Edge>)
    requires
        a.wf(),
        b.wf(),
        walkable(a.or(b).edges, path, origin()),
    ensures
        0 <= walk(path, origin()).state < a.states + b.states + 1,
        walk(path, origin()).state == 0 ==> path.len() == 0,
        consumed(side) == consumed(path),
        1 <= walk(path, origin()).state <= a.states ==> {
            &&& walkable(a.edges, side, origin())
            &&& walk(path, origin()) == moved(walk(side, origin()), 1, Seq::empty())
        },
        walk(path, origin()).state > a.states ==> {
            &&& walkable(b.edges, side, origin())
            &&& walk(path, origin()) == moved(walk(side, origin()), a.states + 1, Seq::empty())
        },
    decreases path.len(),
{
    let outer = a.or(b);
    if path.len() == 0 {
        path
    } else {
        let shorter = path.drop_last();
        let e = path.last();
        let before = walk(shorter, origin());
        let earlier = lemma_or_path(a, b, shorter);
        let j = choose|j: int| 0 <= j < outer.edges.len() && outer.edges[j] == e;
        if j < a.edges.len() {
            let own = a.edges[j];
            assert(e == shifted_edge(own, 1));
            let side = earlier.push(own);
            assert(side.drop_last() =~= earlier);
            assert(walk(path, origin()).path =~= moved(walk(side, origin()), 1, Seq::empty()).path);
            side
        } else if j < a.edges.len() + b.edges.len() {
            let own = b.edges[j - a.edges.len()];
            assert(e == shifted_edge(own, a.states + 1));
            let side = earlier.push(own);
            assert(side.drop_last() =~= earlier);
            assert(walk(path, origin()).path =~= moved(
                walk(side, origin()),
                a.states + 1,
                Seq::empty(),
            ).path);
            side
        } else {
            assert(e == link(0, 1, None) || e == link(0, a.states + 1, None));
            assert(shorter =~= Seq::empty());
            assert(walk(path, origin()).path =~= moved(origin(), 1, Seq::empty()).path);
            Seq::empty()
        }
    }
}

/// A path of `a`, or of `b`, makes a path of `a` or `b` behind the link from
/// the new start state. Returns that path.
proof fn lemma_or_entered(a: Machine, b: Machine, side: Seq<Edge>, left: bool) -> (path: Seq<
    Edge,
>)
    requires
        walkable(
            if left {
                a.edges
            } else {
                b.edges
            },
            side,
            origin(),
        ),
    ensures
        walkable(a.or(b).edges, path, origin()),
        consumed(path) == consumed(side),
        walk(path, origin()) == moved(
            walk(side, origin()),
            if left {
                1
            } else {
                a.states + 1
            },
            Seq::empty(),
        ),
{
    let outer = a.or(b);
    let by = if left {
        1
    } else {
        a.states + 1
    };
    let own = if left {
        a.edges
    } else {
        b.edges
    };
    let held = shifted_edges(own, by);
    let over = link(0, by, None);
    let far = shifted_edges(side, by);
    let enter = Seq::<Edge>::empty().push(over);
    assert(outer.edges[a.edges.len() + b.edges.len() + (if left {
        0int
    } else {
        1int
    })] == over);
    lemma_walk_push(outer.edges, Seq::empty(), over, origin());
    let landed = walk(enter, origin());
    assert(landed == moved(origin(), by, Seq::empty())) by {
        assert(landed.path =~= moved(origin(), by, Seq::empty()).path);
    }
    assert forall|i: int| 0 <= i < held.len() implies outer.edges.contains(#[trigger] held[i]) by {
        if left {
            assert(outer.edges[i] == held[i]);
        } else {
            assert(outer.edges[a.edges.len() + i] == held[i]);
        }
    }
    lemma_walk_moved(own, side, origin(), by, Seq::empty());
    lemma_walk_wider(held, outer.edges, far, landed);
    lemma_walk_add(outer.edges, enter, far, origin());
    assert(consumed(enter) + consumed(far) =~= consumed(side));
    enter + far
}

/// Alternation accepts what either automaton accepts, and nothing else.
pub proof fn law_or_accepts(a: Machine, b: Machine, input: Seq<char>, output: Seq<char>)
    requires
        a.wf(),
        b.wf(),
    ensures
        a.or(b).accepts(input, output) <==> a.accepts(input, output) || b.accepts(input, output),
{
    let outer = a.or(b);
    if outer.accepts(input, output) {
        let end = choose|end: Branch|
            #![trigger outer.reaches(input, end)]
            outer.reaches(input, end) && outer.accepting.contains(end.state) && end.path.flatten()
                == output;
        let path = choose|path: Seq<Edge>| #[trigger] outer.leads(path, input, end);
        let side = lemma_or_path(a, b, path);
        let inner = walk(side, origin());
        assert(end.path =~= inner.path);
        let k = choose|k: int| 0 <= k < outer.accepting.len() && outer.accepting[k] == end.state;
        if k < a.accepting.len() {
            assert(outer.accepting[k] == a.accepting[k] + 1);
            assert(a.leads(side, input, inner));
            assert(a.reaches(input, inner));
            assert(inner.state == a.accepting[k]);
        } else {
            let own = k - a.accepting.len();
            assert(outer.accepting[k] == b.accepting[own] + a.states + 1);
            assert(b.leads(side, input, inner));
            assert(b.reaches(input, inner));
            assert(inner.state == b.accepting[own]);
        }
    }
    if a.accepts(input, output) {
        let inner = choose|end: Branch|
            #![trigger a.reaches(input, end)]
            a.reaches(input, end) && a.accepting.contains(end.state) && end.path.flatten()
                == output;
        let side = choose|path: Seq<Edge>| #[trigger] a.leads(path, input, inner);
        let path = lemma_or_entered(a, b, side, true);
        let end = walk(path, origin());
        assert(end.path =~= inner.path);
        assert(outer.leads(path, input, end));
        let k = choose|k: int| 0 <= k < a.accepting.len() && a.accepting[k] == inner.state;
        assert(outer.accepting[k] == end.state);
        assert(outer.reaches(input, end));
    }
    if b.accepts(input, output) {
        let inner = choose|end: Branch|
            #![trigger b.reaches(input, end)]
            b.reaches(input, end) && b.accepting.contains(end.state) && end.path.flatten()
                == output;
        let side = choose|path: Seq<Edge>| #[trigger] b.leads(path, input, inner);
        let path = lemma_or_entered(a, b, side, false);
        let end = walk(path, origin());
        assert(end.path =~= inner.path);
        assert(outer.leads(path, input, end));
        let k = choose|k: int| 0 <= k < b.accepting.len() && b.accepting[k] == inner.state;
        assert(outer.accepting[a.accepting.len() + k] == end.state);
        assert(outer.reaches(input, end));
    }
}

/// `empty` accepts the empty input, with the empty output, and nothing else;
/// `all_reject` accepts nothing.
pub proof fn law_empty_accepts(input: Seq<char>, output: Seq<char>)
    ensures
        Machine::empty().accepts(input, output) <==> input == Seq::<char>::empty() && output
            == Seq::<char>::empty(),
        !Machine::all_reject().accepts(input, output),
{
    let m = Machine::empty();
    if m.accepts(input, output) {
        let end = choose|end: Branch|
            #![trigger m.reaches(input, end)]
            m.reaches(input, end) && m.accepting.contains(end.state) && end.path.flatten()
                == output;
        let path = choose|path: Seq<Edge>| #[trigger] m.leads(path, input, end);
        if path.len() > 0 {
            assert(m.edges.contains(path.last()));
        }
        assert(output =~= Seq::<char>::empty());
    }
    if input == Seq::<char>::empty() && output == Seq::<char>::empty() {
        assert(m.leads(Seq::empty(), input, origin()));
        assert(m.reaches(input, origin()));
        assert(m.accepting[0] == 0);
        assert(origin().path.flatten() =~= output);
    }
    let r = Machine::all_reject();
    if r.accepts(input, output) {
        let end = choose|end: Branch|
            #![trigger r.reaches(input, end)]
            r.reaches(input, end) && r.accepting.contains(end.state) && end.path.flatten()
                == output;
        assert(r.accepting.contains(end.state));
    }
}

/// A path of `symbol` is empty or its one edge.
proof fn lemma_symbol_path(c: char, path: Seq<Edge>)
    requires
        walkable(Machine::symbol(c).edges, path, origin()),
    ensures
        path.len() == 0 || path == Machine::symbol(c).edges,
    decreases path.len(),
{
    let m = Machine::symbol(c);
    if path.len() > 0 {
        let shorter = path.drop_last();
        lemma_symbol_path(c, shorter);
        let j = choose|j: int| 0 <= j < m.edges.len() && m.edges[j] == path.last();
        if shorter.len() > 0 {
            assert(shorter =~= Seq::<Edge>::empty().push(m.edges[0]));
            lemma_walk_push(m.edges, Seq::empty(), m.edges[0], origin());
        }
        assert(path =~= m.edges);
    }
}

/// `symbol` accepts the one symbol, echoing it, and nothing else.
pub proof fn law_symbol_accepts(c: char, input: Seq<char>, output: Seq<char>)
    ensures
        Machine::symbol(c).accepts(input, output) <==> input == seq![c] && output == seq![c],
{
    let m = Machine::symbol(c);
    let e = m.edges[0];
    let one = Seq::<Edge>::empty().push(e);
    let there = Branch { state: 1, path: seq![seq![c]] };
    assert(one =~= m.edges);
    lemma_walk_push(m.edges, Seq::empty(), e, origin());
    assert(walk(one, origin()).path =~= there.path);
    assert(consumed(one) =~= seq![c]);
    there.path.lemma_flatten_one_element();
    if m.accepts(input, output) {
        let end = choose|end: Branch|
            #![trigger m.reaches(input, end)]
            m.reaches(input, end) && m.accepting.contains(end.state) && end.path.flatten()
                == output;
        let path = choose|path: Seq<Edge>| #[trigger] m.leads(path, input, end);
        let k = choose|k: int| 0 <= k < m.accepting.len() && m.accepting[k] == end.state;
        lemma_symbol_path(c, path);
    }
    if input == seq![c] && output == seq![c] {
        assert(m.leads(one, input, there));
        assert(m.reaches(input, there));
        assert(m.accepting[0] == 1);
    }
}

} // verus!
