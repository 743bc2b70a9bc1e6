//! What a wrapped automaton and a muted automaton accept.

use crate::model::{link, muted_edge, muted_edges, shifted_edge, shifted_edges, Edge, Machine};
use crate::paths::{
    consumed, lemma_walk_add, lemma_walk_moved, lemma_walk_push, lemma_walk_wider, moved, walk,
    walkable,
};
use crate::semantics::{origin, Branch};
use vstd::prelude::*;
use vstd::seq_lib::lemma_flatten_concat;

verus! {

/// The fragments of a wrapped output: the label, what the automaton emits,
/// and the closing space.
pub open spec fn wrapped(name: Seq<char>, inner: Seq<Seq<char>>) -> Seq<Seq<char>> {
    seq![name.push(' ')] + inner + seq![seq![' ']]
}

/// Whether `input` is accepted by `m` with some output, and `output` is that
/// output with `name` and a space before it and a space after it.
pub open spec fn accepted_wrapped(
    m: Machine,
    name: Seq<char>,
    input: Seq<char>,
    output: Seq<char>,
) -> bool {
    exists|inner: Seq<char>|
        #[trigger] m.accepts(input, inner) && output == name.push(' ') + inner + seq![' ']
}

/// Whether `input` is accepted by `m` with some output, and `output` is
/// empty.
pub open spec fn accepted_muted(m: Machine, input: Seq<char>, output: Seq<char>) -> bool {
    output == Seq::<char>::empty() && exists|loud: Seq<char>| #[trigger] m.accepts(input, loud)
}

/// The fragments of a wrapped output join to the label, a space, the joined
/// inner fragments and a space.
proof fn lemma_wrapped_flatten(name: Seq<char>, inner: Seq<Seq<char>>)
    ensures
        wrapped(name, inner).flatten() == name.push(' ') + inner.flatten() + seq![' '],
{
    let head = seq![name.push(' ')];
    let tail = seq![seq![' ']];
    lemma_flatten_concat(head + inner, tail);
    lemma_flatten_concat(head, inner);
    head.lemma_flatten_one_element();
    tail.lemma_flatten_one_element();
}

/// A path of the wrapped automaton is empty, or it is a path of the
/// automaton behind the entry edge, with the exit edge after it once it has
/// come to the new accepting state. Returns that path of the automaton.
proof fn lemma_wrap_path(m: Machine, name: Seq<char>, path: Seq<Edge>) -> (inner: Seq<Edge>)
    requires
        m.wf(),
        walkable(m.wrap(name).edges, path, origin()),
    ensures
        0 <= walk(path, origin()).state < m.states + 2,
        walk(path, origin()).state == 0 ==> path.len() == 0,
        walkable(m.edges, inner, origin()),
        consumed(inner) == consumed(path),
        walk(path, origin()).state >= 2 ==> walk(path, origin()) == moved(
            walk(inner, origin()),
            2,
            seq![name.push(' ')],
        ),
        walk(path, origin()).state == 1 ==> {
            &&& m.accepting.contains(walk(inner, origin()).state)
            &&& walk(path, origin()).path == wrapped(name, walk(inner, origin()).path)
        },
    decreases path.len(),
{
    let outer = m.wrap(name);
    if path.len() == 0 {
        path
    } else {
        let shorter = path.drop_last();
        let e = path.last();
        let before = walk(shorter, origin());
        let earlier = lemma_wrap_path(m, name, shorter);
        let j = choose|j: int| 0 <= j < outer.edges.len() && outer.edges[j] == e;
        if j < m.edges.len() {
            let own = m.edges[j];
            assert(e == shifted_edge(own, 2));
            let inner = earlier.push(own);
            assert(inner.drop_last() =~= earlier);
            assert(walk(path, origin()).path =~= moved(
                walk(inner, origin()),
                2,
                seq![name.push(' ')],
            ).path);
            inner
        } else if j == m.edges.len() {
            assert(e == link(0, 2, Some(name.push(' '))));
            assert(shorter =~= Seq::empty());
            assert(walk(path, origin()).path =~= moved(origin(), 2, seq![name.push(' ')]).path);
            Seq::empty()
        } else {
            let k = j - m.edges.len() - 1;
            assert(e == link(m.accepting[k] + 2, 1, Some(seq![' '])));
            assert(walk(earlier, origin()).state == m.accepting[k]);
            assert(walk(path, origin()).path =~= wrapped(name, walk(earlier, origin()).path));
            earlier
        }
    }
}

/// A path of the automaton to one of its accepting states makes a path of
/// the wrapped automaton to its accepting state. Returns that path.
proof fn lemma_wrap_around(m: Machine, name: Seq<char>, inner: Seq<Edge>) -> (path: Seq<Edge>)
    requires
        walkable(m.edges, inner, origin()),
        m.accepting.contains(walk(inner, origin()).state),
    ensures
        walkable(m.wrap(name).edges, path, origin()),
        consumed(path) == consumed(inner),
        walk(path, origin()) == (Branch {
            state: 1,
            path: wrapped(name, walk(inner, origin()).path),
        }),
{
    let outer = m.wrap(name);
    let label = name.push(' ');
    let entry = link(0, 2, Some(label));
    let reached = walk(inner, origin());
    let exit = link(reached.state + 2, 1, Some(seq![' ']));
    let held = shifted_edges(m.edges, 2);
    let far = shifted_edges(inner, 2);
    let enter = Seq::<Edge>::empty().push(entry);
    assert(outer.edges[m.edges.len() as int] == entry);
    let k = choose|k: int| 0 <= k < m.accepting.len() && m.accepting[k] == reached.state;
    assert(outer.edges[m.edges.len() + 1 + k] == exit);
    assert forall|i: int| 0 <= i < held.len() implies outer.edges.contains(#[trigger] held[i]) by {
        assert(outer.edges[i] == held[i]);
    }
    lemma_walk_push(outer.edges, Seq::empty(), entry, origin());
    let landed = walk(enter, origin());
    assert(landed == moved(origin(), 2, seq![label])) by {
        assert(landed.path =~= moved(origin(), 2, seq![label]).path);
    }
    lemma_walk_moved(m.edges, inner, origin(), 2, seq![label]);
    lemma_walk_wider(held, outer.edges, far, landed);
    lemma_walk_add(outer.edges, enter, far, origin());
    lemma_walk_push(outer.edges, enter + far, exit, origin());
    assert(consumed(enter) + consumed(far) =~= consumed(inner));
    let path = (enter + far).push(exit);
    assert(walk(path, origin()).path =~= wrapped(name, reached.path));
    path
}

/// The wrapped automaton accepts what the automaton accepts, with the label
/// and a space before the output and a space after it, and nothing else.
pub proof fn law_wrap_accepts(m: Machine, name: Seq<char>, input: Seq<char>, output: Seq<char>)
    requires
        m.wf(),
    ensures
        m.wrap(name).accepts(input, output) <==> accepted_wrapped(m, name, input, output),
{
    let outer = m.wrap(name);
    if outer.accepts(input, output) {
        let end = choose|end: Branch|
            #![trigger outer.reaches(input, end)]
            outer.reaches(input, end) && outer.accepting.contains(end.state) && end.path.flatten()
                == output;
        let path = choose|path: Seq<Edge>| #[trigger] outer.leads(path, input, end);
        let k = choose|k: int| 0 <= k < outer.accepting.len() && outer.accepting[k] == end.state;
        let inner = lemma_wrap_path(m, name, path);
        let reached = walk(inner, origin());
        lemma_wrapped_flatten(name, reached.path);
        assert(m.leads(inner, input, reached));
        assert(m.reaches(input, reached));
        assert(m.accepts(input, reached.path.flatten()));
    }
    if accepted_wrapped(m, name, input, output) {
        let text = choose|inner: Seq<char>|
            #[trigger] m.accepts(input, inner) && output == name.push(' ') + inner + seq![' '];
        let reached = choose|end: Branch|
            #![trigger m.reaches(input, end)]
            m.reaches(input, end) && m.accepting.contains(end.state) && end.path.flatten() == text;
        let inner = choose|path: Seq<Edge>| #[trigger] m.leads(path, input, reached);
        let path = lemma_wrap_around(m, name, inner);
        let end = walk(path, origin());
        lemma_wrapped_flatten(name, reached.path);
        assert(outer.leads(path, input, end));
        assert(outer.reaches(input, end));
        assert(outer.accepting[0] == 1);
    }
}

/// A path of the muted automaton is a path of the automaton with its
/// outputs removed: it emits nothing. Returns that path of the automaton.
proof fn lemma_consume_path(m: Machine, path: Seq<Edge>) -> (loud: Seq<Edge>)
    requires
        walkable(m.consume().edges, path, origin()),
    ensures
        walkable(m.edges, loud, origin()),
        consumed(loud) == consumed(path),
        walk(loud, origin()).state == walk(path, origin()).state,
        walk(path, origin()).path == Seq::<Seq<char>>::empty(),
    decreases path.len(),
{
    let outer = m.consume();
    if path.len() == 0 {
        path
    } else {
        let earlier = lemma_consume_path(m, path.drop_last());
        let j = choose|j: int| 0 <= j < outer.edges.len() && outer.edges[j] == path.last();
        assert(path.last() == muted_edge(m.edges[j]));
        lemma_walk_push(m.edges, earlier, m.edges[j], origin());
        earlier.push(m.edges[j])
    }
}

/// A path of the automaton, with its outputs removed, is a path of the
/// muted automaton.
proof fn lemma_muted_path(m: Machine, loud: Seq<Edge>)
    requires
        walkable(m.edges, loud, origin()),
    ensures
        walkable(m.consume().edges, muted_edges(loud), origin()),
        consumed(muted_edges(loud)) == consumed(loud),
        walk(muted_edges(loud), origin()).state == walk(loud, origin()).state,
        walk(muted_edges(loud), origin()).path == Seq::<Seq<char>>::empty(),
    decreases loud.len(),
{
    let outer = m.consume();
    let path = muted_edges(loud);
    if loud.len() == 0 {
        assert(path =~= Seq::empty());
    } else {
        lemma_muted_path(m, loud.drop_last());
        assert(path.drop_last() =~= muted_edges(loud.drop_last()));
        assert(path.last() == muted_edge(loud.last()));
        let j = choose|j: int| 0 <= j < m.edges.len() && m.edges[j] == loud.last();
        assert(outer.edges[j] == path.last());
    }
}

/// The muted automaton accepts the inputs that the automaton accepts, each
/// with the empty output, and nothing else.
pub proof fn law_consume_accepts(m: Machine, input: Seq<char>, output: Seq<char>)
    ensures
        m.consume().accepts(input, output) <==> accepted_muted(m, input, output),
{
    let outer = m.consume();
    if outer.accepts(input, output) {
        let end = choose|end: Branch|
            #![trigger outer.reaches(input, end)]
            outer.reaches(input, end) && outer.accepting.contains(end.state) && end.path.flatten()
                == output;
        let path = choose|path: Seq<Edge>| #[trigger] outer.leads(path, input, end);
        let loud = lemma_consume_path(m, path);
        let reached = walk(loud, origin());
        assert(m.leads(loud, input, reached));
        assert(m.reaches(input, reached));
        assert(m.accepts(input, reached.path.flatten()));
        assert(output =~= Seq::<char>::empty());
    }
    if accepted_muted(m, input, output) {
        let text = choose|loud: Seq<char>| #[trigger] m.accepts(input, loud);
        let reached = choose|end: Branch|
            #![trigger m.reaches(input, end)]
            m.reaches(input, end) && m.accepting.contains(end.state) && end.path.flatten() == text;
        let loud = choose|path: Seq<Edge>| #[trigger] m.leads(path, input, reached);
        lemma_muted_path(m, loud);
        let end = walk(muted_edges(loud), origin());
        assert(outer.leads(muted_edges(loud), input, end));
        assert(outer.reaches(input, end));
        assert(end.path.flatten() =~= output);
    }
}

} // verus!
