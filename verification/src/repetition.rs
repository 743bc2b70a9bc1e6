//! What the repetitions of an automaton accept.

use crate::model::{link, shifted_edge, shifted_edges, shifted_states, Edge, Machine};
use crate::paths::{
    consumed, lemma_walk_add, lemma_walk_moved, lemma_walk_push, lemma_walk_wider, moved, walk,
    walkable,
};
use crate::semantics::{origin, Branch};
use vstd::prelude::*;
use vstd::seq_lib::lemma_flatten_concat;

verus! {

/// Whether `m` accepts each part of `inputs` with the part of `outputs` at
/// the same place.
pub open spec fn accepted_parts(
    m: Machine,
    inputs: Seq<Seq<char>>,
    outputs: Seq<Seq<char>>,
) -> bool {
    &&& inputs.len() == outputs.len()
    &&& forall|k: int| 0 <= k < inputs.len() ==> m.accepts(#[trigger] inputs[k], outputs[k])
}

/// Whether `input` and `output` fall into `times` parts, one after the
/// other, each of which `m` accepts.
pub open spec fn accepted_times(
    m: Machine,
    times: nat,
    input: Seq<char>,
    output: Seq<char>,
) -> bool {
    exists|inputs: Seq<Seq<char>>, outputs: Seq<Seq<char>>|
        #![trigger accepted_parts(m, inputs, outputs)]
        inputs.len() == times && accepted_parts(m, inputs, outputs) && input == inputs.flatten()
            && output == outputs.flatten()
}

/// Whether `input` and `output` fall into `least` or more parts, one after
/// the other, each of which `m` accepts.
pub open spec fn accepted_repeatedly(
    m: Machine,
    least: nat,
    input: Seq<char>,
    output: Seq<char>,
) -> bool {
    exists|times: nat| times >= least && #[trigger] accepted_times(m, times, input, output)
}

/// What a path has done that runs through an automaton time and again: what
/// each full pass consumed and emitted, the fragments emitted in all of
/// them, and the path of the pass that is under way.
pub struct Passes {
    pub inputs: Seq<Seq<char>>,
    pub outputs: Seq<Seq<char>>,
    pub fragments: Seq<Seq<char>>,
    pub last: Seq<Edge>,
}

impl Passes {
    /// Whether the passes are passes through `m`.
    pub open spec fn of(self, m: Machine) -> bool {
        &&& accepted_parts(m, self.inputs, self.outputs)
        &&& self.fragments.flatten() == self.outputs.flatten()
        &&& walkable(m.edges, self.last, origin())
    }

    /// No pass, and none under way.
    pub open spec fn none() -> Passes {
        Passes {
            inputs: Seq::empty(),
            outputs: Seq::empty(),
            fragments: Seq::empty(),
            last: Seq::empty(),
        }
    }
}

/// One more full pass: the pass under way, which has come to an accepting
/// state, is counted with the others.
proof fn lemma_pass_done(m: Machine, done: Passes) -> (more: Passes)
    requires
        done.of(m),
        m.accepting.contains(walk(done.last, origin()).state),
    ensures
        more.of(m),
        more.inputs.len() == done.inputs.len() + 1,
        more.inputs.flatten() == done.inputs.flatten() + consumed(done.last),
        more.fragments == done.fragments + walk(done.last, origin()).path,
        more.last == Seq::<Edge>::empty(),
{
    let reached = walk(done.last, origin());
    let more = Passes {
        inputs: done.inputs.push(consumed(done.last)),
        outputs: done.outputs.push(reached.path.flatten()),
        fragments: done.fragments + reached.path,
        last: Seq::empty(),
    };
    assert(m.leads(done.last, consumed(done.last), reached));
    assert(m.reaches(consumed(done.last), reached));
    assert(m.accepts(consumed(done.last), reached.path.flatten()));
    lemma_flatten_concat(done.fragments, reached.path);
    done.inputs.lemma_flatten_push(consumed(done.last));
    done.outputs.lemma_flatten_push(reached.path.flatten());
    more
}

/// A path of `at_least_once` is a number of full passes through the
/// automaton and a pass under way.
proof fn lemma_plus_path(m: Machine, path: Seq<Edge>) -> (done: Passes)
    requires
        m.wf(),
        walkable(m.at_least_once().edges, path, origin()),
    ensures
        done.of(m),
        consumed(path) == done.inputs.flatten() + consumed(done.last),
        walk(path, origin()) == moved(walk(done.last, origin()), 0, done.fragments),
    decreases path.len(),
{
    let outer = m.at_least_once();
    if path.len() == 0 {
        let done = Passes::none();
        assert(done.fragments.flatten() =~= done.outputs.flatten());
        assert(consumed(path) =~= done.inputs.flatten() + consumed(done.last));
        assert(origin().path =~= moved(origin(), 0, done.fragments).path);
        done
    } else {
        let shorter = path.drop_last();
        let e = path.last();
        let earlier = lemma_plus_path(m, shorter);
        let j = choose|j: int| 0 <= j < outer.edges.len() && outer.edges[j] == e;
        if j < m.edges.len() {
            assert(e == m.edges[j]);
            let last = earlier.last.push(e);
            lemma_walk_push(m.edges, earlier.last, e, origin());
            let done = Passes { last, ..earlier };
            assert(consumed(path) =~= done.inputs.flatten() + consumed(last));
            assert(walk(path, origin()).path =~= moved(
                walk(last, origin()),
                0,
                done.fragments,
            ).path);
            done
        } else {
            assert(e == link(m.accepting[j - m.edges.len()], 0, None));
            let done = lemma_pass_done(m, earlier);
            assert(consumed(path) =~= done.inputs.flatten() + consumed(done.last));
            assert(walk(path, origin()).path =~= moved(origin(), 0, done.fragments).path);
            done
        }
    }
}

/// Passes through the automaton, at least one, make a path of
/// `at_least_once` to an accepting state. Returns that path.
proof fn lemma_plus_joined(m: Machine, inputs: Seq<Seq<char>>, outputs: Seq<Seq<char>>) -> (path:
    Seq<Edge>)
    requires
        inputs.len() >= 1,
        accepted_parts(m, inputs, outputs),
    ensures
        walkable(m.at_least_once().edges, path, origin()),
        consumed(path) == inputs.flatten(),
        m.accepting.contains(walk(path, origin()).state),
        walk(path, origin()).path.flatten() == outputs.flatten(),
    decreases inputs.len(),
{
    let outer = m.at_least_once();
    let i2 = inputs.last();
    let o2 = outputs.last();
    assert(m.accepts(i2, o2));
    let reached = choose|end: Branch|
        #![trigger m.reaches(i2, end)]
        m.reaches(i2, end) && m.accepting.contains(end.state) && end.path.flatten() == o2;
    let own = choose|path: Seq<Edge>| #[trigger] m.leads(path, i2, reached);
    assert forall|i: int| 0 <= i < m.edges.len() implies outer.edges.contains(
        #[trigger] m.edges[i],
    ) by {
        assert(outer.edges[i] == m.edges[i]);
    }
    assert(inputs =~= inputs.drop_last().push(i2));
    assert(outputs =~= outputs.drop_last().push(o2));
    inputs.drop_last().lemma_flatten_push(i2);
    outputs.drop_last().lemma_flatten_push(o2);
    if inputs.len() == 1 {
        lemma_walk_wider(m.edges, outer.edges, own, origin());
        assert(inputs.drop_last().flatten() =~= Seq::<char>::empty());
        assert(outputs.drop_last().flatten() =~= Seq::<char>::empty());
        assert(inputs.flatten() =~= i2);
        assert(outputs.flatten() =~= o2);
        own
    } else {
        let first = lemma_plus_joined(m, inputs.drop_last(), outputs.drop_last());
        let before = walk(first, origin());
        let back = link(before.state, 0, None);
        let k = choose|k: int| 0 <= k < m.accepting.len() && m.accepting[k] == before.state;
        assert(outer.edges[m.edges.len() + k] == back);
        lemma_walk_push(outer.edges, first, back, origin());
        let round = first.push(back);
        let landed = walk(round, origin());
        assert(landed == moved(origin(), 0, before.path)) by {
            assert(landed.path =~= moved(origin(), 0, before.path).path);
        }
        lemma_walk_moved(m.edges, own, origin(), 0, before.path);
        assert(shifted_edges(own, 0) =~= own);
        assert(shifted_edges(m.edges, 0) =~= m.edges);
        lemma_walk_wider(m.edges, outer.edges, own, landed);
        lemma_walk_add(outer.edges, round, own, origin());
        lemma_flatten_concat(before.path, reached.path);
        round + own
    }
}

/// `at_least_once` accepts what falls into one or more parts, one after the
/// other, each of which the automaton accepts, and nothing else.
pub proof fn law_at_least_once_accepts(m: Machine, input: Seq<char>, output: Seq<char>)
    requires
        m.wf(),
    ensures
        m.at_least_once().accepts(input, output) <==> accepted_repeatedly(m, 1, input, output),
{
    let outer = m.at_least_once();
    if outer.accepts(input, output) {
        let end = choose|end: Branch|
            #![trigger outer.reaches(input, end)]
            outer.reaches(input, end) && outer.accepting.contains(end.state) && end.path.flatten()
                == output;
        let path = choose|path: Seq<Edge>| #[trigger] outer.leads(path, input, end);
        let done = lemma_plus_path(m, path);
        let all = lemma_pass_done(m, done);
        assert(all.fragments =~= end.path);
        assert(accepted_parts(m, all.inputs, all.outputs));
        assert(accepted_times(m, all.inputs.len(), input, output));
    }
    if accepted_repeatedly(m, 1, input, output) {
        let times = choose|times: nat|
            times >= 1 && #[trigger] accepted_times(m, times, input, output);
        let (inputs, outputs) = choose|inputs: Seq<Seq<char>>, outputs: Seq<Seq<char>>|
            #![trigger accepted_parts(m, inputs, outputs)]
            inputs.len() == times && accepted_parts(m, inputs, outputs) && input
                == inputs.flatten() && output == outputs.flatten();
        let path = lemma_plus_joined(m, inputs, outputs);
        let end = walk(path, origin());
        assert(outer.leads(path, input, end));
        assert(outer.reaches(input, end));
    }
}

/// A path of `repeated` is a number of full passes through the automaton
/// and, while it is away from the start state, a pass under way.
proof fn lemma_star_path(m: Machine, path: Seq<Edge>) -> (done: Passes)
    requires
        m.wf(),
        walkable(m.repeated().edges, path, origin()),
    ensures
        done.of(m),
        consumed(path) == done.inputs.flatten() + consumed(done.last),
        0 <= walk(path, origin()).state < m.states + 1,
        walk(path, origin()).state == 0 ==> done.last.len() == 0 && walk(path, origin()).path
            == done.fragments,
        walk(path, origin()).state >= 1 ==> walk(path, origin()) == moved(
            walk(done.last, origin()),
            1,
            done.fragments,
        ),
    decreases path.len(),
{
    let outer = m.repeated();
    if path.len() == 0 {
        let done = Passes::none();
        assert(done.fragments.flatten() =~= done.outputs.flatten());
        assert(consumed(path) =~= done.inputs.flatten() + consumed(done.last));
        done
    } else {
        let shorter = path.drop_last();
        let e = path.last();
        let earlier = lemma_star_path(m, shorter);
        let j = choose|j: int| 0 <= j < outer.edges.len() && outer.edges[j] == e;
        if j < m.edges.len() {
            let own = m.edges[j];
            assert(e == shifted_edge(own, 1));
            let last = earlier.last.push(own);
            lemma_walk_push(m.edges, earlier.last, own, origin());
            let done = Passes { last, ..earlier };
            assert(consumed(path) =~= done.inputs.flatten() + consumed(last));
            assert(walk(path, origin()).path =~= moved(
                walk(last, origin()),
                1,
                done.fragments,
            ).path);
            done
        } else if j == m.edges.len() {
            assert(e == link(0, 1, None));
            assert(earlier.last =~= Seq::empty());
            assert(walk(path, origin()).path =~= moved(origin(), 1, earlier.fragments).path);
            earlier
        } else {
            assert(e == link(m.accepting[j - m.edges.len() - 1] + 1, 0, None));
            let done = lemma_pass_done(m, earlier);
            assert(consumed(path) =~= done.inputs.flatten() + consumed(done.last));
            done
        }
    }
}

/// Passes through the automaton make a path of `repeated` from the start
/// state back to it. Returns that path.
proof fn lemma_star_joined(m: Machine, inputs: Seq<Seq<char>>, outputs: Seq<Seq<char>>) -> (path:
    Seq<Edge>)
    requires
        accepted_parts(m, inputs, outputs),
    ensures
        walkable(m.repeated().edges, path, origin()),
        consumed(path) == inputs.flatten(),
        walk(path, origin()).state == 0,
        walk(path, origin()).path.flatten() == outputs.flatten(),
    decreases inputs.len(),
{
    let outer = m.repeated();
    if inputs.len() == 0 {
        assert(inputs.flatten() =~= Seq::<char>::empty());
        assert(origin().path.flatten() =~= outputs.flatten());
        Seq::empty()
    } else {
        let i2 = inputs.last();
        let o2 = outputs.last();
        assert(m.accepts(i2, o2));
        let reached = choose|end: Branch|
            #![trigger m.reaches(i2, end)]
            m.reaches(i2, end) && m.accepting.contains(end.state) && end.path.flatten() == o2;
        let own = choose|path: Seq<Edge>| #[trigger] m.leads(path, i2, reached);
        assert(inputs =~= inputs.drop_last().push(i2));
        assert(outputs =~= outputs.drop_last().push(o2));
        inputs.drop_last().lemma_flatten_push(i2);
        outputs.drop_last().lemma_flatten_push(o2);
        let first = lemma_star_joined(m, inputs.drop_last(), outputs.drop_last());
        let before = walk(first, origin());
        let held = shifted_edges(m.edges, 1);
        let far = shifted_edges(own, 1);
        let entry = link(0, 1, None);
        let exit = link(reached.state + 1, 0, None);
        assert(outer.edges[m.edges.len() as int] == entry);
        let k = choose|k: int| 0 <= k < m.accepting.len() && m.accepting[k] == reached.state;
        assert(shifted_states(m.accepting, 1)[k] == reached.state + 1);
        assert(outer.edges[m.edges.len() + 1 + k] == exit);
        assert forall|i: int| 0 <= i < held.len() implies outer.edges.contains(
            #[trigger] held[i],
        ) by {
            assert(outer.edges[i] == held[i]);
        }
        lemma_walk_push(outer.edges, first, entry, origin());
        let enter = first.push(entry);
        let landed = walk(enter, origin());
        assert(landed == moved(origin(), 1, before.path)) by {
            assert(landed.path =~= moved(origin(), 1, before.path).path);
        }
        lemma_walk_moved(m.edges, own, origin(), 1, before.path);
        lemma_walk_wider(held, outer.edges, far, landed);
        lemma_walk_add(outer.edges, enter, far, origin());
        lemma_walk_push(outer.edges, enter + far, exit, origin());
        lemma_flatten_concat(before.path, reached.path);
        assert(consumed(enter) + consumed(far) =~= inputs.flatten());
        (enter + far).push(exit)
    }
}

/// `repeated` accepts what falls into any number of parts, one after the
/// other, each of which the automaton accepts, and nothing else: with no
/// part, the empty input with the empty output.
pub proof fn law_repeated_accepts(m: Machine, input: Seq<char>, output: Seq<char>)
    requires
        m.wf(),
    ensures
        m.repeated().accepts(input, output) <==> accepted_repeatedly(m, 0, input, output),
{
    let outer = m.repeated();
    if outer.accepts(input, output) {
        let end = choose|end: Branch|
            #![trigger outer.reaches(input, end)]
            outer.reaches(input, end) && outer.accepting.contains(end.state) && end.path.flatten()
                == output;
        let path = choose|path: Seq<Edge>| #[trigger] outer.leads(path, input, end);
        let k = choose|k: int| 0 <= k < outer.accepting.len() && outer.accepting[k] == end.state;
        let done = lemma_star_path(m, path);
        assert(done.inputs.flatten() =~= input);
        assert(accepted_parts(m, done.inputs, done.outputs));
        assert(accepted_times(m, done.inputs.len(), input, output));
    }
    if accepted_repeatedly(m, 0, input, output) {
        let times = choose|times: nat|
            times >= 0 && #[trigger] accepted_times(m, times, input, output);
        let (inputs, outputs) = choose|inputs: Seq<Seq<char>>, outputs: Seq<Seq<char>>|
            #![trigger accepted_parts(m, inputs, outputs)]
            inputs.len() == times && accepted_parts(m, inputs, outputs) && input
                == inputs.flatten() && output == outputs.flatten();
        let path = lemma_star_joined(m, inputs, outputs);
        let end = walk(path, origin());
        assert(outer.leads(path, input, end));
        assert(outer.reaches(input, end));
        assert(outer.accepting[0] == 0);
    }
}

} // verus!
