//! Running an input through an automaton.

use crate::fst::FST;
use crate::paths::{lemma_accepted_is_matched, lemma_matched_is_accepted};
use crate::semantics::{
    fired, fired_all, lemma_fired_all_push, lemma_fired_push, lemma_outputs_push, origin, Branch,
};
use vstd::prelude::*;

verus! {

/// The fragments of a path, each by its text.
pub open spec fn fragments(path: Seq<String>) -> Seq<Seq<char>> {
    Seq::new(path.len(), |i: int| path[i]@)
}

/// The branch that a pair of a state and a path stands for.
pub open spec fn branch_of(b: (usize, Vec<String>)) -> Branch {
    Branch { state: b.0 as int, path: fragments(b.1@) }
}

/// The branches that a list of pairs stands for, in order.
pub open spec fn branches_of(live: Seq<(usize, Vec<String>)>) -> Seq<Branch> {
    Seq::new(live.len(), |i: int| branch_of(live[i]))
}

fn copy_path(path: &Vec<String>) -> (r: Vec<String>)
    ensures
        r@ == path@,
{
    let mut r: Vec<String> = Vec::new();
    for i in 0..path.len()
        invariant
            r@ == path@.take(i as int),
    {
        r.push(path[i].clone());
        assert(path@.take(i + 1) =~= path@.take(i as int).push(path[i as int]));
    }
    assert(path@.take(path.len() as int) =~= path@);
    r
}

/// The fragments of `path` joined in order.
fn join(path: &Vec<String>) -> (r: String)
    ensures
        r@ == fragments(path@).flatten(),
{
    let mut r = String::new();
    assert(fragments(path@).take(0) =~= Seq::empty());
    for i in 0..path.len()
        invariant
            r@ == fragments(path@).take(i as int).flatten(),
    {
        r.append(path[i].as_str());
        proof {
            let done = fragments(path@).take(i as int);
            assert(fragments(path@).take(i + 1) =~= done.push(path[i as int]@));
            done.lemma_flatten_push(path[i as int]@);
        }
    }
    assert(fragments(path@).take(path.len() as int) =~= fragments(path@));
    r
}

impl FST {
    /// Whether `state` is an accepting state.
    fn is_accepting(&self, state: usize) -> (r: bool)
        ensures
            r == self@.accepting.contains(state as int),
    {
        for i in 0..self.accepting_states.len()
            invariant
                forall|k: int| 0 <= k < i ==> self@.accepting[k] != state as int,
        {
            if self.accepting_states[i] == state {
                assert(self@.accepting[i as int] == state as int);
                return true;
            }
        }
        false
    }

    /// The branches that the branch at `state` with `path` becomes by one
    /// transition that consumes `on` (`None`: by one epsilon transition), in
    /// the order of the transitions.
    pub fn symbol_step(&self, state: usize, path: Vec<String>, on: Option<char>) -> (r: Vec<
        (usize, Vec<String>),
    >)
        ensures
            branches_of(r@) == fired(self@.edges, branch_of((state, path)), on),
    {
        let ghost b = branch_of((state, path));
        let ghost edges = self@.edges;
        let mut r: Vec<(usize, Vec<String>)> = Vec::new();
        proof {
            lemma_fired_push(edges, edges[0], b, on);
            assert(edges.take(0) =~= Seq::empty());
            assert(branches_of(r@) =~= Seq::empty());
        }
        for i in 0..self.transitions.len()
            invariant
                edges == self@.edges,
                b == branch_of((state, path)),
                branches_of(r@) == fired(edges.take(i as int), b, on),
        {
            let t = &self.transitions[i];
            let ghost before = branches_of(r@);
            proof {
                assert(edges.take(i + 1) =~= edges.take(i as int).push(edges[i as int]));
                lemma_fired_push(edges.take(i as int), edges[i as int], b, on);
                assert(edges[i as int] == t.edge());
            }
            if t.from == state && t.on == on {
                let mut new_path = copy_path(&path);
                match &t.with {
                    Some(fragment) => {
                        new_path.push(fragment.clone());
                        assert(fragments(new_path@) =~= b.path.push(fragment@));
                    },
                    None => {},
                }
                r.push((t.to, new_path));
                assert(branches_of(r@) =~= before.push(branch_of((t.to, new_path))));
            }
        }
        assert(edges.take(self.transitions.len() as int) =~= edges);
        r
    }

    /// The branches that those of `live` become by one transition that
    /// consumes `on`: branch by branch, and for each transition by transition.
    fn fire_all(&self, live: &Vec<(usize, Vec<String>)>, on: Option<char>) -> (r: Vec<
        (usize, Vec<String>),
    >)
        ensures
            branches_of(r@) == fired_all(self@.edges, branches_of(live@), on),
    {
        let ghost all = branches_of(live@);
        let mut r: Vec<(usize, Vec<String>)> = Vec::new();
        proof {
            lemma_fired_all_push(self@.edges, Seq::empty(), origin(), on);
            assert(all.take(0) =~= Seq::empty());
            assert(branches_of(r@) =~= Seq::empty());
        }
        for i in 0..live.len()
            invariant
                all == branches_of(live@),
                branches_of(r@) == fired_all(self@.edges, all.take(i as int), on),
        {
            let ghost before = r@;
            let mut found = self.symbol_step(live[i].0, copy_path(&live[i].1), on);
            let ghost added = found@;
            r.append(&mut found);
            proof {
                assert(all.take(i + 1) =~= all.take(i as int).push(all[i as int]));
                lemma_fired_all_push(self@.edges, all.take(i as int), all[i as int], on);
                assert(branches_of(r@) =~= branches_of(before) + branches_of(added));
            }
        }
        assert(all.take(live.len() as int) =~= all);
        r
    }

    /// The epsilon closure of `start_states`: the branches themselves, then
    /// everything they reach by epsilon transitions alone, round by round.
    ///
    /// It stops when a round finds nothing, and at the latest after as many
    /// rounds as there are states.
    pub fn epsilon_closure(&self, start_states: Vec<(usize, Vec<String>)>) -> (r: Vec<
        (usize, Vec<String>),
    >)
        ensures
            branches_of(r@) == self@.epsilon_closure(branches_of(start_states@)),
    {
        let ghost m = self@;
        let ghost goal = m.epsilon_closure(branches_of(start_states@));
        let mut result: Vec<(usize, Vec<String>)> = Vec::new();
        let mut new_states = start_states;
        let mut rounds: usize = 0;
        assert(branches_of(result@) + goal =~= goal);
        while rounds < self.state_count && new_states.len() > 0
            invariant
                m == self@,
                rounds <= self.state_count,
                branches_of(result@) + m.closure(
                    branches_of(new_states@),
                    (self.state_count - rounds) as nat,
                ) == goal,
            decreases self.state_count - rounds,
        {
            let ghost done = branches_of(result@);
            let ghost live = branches_of(new_states@);
            let next = self.fire_all(&new_states, None);
            result.append(&mut new_states);
            new_states = next;
            rounds = rounds + 1;
            proof {
                assert(branches_of(result@) =~= done + live);
                let rest = m.closure(branches_of(next@), (self.state_count - rounds) as nat);
                assert((done + live) + rest =~= done + (live + rest));
            }
        }
        assert(branches_of(result@) + Seq::<Branch>::empty() =~= branches_of(result@));
        result
    }

    /// The live branches after those of `start_states` have consumed `symbol`.
    pub fn step(&self, start_states: Vec<(usize, Vec<String>)>, symbol: char) -> (r: Vec<
        (usize, Vec<String>),
    >)
        ensures
            branches_of(r@) == self@.step(branches_of(start_states@), symbol),
    {
        self.epsilon_closure(self.fire_all(&start_states, Some(symbol)))
    }

    /// What the branches of `live` that stand in an accepting state have
    /// emitted, each joined into one string, in the order of `live`.
    pub fn outputs(&self, live: Vec<(usize, Vec<String>)>) -> (r: Vec<String>)
        ensures
            fragments(r@) == self@.outputs(branches_of(live@)),
    {
        let ghost all = branches_of(live@);
        let mut r: Vec<String> = Vec::new();
        proof {
            lemma_outputs_push(self@, Seq::empty(), origin());
            assert(all.take(0) =~= Seq::empty());
            assert(fragments(r@) =~= Seq::empty());
        }
        for i in 0..live.len()
            invariant
                all == branches_of(live@),
                fragments(r@) == self@.outputs(all.take(i as int)),
        {
            let ghost before = fragments(r@);
            proof {
                assert(all.take(i + 1) =~= all.take(i as int).push(all[i as int]));
                lemma_outputs_push(self@, all.take(i as int), all[i as int]);
            }
            if self.is_accepting(live[i].0) {
                let text = join(&live[i].1);
                r.push(text);
                assert(fragments(r@) =~= before.push(text@));
            }
        }
        assert(all.take(live.len() as int) =~= all);
        r
    }

    /// Runs `string` through the automaton and returns the output of every
    /// accepting path, one entry per path, in the order in which the paths
    /// are found. No entry means that nothing accepts.
    pub fn match_string(&self, string: &str) -> (r: Vec<String>)
        ensures
            fragments(r@) == self@.matches(string@),
            forall|output: Seq<char>| #[trigger]
                fragments(r@).contains(output) ==> self@.accepts(string@, output),
            self@.loop_free() ==> forall|output: Seq<char>| #[trigger]
                self@.accepts(string@, output) ==> fragments(r@).contains(output),
    {
        proof {
            use_type_invariant(self);
            assert forall|output: Seq<char>| #[trigger]
                self@.matches(string@).contains(output) implies self@.accepts(
                string@,
                output,
            ) by {
                lemma_matched_is_accepted(self@, string@, output);
            }
            if self@.loop_free() {
                assert forall|output: Seq<char>| #[trigger]
                    self@.accepts(string@, output) implies self@.matches(string@).contains(
                    output,
                ) by {
                    lemma_accepted_is_matched(self@, string@, output);
                }
            }
        }
        let start: Vec<(usize, Vec<String>)> = vec![(0, Vec::new())];
        assert(branches_of(start@) =~= seq![origin()]) by {
            assert(fragments(start[0].1@) =~= Seq::empty());
        }
        assert(string@.take(0) =~= Seq::empty());
        let mut states = self.epsilon_closure(start);
        for symbol in it: string.chars()
            invariant
                it.seq() == string@,
                branches_of(states@) == self@.run(string@.take(it.index())),
        {
            assert(string@.take(it.index() + 1).drop_last() =~= string@.take(it.index()));
            states = self.step(states, symbol);
        }
        assert(string@.take(string@.len() as int) =~= string@);
        self.outputs(states)
    }
}

} // verus!
