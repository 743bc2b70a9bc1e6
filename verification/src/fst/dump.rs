//! The listing of an automaton.

use crate::fst::{fragment_of, FST, Transition};
use crate::text::{decimal, edge_line, edge_lines, listing, push_char, push_decimal, state_list};
use vstd::prelude::*;

verus! {

/// Appends the line that lists one transition.
fn push_edge_line(r: &mut String, t: &Transition)
    ensures
        final(r)@ == old(r)@ + edge_line(t.edge()),
{
    let ghost before = r@;
    let ghost from = decimal(t.from as nat);
    let ghost to = decimal(t.to as nat);
    push_decimal(r, t.from);
    push_char(r, '\t');
    push_decimal(r, t.to);
    push_char(r, '\t');
    assert(r@ =~= before + (from + seq!['\t'] + to) + seq!['\t']);
    let ghost symbol = match t.on {
        Some(c) => c,
        None => '`',
    };
    match t.on {
        Some(c) => push_char(r, c),
        None => push_char(r, '`'),
    }
    push_char(r, '\t');
    assert(r@ =~= before + (from + seq!['\t'] + to + seq!['\t', symbol, '\t']));
    let ghost shown = r@;
    let ghost fragment = match fragment_of(t.with) {
        Some(text) => text,
        None => Seq::empty(),
    };
    match &t.with {
        Some(text) => r.append(text.as_str()),
        None => {},
    }
    assert(r@ =~= shown + fragment);
    push_char(r, '\n');
    assert(r@ =~= before + edge_line(t.edge()));
}

impl FST {
    /// The automaton as text, for reading: a line with the number of states
    /// and the number of transitions; a line for each transition, with its
    /// two ends, its symbol (a backtick for an epsilon transition) and its
    /// output, tabs between them; and a line with the accepting states, a
    /// space after each.
    pub fn dump(&self) -> (r: String)
        ensures
            r@ == listing(self@),
    {
        let ghost m = self@;
        let mut r = String::new();
        push_decimal(&mut r, self.state_count);
        push_char(&mut r, ' ');
        push_decimal(&mut r, self.transitions.len());
        push_char(&mut r, '\n');
        let ghost head = r@;
        assert(head =~= decimal(m.states as nat) + seq![' '] + decimal(m.edges.len()) + seq![
            '\n',
        ]);
        assert(m.edges.take(0) =~= Seq::empty());
        assert(r@ =~= head + edge_lines(m.edges.take(0)));
        for i in 0..self.transitions.len()
            invariant
                m == self@,
                r@ == head + edge_lines(m.edges.take(i as int)),
        {
            let ghost before = r@;
            let ghost done = edge_lines(m.edges.take(i as int));
            push_edge_line(&mut r, &self.transitions[i]);
            proof {
                assert(m.edges[i as int] == self.transitions[i as int].edge());
                assert(m.edges.take(i + 1).drop_last() =~= m.edges.take(i as int));
                assert(m.edges.take(i + 1).last() == m.edges[i as int]);
                assert(r@ =~= head + (done + edge_line(m.edges[i as int])));
            }
        }
        assert(m.edges.take(m.edges.len() as int) =~= m.edges);
        let ghost body = r@;
        assert(m.accepting.take(0) =~= Seq::empty());
        assert(r@ =~= body + state_list(m.accepting.take(0)));
        for i in 0..self.accepting_states.len()
            invariant
                m == self@,
                r@ == body + state_list(m.accepting.take(i as int)),
        {
            let ghost done = state_list(m.accepting.take(i as int));
            let ghost number = decimal(self.accepting_states[i as int] as nat);
            push_decimal(&mut r, self.accepting_states[i]);
            push_char(&mut r, ' ');
            proof {
                assert(m.accepting[i as int] == self.accepting_states[i as int]);
                assert(m.accepting.take(i + 1).drop_last() =~= m.accepting.take(i as int));
                assert(m.accepting.take(i + 1).last() == m.accepting[i as int]);
                assert(r@ =~= body + (done + number + seq![' ']));
            }
        }
        assert(m.accepting.take(m.accepting.len() as int) =~= m.accepting);
        push_char(&mut r, '\n');
        assert(r@ =~= listing(m));
        r
    }
}

} // verus!
