//! Text: numbers in decimal, and the listing of an automaton.

use crate::model::{Edge, Machine};
use vstd::prelude::*;

verus! {

/// The character for a decimal digit.
pub open spec fn digit(d: int) -> char {
    if d == 0 {
        '0'
    } else if d == 1 {
        '1'
    } else if d == 2 {
        '2'
    } else if d == 3 {
        '3'
    } else if d == 4 {
        '4'
    } else if d == 5 {
        '5'
    } else if d == 6 {
        '6'
    } else if d == 7 {
        '7'
    } else if d == 8 {
        '8'
    } else {
        '9'
    }
}

/// The decimal digits of `n`, without leading zeros.
pub open spec fn decimal(n: nat) -> Seq<char>
    decreases n,
{
    if n < 10 {
        seq![digit(n as int)]
    } else {
        decimal(n / 10).push(digit((n % 10) as int))
    }
}

/// The line that lists one edge: its two ends, the symbol it consumes (a
/// backtick for an epsilon edge) and the fragment it emits (nothing where it
/// emits none), with a tab between them.
pub open spec fn edge_line(e: Edge) -> Seq<char> {
    decimal(e.from as nat) + seq!['\t'] + decimal(e.to as nat) + seq!['\t', match e.on {
        Some(c) => c,
        None => '`',
    }, '\t'] + (match e.with {
        Some(fragment) => fragment,
        None => Seq::empty(),
    }) + seq!['\n']
}

/// The lines of `edges`, in order.
pub open spec fn edge_lines(edges: Seq<Edge>) -> Seq<char>
    decreases edges.len(),
{
    if edges.len() == 0 {
        Seq::empty()
    } else {
        edge_lines(edges.drop_last()) + edge_line(edges.last())
    }
}

/// The states of `states` in decimal, each followed by a space.
pub open spec fn state_list(states: Seq<int>) -> Seq<char>
    decreases states.len(),
{
    if states.len() == 0 {
        Seq::empty()
    } else {
        state_list(states.drop_last()) + decimal(states.last() as nat) + seq![' ']
    }
}

/// The listing of an automaton: a line with the counts of its states and of
/// its edges, one line for each edge, and a line with its accepting states.
pub open spec fn listing(m: Machine) -> Seq<char> {
    decimal(m.states as nat) + seq![' '] + decimal(m.edges.len()) + seq!['\n'] + edge_lines(
        m.edges,
    ) + state_list(m.accepting) + seq!['\n']
}

/// Appends one character to a string.
///
/// Calls `String::push` of the standard library, which is taken on trust:
/// the string afterwards is the string before with `c` added at its end.
#[verifier::external_body]
pub(crate) fn push_char(s: &mut String, c: char)
    ensures
        final(s)@ == old(s)@.push(c),
{
    s.push(c);
}

/// The one-character string that holds `c`.
pub(crate) fn char_text(c: char) -> (s: String)
    ensures
        s@ == seq![c],
{
    let mut s = String::new();
    push_char(&mut s, c);
    assert(s@ =~= seq![c]);
    s
}

fn digit_char(d: usize) -> (c: char)
    requires
        d < 10,
    ensures
        c == digit(d as int),
{
    if d == 0 {
        '0'
    } else if d == 1 {
        '1'
    } else if d == 2 {
        '2'
    } else if d == 3 {
        '3'
    } else if d == 4 {
        '4'
    } else if d == 5 {
        '5'
    } else if d == 6 {
        '6'
    } else if d == 7 {
        '7'
    } else if d == 8 {
        '8'
    } else {
        '9'
    }
}

/// Appends `n` in decimal to a string.
pub(crate) fn push_decimal(s: &mut String, n: usize)
    ensures
        final(s)@ == old(s)@ + decimal(n as nat),
    decreases n,
{
    let ghost before = s@;
    if n >= 10 {
        push_decimal(s, n / 10);
    }
    push_char(s, digit_char(n % 10));
    assert(s@ =~= before + decimal(n as nat));
}

} // verus!
