//! What holds of each construction, gathered: that it is well formed, when
//! it is free of epsilon cycles, and what it accepts.

use crate::acyclic::{
    lemma_and_consuming_first, lemma_and_consuming_second, lemma_and_loop_free,
    lemma_one_of_consuming, lemma_one_of_loop_free, lemma_or_consuming, lemma_or_loop_free,
    lemma_primitives_consuming, lemma_primitives_loop_free, lemma_repetition_loop_free,
    lemma_string_consuming, lemma_string_loop_free, lemma_wrap_consuming, lemma_wrap_loop_free,
};
use crate::folds::{
    accepted_by_one, echoes_one, law_one_of_accepts, law_one_of_symbols_accepts, law_string_accepts,
};
use crate::labels::{accepted_muted, accepted_wrapped, law_consume_accepts, law_wrap_accepts};
use crate::language::{
    accepted_in_turn, law_and_accepts, law_and_optionally_accepts, law_empty_accepts,
    law_or_accepts, law_symbol_accepts,
};
use crate::model::{
    lemma_and_wf, lemma_one_of_wf, lemma_or_wf, lemma_string_wf, lemma_unary_wf, Machine,
};
use crate::repetition::{accepted_repeatedly, law_at_least_once_accepts, law_repeated_accepts};
use vstd::prelude::*;

verus! {

/// `empty` accepts the empty input, with the empty output, and nothing else.
pub proof fn lemma_empty_properties()
    ensures
        Machine::empty().wf(),
        Machine::empty().loop_free(),
        forall|input: Seq<char>, output: Seq<char>| #[trigger]
            Machine::empty().accepts(input, output) <==> input == Seq::<char>::empty() && output
                == Seq::<char>::empty(),
{
    lemma_primitives_loop_free('a');
    assert forall|input: Seq<char>, output: Seq<char>| #[trigger]
        Machine::empty().accepts(input, output) <==> input == Seq::<char>::empty() && output
            == Seq::<char>::empty() by {
        law_empty_accepts(input, output);
    }
}

/// `all_reject` accepts nothing.
pub proof fn lemma_all_reject_properties()
    ensures
        Machine::all_reject().wf(),
        Machine::all_reject().loop_free(),
        Machine::all_reject().consuming(),
        forall|input: Seq<char>, output: Seq<char>| !#[trigger] Machine::all_reject().accepts(
            input,
            output,
        ),
{
    lemma_primitives_loop_free('a');
    lemma_primitives_consuming('a');
    assert forall|input: Seq<char>, output: Seq<char>| !#[trigger] Machine::all_reject().accepts(
        input,
        output,
    ) by {
        law_empty_accepts(input, output);
    }
}

/// `symbol` accepts its symbol, echoing it, and nothing else.
pub proof fn lemma_symbol_properties(c: char)
    ensures
        Machine::symbol(c).wf(),
        Machine::symbol(c).loop_free(),
        Machine::symbol(c).consuming(),
        forall|input: Seq<char>, output: Seq<char>| #[trigger]
            Machine::symbol(c).accepts(input, output) <==> input == seq![c] && output == seq![c],
{
    lemma_primitives_loop_free(c);
    lemma_primitives_consuming(c);
    assert forall|input: Seq<char>, output: Seq<char>| #[trigger]
        Machine::symbol(c).accepts(input, output) <==> input == seq![c] && output == seq![c] by {
        law_symbol_accepts(c, input, output);
    }
}

/// Concatenation accepts what falls into a part that the first automaton
/// accepts and a part that the second accepts.
pub proof fn lemma_and_properties(a: Machine, b: Machine)
    requires
        a.wf(),
        b.wf(),
    ensures
        a.and(b).wf(),
        a.loop_free() && b.loop_free() ==> a.and(b).loop_free(),
        a.consuming() && b.loop_free() ==> a.and(b).consuming(),
        a.loop_free() && b.consuming() ==> a.and(b).consuming(),
        forall|input: Seq<char>, output: Seq<char>| #[trigger]
            a.and(b).accepts(input, output) <==> accepted_in_turn(a, b, input, output),
{
    lemma_and_wf(a, b);
    if a.loop_free() && b.loop_free() {
        lemma_and_loop_free(a, b);
    }
    if a.consuming() && b.loop_free() {
        lemma_and_consuming_first(a, b);
    }
    if a.loop_free() && b.consuming() {
        lemma_and_consuming_second(a, b);
    }
    assert forall|input: Seq<char>, output: Seq<char>| #[trigger]
        a.and(b).accepts(input, output) <==> accepted_in_turn(a, b, input, output) by {
        law_and_accepts(a, b, input, output);
    }
}

/// Optional concatenation accepts what concatenation accepts and what the
/// first automaton accepts alone.
pub proof fn lemma_and_optionally_properties(a: Machine, b: Machine)
    requires
        a.wf(),
        b.wf(),
    ensures
        a.and_optionally(b).wf(),
        a.loop_free() && b.loop_free() ==> a.and_optionally(b).loop_free(),
        a.consuming() && b.loop_free() ==> a.and_optionally(b).consuming(),
        forall|input: Seq<char>, output: Seq<char>| #[trigger]
            a.and_optionally(b).accepts(input, output) <==> accepted_in_turn(a, b, input, output)
                || a.accepts(input, output),
{
    lemma_and_wf(a, b);
    if a.loop_free() && b.loop_free() {
        lemma_and_loop_free(a, b);
    }
    if a.consuming() && b.loop_free() {
        lemma_and_consuming_first(a, b);
    }
    assert forall|input: Seq<char>, output: Seq<char>| #[trigger]
        a.and_optionally(b).accepts(input, output) <==> accepted_in_turn(a, b, input, output)
            || a.accepts(input, output) by {
        law_and_optionally_accepts(a, b, input, output);
    }
}

/// Alternation accepts what either automaton accepts.
pub proof fn lemma_or_properties(a: Machine, b: Machine)
    requires
        a.wf(),
        b.wf(),
    ensures
        a.or(b).wf(),
        a.loop_free() && b.loop_free() ==> a.or(b).loop_free(),
        a.consuming() && b.consuming() ==> a.or(b).consuming(),
        forall|input: Seq<char>, output: Seq<char>| #[trigger]
            a.or(b).accepts(input, output) <==> a.accepts(input, output) || b.accepts(
                input,
                output,
            ),
{
    lemma_or_wf(a, b);
    if a.loop_free() && b.loop_free() {
        lemma_or_loop_free(a, b);
    }
    if a.consuming() && b.consuming() {
        lemma_or_consuming(a, b);
    }
    assert forall|input: Seq<char>, output: Seq<char>| #[trigger]
        a.or(b).accepts(input, output) <==> a.accepts(input, output) || b.accepts(
            input,
            output,
        ) by {
        law_or_accepts(a, b, input, output);
    }
}

/// The automaton for a text accepts the text, echoing it, and nothing else.
pub proof fn lemma_string_properties(text: Seq<char>)
    ensures
        Machine::string(text).wf(),
        Machine::string(text).states == 1 + 2 * text.len(),
        Machine::string(text).loop_free(),
        text.len() > 0 ==> Machine::string(text).consuming(),
        forall|input: Seq<char>, output: Seq<char>| #[trigger]
            Machine::string(text).accepts(input, output) <==> input == text && output == text,
{
    lemma_string_wf(text);
    lemma_string_loop_free(text);
    lemma_string_consuming(text);
    assert forall|input: Seq<char>, output: Seq<char>| #[trigger]
        Machine::string(text).accepts(input, output) <==> input == text && output == text by {
        law_string_accepts(text, input, output);
    }
}

/// The automaton for a set of symbols accepts each one of them, echoing it,
/// and nothing else.
pub proof fn lemma_one_of_symbols_properties(symbols: Seq<char>)
    ensures
        Machine::one_of_symbols(symbols).wf(),
        Machine::one_of_symbols(symbols).states == 1 + 3 * symbols.len(),
        Machine::one_of_symbols(symbols).loop_free(),
        Machine::one_of_symbols(symbols).consuming(),
        forall|input: Seq<char>, output: Seq<char>| #[trigger]
            Machine::one_of_symbols(symbols).accepts(input, output) <==> echoes_one(
                symbols,
                input,
                output,
            ),
{
    lemma_string_wf(symbols);
    lemma_string_loop_free(symbols);
    lemma_string_consuming(symbols);
    assert forall|input: Seq<char>, output: Seq<char>| #[trigger]
        Machine::one_of_symbols(symbols).accepts(input, output) <==> echoes_one(
            symbols,
            input,
            output,
        ) by {
        law_one_of_symbols_accepts(symbols, input, output);
    }
}

/// The muted automaton accepts the inputs that the automaton accepts, each
/// with the empty output.
pub proof fn lemma_consume_properties(m: Machine)
    requires
        m.wf(),
    ensures
        m.consume().wf(),
        m.loop_free() ==> m.consume().loop_free(),
        m.consuming() ==> m.consume().consuming(),
        forall|input: Seq<char>, output: Seq<char>| #[trigger]
            m.consume().accepts(input, output) <==> accepted_muted(m, input, output),
{
    lemma_unary_wf(m, Seq::empty());
    if m.loop_free() {
        lemma_wrap_loop_free(m, Seq::empty());
    }
    if m.consuming() {
        lemma_wrap_consuming(m, Seq::empty());
    }
    assert forall|input: Seq<char>, output: Seq<char>| #[trigger]
        m.consume().accepts(input, output) <==> accepted_muted(m, input, output) by {
        law_consume_accepts(m, input, output);
    }
}

/// The wrapped automaton accepts what the automaton accepts, with the label
/// and a space before the output and a space after it.
pub proof fn lemma_wrap_properties(m: Machine, name: Seq<char>)
    requires
        m.wf(),
    ensures
        m.wrap(name).wf(),
        m.loop_free() ==> m.wrap(name).loop_free(),
        m.consuming() ==> m.wrap(name).consuming(),
        forall|input: Seq<char>, output: Seq<char>| #[trigger]
            m.wrap(name).accepts(input, output) <==> accepted_wrapped(m, name, input, output),
{
    lemma_unary_wf(m, name);
    if m.loop_free() {
        lemma_wrap_loop_free(m, name);
    }
    if m.consuming() {
        lemma_wrap_consuming(m, name);
    }
    assert forall|input: Seq<char>, output: Seq<char>| #[trigger]
        m.wrap(name).accepts(input, output) <==> accepted_wrapped(m, name, input, output) by {
        law_wrap_accepts(m, name, input, output);
    }
}

/// Alternation over automata accepts what one of them accepts.
pub proof fn lemma_one_of_properties(machines: Seq<Machine>)
    requires
        forall|i: int| 0 <= i < machines.len() ==> (#[trigger] machines[i]).wf(),
    ensures
        Machine::one_of(machines).wf(),
        (forall|i: int| 0 <= i < machines.len() ==> (#[trigger] machines[i]).loop_free())
            ==> Machine::one_of(machines).loop_free(),
        (forall|i: int| 0 <= i < machines.len() ==> (#[trigger] machines[i]).consuming())
            ==> Machine::one_of(machines).consuming(),
        forall|input: Seq<char>, output: Seq<char>| #[trigger]
            Machine::one_of(machines).accepts(input, output) <==> accepted_by_one(
                machines,
                input,
                output,
            ),
{
    lemma_one_of_wf(machines);
    if forall|i: int| 0 <= i < machines.len() ==> (#[trigger] machines[i]).loop_free() {
        lemma_one_of_loop_free(machines);
    }
    if forall|i: int| 0 <= i < machines.len() ==> (#[trigger] machines[i]).consuming() {
        lemma_one_of_consuming(machines);
    }
    assert forall|input: Seq<char>, output: Seq<char>| #[trigger]
        Machine::one_of(machines).accepts(input, output) <==> accepted_by_one(
            machines,
            input,
            output,
        ) by {
        law_one_of_accepts(machines, input, output);
    }
}

/// `at_least_once` accepts what falls into one or more parts that the
/// automaton accepts; `repeated`, what falls into any number of them.
pub proof fn lemma_repetition_properties(m: Machine)
    requires
        m.wf(),
    ensures
        m.at_least_once().wf(),
        m.repeated().wf(),
        m.consuming() ==> m.at_least_once().consuming() && m.at_least_once().loop_free(),
        m.consuming() ==> m.repeated().loop_free(),
        forall|input: Seq<char>, output: Seq<char>| #[trigger]
            m.at_least_once().accepts(input, output) <==> accepted_repeatedly(
                m,
                1,
                input,
                output,
            ),
        forall|input: Seq<char>, output: Seq<char>| #[trigger]
            m.repeated().accepts(input, output) <==> accepted_repeatedly(m, 0, input, output),
{
    lemma_unary_wf(m, Seq::empty());
    if m.consuming() {
        lemma_repetition_loop_free(m);
    }
    assert forall|input: Seq<char>, output: Seq<char>| #[trigger]
        m.at_least_once().accepts(input, output) <==> accepted_repeatedly(
            m,
            1,
            input,
            output,
        ) by {
        law_at_least_once_accepts(m, input, output);
    }
    assert forall|input: Seq<char>, output: Seq<char>| #[trigger]
        m.repeated().accepts(input, output) <==> accepted_repeatedly(m, 0, input, output) by {
        law_repeated_accepts(m, input, output);
    }
}

} // verus!
