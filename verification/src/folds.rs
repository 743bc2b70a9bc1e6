//! What the folded constructions accept.

use crate::language::{
    accepted_in_turn, law_and_accepts, law_empty_accepts, law_or_accepts, law_symbol_accepts,
};
use crate::model::{lemma_one_of_wf, lemma_string_wf, Machine};
use vstd::prelude::*;

verus! {

/// Whether `input` is one symbol of `symbols`, and `output` the same.
pub open spec fn echoes_one(symbols: Seq<char>, input: Seq<char>, output: Seq<char>) -> bool {
    exists|k: int|
        0 <= k < symbols.len() && input == seq![#[trigger] symbols[k]] && output
            == seq![symbols[k]]
}

/// Whether one of `machines` accepts `input` with `output`.
pub open spec fn accepted_by_one(
    machines: Seq<Machine>,
    input: Seq<char>,
    output: Seq<char>,
) -> bool {
    exists|k: int| 0 <= k < machines.len() && (#[trigger] machines[k]).accepts(input, output)
}

/// The automaton for a text accepts the text, echoing it, and nothing else.
pub proof fn law_string_accepts(text: Seq<char>, input: Seq<char>, output: Seq<char>)
    ensures
        Machine::string(text).accepts(input, output) <==> input == text && output == text,
    decreases text.len(),
{
    if text.len() == 0 {
        law_empty_accepts(input, output);
        assert(text =~= Seq::empty());
    } else {
        let first = text.drop_last();
        let c = text.last();
        let a = Machine::string(first);
        let b = Machine::symbol(c);
        lemma_string_wf(first);
        assert(b.wf());
        assert(text =~= first + seq![c]);
        law_and_accepts(a, b, input, output);
        if accepted_in_turn(a, b, input, output) {
            let (i1, o1, i2, o2) = choose|
                i1: Seq<char>,
                o1: Seq<char>,
                i2: Seq<char>,
                o2: Seq<char>,
            |
                #![trigger a.accepts(i1, o1), b.accepts(i2, o2)]
                a.accepts(i1, o1) && b.accepts(i2, o2) && input == i1 + i2 && output == o1 + o2;
            law_string_accepts(first, i1, o1);
            law_symbol_accepts(c, i2, o2);
        }
        if input == text && output == text {
            law_string_accepts(first, first, first);
            law_symbol_accepts(c, seq![c], seq![c]);
            assert(a.accepts(first, first) && b.accepts(seq![c], seq![c]));
        }
    }
}

/// The automaton for a set of symbols accepts each one of them, echoing it,
/// and nothing else.
pub proof fn law_one_of_symbols_accepts(symbols: Seq<char>, input: Seq<char>, output: Seq<char>)
    ensures
        Machine::one_of_symbols(symbols).accepts(input, output) <==> echoes_one(
            symbols,
            input,
            output,
        ),
    decreases symbols.len(),
{
    let holds = echoes_one(symbols, input, output);
    if symbols.len() == 0 {
        law_empty_accepts(input, output);
    } else {
        let first = symbols.drop_last();
        let c = symbols.last();
        let a = Machine::one_of_symbols(first);
        let b = Machine::symbol(c);
        lemma_string_wf(first);
        assert(b.wf());
        law_or_accepts(a, b, input, output);
        law_one_of_symbols_accepts(first, input, output);
        law_symbol_accepts(c, input, output);
        if a.accepts(input, output) {
            let k = choose|k: int|
                0 <= k < first.len() && input == seq![#[trigger] first[k]] && output
                    == seq![first[k]];
            assert(symbols[k] == first[k]);
        }
        if b.accepts(input, output) {
            assert(symbols[symbols.len() - 1] == c);
        }
        if holds {
            let k = choose|k: int|
                0 <= k < symbols.len() && input == seq![#[trigger] symbols[k]] && output
                    == seq![symbols[k]];
            if k < first.len() {
                assert(first[k] == symbols[k]);
            }
        }
    }
}

/// Alternation over automata accepts what one of them accepts, and nothing
/// else.
pub proof fn law_one_of_accepts(machines: Seq<Machine>, input: Seq<char>, output: Seq<char>)
    requires
        forall|i: int| 0 <= i < machines.len() ==> (#[trigger] machines[i]).wf(),
    ensures
        Machine::one_of(machines).accepts(input, output) <==> accepted_by_one(
            machines,
            input,
            output,
        ),
    decreases machines.len(),
{
    let holds = accepted_by_one(machines, input, output);
    if machines.len() == 0 {
        law_empty_accepts(input, output);
    } else {
        let first = machines.drop_last();
        let a = machines.last();
        let b = Machine::one_of(first);
        lemma_one_of_wf(first);
        law_or_accepts(a, b, input, output);
        law_one_of_accepts(first, input, output);
        if b.accepts(input, output) {
            let k = choose|k: int|
                0 <= k < first.len() && (#[trigger] first[k]).accepts(input, output);
            assert(machines[k] == first[k]);
        }
        if a.accepts(input, output) {
            assert(machines[machines.len() - 1] == a);
        }
        if holds {
            let k = choose|k: int|
                0 <= k < machines.len() && (#[trigger] machines[k]).accepts(input, output);
            if k < first.len() {
                assert(first[k] == machines[k]);
            }
        }
    }
}

} // verus!
