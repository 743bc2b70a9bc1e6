use transducer::FST;

fn texts(items: &[&str]) -> Vec<String> {
    items.iter().map(|s| s.to_string()).collect()
}

fn none() -> Vec<String> {
    Vec::new()
}

#[test]
fn empty_accepts_only_the_empty_input() {
    assert_eq!(FST::empty().match_string(""), texts(&[""]));
    assert_eq!(FST::empty().match_string("a"), none());
}

#[test]
fn all_reject_accepts_nothing() {
    assert_eq!(FST::all_reject().match_string(""), none());
    assert_eq!(FST::all_reject().match_string("a"), none());
    assert_eq!(FST::all_reject().match_string("abc"), none());
}

#[test]
fn symbol_echoes_its_symbol() {
    assert_eq!(FST::symbol('a').match_string("a"), texts(&["a"]));
    assert_eq!(FST::symbol('a').match_string("b"), none());
    assert_eq!(FST::symbol('a').match_string(""), none());
    assert_eq!(FST::symbol('a').match_string("aa"), none());
}

#[test]
fn symbol_handles_characters_beyond_ascii() {
    assert_eq!(FST::symbol('é').match_string("é"), texts(&["é"]));
    assert_eq!(FST::string("žluť").match_string("žluť"), texts(&["žluť"]));
}

#[test]
fn string_matches_exactly_its_text() {
    assert_eq!(FST::string("ab").match_string("ab"), texts(&["ab"]));
    assert_eq!(FST::string("ab").match_string("ac"), none());
    assert_eq!(FST::string("ab").match_string("a"), none());
    assert_eq!(FST::string("ab").match_string("abc"), none());
}

#[test]
fn string_of_nothing_is_empty() {
    assert_eq!(FST::string("").match_string(""), texts(&[""]));
    assert_eq!(FST::string("").match_string("a"), none());
}

#[test]
fn one_of_symbols_matches_any_one_of_them() {
    let m = FST::one_of_symbols(vec!['x', 'y', 'z']);
    assert_eq!(m.match_string("x"), texts(&["x"]));
    assert_eq!(m.match_string("y"), texts(&["y"]));
    assert_eq!(m.match_string("z"), texts(&["z"]));
    assert_eq!(m.match_string("w"), none());
    assert_eq!(m.match_string(""), none());
    assert_eq!(m.match_string("xy"), none());
}

#[test]
fn one_of_no_symbols_rejects() {
    let m = FST::one_of_symbols(Vec::new());
    assert_eq!(m.match_string(""), none());
    assert_eq!(m.match_string("a"), none());
}

#[test]
fn consume_suppresses_output() {
    assert_eq!(FST::consume(FST::symbol('x')).match_string("x"), texts(&[""]));
    assert_eq!(FST::consume(FST::string("xyz")).match_string("xyz"), texts(&[""]));
    assert_eq!(FST::consume(FST::symbol('x')).match_string("y"), none());
}

#[test]
fn wrap_envelopes_output() {
    assert_eq!(FST::wrap(FST::string("ab"), "TAG").match_string("ab"), texts(&["TAG ab "]));
    assert_eq!(FST::wrap(FST::string("ab"), "TAG").match_string("a"), none());
    assert_eq!(FST::wrap(FST::empty(), "").match_string(""), texts(&["  "]));
}

#[test]
fn and_concatenates() {
    let m = FST::and(FST::string("ab"), FST::symbol('c'));
    assert_eq!(m.match_string("abc"), texts(&["abc"]));
    assert_eq!(m.match_string("ab"), none());
    assert_eq!(m.match_string("c"), none());
}

#[test]
fn and_optionally_accepts_with_and_without_the_second() {
    let m = FST::and_optionally(FST::string("ab"), FST::symbol('c'));
    assert_eq!(m.match_string("abc"), texts(&["abc"]));
    assert_eq!(m.match_string("ab"), texts(&["ab"]));
    assert_eq!(m.match_string("a"), none());
    assert_eq!(m.match_string("abcc"), none());
}

#[test]
fn or_accepts_either() {
    let m = FST::or(FST::string("ab"), FST::symbol('c'));
    assert_eq!(m.match_string("ab"), texts(&["ab"]));
    assert_eq!(m.match_string("c"), texts(&["c"]));
    assert_eq!(m.match_string("abc"), none());
    assert_eq!(m.match_string(""), none());
}

#[test]
fn at_least_once_repeats() {
    assert_eq!(FST::at_least_once(FST::symbol('a')).match_string("aaa"), texts(&["aaa"]));
    assert_eq!(FST::at_least_once(FST::symbol('a')).match_string("a"), texts(&["a"]));
    assert_eq!(FST::at_least_once(FST::symbol('a')).match_string(""), none());
    assert_eq!(FST::at_least_once(FST::symbol('a')).match_string("ab"), none());
}

#[test]
fn repeated_accepts_no_repetition() {
    assert_eq!(FST::repeated(FST::symbol('a')).match_string(""), texts(&[""]));
    assert_eq!(FST::repeated(FST::string("ab")).match_string(""), texts(&[""]));
}

#[test]
fn repeated_accepts_many_repetitions() {
    assert_eq!(FST::repeated(FST::symbol('a')).match_string("a"), texts(&["a"]));
    assert_eq!(FST::repeated(FST::symbol('a')).match_string("aaa"), texts(&["aaa"]));
    assert_eq!(FST::repeated(FST::string("ab")).match_string("abab"), texts(&["abab"]));
    assert_eq!(FST::repeated(FST::string("ab")).match_string("aba"), none());
    assert_eq!(FST::repeated(FST::symbol('a')).match_string("b"), none());
}

#[test]
fn one_of_surfaces_every_path() {
    let m = FST::one_of(vec![FST::string("a"), FST::string("a")]);
    assert_eq!(m.match_string("a"), texts(&["a", "a"]));
}

#[test]
fn one_of_nothing_rejects() {
    assert_eq!(FST::one_of(Vec::new()).match_string(""), none());
    assert_eq!(FST::one_of(Vec::new()).match_string("a"), none());
}

#[test]
fn one_of_keeps_paths_with_different_outputs() {
    let m = FST::one_of(vec![
        FST::wrap(FST::symbol('a'), "X"),
        FST::consume(FST::symbol('a')),
        FST::symbol('a'),
    ]);
    let mut found = m.match_string("a");
    found.sort();
    assert_eq!(found, texts(&["", "X a ", "a"]));
}

#[test]
fn lexer_labels_tokens() {
    let digits = vec!['0', '1', '2', '3', '4', '5', '6', '7', '8', '9'];
    let lexer = FST::at_least_once(FST::one_of(vec![
        FST::wrap(FST::at_least_once(FST::one_of_symbols(digits)), "NUM"),
        FST::wrap(FST::one_of_symbols(vec!['+', '-']), "OP"),
        FST::consume(FST::one_of_symbols(vec![' ', '\n', '\t'])),
    ]));
    assert_eq!(
        lexer.match_string("12 + 3"),
        texts(&["NUM 12 OP + NUM 3 ", "NUM 1 NUM 2 OP + NUM 3 "])
    );
    assert_eq!(lexer.match_string("7"), texts(&["NUM 7 "]));
    assert_eq!(lexer.match_string(" - "), texts(&["OP - "]));
    assert_eq!(lexer.match_string("12 * 3"), none());
    assert_eq!(lexer.match_string(""), none());
}

#[test]
fn empty_is_an_identity_of_and() {
    for input in ["", "a", "ab", "abab", "b"] {
        let expected = FST::at_least_once(FST::string("ab")).match_string(input);
        let left = FST::and(FST::empty(), FST::at_least_once(FST::string("ab")));
        let right = FST::and(FST::at_least_once(FST::string("ab")), FST::empty());
        assert_eq!(left.match_string(input), expected);
        assert_eq!(right.match_string(input), expected);
    }
}

#[test]
fn all_reject_is_an_identity_of_or() {
    for input in ["", "a", "ab", "abab", "b"] {
        let expected = FST::at_least_once(FST::string("ab")).match_string(input);
        let joined = FST::or(FST::all_reject(), FST::at_least_once(FST::string("ab")));
        assert_eq!(joined.match_string(input), expected);
    }
}

#[test]
fn simulation_steps_can_be_taken_one_by_one() {
    let m = FST::string("ab");
    let start = m.epsilon_closure(vec![(0, Vec::new())]);
    assert_eq!(start, vec![(0, Vec::new()), (1, Vec::new())]);
    let after_a = m.step(start, 'a');
    assert_eq!(after_a, vec![(2, texts(&["a"])), (3, texts(&["a"]))]);
    let after_b = m.step(after_a, 'b');
    assert_eq!(after_b, vec![(4, texts(&["a", "b"]))]);
    assert_eq!(m.outputs(after_b), texts(&["ab"]));
}

#[test]
fn symbol_step_follows_only_matching_transitions() {
    let m = FST::or(FST::symbol('a'), FST::symbol('b'));
    assert_eq!(m.symbol_step(0, Vec::new(), None), vec![(1, Vec::new()), (3, Vec::new())]);
    assert_eq!(m.symbol_step(1, texts(&["x"]), Some('a')), vec![(2, texts(&["x", "a"]))]);
    assert_eq!(m.symbol_step(1, texts(&["x"]), Some('b')), Vec::new());
    assert_eq!(m.symbol_step(3, Vec::new(), Some('b')), vec![(4, texts(&["b"]))]);
    assert_eq!(m.symbol_step(0, Vec::new(), Some('a')), Vec::new());
}

#[test]
fn closure_stops_on_a_cycle_of_epsilon_transitions() {
    let m = FST::at_least_once(FST::empty());
    assert_eq!(m.match_string(""), texts(&[""]));
    assert_eq!(m.match_string("a"), none());
    let star = FST::repeated(FST::empty());
    assert_eq!(star.epsilon_closure(vec![(0, Vec::new())]).len(), 2);
}
