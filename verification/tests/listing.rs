use transducer::FST;

#[test]
fn dump_of_the_primitives() {
    assert_eq!(FST::empty().dump(), "1 0\n0 \n");
    assert_eq!(FST::all_reject().dump(), "1 0\n\n");
    assert_eq!(FST::symbol('a').dump(), "2 1\n0\t1\ta\ta\n1 \n");
}

#[test]
fn dump_of_and() {
    assert_eq!(
        FST::and(FST::symbol('a'), FST::symbol('b')).dump(),
        "4 3\n0\t1\ta\ta\n2\t3\tb\tb\n1\t2\t`\t\n3 \n"
    );
}

#[test]
fn dump_of_and_optionally() {
    assert_eq!(
        FST::and_optionally(FST::symbol('a'), FST::symbol('b')).dump(),
        "4 3\n0\t1\ta\ta\n2\t3\tb\tb\n1\t2\t`\t\n1 3 \n"
    );
}

#[test]
fn dump_of_or() {
    assert_eq!(
        FST::or(FST::symbol('a'), FST::symbol('b')).dump(),
        "5 4\n1\t2\ta\ta\n3\t4\tb\tb\n0\t1\t`\t\n0\t3\t`\t\n2 4 \n"
    );
}

#[test]
fn dump_of_wrap() {
    assert_eq!(
        FST::wrap(FST::symbol('x'), "T").dump(),
        "4 3\n2\t3\tx\tx\n0\t2\t`\tT \n3\t1\t`\t \n1 \n"
    );
}

#[test]
fn dump_of_consume() {
    assert_eq!(FST::consume(FST::symbol('a')).dump(), "2 1\n0\t1\ta\t\n1 \n");
}

#[test]
fn dump_of_at_least_once() {
    assert_eq!(
        FST::at_least_once(FST::symbol('a')).dump(),
        "2 2\n0\t1\ta\ta\n1\t0\t`\t\n1 \n"
    );
}

#[test]
fn dump_of_repeated() {
    assert_eq!(
        FST::repeated(FST::symbol('a')).dump(),
        "3 3\n1\t2\ta\ta\n0\t1\t`\t\n2\t0\t`\t\n0 \n"
    );
}

#[test]
fn dump_of_string_folds_and_from_empty() {
    assert_eq!(FST::string("").dump(), FST::empty().dump());
    assert_eq!(
        FST::string("ab").dump(),
        FST::and(FST::and(FST::empty(), FST::symbol('a')), FST::symbol('b')).dump()
    );
    assert_eq!(
        FST::string("ab").dump(),
        "5 4\n1\t2\ta\ta\n0\t1\t`\t\n3\t4\tb\tb\n2\t3\t`\t\n4 \n"
    );
}

#[test]
fn dump_of_one_of_symbols_folds_or_from_all_reject() {
    assert_eq!(FST::one_of_symbols(Vec::new()).dump(), FST::all_reject().dump());
    assert_eq!(
        FST::one_of_symbols(vec!['a', 'b']).dump(),
        FST::or(FST::or(FST::all_reject(), FST::symbol('a')), FST::symbol('b')).dump()
    );
}

#[test]
fn dump_of_one_of_puts_each_new_automaton_first() {
    assert_eq!(FST::one_of(Vec::new()).dump(), FST::all_reject().dump());
    assert_eq!(
        FST::one_of(vec![FST::symbol('a'), FST::symbol('b')]).dump(),
        FST::or(FST::symbol('b'), FST::or(FST::symbol('a'), FST::all_reject())).dump()
    );
}

#[test]
fn dump_writes_numbers_of_several_digits() {
    let m = FST::string("abcdef");
    assert_eq!(m.state_count(), 13);
    assert!(m.dump().starts_with("13 12\n1\t2\ta\ta\n"));
    assert!(m.dump().ends_with("10\t11\t`\t\n12 \n"));
    let wide = FST::string(&"x".repeat(60));
    assert_eq!(wide.state_count(), 121);
    assert!(wide.dump().starts_with("121 120\n"));
    assert!(wide.dump().ends_with("118\t119\t`\t\n120 \n"));
}

#[test]
fn state_count_follows_the_constructions() {
    assert_eq!(FST::empty().state_count(), 1);
    assert_eq!(FST::all_reject().state_count(), 1);
    assert_eq!(FST::symbol('a').state_count(), 2);
    assert_eq!(FST::and(FST::symbol('a'), FST::symbol('b')).state_count(), 4);
    assert_eq!(FST::or(FST::symbol('a'), FST::symbol('b')).state_count(), 5);
    assert_eq!(FST::wrap(FST::symbol('a'), "N").state_count(), 4);
    assert_eq!(FST::repeated(FST::symbol('a')).state_count(), 3);
    assert_eq!(FST::at_least_once(FST::symbol('a')).state_count(), 2);
    assert_eq!(FST::one_of_symbols(vec!['a', 'b', 'c']).state_count(), 10);
}

#[test]
fn clone_is_the_same_automaton() {
    let m = FST::wrap(FST::at_least_once(FST::one_of_symbols(vec!['0', '1'])), "BIT");
    let copy = m.clone();
    assert_eq!(copy.dump(), m.dump());
    assert_eq!(copy.state_count(), m.state_count());
    assert_eq!(copy.match_string("0110"), m.match_string("0110"));
    let longer = FST::and(copy, FST::symbol('!'));
    assert_eq!(m.match_string("01!"), Vec::<String>::new());
    assert_eq!(longer.match_string("0!"), vec!["BIT 0 !".to_string()]);
}
