use mal::env::Env;
use mal::env::EnvArena;
use mal::error::MalError;
use mal::load_builtins;
use mal::print;
use mal::read;
use mal::rep;
use mal::types::MalData;
use mal::types::MalHashMapKey;

fn setup() -> (EnvArena, Env) {
    let mut arena = EnvArena::new();
    let root = Env::new(&mut arena, None);
    load_builtins(&mut arena, root);
    (arena, root)
}

fn run(arena: &mut EnvArena, root: Env, input: &str) -> Result<String, MalError> {
    rep(input.to_string(), arena, root)
}

#[test]
fn arithmetic_add() {
    let (mut arena, root) = setup();
    assert_eq!(run(&mut arena, root, "(+ 1 2)").unwrap(), "3");
}

#[test]
fn arithmetic_sub() {
    let (mut arena, root) = setup();
    assert_eq!(run(&mut arena, root, "(- 5 2)").unwrap(), "3");
}

#[test]
fn arithmetic_mul() {
    let (mut arena, root) = setup();
    assert_eq!(run(&mut arena, root, "(* 3 4)").unwrap(), "12");
}

#[test]
fn arithmetic_div_truncates() {
    let (mut arena, root) = setup();
    assert_eq!(run(&mut arena, root, "(/ 7 2)").unwrap(), "3");
    assert_eq!(run(&mut arena, root, "(/ -7 2)").unwrap(), "-3");
}

#[test]
fn arithmetic_nested() {
    let (mut arena, root) = setup();
    assert_eq!(run(&mut arena, root, "(+ (* 2 3) (- 10 4))").unwrap(), "12");
}

#[test]
fn division_by_zero_is_explicit_error() {
    let (mut arena, root) = setup();
    let r = run(&mut arena, root, "(/ 1 0)");
    assert!(matches!(r, Err(MalError::ArithmeticError)));
}

#[test]
fn addition_overflow_is_explicit_error() {
    let (mut arena, root) = setup();
    let r = run(&mut arena, root, "(+ 9223372036854775807 1)");
    assert!(matches!(r, Err(MalError::ArithmeticError)));
}

#[test]
fn arithmetic_requires_exactly_two_arguments() {
    let (mut arena, root) = setup();
    assert!(matches!(
        run(&mut arena, root, "(+ 1 2 3)"),
        Err(MalError::TypeError(_))
    ));
    assert!(matches!(
        run(&mut arena, root, "(+ 1)"),
        Err(MalError::TypeError(_))
    ));
}

#[test]
fn type_error_names_the_bad_argument() {
    let (mut arena, root) = setup();
    let r = run(&mut arena, root, "(+ 1 \"a\")");
    match r {
        Err(MalError::TypeError(MalData::String(s))) => assert_eq!(s, "a"),
        other => panic!("expected a type error naming \"a\", got {:?}", other),
    }
}

#[test]
fn undefined_symbol_is_named() {
    let (mut arena, root) = setup();
    let r = run(&mut arena, root, "foo");
    match r {
        Err(MalError::SymbolNotFound(s)) => assert_eq!(s, "foo"),
        other => panic!("expected SymbolNotFound(\"foo\"), got {:?}", other),
    }
}

#[test]
fn def_returns_and_persists() {
    let (mut arena, root) = setup();
    assert_eq!(run(&mut arena, root, "(def! x 5)").unwrap(), "5");
    assert_eq!(run(&mut arena, root, "x").unwrap(), "5");
}

#[test]
fn def_threads_through_argument_evaluation() {
    let (mut arena, root) = setup();
    assert_eq!(run(&mut arena, root, "(+ (def! y 4) y)").unwrap(), "8");
}

#[test]
fn def_requires_a_symbol() {
    let (mut arena, root) = setup();
    match run(&mut arena, root, "(def! 1 2)") {
        Err(MalError::TypeError(MalData::Integer(n))) => assert_eq!(n, 1),
        other => panic!("expected a type error naming 1, got {:?}", other),
    }
}

#[test]
fn def_requires_three_elements() {
    let (mut arena, root) = setup();
    assert!(matches!(
        run(&mut arena, root, "(def! x)"),
        Err(MalError::TypeError(MalData::List(_)))
    ));
}

#[test]
fn let_star_sequential_visibility() {
    let (mut arena, root) = setup();
    assert_eq!(run(&mut arena, root, "(let* (a 1 b (+ a 1)) b)").unwrap(), "2");
}

#[test]
fn let_star_accepts_vector_bindings() {
    let (mut arena, root) = setup();
    assert_eq!(run(&mut arena, root, "(let* [a 2] a)").unwrap(), "2");
}

#[test]
fn let_star_shadows_without_leaking() {
    let (mut arena, root) = setup();
    run(&mut arena, root, "(def! a 10)").unwrap();
    assert_eq!(run(&mut arena, root, "(let* (a 1 b a) b)").unwrap(), "1");
    assert_eq!(run(&mut arena, root, "a").unwrap(), "10");
}

#[test]
fn let_star_child_frame_is_discarded() {
    let (mut arena, root) = setup();
    assert_eq!(run(&mut arena, root, "(let* (c 5) c)").unwrap(), "5");
    assert!(matches!(
        run(&mut arena, root, "c"),
        Err(MalError::SymbolNotFound(_))
    ));
}

#[test]
fn let_star_odd_bindings_fail() {
    let (mut arena, root) = setup();
    assert!(matches!(
        run(&mut arena, root, "(let* (a 1 b) b)"),
        Err(MalError::TypeError(_))
    ));
}

#[test]
fn environment_scoping() {
    let mut arena = EnvArena::new();
    let root = Env::new(&mut arena, None);
    let child = Env::new(&mut arena, Some(root));
    root.set(&mut arena, "a".to_string(), MalData::Integer(1));
    match child.get(&arena, "a") {
        Some(MalData::Integer(n)) => assert_eq!(n, 1),
        other => panic!("expected 1 through the chain, got {:?}", other),
    }
    child.set(&mut arena, "b".to_string(), MalData::Integer(2));
    assert!(root.get(&arena, "b").is_none());
}

#[test]
fn empty_input_reads_as_nil() {
    let (mut arena, root) = setup();
    assert_eq!(run(&mut arena, root, "").unwrap(), "nil");
    assert_eq!(run(&mut arena, root, "   ,,,  \t \n").unwrap(), "nil");
    assert_eq!(run(&mut arena, root, "; just a comment").unwrap(), "nil");
}

#[test]
fn round_trip_reprints_identically() {
    let cases = [
        "(1 two \"three\" :four [nil true false])",
        "symbol",
        ":keyword",
        "-42",
        "\"a\\nb\\\\c\\\"d\"",
        "()",
        "[[] [1] [1 2]]",
        "9223372036854775807",
        "-9223372036854775808",
    ];
    for case in cases {
        let first = print(&read(case.to_string()).unwrap());
        let second = print(&read(first.clone()).unwrap());
        assert_eq!(first, second, "round trip failed for {}", case);
    }
}

#[test]
fn integer_overflowing_token_is_a_symbol() {
    let v = read("9223372036854775808".to_string()).unwrap();
    assert!(matches!(v, MalData::Symbol(_)));
}

#[test]
fn plus_sign_integer_token() {
    assert_eq!(print(&read("+5".to_string()).unwrap()), "5");
}

#[test]
fn reader_macros_expand_to_lists() {
    assert_eq!(print(&read("'x".to_string()).unwrap()), "(quote x)");
    assert_eq!(print(&read("`x".to_string()).unwrap()), "(quasiquote x)");
    assert_eq!(print(&read("~x".to_string()).unwrap()), "(unquote x)");
    assert_eq!(print(&read("~@x".to_string()).unwrap()), "(splice-unquote x)");
    assert_eq!(print(&read("@x".to_string()).unwrap()), "(deref x)");
}

#[test]
fn with_meta_swaps_argument_order() {
    assert_eq!(
        print(&read("^{\"m\" 1} [2]".to_string()).unwrap()),
        "(with-meta [2] {\"m\" 1})"
    );
}

#[test]
fn vector_evaluates_elementwise() {
    let (mut arena, root) = setup();
    assert_eq!(run(&mut arena, root, "[1 (+ 1 1)]").unwrap(), "[1 2]");
}

#[test]
fn hash_map_evaluates_values() {
    let (mut arena, root) = setup();
    assert_eq!(run(&mut arena, root, "{:k (+ 1 2)}").unwrap(), "{:k 3}");
}

#[test]
fn hash_map_duplicate_key_overwrites() {
    let (mut arena, root) = setup();
    assert_eq!(run(&mut arena, root, "{:a 1 :a 2}").unwrap(), "{:a 2}");
}

#[test]
fn hash_map_odd_count_fails() {
    let r = read("{:a 1 :b}".to_string());
    assert!(matches!(r, Err(MalError::UnbalancedHashMap)));
}

#[test]
fn hash_map_integer_key_fails() {
    let r = read("{1 2}".to_string());
    assert!(matches!(r, Err(MalError::InvalidHashMapKey)));
}

#[test]
fn empty_list_evaluates_to_itself() {
    let (mut arena, root) = setup();
    assert_eq!(run(&mut arena, root, "()").unwrap(), "()");
}

#[test]
fn applying_a_non_function_fails() {
    let (mut arena, root) = setup();
    match run(&mut arena, root, "(1 2)") {
        Err(MalError::TypeError(MalData::Integer(n))) => assert_eq!(n, 1),
        other => panic!("expected a type error naming 1, got {:?}", other),
    }
}

#[test]
fn leftover_tokens_fail() {
    match read("1 2".to_string()) {
        Err(MalError::ExpectedEOF { found }) => assert_eq!(found, "2"),
        other => panic!("expected ExpectedEOF, got {:?}", other),
    }
}

#[test]
fn unbalanced_brackets_fail() {
    assert!(matches!(
        read("(1 2".to_string()),
        Err(MalError::UnbalancedBrackets)
    ));
    assert!(matches!(
        read("[1".to_string()),
        Err(MalError::UnbalancedBrackets)
    ));
}

#[test]
fn unterminated_string_fails() {
    assert!(matches!(
        read("\"abc".to_string()),
        Err(MalError::UnbalancedDoubleQuotes)
    ));
}

#[test]
fn invalid_escape_fails() {
    assert!(matches!(
        read("\"a\\q\"".to_string()),
        Err(MalError::InvalidEscapeSequence)
    ));
}

#[test]
fn empty_keyword_fails() {
    assert!(matches!(read(":".to_string()), Err(MalError::InvalidToken)));
}

#[test]
fn premature_end_of_input_fails() {
    match read("'".to_string()) {
        Err(MalError::Unexpected { found }) => assert_eq!(found, "EOF"),
        other => panic!("expected Unexpected EOF, got {:?}", other),
    }
}

#[test]
fn string_parsing_unescapes() {
    match read("\"a\\nb\\\\c\\\"d\"".to_string()) {
        Ok(MalData::String(s)) => assert_eq!(s, "a\nb\\c\"d"),
        other => panic!("expected a string, got {:?}", other),
    }
}

#[test]
fn parse_string_entry_point() {
    match mal::reader::parse_string("\"hi\"".to_string()) {
        Ok(MalData::String(s)) => assert_eq!(s, "hi"),
        other => panic!("expected a string, got {:?}", other),
    }
}

#[test]
fn escape_mal_string_escapes() {
    assert_eq!(
        mal::printer::escape_mal_string("a\"b\\c\nd"),
        "a\\\"b\\\\c\\nd"
    );
}

#[test]
fn error_messages_render() {
    let (mut arena, root) = setup();
    let e = run(&mut arena, root, "(+ 1 \"a\")").unwrap_err();
    assert_eq!(e.message(), "type error: \"a\"");
    let e = run(&mut arena, root, "nope").unwrap_err();
    assert_eq!(e.message(), "symbol not found: nope");
    let e = read("(".to_string()).unwrap_err();
    assert_eq!(e.message(), "unbalanced brackets");
}

#[test]
fn comments_are_discarded_inside_forms() {
    let (mut arena, root) = setup();
    assert_eq!(
        run(&mut arena, root, "(+ 1 ; ignored to end of line\n 2)").unwrap(),
        "3"
    );
}

#[test]
fn commas_are_whitespace() {
    let (mut arena, root) = setup();
    assert_eq!(run(&mut arena, root, "(+ 1, 2)").unwrap(), "3");
}

#[test]
fn builtins_print_as_functions() {
    let (mut arena, root) = setup();
    assert_eq!(run(&mut arena, root, "+").unwrap(), "#<function>");
}

#[test]
fn failing_let_star_leaks_no_bindings() {
    let (mut arena, root) = setup();
    assert_eq!(run(&mut arena, root, "(def! ok 1)").unwrap(), "1");
    let r = run(&mut arena, root, "(let* (x 1 y (+ x \"b\")) y)");
    assert!(matches!(r, Err(MalError::TypeError(_))));
    assert_eq!(run(&mut arena, root, "ok").unwrap(), "1");
    assert!(matches!(
        run(&mut arena, root, "x"),
        Err(MalError::SymbolNotFound(_))
    ));
}

#[test]
fn earlier_defs_survive_a_later_error() {
    let (mut arena, root) = setup();
    let r = run(&mut arena, root, "(- (def! kept 7) missing)");
    assert!(matches!(r, Err(MalError::SymbolNotFound(_))));
    assert_eq!(run(&mut arena, root, "kept").unwrap(), "7");
}

#[test]
fn hash_map_key_conversions() {
    let k = MalHashMapKey::try_from(MalData::String("s".to_string())).unwrap();
    let v = MalData::from(k);
    assert_eq!(print(&v), "\"s\"");
    assert!(MalHashMapKey::try_from(MalData::Integer(1)).is_err());
}

#[test]
fn stray_closer_reads_as_symbol() {
    assert_eq!(print(&read("]".to_string()).unwrap()), "]");
}
