//! Parsing and validation behavior.

use bnfgen::error::Error;
use bnfgen::grammar::alt::Limit;
use bnfgen::grammar::raw::RawGrammar;

#[test]
fn brainfuck() {
    let text = r#"
        <Program> ::= <Op> | <Program> <Op> ;
        <Op> ::= "+" | "-" | "<" | ">" | "." | "," | "[" <Program> "]" ;
    "#;
    let grammar = RawGrammar::parse(text).unwrap();
    assert_eq!(grammar.rules.len(), 2);
}

#[test]
fn mod_brainfuck() {
    let text = r#"
        // a cell-machine grammar
        <Program> ::= <Op> | <Program> <Op> ;
        <Op> ::= "+" | "-" | "<" | ">" | "." | "," | "[" <Program> "]" ;
    "#;
    let grammar = RawGrammar::parse(text).unwrap();
    assert!(grammar.to_checked().is_ok());
}

#[test]
fn typed() {
    let text = r#"
        <E> ::= <E: "int"> "+" <E: "int"> ;
    "#;
    let grammar = RawGrammar::parse(text).unwrap();
    assert_eq!(grammar.rules.len(), 1);
    let alts = grammar.rules[0].rhs();
    assert_eq!(alts.len(), 1);
    assert_eq!(alts[0].symbols.len(), 3);
}

#[test]
fn repeat() {
    let text = r#"
        <E> ::= "a" {1, 10} | "b" {2, } | "c" {3} ;
    "#;
    let grammar = RawGrammar::parse(text).unwrap();
    let alts = grammar.rules[0].rhs();
    assert_eq!(alts.len(), 3);
    assert!(matches!(alts[0].invoke_limit, Limit::Limited { min: 1, max: 10 }));
    assert!(matches!(alts[1].invoke_limit, Limit::Limited { min: 2, max: usize::MAX }));
    assert!(matches!(alts[2].invoke_limit, Limit::Limited { min: 3, max: 3 }));
}

#[test]
fn mod_repeat() {
    let text = r#"
        <E> ::= "a" {1, 10} | "b" {2, } | "c" {3} ;
    "#;
    let grammar = RawGrammar::parse(text).unwrap();
    assert!(grammar.check_repeats().is_ok());
}

#[test]
fn unexpected_eof() {
    let text = "<start> ::= \"Hello\" | \"World\""; // no semi
    let err = RawGrammar::parse(text).err().unwrap();
    assert!(matches!(err, Error::UnrecognizedEof { .. }));
}

#[test]
fn mod_unexpected_eof() {
    let text = "<start> ::= \"Hello\" | \"World\"";
    assert!(RawGrammar::parse(text).is_err());
}

#[test]
fn invalid_token() {
    // `:` is a token of the grammar, but no rule may start with it
    let text = ":";
    let err = RawGrammar::parse(text).err().unwrap();
    assert!(matches!(err, Error::UnrecognizedToken { .. }));
}

#[test]
fn mod_invalid_token() {
    // `*` starts no token at all
    let text = "*";
    let err = RawGrammar::parse(text).err().unwrap();
    assert!(matches!(err, Error::LexicalError(_)));
}

#[test]
fn invalid_re() {
    let text = r#"<R> ::= re("["); "#;
    let err = RawGrammar::parse(text).err().unwrap();
    assert!(matches!(err, Error::InvalidRegex { .. }));
}

#[test]
fn mod_invalid_re() {
    let text = r#"<R> ::= re("["); "#;
    assert!(RawGrammar::parse(text).is_err());
}

#[test]
fn undefined_nt() {
    let text = "<E> ::= <S>;";
    let err = RawGrammar::parse(text).unwrap().to_checked().err().unwrap();
    assert!(matches!(err, Error::UndefinedNonTerminal { .. }));
}

#[test]
fn mod_undefined_nt() {
    let text = "<E> ::= <S>;";
    assert!(RawGrammar::parse(text).unwrap().to_checked().is_err());
}

#[test]
fn duplicated_def() {
    let text = r#"
        <E> ::= <S>;
        <S> ::= <E>;
        <E> ::= "?";
    "#;
    let err = RawGrammar::parse(text).unwrap().to_checked().err().unwrap();
    assert!(matches!(err, Error::DuplicatedRules { .. }));
}

#[test]
fn mod_duplicated_def() {
    let text = r#"
        <E> ::= <S>;
        <S> ::= <E>;
        <E> ::= "?";
    "#;
    assert!(RawGrammar::parse(text).unwrap().to_checked().is_err());
}

#[test]
fn it_can_merge() {
    // two untyped definitions of the same name share both name and
    // tag: validation rejects the grammar as duplicated
    let text = r#"
        <E> ::= <E: "int"> "+" <E: "int"> ;
        <E> ::= <E: "str"> "+" <E: "str"> ;
        <E: "str"> ::= <E: "str"> "+" <E: "str"> ;
    "#;
    let grammar = RawGrammar::parse(text).unwrap();
    let err = grammar.to_checked().err().unwrap();
    assert!(matches!(err, Error::DuplicatedRules { .. }));
}

#[test]
fn typed_rules_with_shared_name_are_not_duplicates() {
    let text = r#"
        <E: "int"> ::= "1" ;
        <E: "bool"> ::= "true" ;
        <S> ::= <E> ;
    "#;
    assert!(RawGrammar::parse(text).unwrap().to_checked().is_ok());
}

#[test]
fn invalid_repeat() {
    let text = r#"
        <E> ::= "a" {10, 1};
    "#;
    let err = RawGrammar::parse(text).unwrap().to_checked().err().unwrap();
    assert!(matches!(err, Error::InvalidRepeatRange { .. }));
}

#[test]
fn mod_invalid_repeat() {
    let text = r#"
        <E> ::= "a" {10, 1};
    "#;
    assert!(RawGrammar::parse(text).unwrap().to_checked().is_err());
}

#[test]
fn unreachable_nt() {
    let text = r#"
        <E> ::= "Hello" | <A> ;
        <W> ::= "World" ;
        <A> ::= <B> ;
        <B> ::= <A> ;
        <C> ::= <W> ;
    "#;
    let grammar = RawGrammar::parse(text).unwrap();
    let graph = grammar.graph();
    let err = graph.check_unused("E").err().unwrap();
    match err {
        Error::UnreachableRules { spans } => {
            // W and C are unreachable from E
            assert_eq!(spans.len(), 2);
        }
        other => panic!("expected unreachable rules, got {:?}", other),
    }
}

#[test]
fn mod_unreachable_nt() {
    let text = r#"
        <E> ::= "Hello" | <A> ;
        <W> ::= "World" ;
        <A> ::= <B> ;
        <B> ::= <A> ;
        <C> ::= <W> ;
    "#;
    let grammar = RawGrammar::parse(text).unwrap();
    assert!(grammar.graph().check_unused("E").is_err());
    assert!(grammar.graph().check_unused("C").is_err());
}

#[test]
fn trap_loop() {
    let text = r#"
        <E> ::= <D> | <F>;
        <C> ::= <D> ;
        <D> ::= <C> ;
        <F> ::= <G> ;
        <G> ::= <F> | "Terminal" ;
    "#;
    let grammar = RawGrammar::parse(text).unwrap();
    let graph = grammar.graph();
    let err = graph.check_trap_loop().err().unwrap();
    match err {
        Error::TrapLoop { spans } => {
            // C and D trap each other
            assert_eq!(spans.len(), 2);
        }
        other => panic!("expected a trap loop, got {:?}", other),
    }
}

#[test]
fn mod_trap_loop() {
    let text = r#"
        <E> ::= <D> | <F>;
        <C> ::= <D> ;
        <D> ::= <C> ;
        <F> ::= <G> ;
        <G> ::= <F> | "Terminal" ;
    "#;
    assert!(RawGrammar::parse(text).unwrap().graph().check_trap_loop().is_err());
}

#[test]
fn tri_loop() {
    let text = r#"
        <no-trap-01> ::= <A> | "Terminal" ;
        <no-trap-02> ::= <A> | <term> ;
        <term> ::= "Terminal" ;
        <A> ::= <B> ;
        <B> ::= <C> ;
        <C> ::= <A> ;
    "#;
    let grammar = RawGrammar::parse(text).unwrap();
    let graph = grammar.graph();
    let err = graph.check_trap_loop().err().unwrap();
    match err {
        Error::TrapLoop { spans } => {
            assert_eq!(spans.len(), 3);
        }
        other => panic!("expected a trap loop, got {:?}", other),
    }
}

#[test]
fn mod_tri_loop() {
    let text = r#"
        <no-trap-01> ::= <A> | "Terminal" ;
        <no-trap-02> ::= <A> | <term> ;
        <term> ::= "Terminal" ;
        <A> ::= <B> ;
        <B> ::= <C> ;
        <C> ::= <A> ;
    "#;
    assert!(RawGrammar::parse(text).unwrap().graph().check_trap_loop().is_err());
}

#[test]
fn no_trap_when_escape_exists() {
    let text = r#"
        <S> ::= <S> "x" | "y" ;
    "#;
    assert!(RawGrammar::parse(text).unwrap().graph().check_trap_loop().is_ok());
}

#[test]
fn extra_token_after_grammar() {
    let text = "<A> ::= \"a\" ; )";
    let err = RawGrammar::parse(text).err().unwrap();
    assert!(matches!(err, Error::ExtraToken { .. }));
}

#[test]
fn integer_overflow_is_lexical() {
    let text = "<A> ::= \"a\" {99999999999999999999999999999999} ;";
    let err = RawGrammar::parse(text).err().unwrap();
    assert!(matches!(
        err,
        Error::LexicalError(bnfgen::error::LexicalError::InvalidInteger(_))
    ));
}

#[test]
fn round_trip_simple_choice() {
    let text = r#"<S> ::= "hello" | "world" ;"#;
    let g1 = RawGrammar::parse(text).unwrap();
    let printed = g1.to_text();
    let g2 = RawGrammar::parse(&printed).unwrap();
    assert_eq!(printed, g2.to_text());
}

#[test]
fn round_trip_typed_weights_limits_patterns() {
    let text = r#"
        <S> ::= 3 <E: "int"> "+" {1, 4} | re("[a-z]+") {2, } | "lit\n\"q\"" {5} ;
        <E: "int"> ::= "1" ;
    "#;
    let g1 = RawGrammar::parse(text).unwrap();
    let printed = g1.to_text();
    let g2 = RawGrammar::parse(&printed).unwrap();
    assert_eq!(printed, g2.to_text());
    // and the reprinted grammar derives the very same strings
    let c1 = g1.to_checked().unwrap();
    let c2 = g2.to_checked().unwrap();
    let gen1 = bnfgen::Generator::new(c1);
    let gen2 = bnfgen::Generator::new(c2);
    for seed in 0..20u64 {
        let a = gen1.generate_many("S", seed, 3, 10_000, 50);
        let b = gen2.generate_many("S", seed, 3, 10_000, 50);
        match (a, b) {
            (Ok(x), Ok(y)) => assert_eq!(x, y),
            (Err(_), Err(_)) => {}
            _ => panic!("the printed grammar behaves differently"),
        }
    }
}

#[test]
fn span_new_carries_bounds() {
    let s = bnfgen::span::Span::new(3, 9);
    assert_eq!(s.start, 3);
    assert_eq!(s.end, 9);
}

#[test]
fn error_messages() {
    let e = Error::NoCandidatesAvailable { name: "A".to_string() };
    assert_eq!(e.message(), "No candidates available for non-terminal `A`");
    assert_eq!(Error::MaxStepsExceeded.message(), "Maximum steps exceeded");
}
