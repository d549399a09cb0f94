//! Derivation behavior: determinism, invoke limits, typed resolution,
//! exhaustion, and the tree variant.

use bnfgen::error::Error;
use bnfgen::grammar::raw::RawGrammar;
use bnfgen::rng::Rng;
use bnfgen::grammar::state::State;
use bnfgen::grammar::symbol::SymbolKind;
use bnfgen::parse_tree::tree::ParseTree;
use bnfgen::{Generator, TreeGenerator};

const STEPS: usize = 1_000_000;

fn checked(text: &str) -> bnfgen::CheckedGrammar {
    RawGrammar::parse(text).unwrap().to_checked().unwrap()
}

#[test]
fn generator_repeat_works() {
    let text = r#"
        <S> ::= <E> | <S> <E> {100};
        <E> ::= "a" {1, 10} | "b" {2, } | "c" {3} | "fallback" ;
    "#;
    let gen = Generator::new(checked(text));
    let mut rng = Rng::seeded(7);
    let out = gen.generate("S", &mut rng, STEPS).unwrap();
    assert!(out.split(" ").count() >= 100);
}

#[test]
fn generator_test_tree_generator() {
    let text = r#"
        <S> ::= <E> | <S> <E> {10};
        <E> ::= "a" {1, 10} | "b" {2, } | "c" {3} | "fallback" ;
    "#;
    let tree_gen = TreeGenerator::new(checked(text));
    let mut rng = Rng::seeded(42);
    let tree = tree_gen.generate("S", &mut rng, STEPS).unwrap();
    // the start symbol expanded into at least one child
    assert!(tree.children_len() >= 1);
}

#[test]
fn generator_test_typed_generator() {
    let text = r#"
        <S> ::= <Expr> | <S> "\n" <Expr> {10, 20};

        <Expr> ::= <E> ;

        <E: "int">  ::= "1" | "2" | "3"
                        | <E: "int"> "+" <E: "int"> {3, } ;

        <E: "bool"> ::= "true" | "false"
                        | <E: "bool"> "&" <E: "bool"> {3, } ;
    "#;
    let gen = Generator::new(checked(text));
    let mut rng = Rng::seeded(42);
    let out = gen.generate("S", &mut rng, STEPS).unwrap();
    assert!(!out.is_empty());
}

#[test]
fn generator_test_typed_set_algebra() {
    // a small typed set-algebra grammar in the same shape as the
    // larger example corpus
    let text = r#"
        <Program> ::= <Stmt> | <Program> "\n" <Stmt> {4, 8} ;
        <Stmt> ::= "let" re("[a-z]") "=" <Expr> ;
        <Expr> ::= <E: "set"> | <E: "int"> ;
        <E: "set"> ::= "{}" | "{" <E: "int"> "}"
                       | <E: "set"> "|" <E: "set"> {2}
                       | <E: "set"> "&" <E: "set"> {2} ;
        <E: "int"> ::= "0" | "1" | "2" | <E: "int"> "+" <E: "int"> {2} ;
    "#;
    let gen = Generator::new(checked(text));
    let out = gen.generate_many("Program", 42, 1, STEPS, 100).unwrap();
    assert!(!out[0].is_empty());
}

#[test]
fn test_no_candidates_error() {
    // <S> must expand <A> three times, but each alternative of <A>
    // has a ceiling of 0 and may be selected only once: the third
    // lookup finds no candidates
    let text = r#"
        <S> ::= <A> <A> <A> ;
        <A> ::= "a" {0} | "b" {0} ;
    "#;
    let gen = Generator::new(checked(text));
    let mut found_error = false;
    for seed in 0..100u64 {
        let mut rng = Rng::seeded(seed);
        match gen.generate("S", &mut rng, STEPS) {
            Ok(_) => {}
            Err(err) => {
                if let Error::NoCandidatesAvailable { name } = &err {
                    assert_eq!(name, "A");
                    found_error = true;
                    break;
                }
            }
        }
    }
    assert!(
        found_error,
        "Expected to find at least one seed that triggers NoCandidatesAvailable error"
    );
}

#[test]
fn seeded_generation_is_deterministic() {
    let text = r#"
        <S> ::= <E> | <S> <E> {5, 10} ;
        <E> ::= "x" | "y" | re("[0-9]{2}") ;
    "#;
    let gen = Generator::new(checked(text));
    for seed in 0..30u64 {
        let mut r1 = Rng::seeded(seed);
        let mut r2 = Rng::seeded(seed);
        let a = gen.generate("S", &mut r1, STEPS);
        let b = gen.generate("S", &mut r2, STEPS);
        assert_eq!(a.is_ok(), b.is_ok());
        if let (Ok(x), Ok(y)) = (a, b) {
            assert_eq!(x, y);
        }
        assert_eq!(r1.state, r2.state);
    }
}

#[test]
fn invoke_limit_forces_minimum() {
    let text = r#"
        <S> ::= <E> | <S> <E> {100} ;
        <E> ::= "a" ;
    "#;
    let gen = Generator::new(checked(text));
    for seed in 0..5u64 {
        let mut rng = Rng::seeded(seed);
        let out = gen.generate("S", &mut rng, STEPS).unwrap();
        let words: Vec<&str> = out.split(' ').collect();
        assert!(words.len() >= 100, "only {} words", words.len());
        assert!(words.iter().all(|w| *w == "a"));
    }
}

#[test]
fn typed_derivations_never_mix() {
    let text = r#"
        <E: "int">  ::= "1" | <E: "int"> "+" <E: "int"> {3, } ;
        <E: "bool"> ::= "true" | <E: "bool"> "&" <E: "bool"> {3, } ;
        <S> ::= <E: "int"> | <E: "bool"> ;
    "#;
    let gen = Generator::new(checked(text));
    for seed in 0..40u64 {
        let mut rng = Rng::seeded(seed);
        if let Ok(out) = gen.generate("S", &mut rng, STEPS) {
            let has_int = out.contains('1') || out.contains('+');
            let has_bool = out.contains("true") || out.contains('&');
            assert!(!(has_int && has_bool), "mixed derivation: {}", out);
        }
    }
}

#[test]
fn pattern_avoids_grammar_terminals() {
    let text = r#"
        <S> ::= re("[a-z]") ;
        <Keyword> ::= "m" ;
    "#;
    let gen = Generator::new(checked(text));
    for seed in 0..60u64 {
        let mut rng = Rng::seeded(seed);
        let out = gen.generate("S", &mut rng, STEPS).unwrap();
        assert_eq!(out.len(), 1);
        let c = out.chars().next().unwrap();
        assert!(c.is_ascii_lowercase());
        assert_ne!(out, "m");
    }
}

#[test]
fn step_ceiling_is_enforced() {
    let text = r#"
        <S> ::= <S> "x" | "y" ;
    "#;
    let gen = Generator::new(checked(text));
    let mut rng = Rng::seeded(3);
    // one step only: the start reference cannot finish
    let err = gen.generate("S", &mut rng, 1).err().unwrap();
    assert!(matches!(err, Error::MaxStepsExceeded));
}

#[test]
fn driver_retries_and_collects() {
    let text = r#"
        <S> ::= "one" | "two" | "three" ;
    "#;
    let gen = Generator::new(checked(text));
    let outs = gen.generate_many("S", 9, 5, 100, 10).unwrap();
    assert_eq!(outs.len(), 5);
    for o in &outs {
        assert!(o == "one" || o == "two" || o == "three");
    }
    // the same seed reproduces the same batch
    let again = gen.generate_many("S", 9, 5, 100, 10).unwrap();
    assert_eq!(outs, again);
}

#[test]
fn driver_surfaces_exhaustion() {
    let text = r#"
        <S> ::= <A> <A> <A> ;
        <A> ::= "a" {0} | "b" {0} ;
    "#;
    let gen = Generator::new(checked(text));
    let err = gen.generate_many("S", 0, 1, 1000, 3).err().unwrap();
    assert!(matches!(err, Error::NoCandidatesAvailable { .. }));
}

#[test]
fn unknown_start_has_no_candidates() {
    let text = r#"
        <S> ::= "a" ;
    "#;
    let gen = Generator::new(checked(text));
    let mut rng = Rng::seeded(0);
    let err = gen.generate("Nope", &mut rng, 100).err().unwrap();
    assert!(matches!(err, Error::NoCandidatesAvailable { .. }));
}

#[test]
fn state_counts_and_attempts() {
    let mut st = State::new(Rng::seeded(1));
    assert_eq!(st.count(42), 0);
    st.track(42);
    st.track(42);
    st.track(7);
    assert_eq!(st.count(42), 2);
    assert_eq!(st.count(7), 1);
    assert_eq!(st.total_attempts(), 0);
    st.make_attempt();
    assert_eq!(st.total_attempts(), 1);
}

#[test]
fn parse_tree_shape() {
    let leaf: ParseTree<SymbolKind> = ParseTree::leaf(SymbolKind::Terminal("t".to_string()));
    assert_eq!(leaf.children_len(), 1);
    let branch = ParseTree::branch("S".to_string(), vec![leaf]);
    assert_eq!(branch.children_len(), 1);
}
