//! Tokenizer and pattern behavior.

use bnfgen::error::LexicalError;
use bnfgen::lexer::Lexer;
use bnfgen::regex::Regex;
use bnfgen::rng::Rng;
use bnfgen::token::Token;
use bnfgen::{NonTerminal, Ty};

fn collect(input: &str) -> Result<Vec<(usize, Token, usize)>, LexicalError> {
    let mut lexer = Lexer::new(input);
    let mut out = Vec::new();
    while let Some(item) = lexer.next_token() {
        out.push(item?);
    }
    Ok(out)
}

#[test]
fn lexer_it_works() {
    let input = r#"
        // a tiny grammar
        <S> ::= "hi" | <T: "int"> re("[a-z]+") {1, 2} ;
    "#;
    let toks = collect(input).unwrap();
    let kinds: Vec<Token> = toks.iter().map(|t| t.1.clone()).collect();
    assert_eq!(
        kinds,
        vec![
            Token::LAngle,
            Token::Id("S".to_string()),
            Token::RAngle,
            Token::Def,
            Token::Str("hi".to_string()),
            Token::Or,
            Token::LAngle,
            Token::Id("T".to_string()),
            Token::Colon,
            Token::Str("int".to_string()),
            Token::RAngle,
            Token::Re,
            Token::LParen,
            Token::Str("[a-z]+".to_string()),
            Token::RParen,
            Token::LBrace,
            Token::Int(1),
            Token::Comma,
            Token::Int(2),
            Token::RBrace,
            Token::Semi,
        ]
    );
    // spans point into the input
    for (s, _, e) in &toks {
        assert!(s < e && *e <= input.chars().count());
    }
}

#[test]
fn lexer_escapes_and_numbers() {
    let toks = collect(r#""a\n\"b\\" 0 10 re"#).unwrap();
    assert_eq!(toks[0].1, Token::Str("a\n\"b\\".to_string()));
    assert_eq!(toks[1].1, Token::Int(0));
    assert_eq!(toks[2].1, Token::Int(10));
    assert_eq!(toks[3].1, Token::Re);
}

#[test]
fn lexer_leading_zero_run_is_identifier() {
    let toks = collect("007").unwrap();
    assert_eq!(toks[0].1, Token::Id("007".to_string()));
}

#[test]
fn lexer_rejects_stray_byte() {
    let err = collect("@").err().unwrap();
    assert!(matches!(err, LexicalError::InvalidToken(_)));
}

#[test]
fn lexer_rejects_unterminated_string() {
    let err = collect("\"abc").err().unwrap();
    assert!(matches!(err, LexicalError::InvalidToken(_)));
}

#[test]
fn regex_it_works() {
    let re = Regex::spanned("[a-zA-Z0-9]*", 0, 12).unwrap();
    let mut rng = Rng::seeded(42);
    let terminals = vec!["M".to_string()];
    let generated: Vec<String> = (0..10).map(|_| re.generate(&mut rng, &terminals)).collect();
    for s in &generated {
        assert!(s.chars().all(|c| c.is_ascii_alphanumeric()));
        assert_ne!(s, "M");
    }
    // the same seed draws the same samples
    let mut rng2 = Rng::seeded(42);
    let again: Vec<String> = (0..10).map(|_| re.generate(&mut rng2, &terminals)).collect();
    assert_eq!(generated, again);
}

#[test]
fn regex_counted_repetition() {
    let re = Regex::spanned("[0-9]{3}", 0, 8).unwrap();
    let mut rng = Rng::seeded(5);
    let none: Vec<String> = Vec::new();
    for _ in 0..20 {
        let s = re.generate(&mut rng, &none);
        assert_eq!(s.len(), 3);
        assert!(s.chars().all(|c| c.is_ascii_digit()));
    }
}

#[test]
fn regex_alternation_and_groups() {
    let re = Regex::spanned("(ab|cd)+", 0, 8).unwrap();
    let mut rng = Rng::seeded(11);
    let none: Vec<String> = Vec::new();
    for _ in 0..20 {
        let s = re.generate(&mut rng, &none);
        assert!(!s.is_empty());
        assert!(s.len() % 2 == 0);
        let mut rest = s.as_str();
        while !rest.is_empty() {
            assert!(rest.starts_with("ab") || rest.starts_with("cd"), "bad piece in {}", s);
            rest = &rest[2..];
        }
    }
}

#[test]
fn regex_rejects_unsupported_forms() {
    assert!(Regex::spanned("[", 0, 1).is_err());
    assert!(Regex::spanned("a{3,1}", 0, 6).is_err());
    assert!(Regex::spanned("^a$", 0, 3).is_err());
}

#[test]
fn regex_negated_class() {
    let re = Regex::spanned("[^a-y]", 0, 6).unwrap();
    let mut rng = Rng::seeded(4);
    let none: Vec<String> = Vec::new();
    for _ in 0..40 {
        let s = re.generate(&mut rng, &none);
        let c = s.chars().next().unwrap();
        assert!(!('a'..='y').contains(&c), "sampled {}", c);
    }
    // a second caret is an ordinary character
    let re2 = Regex::spanned("[^^]", 0, 4).unwrap();
    for _ in 0..40 {
        let s = re2.generate(&mut rng, &none);
        assert_ne!(s, "^");
    }
}

#[test]
fn regex_dot_and_class_escapes() {
    let re = Regex::spanned(r"\d\.", 0, 4).unwrap();
    let mut rng = Rng::seeded(2);
    let none: Vec<String> = Vec::new();
    for _ in 0..10 {
        let s = re.generate(&mut rng, &none);
        let cs: Vec<char> = s.chars().collect();
        assert_eq!(cs.len(), 2);
        assert!(cs[0].is_ascii_digit());
        assert_eq!(cs[1], '.');
    }
}

#[test]
fn regex_optional() {
    let re = Regex::spanned("ab?", 0, 3).unwrap();
    let mut rng = Rng::seeded(8);
    let none: Vec<String> = Vec::new();
    for _ in 0..10 {
        let s = re.generate(&mut rng, &none);
        assert!(s == "a" || s == "ab");
    }
}

#[test]
fn nonterminal_and_ty_constructors() {
    let u = NonTerminal::untyped("Expr");
    assert_eq!(u.as_str(), "Expr");
    assert!(u.ty.ty().is_none());
    let t = NonTerminal::typed("Expr", Ty::typed("int"));
    assert_eq!(t.as_str(), "Expr");
    assert_eq!(t.ty.ty(), Some("int"));
    assert!(Ty::untyped().ty().is_none());
}
