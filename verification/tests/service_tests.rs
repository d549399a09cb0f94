//! The request surface, the syntax documentation, and the reporter.

use bnfgen::service::{
    default_count, default_max_steps, get_syntax_content, handle_generation,
    list_available_topics, BnfgenSettings, GenerationRequest,
};
use bnfgen::{Reporter, Style};

#[test]
fn test_get_syntax_content() {
    let content = get_syntax_content("core");
    assert!(content.is_some());
    let content = content.unwrap();
    assert!(content.contains("## Core grammar"));
}

#[test]
fn test_list_available_topics() {
    let topics = list_available_topics();
    assert!(topics.contains(&"core".to_string()));
    assert!(topics.contains(&"regex".to_string()));
}

#[test]
fn test_get_nonexistent_topic() {
    let content = get_syntax_content("nonexistent");
    assert!(content.is_none());
}

#[test]
fn defaults() {
    assert_eq!(default_count(), 1);
    assert_eq!(default_max_steps(), Some(1000));
}

#[test]
fn handle_generation_produces_requested_count() {
    let req = GenerationRequest {
        start_symbol: "S".to_string(),
        grammar: "<S> ::= \"hello\" | \"world\" ;".to_string(),
        count: 4,
        seed: Some(1),
        max_depth: Some(1000),
    };
    let settings = BnfgenSettings { max_attempts: Some(100) };
    let resp = handle_generation(&req, settings, 0).unwrap();
    assert_eq!(resp.generated_strings.len(), 4);
    for s in &resp.generated_strings {
        assert!(s == "hello" || s == "world");
    }
}

#[test]
fn handle_generation_rejects_bad_grammar() {
    let req = GenerationRequest {
        start_symbol: "S".to_string(),
        grammar: "<S> ::= <Missing> ;".to_string(),
        count: 1,
        seed: Some(1),
        max_depth: Some(100),
    };
    let settings = BnfgenSettings { max_attempts: Some(10) };
    assert!(handle_generation(&req, settings, 0).is_err());
}

#[test]
fn reporter_collects_diagnostics() {
    let mut reporter = Reporter::new(Style::NoColor);
    assert!(!reporter.has_diagnostics());
    reporter.push(bnfgen::Error::MaxStepsExceeded);
    reporter.extend(vec![bnfgen::Error::NoCandidatesAvailable { name: "A".to_string() }]);
    assert!(reporter.has_diagnostics());
    let text = reporter.report_to_string();
    assert!(text.contains("Maximum steps exceeded"));
    assert!(text.contains("No candidates available for non-terminal `A`"));
}
