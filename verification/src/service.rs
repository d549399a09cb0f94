//! The request/response surface of the generation service, and the
//! built-in syntax documentation it serves.

use vstd::prelude::*;

use crate::error::Error;
use crate::generator::{lemma_drive_len, spec_drive, DriveModel, Generator};
use crate::grammar::checked::EntryView;
use crate::grammar::raw::{has_bad_limit, has_duplicate, has_undefined_ref, spec_parse,
    ParseModel, RawGrammar};
use crate::grammar::rule::RuleView;
use crate::regex::str_eq;

verus! {

/// The checked entries a validated grammar turns into: one per rule,
/// in rule order.
pub open spec fn entries_of(rs: Seq<RuleView>) -> Seq<EntryView> {
    Seq::new(rs.len(), |i: int| EntryView { key: rs[i].lhs, alts: rs[i].production })
}

/// How many strings a request produces when it does not say.
pub fn default_count() -> (r: usize)
    ensures
        r == 1,
{
    1
}

/// The per-attempt step ceiling used when a request does not say.
pub fn default_max_steps() -> (r: Option<usize>)
    ensures
        r matches Some(v) && v == 1000,
{
    Some(1000)
}

/// Settings of the generation service.
#[derive(Debug, Clone, Copy, PartialEq, Eq, Structural)]
pub struct BnfgenSettings {
    /// The maximum number of failed attempts before giving up.
    pub max_attempts: Option<usize>,
}

/// One generation request: a grammar, a start symbol, and the knobs of
/// the derivation.
#[derive(Debug)]
pub struct GenerationRequest {
    /// The starting non-terminal, the entry point of every derivation.
    pub start_symbol: String,
    /// The grammar itself, as text.
    pub grammar: String,
    /// How many strings to produce.
    pub count: usize,
    /// A seed for reproducible output.
    pub seed: Option<u64>,
    /// The per-attempt step ceiling before the attempt is retried.
    pub max_depth: Option<usize>,
}

/// The produced strings.
#[derive(Debug)]
pub struct GenerationResponse {
    pub generated_strings: Vec<String>,
}

/// Serves one generation request: parses and validates the grammar,
/// then derives the requested number of strings, retrying failed
/// attempts up to the settings' cap. `fallback_seed` seeds the random
/// source when the request carries no seed of its own. On a valid
/// grammar the produced strings are exactly what the drive model
/// describes; a grammar that does not parse or validate is rejected.
pub fn handle_generation(
    req: &GenerationRequest,
    settings: BnfgenSettings,
    fallback_seed: u64,
) -> (r: core::result::Result<GenerationResponse, Error>)
    ensures
        r matches Ok(resp) ==> resp.generated_strings@.len() == req.count,
        match spec_parse(req.grammar@) {
            ParseModel::Grammar(rs) => {
                if has_undefined_ref(rs) || has_duplicate(rs) || has_bad_limit(rs) {
                    r is Err
                } else {
                    match spec_drive(
                        entries_of(rs),
                        req.start_symbol@,
                        (match req.seed {
                            Option::Some(s) => s,
                            Option::None => fallback_seed,
                        }),
                        Seq::empty(),
                        req.count as nat,
                        (match settings.max_attempts {
                            Option::Some(a) => a as nat,
                            Option::None => 100 as nat,
                        }),
                        (match req.max_depth {
                            Option::Some(m) => m as nat,
                            Option::None => 1000 as nat,
                        }),
                    ) {
                        DriveModel::Done(outs, _) => r matches Ok(resp)
                            && resp.generated_strings.deep_view() == outs,
                        DriveModel::FailNoCand(name, _) => r matches Err(e) && (e matches
                        Error::NoCandidatesAvailable { name: n2 } && n2@ == name),
                        DriveModel::FailSteps(_) => r matches Err(e) && e
                            == Error::MaxStepsExceeded,
                    }
                }
            },
            _ => r is Err,
        },
{
    let raw = match RawGrammar::parse(self_str(&req.grammar)) {
        Ok(g) => g,
        Err(e) => {
            return Err(e);
        },
    };
    let ghost rs = raw@;
    let checked = match raw.to_checked() {
        Ok(g) => g,
        Err(e) => {
            return Err(e);
        },
    };
    proof {
        assert(checked@ =~= entries_of(rs));
    }
    let seed: u64 = match req.seed {
        Option::Some(s) => s,
        Option::None => fallback_seed,
    };
    let max_steps: usize = match req.max_depth {
        Option::Some(m) => m,
        Option::None => 1000,
    };
    let max_attempts: usize = match settings.max_attempts {
        Option::Some(a) => a,
        Option::None => 100,
    };
    let generator = Generator::new(checked);
    proof {
        lemma_drive_len(
            generator.grammar@,
            req.start_symbol@,
            seed,
            Seq::empty(),
            req.count as nat,
            max_attempts as nat,
            max_steps as nat,
        );
    }
    let outs = match generator.generate_many(
        self_str(&req.start_symbol),
        seed,
        req.count,
        max_steps,
        max_attempts,
    ) {
        Ok(v) => v,
        Err(e) => {
            return Err(e);
        },
    };
    Ok(GenerationResponse { generated_strings: outs })
}

/// The string slice of an owned string.
fn self_str(s: &String) -> (r: &str)
    ensures
        r@ == s@,
{
    s.as_str()
}

/// A query for one topic of the syntax documentation.
#[derive(Debug)]
pub struct QuerySyntaxRequest {
    /// The topic to look up.
    pub topic: String,
}

/// One topic of the syntax documentation.
#[derive(Debug)]
pub struct QuerySyntaxResponse {
    /// The documentation text of the topic.
    pub content: String,
    /// The topic it documents.
    pub topic: String,
    /// Every topic that can be looked up.
    pub available_topics: Vec<String>,
}

/// The documentation of one syntax topic, or `None` for an unknown
/// topic.
pub fn get_syntax_content(topic: &str) -> (r: Option<String>)
    ensures
        r is Some <==> (topic@ == "core"@ || topic@ == "regex"@ || topic@ == "limit"@ || topic@
            == "weight"@),
{
    if str_eq(topic, "core") {
        Some(
            String::from_str(
                "## Core grammar\n\nA grammar is a list of rules:\n\n    <Name> ::= alt1 | alt2 ;\n    <Name: \"tag\"> ::= ... ;\n\nEach alternative is a sequence of symbols: a quoted terminal, a\nnon-terminal reference such as <Name> or <Name: \"tag\">, or a pattern\nre(\"...\"). Lines starting with // are comments.\n",
            ),
        )
    } else if str_eq(topic, "regex") {
        Some(
            String::from_str(
                "## Regex symbols\n\nA pattern symbol re(\"...\") synthesizes a terminal at derivation\ntime. Supported operators: literals, escapes, classes such as\n[a-z0-9] (also negated, [^a-z]), groups (...), alternation |, and\nthe repetitions *, +, ?, {n}, {n,} and {n,m}.\n",
            ),
        )
    } else if str_eq(topic, "limit") {
        Some(
            String::from_str(
                "## Invoke limits\n\nAn alternative may end with a limit: {n} means exactly that many\nselections per derivation, {n,} at least n, and {n,m} between n and\nm. While an alternative is under its floor it is preferred; once its\ncount passes its ceiling it is no longer selectable.\n",
            ),
        )
    } else if str_eq(topic, "weight") {
        Some(
            String::from_str(
                "## Weights\n\nAn alternative may start with a positive integer weight; selection\namong candidates is random, proportional to the weights. A missing\nweight is 1.\n",
            ),
        )
    } else {
        None
    }
}

/// Every topic of the syntax documentation, in name order.
pub fn list_available_topics() -> (r: Vec<String>)
    ensures
        r.deep_view() =~= seq!["core"@, "limit"@, "regex"@, "weight"@],
{
    let mut v: Vec<String> = Vec::new();
    v.push(String::from_str("core"));
    v.push(String::from_str("limit"));
    v.push(String::from_str("regex"));
    v.push(String::from_str("weight"));
    proof {
        assert(v.deep_view() =~= seq!["core"@, "limit"@, "regex"@, "weight"@]);
    }
    v
}

} // verus!
