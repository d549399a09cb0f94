//! Compiled patterns and pattern-based terminal synthesis.
//!
//! A `re("...")` symbol compiles to a small tree of pattern operators.
//! At derivation time the tree is sampled into a concrete string; if the
//! sampled string collides with a literal terminal of the grammar it is
//! re-sampled a bounded number of times.

use vstd::prelude::*;

use crate::error::Error;
use crate::rng::{rng_out_below, rng_step, Rng};
use crate::span::Span;

verus! {

/// How many times a sample that collides with a grammar terminal is
/// drawn again before the last sample is accepted as-is.
pub const RESAMPLE_TRIES: usize = 100;

/// Cap substituted for an unbounded repetition when sampling.
pub const REPEAT_CAP: u32 = 5;

/// Mathematical model of a compiled pattern.
pub enum PatView {
    Empty,
    Literal(Seq<char>),
    Concat(Seq<PatView>),
    Alternation(Seq<PatView>),
    Repetition { min: u32, max: Option<u32>, sub: Box<PatView> },
    Class(Seq<(char, char)>),
    Group(Box<PatView>),
}

/// One node of a compiled pattern.
#[derive(Debug)]
pub enum PatNode {
    /// Matches the empty string.
    Empty,
    /// A literal run of characters.
    Literal(String),
    /// The children in order.
    Concat(Vec<PatNode>),
    /// One of the children, chosen uniformly at random.
    Alternation(Vec<PatNode>),
    /// `min` to `max` repetitions of `sub`; `None` means unbounded.
    Repetition { min: u32, max: Option<u32>, sub: Box<PatNode> },
    /// A set of inclusive character ranges.
    Class(Vec<(char, char)>),
    /// A parenthesized sub-pattern.
    Group(Box<PatNode>),
}

/// The mathematical model of a pattern node.
pub open spec fn pat_view(p: PatNode) -> PatView
    decreases p, 1nat,
    via pat_view_dec
{
    match p {
        PatNode::Empty => PatView::Empty,
        PatNode::Literal(s) => PatView::Literal(s@),
        PatNode::Concat(xs) => PatView::Concat(pat_views(xs@)),
        PatNode::Alternation(xs) => PatView::Alternation(pat_views(xs@)),
        PatNode::Repetition { min, max, sub } => PatView::Repetition {
            min,
            max,
            sub: Box::new(pat_view(*sub)),
        },
        PatNode::Class(rs) => PatView::Class(rs@),
        PatNode::Group(sub) => PatView::Group(Box::new(pat_view(*sub))),
    }
}

/// The models of a sequence of pattern nodes, in order.
pub open spec fn pat_views(xs: Seq<PatNode>) -> Seq<PatView>
    decreases xs, 0nat,
{
    if xs.len() == 0 {
        Seq::empty()
    } else {
        pat_views(xs.drop_last()).push(pat_view(xs.last()))
    }
}

#[via_fn]
proof fn pat_view_dec(p: PatNode) {
    match p {
        PatNode::Concat(xs) => {
            assert(decreases_to!(p => xs));
            assert(decreases_to!(xs => xs@));
        },
        PatNode::Alternation(xs) => {
            assert(decreases_to!(p => xs));
            assert(decreases_to!(xs => xs@));
        },
        _ => {},
    }
}

/// `pat_views` maps each element to its model.
pub proof fn lemma_pat_views(xs: Seq<PatNode>)
    ensures
        pat_views(xs).len() == xs.len(),
        forall|i: int| 0 <= i < xs.len() ==> pat_views(xs)[i] == pat_view(#[trigger] xs[i]),
    decreases xs.len(),
{
    if xs.len() > 0 {
        lemma_pat_views(xs.drop_last());
        assert forall|i: int| 0 <= i < xs.len() implies pat_views(xs)[i] == pat_view(
            #[trigger] xs[i],
        ) by {
            if i < xs.len() - 1 {
                assert(xs.drop_last()[i] == xs[i]);
            } else {
                assert(xs.last() == xs[i]);
            }
        }
    }
}

impl View for PatNode {
    type V = PatView;

    open spec fn view(&self) -> PatView {
        pat_view(*self)
    }
}

impl Clone for PatNode {
    /// A structural copy; the copy has the same mathematical model.
    fn clone(&self) -> (r: Self)
        ensures
            r@ == self@,
        decreases self,
    {
        match self {
            PatNode::Empty => PatNode::Empty,
            PatNode::Literal(s) => PatNode::Literal(s.clone()),
            PatNode::Concat(xs) => {
                let ys = clone_pat_vec(xs);
                proof {
                    lemma_pat_views(ys@);
                    lemma_pat_views(xs@);
                    assert forall|i: int|
                        0 <= i < xs@.len() implies pat_views(ys@)[i] == pat_views(xs@)[i] by {
                        assert((ys@[i])@ == xs@[i]@);
                    }
                    assert(pat_views(ys@) =~= pat_views(xs@));
                }
                PatNode::Concat(ys)
            },
            PatNode::Alternation(xs) => {
                let ys = clone_pat_vec(xs);
                proof {
                    lemma_pat_views(ys@);
                    lemma_pat_views(xs@);
                    assert forall|i: int|
                        0 <= i < xs@.len() implies pat_views(ys@)[i] == pat_views(xs@)[i] by {
                        assert((ys@[i])@ == xs@[i]@);
                    }
                    assert(pat_views(ys@) =~= pat_views(xs@));
                }
                PatNode::Alternation(ys)
            },
            PatNode::Repetition { min, max, sub } => PatNode::Repetition {
                min: *min,
                max: *max,
                sub: Box::new((**sub).clone()),
            },
            PatNode::Class(rs) => {
                let mut v: Vec<(char, char)> = Vec::new();
                let mut i: usize = 0;
                while i < rs.len()
                    invariant
                        i <= rs@.len(),
                        v@ =~= rs@.subrange(0, i as int),
                    decreases rs@.len() - i,
                {
                    v.push(rs[i]);
                    i = i + 1;
                }
                proof {
                    assert(v@ =~= rs@);
                }
                PatNode::Class(v)
            },
            PatNode::Group(sub) => PatNode::Group(Box::new((**sub).clone())),
        }
    }
}

/// Copies a vector of pattern nodes, preserving each node's model.
fn clone_pat_vec(xs: &Vec<PatNode>) -> (r: Vec<PatNode>)
    ensures
        r@.len() == xs@.len(),
        forall|i: int| 0 <= i < xs@.len() ==> (#[trigger] r@[i])@ == xs@[i]@,
    decreases xs@,
{
    let mut v: Vec<PatNode> = Vec::new();
    let mut i: usize = 0;
    while i < xs.len()
        invariant
            i <= xs@.len(),
            v@.len() == i,
            forall|j: int| 0 <= j < i ==> (#[trigger] v@[j])@ == xs@[j]@,
        decreases xs@.len() - i,
    {
        v.push(xs[i].clone());
        i = i + 1;
    }
    v
}

/// Well-formedness of a compiled pattern: bounded repetitions have
/// `min <= max` and classes are non-empty sets of ordered ranges.
pub open spec fn pat_wf(p: PatView) -> bool
    decreases p,
{
    match p {
        PatView::Empty => true,
        PatView::Literal(_) => true,
        PatView::Concat(xs) => forall|i: int| 0 <= i < xs.len() ==> pat_wf(#[trigger] xs[i]),
        PatView::Alternation(xs) => xs.len() >= 1 && forall|i: int|
            0 <= i < xs.len() ==> pat_wf(#[trigger] xs[i]),
        PatView::Repetition { min, max, sub } => (match max {
            Option::Some(m) => min <= m,
            Option::None => true,
        }) && pat_wf(*sub),
        PatView::Class(rs) => rs.len() >= 1 && forall|i: int|
            0 <= i < rs.len() ==> {
                let lo = (#[trigger] rs[i]).0;
                let hi = rs[i].1;
                lo as u32 <= hi as u32 && !((lo as u32) < 0xD800 && (hi as u32) > 0xDFFF)
            },
        PatView::Group(sub) => pat_wf(*sub),
    }
}

/// A unicode scalar value: what a `char` may hold.
pub open spec fn valid_scalar(x: u32) -> bool {
    x < 0xD800 || (0xE000 <= x && x <= 0x10FFFF)
}

/// The character with code point `x` (meaningful when `valid_scalar(x)`).
pub open spec fn code_to_char(x: u32) -> char {
    x as char
}

/// The upper repetition bound actually used when sampling: a bounded
/// `max`, or the cap (never below `min`) when unbounded.
pub open spec fn rep_hi(min: u32, max: Option<u32>) -> u32 {
    match max {
        Option::Some(m) => if m >= min {
            m
        } else {
            min
        },
        Option::None => if min > REPEAT_CAP {
            min
        } else {
            REPEAT_CAP
        },
    }
}

/// The character sampled from an inclusive range with draw `off`:
/// `lo + off` when that is a scalar value, else `lo`.
pub open spec fn class_pick(lo: char, hi: char, off: u32) -> char {
    let code = (lo as u32 + off) as u32;
    if valid_scalar(code) {
        code_to_char(code)
    } else {
        lo
    }
}

/// Sampling a pattern: returns the drawn characters and the state of the
/// random source after the draw.
pub open spec fn spec_sample(p: PatView, s: u64) -> (Seq<char>, u64)
    decreases p, 0nat, 0nat,
{
    match p {
        PatView::Empty => (Seq::empty(), s),
        PatView::Literal(cs) => (cs, s),
        PatView::Concat(xs) => spec_sample_list(xs, 0, s),
        PatView::Alternation(xs) => {
            if xs.len() == 0 {
                (Seq::empty(), s)
            } else {
                let i = rng_out_below(s, xs.len() as u64) as int;
                spec_sample_at(xs, i, rng_step(s))
            }
        },
        PatView::Repetition { min, max, sub } => {
            let hi = rep_hi(min, max);
            let k = min + rng_out_below(s, (hi - min + 1) as u64);
            spec_sample_rep(*sub, k as nat, rng_step(s))
        },
        PatView::Class(rs) => {
            if rs.len() == 0 {
                (Seq::empty(), s)
            } else {
                let i = rng_out_below(s, rs.len() as u64) as int;
                let s1 = rng_step(s);
                let lo = rs[i].0;
                let hi = rs[i].1;
                let span = (hi as u32 - lo as u32 + 1) as u64;
                let off = rng_out_below(s1, span) as u32;
                (seq![class_pick(lo, hi, off)], rng_step(s1))
            }
        },
        PatView::Group(sub) => spec_sample(*sub, s),
    }
}

/// Sampling each element of `xs` from index `i` on, in order.
pub open spec fn spec_sample_list(xs: Seq<PatView>, i: int, s: u64) -> (Seq<char>, u64)
    decreases xs, 1nat, xs.len() - i,
{
    if i < 0 || i >= xs.len() {
        (Seq::empty(), s)
    } else {
        let (a, s1) = spec_sample(xs[i], s);
        let (b, s2) = spec_sample_list(xs, i + 1, s1);
        (a + b, s2)
    }
}

/// Sampling the element of `xs` at index `i`.
pub open spec fn spec_sample_at(xs: Seq<PatView>, i: int, s: u64) -> (Seq<char>, u64)
    decreases xs, 1nat, 0nat,
{
    if 0 <= i < xs.len() {
        spec_sample(xs[i], s)
    } else {
        (Seq::empty(), s)
    }
}

/// Sampling `k` repetitions of `sub`, concatenated.
pub open spec fn spec_sample_rep(sub: PatView, k: nat, s: u64) -> (Seq<char>, u64)
    decreases sub, 2nat, k,
{
    if k == 0 {
        (Seq::empty(), s)
    } else {
        let (a, s1) = spec_sample(sub, s);
        let (b, s2) = spec_sample_rep(sub, (k - 1) as nat, s1);
        (a + b, s2)
    }
}

/// Sampling with collision avoidance: while the sample equals one of the
/// grammar's literal terminals and tries remain, sample again.
pub open spec fn spec_pick(p: PatView, terms: Seq<Seq<char>>, s: u64, tries: nat) -> (
    Seq<char>,
    u64,
)
    decreases tries,
{
    let (out, s1) = spec_sample(p, s);
    if !terms.contains(out) || tries == 0 {
        (out, s1)
    } else {
        spec_pick(p, terms, s1, (tries - 1) as nat)
    }
}

/// Relies on char::from_u32 of std: it returns `Some` exactly for
/// unicode scalar values (code points outside the surrogate gap and at
/// most 0x10FFFF), and the returned character has the given code point.
#[verifier::external_body]
fn char_from_u32(x: u32) -> (r: Option<char>)
    ensures
        r is Some <==> valid_scalar(x),
        r matches Some(c) ==> c as u32 == x,
{
    char::from_u32(x)
}

/// Relies on String::push of std: it appends exactly the given
/// character.
#[verifier::external_body]
pub(crate) fn push_char(s: &mut String, c: char)
    ensures
        final(s)@ == old(s)@.push(c),
{
    s.push(c);
}

/// The ASCII digit character for a value below ten.
pub(crate) fn digit_char(d: u32) -> (r: Option<char>)
    requires
        d < 10,
    ensures
        r matches Some(c) && c as u32 == '0' as u32 + d && c == code_to_char(('0' as u32 + d) as u32),
{
    let r = char_from_u32('0' as u32 + d);
    match r {
        Option::Some(c) => {
            proof {
                vstd::utf8::char_u32_cast(c, ('0' as u32 + d) as u32);
            }
            Some(c)
        },
        Option::None => None,
    }
}

/// Builds the one-character string.
pub(crate) fn char_to_string(c: char) -> (r: String)
    ensures
        r@ =~= seq![c],
{
    let mut s = String::new();
    push_char(&mut s, c);
    s
}

/// Picks the character of an inclusive range selected by draw `off`.
fn pick_char(lo: char, hi: char, off: u32) -> (c: char)
    requires
        lo as u32 <= hi as u32,
        off <= hi as u32 - lo as u32,
    ensures
        c == class_pick(lo, hi, off),
{
    let code: u32 = lo as u32 + off;
    let r = char_from_u32(code);
    match r {
        Option::Some(c) => {
            proof {
                vstd::utf8::char_u32_cast(c, code);
            }
            c
        },
        Option::None => lo,
    }
}

/// Whether `s` equals one of the strings of `v`.
fn contains_string(v: &Vec<String>, s: &String) -> (r: bool)
    ensures
        r == v.deep_view().contains(s@),
{
    let mut j: usize = 0;
    while j < v.len()
        invariant
            j <= v@.len(),
            forall|k: int| 0 <= k < j ==> v.deep_view()[k] != s@,
        decreases v@.len() - j,
    {
        if v[j].eq(s) {
            proof {
                assert(v.deep_view()[j as int] == s@);
            }
            return true;
        }
        j = j + 1;
    }
    proof {
        assert(!v.deep_view().contains(s@));
    }
    false
}

/// Samples one string from a pattern, advancing the random source
/// exactly as `spec_sample` describes.
#[verifier::rlimit(100)]
fn sample_node(n: &PatNode, rng: &mut Rng) -> (r: String)
    requires
        pat_wf(n@),
    ensures
        r@ == spec_sample(n@, old(rng).state).0,
        final(rng).state == spec_sample(n@, old(rng).state).1,
    decreases n, 0nat,
{
    match n {
        PatNode::Empty => String::new(),
        PatNode::Literal(s) => s.clone(),
        PatNode::Concat(xs) => {
            proof {
                lemma_pat_views(xs@);
                assert(n@ == PatView::Concat(pat_views(xs@)));
                assert(pat_wf(PatView::Concat(pat_views(xs@))));
                assert forall|k: int| 0 <= k < xs@.len() implies pat_wf(
                    (#[trigger] xs@[k])@,
                ) by {
                    assert(pat_views(xs@)[k] == pat_view(xs@[k]));
                    assert(pat_wf((n@->Concat_0)[k]));
                }
                assert(decreases_to!(*n => *xs));
                assert(decreases_to!(*xs => xs@));
            }
            sample_list(xs, rng)
        },
        PatNode::Alternation(xs) => {
            let ghost s0 = rng.state;
            let ghost vs = pat_views(xs@);
            proof {
                lemma_pat_views(xs@);
                assert(n@ == PatView::Alternation(vs));
                assert(pat_wf(PatView::Alternation(vs)));
            }
            let idx = rng.below_idx(xs.len());
            proof {
                assert(decreases_to!(*n => *xs));
                assert(decreases_to!(*xs => xs@));
                assert(pat_wf(vs[idx as int]));
            }
            let out = sample_node(&xs[idx], rng);
            proof {
                assert(spec_sample_at(vs, idx as int, rng_step(s0)) == spec_sample(
                    vs[idx as int],
                    rng_step(s0),
                ));
            }
            out
        },
        PatNode::Repetition { min, max, sub } => {
            let ghost s0 = rng.state;
            let hi: u32 = match max {
                Option::Some(m) => if *m >= *min {
                    *m
                } else {
                    *min
                },
                Option::None => if *min > REPEAT_CAP {
                    *min
                } else {
                    REPEAT_CAP
                },
            };
            proof {
                assert(hi == rep_hi(*min, *max));
                assert(hi >= *min);
            }
            let bound: u64 = hi as u64 - *min as u64 + 1;
            let draw = rng.below(bound);
            proof {
                assert(draw <= hi - *min);
            }
            let k: u32 = *min + (draw as u32);
            proof {
                assert(decreases_to!(*n => **sub));
            }
            sample_rep(&**sub, k, rng)
        },
        PatNode::Class(rs) => sample_class(rs, rng),
        PatNode::Group(sub) => {
            proof {
                assert(decreases_to!(*n => **sub));
            }
            sample_node(&**sub, rng)
        },
    }
}

/// Samples one character from a class: picks a range uniformly, then a
/// code point uniformly within it.
fn sample_class(rs: &Vec<(char, char)>, rng: &mut Rng) -> (r: String)
    requires
        pat_wf(PatView::Class(rs@)),
    ensures
        r@ == spec_sample(PatView::Class(rs@), old(rng).state).0,
        final(rng).state == spec_sample(PatView::Class(rs@), old(rng).state).1,
{
    let ghost s0 = rng.state;
    proof {
        assert(rs@.len() >= 1 && forall|i: int|
            0 <= i < rs@.len() ==> (#[trigger] rs@[i]).0 as u32 <= rs@[i].1 as u32);
    }
    let idx = rng.below_idx(rs.len());
    let (lo, hi) = rs[idx];
    proof {
        assert(rs@[idx as int].0 as u32 <= rs@[idx as int].1 as u32);
        vstd::utf8::char_is_scalar(hi);
        assert(hi as u32 <= 0x10FFFF);
    }
    let span: u32 = hi as u32 - lo as u32 + 1;
    let off64 = rng.below(span as u64);
    let off: u32 = off64 as u32;
    let c = pick_char(lo, hi, off);
    proof {
        assert(Seq::<char>::empty().push(c) =~= seq![c]);
    }
    char_to_string(c)
}

/// Samples each node of `xs` in order and concatenates the results.
fn sample_list(xs: &Vec<PatNode>, rng: &mut Rng) -> (r: String)
    requires
        forall|k: int| 0 <= k < xs@.len() ==> pat_wf((#[trigger] xs@[k])@),
    ensures
        r@ == spec_sample_list(pat_views(xs@), 0, old(rng).state).0,
        final(rng).state == spec_sample_list(pat_views(xs@), 0, old(rng).state).1,
    decreases xs@, 1nat,
{
    let ghost s0 = rng.state;
    let ghost vs = pat_views(xs@);
    proof {
        lemma_pat_views(xs@);
    }
    let mut acc = String::new();
    let mut i: usize = 0;
    while i < xs.len()
        invariant
            forall|k: int| 0 <= k < xs@.len() ==> pat_wf((#[trigger] xs@[k])@),
            vs == pat_views(xs@),
            vs.len() == xs@.len(),
            forall|k: int| 0 <= k < xs@.len() ==> vs[k] == pat_view(#[trigger] xs@[k]),
            i <= xs@.len(),
            spec_sample_list(vs, 0, s0).0 =~= acc@ + spec_sample_list(vs, i as int, rng.state).0,
            spec_sample_list(vs, 0, s0).1 == spec_sample_list(vs, i as int, rng.state).1,
        decreases xs@.len() - i,
    {
        let ghost st = rng.state;
        proof {
            assert(vs[i as int] == pat_view(xs@[i as int]));
            assert(pat_wf(vs[i as int]));
        }
        let piece = sample_node(&xs[i], rng);
        proof {
            let (a, s1) = spec_sample(vs[i as int], st);
            let (b, s2) = spec_sample_list(vs, i as int + 1, s1);
            assert(spec_sample_list(vs, i as int, st) == ((a + b), s2));
            assert((acc@ + a) + b =~= acc@ + (a + b));
        }
        acc.append(piece.as_str());
        i = i + 1;
    }
    proof {
        assert(spec_sample_list(vs, xs@.len() as int, rng.state) == (
            Seq::<char>::empty(),
            rng.state,
        ));
        assert(acc@ + Seq::<char>::empty() =~= acc@);
    }
    acc
}

/// Samples `k` repetitions of `sub` and concatenates the results.
fn sample_rep(sub: &PatNode, k: u32, rng: &mut Rng) -> (r: String)
    requires
        pat_wf(sub@),
    ensures
        r@ == spec_sample_rep(sub@, k as nat, old(rng).state).0,
        final(rng).state == spec_sample_rep(sub@, k as nat, old(rng).state).1,
    decreases sub, 1nat,
{
    let ghost s1 = rng.state;
    let ghost subv = sub@;
    let mut acc = String::new();
    let mut j: u32 = 0;
    while j < k
        invariant
            pat_wf(subv),
            subv == sub@,
            j <= k,
            spec_sample_rep(subv, k as nat, s1).0 =~= acc@ + spec_sample_rep(
                subv,
                (k - j) as nat,
                rng.state,
            ).0,
            spec_sample_rep(subv, k as nat, s1).1 == spec_sample_rep(
                subv,
                (k - j) as nat,
                rng.state,
            ).1,
        decreases k - j,
    {
        let ghost st = rng.state;
        let piece = sample_node(sub, rng);
        proof {
            let (a, sa) = spec_sample(subv, st);
            let (b, sb) = spec_sample_rep(subv, (k - j - 1) as nat, sa);
            assert(spec_sample_rep(subv, (k - j) as nat, st) == ((a + b), sb));
            assert((acc@ + a) + b =~= acc@ + (a + b));
        }
        acc.append(piece.as_str());
        j = j + 1;
    }
    proof {
        assert(spec_sample_rep(subv, 0nat, rng.state) == (Seq::<char>::empty(), rng.state));
        assert(acc@ + Seq::<char>::empty() =~= acc@);
    }
    acc
}


/// The terminal synthesized from a compiled pattern.
///
/// Holds the original pattern text (used when the grammar is printed
/// back to its surface syntax, and as the content identity of the
/// pattern) together with the compiled operator tree.
#[derive(Debug)]
pub struct Regex {
    pub source: String,
    pub node: PatNode,
}

/// Mathematical model of a pattern symbol: its text and its tree.
pub struct RegexView {
    pub source: Seq<char>,
    pub node: PatView,
}

impl View for Regex {
    type V = RegexView;

    open spec fn view(&self) -> RegexView {
        RegexView { source: self.source@, node: self.node@ }
    }
}

impl Clone for Regex {
    /// A structural copy; the copy has the same mathematical model.
    fn clone(&self) -> (r: Self)
        ensures
            r@.source == self@.source,
            r@.node == self@.node,
    {
        Regex { source: self.source.clone(), node: self.node.clone() }
    }
}

impl Regex {
    /// Compiles a pattern literal; `l..r` is the span of the literal in
    /// the grammar text. It succeeds exactly when the text is a pattern
    /// of the supported dialect, and the compiled tree is then exactly
    /// what `spec_pattern` denotes; otherwise the error carries the
    /// literal's span.
    pub fn spanned(input: &str, l: usize, r: usize) -> (res: crate::error::Result<Regex>)
        ensures
            match spec_pattern(input@) {
                Option::Some(n) => res matches Ok(re) && re@.node == n && re@.source == input@
                    && pat_wf(n),
                Option::None => res matches Err(e) && e == (Error::InvalidRegex {
                    span: Span { start: l, end: r },
                }),
            },
    {
        let chars = str_to_chars(input);
        match parse_pattern(&chars) {
            Option::Some(node) => Ok(Regex { source: input.to_owned(), node }),
            Option::None => Err(Error::InvalidRegex { span: Span::new(l, r) }),
        }
    }

    /// Synthesizes a terminal from the pattern: samples the tree, and
    /// while the sample collides with one of `terminals` (the grammar's
    /// literal terminals) draws again, a bounded number of times.
    pub fn generate(&self, rng: &mut Rng, terminals: &Vec<String>) -> (r: String)
        requires
            pat_wf(self@.node),
        ensures
            r@ == spec_pick(
                self@.node,
                terminals.deep_view(),
                old(rng).state,
                RESAMPLE_TRIES as nat,
            ).0,
            final(rng).state == spec_pick(
                self@.node,
                terminals.deep_view(),
                old(rng).state,
                RESAMPLE_TRIES as nat,
            ).1,
    {
        let ghost s0 = rng.state;
        let ghost nv = self@.node;
        let ghost tv = terminals.deep_view();
        let mut out = sample_node(&self.node, rng);
        let mut tries: usize = RESAMPLE_TRIES;
        let mut collide = contains_string(terminals, &out);
        while collide && tries > 0
            invariant
                pat_wf(nv),
                nv == self@.node,
                tv == terminals.deep_view(),
                collide == tv.contains(out@),
                spec_pick(nv, tv, s0, RESAMPLE_TRIES as nat) == (if !tv.contains(out@) || tries
                    == 0 {
                    (out@, rng.state)
                } else {
                    spec_pick(nv, tv, rng.state, (tries - 1) as nat)
                }),
            decreases tries,
        {
            let ghost st = rng.state;
            out = sample_node(&self.node, rng);
            tries = tries - 1;
            collide = contains_string(terminals, &out);
        }
        out
    }
}

/// The tree a list of concatenated items denotes: nothing, the single
/// item, or the concatenation.
pub open spec fn sp_concat_node(items: Seq<PatView>) -> PatView {
    if items.len() == 0 {
        PatView::Empty
    } else if items.len() == 1 {
        items[0]
    } else {
        PatView::Concat(items)
    }
}

/// An ASCII decimal digit.
pub open spec fn sp_digit(c: char) -> bool {
    '0' <= c && c <= '9'
}

/// The end of the digit run starting at `i`.
pub open spec fn sp_digits_end(s: Seq<char>, i: int) -> int
    decreases s.len() - i,
{
    if i < 0 || i >= s.len() || !sp_digit(s[i]) {
        i
    } else {
        sp_digits_end(s, i + 1)
    }
}

/// A digit run stays within the input, moves forward over digits, and
/// holds digits only.
pub proof fn lemma_sp_digits_end(s: Seq<char>, i: int)
    requires
        0 <= i <= s.len(),
    ensures
        i <= sp_digits_end(s, i) <= s.len(),
        forall|k: int| i <= k < sp_digits_end(s, i) ==> sp_digit(s[k]),
    decreases s.len() - i,
{
    if i < s.len() && sp_digit(s[i]) {
        lemma_sp_digits_end(s, i + 1);
    }
}

/// The counted-repetition number starting at `pos`: its value and the
/// position after its digits, or `None` when there is no digit or the
/// value overflows.
pub open spec fn sp_number(s: Seq<char>, pos: int) -> Option<(u32, int)> {
    if 0 <= pos < s.len() && sp_digit(s[pos]) {
        let e = sp_digits_end(s, pos);
        if crate::lexer::dig_val(s, pos, e) <= u32::MAX {
            Option::Some((crate::lexer::dig_val(s, pos, e) as u32, e))
        } else {
            Option::None
        }
    } else {
        Option::None
    }
}

/// The one range `[lo, hi]`, split in two when it would span the
/// surrogate gap, so that every code point of every range is a scalar
/// value.
pub open spec fn sp_gap_split(lo: char, hi: char) -> Seq<(char, char)> {
    if (lo as u32) < 0xD800 && (hi as u32) > 0xDFFF {
        seq![(lo, '\u{D7FF}'), ('\u{E000}', hi)]
    } else {
        seq![(lo, hi)]
    }
}

/// The character a class escape denotes, if the escape is supported.
pub open spec fn sp_class_escape(e: char) -> Option<char> {
    if e == 'n' {
        Option::Some('\n')
    } else if e == 't' {
        Option::Some('\t')
    } else if e == 'r' {
        Option::Some('\r')
    } else if e == '\\' || e == ']' || e == '[' || e == '-' || e == '^' || e == '.' || e == '*'
        || e == '+' || e == '?' || e == '(' || e == ')' || e == '{' || e == '}' || e == '|' || e
        == '"' || e == '/' || e == '$' {
        Option::Some(e)
    } else {
        Option::None
    }
}

/// The ranges of `.`: every scalar value except the line feed.
pub open spec fn sp_dot() -> Seq<(char, char)> {
    seq![('\u{0}', '\u{9}'), ('\u{B}', '\u{D7FF}'), ('\u{E000}', '\u{10FFFF}')]
}

/// The atom an escape sequence `\c` denotes, if the escape is
/// supported.
pub open spec fn sp_escape_atom(e: char) -> Option<PatView> {
    if e == 'n' {
        Option::Some(PatView::Literal(seq!['\n']))
    } else if e == 't' {
        Option::Some(PatView::Literal(seq!['\t']))
    } else if e == 'r' {
        Option::Some(PatView::Literal(seq!['\r']))
    } else if e == 'd' {
        Option::Some(PatView::Class(seq![('0', '9')]))
    } else if e == 'w' {
        Option::Some(PatView::Class(seq![('0', '9'), ('A', 'Z'), ('_', '_'), ('a', 'z')]))
    } else if e == 's' {
        Option::Some(PatView::Class(seq![('\t', '\n'), ('\r', '\r'), (' ', ' ')]))
    } else if e == '\\' || e == '.' || e == '*' || e == '+' || e == '?' || e == '(' || e == ')'
        || e == '[' || e == ']' || e == '{' || e == '}' || e == '|' || e == '-' || e == '^' || e
        == '$' || e == '"' || e == '/' {
        Option::Some(PatView::Literal(seq![e]))
    } else {
        Option::None
    }
}

/// What remains of the range `iv` after taking the range `r` out of
/// it: up to two pieces, both within `iv`.
pub open spec fn sp_subtract(iv: (char, char), r: (char, char)) -> Seq<(char, char)> {
    if (r.1 as u32) < (iv.0 as u32) || (r.0 as u32) > (iv.1 as u32) {
        seq![iv]
    } else {
        (if (iv.0 as u32) < (r.0 as u32) {
            seq![(iv.0, code_to_char((r.0 as u32 - 1) as u32))]
        } else {
            Seq::empty()
        }) + (if (r.1 as u32) < (iv.1 as u32) {
            seq![(code_to_char((r.1 as u32 + 1) as u32), iv.1)]
        } else {
            Seq::empty()
        })
    }
}

/// What remains of the ranges `uncovered`, from index `i` on, after
/// taking `r` out of each.
pub open spec fn sp_sub_list(uncovered: Seq<(char, char)>, r: (char, char), i: int) -> Seq<
    (char, char),
>
    decreases uncovered.len() - i,
{
    if i < 0 || i >= uncovered.len() {
        Seq::empty()
    } else {
        sp_subtract(uncovered[i], r) + sp_sub_list(uncovered, r, i + 1)
    }
}

/// Every scalar value outside the gap, as two ranges.
pub open spec fn sp_all_scalars() -> Seq<(char, char)> {
    seq![('\u{0}', '\u{D7FF}'), ('\u{E000}', '\u{10FFFF}')]
}

/// The complement of the union of `items`, from index `i` on, within
/// `uncovered`.
pub open spec fn sp_complement(
    items: Seq<(char, char)>,
    i: int,
    uncovered: Seq<(char, char)>,
) -> Seq<(char, char)>
    decreases items.len() - i,
{
    if i < 0 || i >= items.len() {
        uncovered
    } else {
        sp_complement(items, i + 1, sp_sub_list(uncovered, items[i], 0))
    }
}

/// The class body from `pos` (just after `[` or a previous item), with
/// the ranges collected so far: the class and the position after `]`,
/// or `None` when the class is unterminated, empty (also after
/// negation), or holds an unsupported escape or a backwards range. A
/// leading `^` negates: the class denotes every scalar value outside
/// the listed ranges.
pub open spec fn sp_class(s: Seq<char>, pos: int, acc: Seq<(char, char)>, neg: bool) -> Option<
    (PatView, int),
>
    decreases s.len() - pos,
{
    if pos < 0 || pos >= s.len() {
        Option::None
    } else if s[pos] == ']' {
        if acc.len() == 0 {
            Option::None
        } else if neg {
            let comp = sp_complement(acc, 0, sp_all_scalars());
            if comp.len() == 0 {
                Option::None
            } else {
                Option::Some((PatView::Class(comp), pos + 1))
            }
        } else {
            Option::Some((PatView::Class(acc), pos + 1))
        }
    } else if s[pos] == '^' && acc.len() == 0 && !neg {
        sp_class(s, pos + 1, acc, true)
    } else {
        let first = if s[pos] == '\\' {
            if pos + 1 < s.len() {
                match sp_class_escape(s[pos + 1]) {
                    Option::Some(c) => Option::Some((c, pos + 2)),
                    Option::None => Option::None,
                }
            } else {
                Option::None
            }
        } else {
            Option::Some((s[pos], pos + 1))
        };
        match first {
            Option::None => Option::None,
            Option::Some((lo, p1)) => {
                if p1 < s.len() && p1 + 1 < s.len() && s[p1] == '-' && s[p1 + 1] != ']' {
                    let second = if s[p1 + 1] == '\\' {
                        if p1 + 2 < s.len() {
                            match sp_class_escape(s[p1 + 2]) {
                                Option::Some(c) => Option::Some((c, p1 + 3)),
                                Option::None => Option::None,
                            }
                        } else {
                            Option::None
                        }
                    } else {
                        Option::Some((s[p1 + 1], p1 + 2))
                    };
                    match second {
                        Option::None => Option::None,
                        Option::Some((hi, p2)) => {
                            if lo as u32 <= hi as u32 {
                                sp_class(s, p2, acc + sp_gap_split(lo, hi), neg)
                            } else {
                                Option::None
                            }
                        },
                    }
                } else {
                    sp_class(s, p1, acc + sp_gap_split(lo, lo), neg)
                }
            },
        }
    }
}

/// The postfix repetition operators applied to `n` from `pos` on: the
/// wrapped tree and the position after the last operator (a `{` that
/// starts no counted repetition stops the run and is left for the
/// caller).
pub open spec fn sp_pops(s: Seq<char>, pos: int, n: PatView) -> Option<(PatView, int)>
    decreases s.len() - pos,
{
    if pos < 0 || pos > s.len() {
        Option::None
    } else if pos >= s.len() || !(s[pos] == '*' || s[pos] == '+' || s[pos] == '?' || s[pos]
        == '{') {
        Option::Some((n, pos))
    } else if s[pos] == '*' {
        sp_pops(s, pos + 1, PatView::Repetition { min: 0, max: Option::None, sub: Box::new(n) })
    } else if s[pos] == '+' {
        sp_pops(s, pos + 1, PatView::Repetition { min: 1, max: Option::None, sub: Box::new(n) })
    } else if s[pos] == '?' {
        sp_pops(s, pos + 1, PatView::Repetition { min: 0, max: Option::Some(1), sub: Box::new(n) })
    } else {
        // s[pos] == '{'
        if pos + 1 < s.len() && sp_digit(s[pos + 1]) {
            match sp_number(s, pos + 1) {
                Option::None => Option::None,
                Option::Some((lo, p1)) => {
                    if !(pos + 1 < p1 <= s.len()) {
                        Option::None
                    } else if p1 < s.len() && s[p1] == '}' {
                        sp_pops(
                            s,
                            p1 + 1,
                            PatView::Repetition { min: lo, max: Option::Some(lo), sub: Box::new(n) },
                        )
                    } else if p1 < s.len() && s[p1] == ',' {
                        if p1 + 1 < s.len() && s[p1 + 1] == '}' {
                            sp_pops(
                                s,
                                p1 + 2,
                                PatView::Repetition { min: lo, max: Option::None, sub: Box::new(n) },
                            )
                        } else if p1 + 1 < s.len() && sp_digit(s[p1 + 1]) {
                            match sp_number(s, p1 + 1) {
                                Option::None => Option::None,
                                Option::Some((hi, p2)) => {
                                    if !(p1 + 1 < p2 <= s.len()) {
                                        Option::None
                                    } else if p2 < s.len() && s[p2] == '}' && lo <= hi {
                                        sp_pops(
                                            s,
                                            p2 + 1,
                                            PatView::Repetition {
                                                min: lo,
                                                max: Option::Some(hi),
                                                sub: Box::new(n),
                                            },
                                        )
                                    } else {
                                        Option::None
                                    }
                                },
                            }
                        } else {
                            Option::None
                        }
                    } else {
                        Option::None
                    }
                },
            }
        } else {
            Option::Some((n, pos))
        }
    }
}

/// One atom from `pos`: a group, a class, `.`, an escape, or a plain
/// character; anchors, the operators and a stray `]` start no atom.
/// A class may be negated with a leading `^`.
pub open spec fn sp_atom(s: Seq<char>, pos: int) -> Option<(PatView, int)>
    decreases s.len() - pos, 0int,
{
    if pos < 0 || pos >= s.len() {
        Option::None
    } else if s[pos] == '(' {
        match sp_alt(s, pos + 1) {
            Option::None => Option::None,
            Option::Some((inner, p)) => {
                if 0 <= p < s.len() && s[p] == ')' {
                    Option::Some((PatView::Group(Box::new(inner)), p + 1))
                } else {
                    Option::None
                }
            },
        }
    } else if s[pos] == '[' {
        sp_class(s, pos + 1, Seq::empty(), false)
    } else if s[pos] == '\\' {
        if pos + 1 < s.len() {
            match sp_escape_atom(s[pos + 1]) {
                Option::None => Option::None,
                Option::Some(n) => Option::Some((n, pos + 2)),
            }
        } else {
            Option::None
        }
    } else if s[pos] == '.' {
        Option::Some((PatView::Class(sp_dot()), pos + 1))
    } else if s[pos] == '|' || s[pos] == ')' || s[pos] == '*' || s[pos] == '+' || s[pos] == '?'
        || s[pos] == '^' || s[pos] == '$' || s[pos] == ']' {
        Option::None
    } else {
        Option::Some((PatView::Literal(seq![s[pos]]), pos + 1))
    }
}

/// One atom with its postfix operators.
pub open spec fn sp_postfix(s: Seq<char>, pos: int) -> Option<(PatView, int)>
    decreases s.len() - pos, 1int,
{
    match sp_atom(s, pos) {
        Option::None => Option::None,
        Option::Some((n, p)) => {
            if pos < p <= s.len() {
                sp_pops(s, p, n)
            } else {
                Option::None
            }
        },
    }
}

/// The items of one concatenation from `pos` on, appended to `acc`;
/// a `|`, a `)` or the end of input ends the run.
pub open spec fn sp_citems(s: Seq<char>, pos: int, acc: Seq<PatView>) -> Option<
    (Seq<PatView>, int),
>
    decreases s.len() - pos, 2int,
{
    if pos < 0 || pos > s.len() {
        Option::None
    } else if pos >= s.len() || s[pos] == '|' || s[pos] == ')' {
        Option::Some((acc, pos))
    } else {
        match sp_postfix(s, pos) {
            Option::None => Option::None,
            Option::Some((n, p)) => {
                if pos < p <= s.len() {
                    sp_citems(s, p, acc.push(n))
                } else {
                    Option::None
                }
            },
        }
    }
}

/// The remaining `| concat` arms, appended to `acc`.
pub open spec fn sp_bar(s: Seq<char>, pos: int, acc: Seq<PatView>) -> Option<(PatView, int)>
    decreases s.len() - pos, 3int,
{
    if pos < 0 || pos > s.len() {
        Option::None
    } else if pos >= s.len() || s[pos] != '|' {
        Option::Some((PatView::Alternation(acc), pos))
    } else {
        match sp_citems(s, pos + 1, Seq::empty()) {
            Option::None => Option::None,
            Option::Some((items, p2)) => {
                if pos < p2 <= s.len() {
                    sp_bar(s, p2, acc.push(sp_concat_node(items)))
                } else {
                    Option::None
                }
            },
        }
    }
}

/// An alternation `concat ('|' concat)*` from `pos`.
pub open spec fn sp_alt(s: Seq<char>, pos: int) -> Option<(PatView, int)>
    decreases s.len() - pos, 4int,
{
    match sp_citems(s, pos, Seq::empty()) {
        Option::None => Option::None,
        Option::Some((items, p)) => {
            if !(pos <= p <= s.len()) {
                Option::None
            } else if p < s.len() && s[p] == '|' {
                sp_bar(s, p, seq![sp_concat_node(items)])
            } else {
                Option::Some((sp_concat_node(items), p))
            }
        },
    }
}

/// The compilation function: the tree that pattern text denotes, or
/// `None` when the text is not a pattern of the supported dialect.
pub open spec fn spec_pattern(s: Seq<char>) -> Option<PatView> {
    match sp_alt(s, 0) {
        Option::None => Option::None,
        Option::Some((n, p)) => {
            if p == s.len() {
                Option::Some(n)
            } else {
                Option::None
            }
        },
    }
}

/// Compiles pattern text into a tree: exactly the tree that
/// `spec_pattern` denotes, or `None` when the text is outside the
/// supported dialect. Alternation of concatenations of postfix-repeated
/// atoms; atoms are plain or escaped characters, `.`, character classes
/// (plain or negated) and parenthesized groups. Anchors and
/// look-around are unsupported and rejected.
fn parse_pattern(src: &Vec<char>) -> (r: Option<PatNode>)
    ensures
        match spec_pattern(src@) {
            Option::Some(n) => r matches Some(node) && node@ == n && pat_wf(n),
            Option::None => r is None,
        },
{
    match p_alt(src, 0) {
        Option::Some((node, p)) => {
            if p == src.len() {
                Some(node)
            } else {
                None
            }
        },
        Option::None => None,
    }
}

/// Parses an alternation `concat ('|' concat)*`.
fn p_alt(src: &Vec<char>, pos: usize) -> (r: Option<(PatNode, usize)>)
    requires
        pos <= src@.len(),
    ensures
        r matches Some((node, p)) ==> pos <= p <= src@.len() && pat_wf(node@),
        (match sp_alt(src@, pos as int) {
            Option::Some(v) => r matches Some(x) && x.0@ == v.0 && x.1 as int == v.1,
            Option::None => r is None,
        }),
    decreases src@.len() - pos, 3int,
{
    let ghost s = src@;
    let first_parse = p_concat(src, pos);
    match first_parse {
        Option::None => {
            return None;
        },
        Option::Some((first, p0)) => {
            let mut p = p0;
            if p < src.len() && src[p] == '|' {
                let mut items: Vec<PatNode> = Vec::new();
                items.push(first);
                proof {
                    lemma_pat_views(items@);
                    assert(pat_views(items@) =~= seq![items@[0]@]);
                    assert(sp_alt(s, pos as int) == sp_bar(s, p as int, pat_views(items@)));
                }
                while p < src.len() && src[p] == '|'
                    invariant
                        s == src@,
                        pos <= p <= s.len(),
                        items@.len() >= 1,
                        forall|k: int| 0 <= k < items@.len() ==> pat_wf((#[trigger] items@[k])@),
                        sp_alt(s, pos as int) == sp_bar(s, p as int, pat_views(items@)),
                    decreases src@.len() - p,
                {
                    let ghost pv = pat_views(items@);
                    let next_parse = p_concat(src, p + 1);
                    match next_parse {
                        Option::None => {
                            proof {
                                assert(sp_bar(s, p as int, pv) is None);
                            }
                            return None;
                        },
                        Option::Some((next, p2)) => {
                            proof {
                                assert(items@.push(next).drop_last() =~= items@);
                                assert(items@.push(next).last() == next);
                                assert(pat_views(items@.push(next)) == pat_views(items@).push(
                                    next@,
                                ));
                            }
                            items.push(next);
                            p = p2;
                        },
                    }
                }
                proof {
                    assert(sp_bar(s, p as int, pat_views(items@)) == Option::Some(
                        (PatView::Alternation(pat_views(items@)), p as int),
                    ));
                    lemma_pat_views(items@);
                    assert forall|k: int| 0 <= k < pat_views(items@).len() implies pat_wf(
                        #[trigger] pat_views(items@)[k],
                    ) by {
                        assert(pat_views(items@)[k] == pat_view(items@[k]));
                        assert(pat_wf((items@[k])@));
                    }
                }
                let node = PatNode::Alternation(items);
                Some((node, p))
            } else {
                Some((first, p))
            }
        },
    }
}

/// Parses a concatenation of postfix-repeated atoms; may be empty.
fn p_concat(src: &Vec<char>, pos: usize) -> (r: Option<(PatNode, usize)>)
    requires
        pos <= src@.len(),
    ensures
        r matches Some((node, p)) ==> pos <= p <= src@.len() && pat_wf(node@),
        (match sp_citems(src@, pos as int, Seq::empty()) {
            Option::Some(v) => r matches Some(x) && x.0@ == sp_concat_node(v.0) && x.1 as int
                == v.1,
            Option::None => r is None,
        }),
    decreases src@.len() - pos, 2int,
{
    let ghost s = src@;
    let mut items: Vec<PatNode> = Vec::new();
    let mut p = pos;
    proof {
        assert(pat_views(items@) =~= Seq::<PatView>::empty());
    }
    while p < src.len() && src[p] != '|' && src[p] != ')'
        invariant
            s == src@,
            pos <= p <= s.len(),
            forall|k: int| 0 <= k < items@.len() ==> pat_wf((#[trigger] items@[k])@),
            sp_citems(s, pos as int, Seq::empty()) == sp_citems(s, p as int, pat_views(items@)),
        decreases src@.len() - p,
    {
        let ghost pv = pat_views(items@);
        let item_parse = p_postfix(src, p);
        match item_parse {
            Option::None => {
                proof {
                    assert(sp_citems(s, p as int, pv) is None);
                }
                return None;
            },
            Option::Some((item, p2)) => {
                proof {
                    assert(items@.push(item).drop_last() =~= items@);
                    assert(items@.push(item).last() == item);
                    assert(pat_views(items@.push(item)) == pat_views(items@).push(item@));
                }
                items.push(item);
                p = p2;
            },
        }
    }
    proof {
        assert(sp_citems(s, p as int, pat_views(items@)) == Option::Some(
            (pat_views(items@), p as int),
        ));
    }
    if items.len() == 0 {
        proof {
            assert(pat_views(items@) =~= Seq::<PatView>::empty());
        }
        Some((PatNode::Empty, p))
    } else if items.len() == 1 {
        proof {
            lemma_pat_views(items@);
        }
        match items.pop() {
            Option::Some(single) => Some((single, p)),
            Option::None => None,
        }
    } else {
        proof {
            lemma_pat_views(items@);
            assert forall|k: int| 0 <= k < pat_views(items@).len() implies pat_wf(
                #[trigger] pat_views(items@)[k],
            ) by {
                assert(pat_views(items@)[k] == pat_view(items@[k]));
                assert(pat_wf((items@[k])@));
            }
        }
        let node = PatNode::Concat(items);
        Some((node, p))
    }
}

/// Parses one atom and any postfix repetition operators on it.
fn p_postfix(src: &Vec<char>, pos: usize) -> (r: Option<(PatNode, usize)>)
    requires
        pos <= src@.len(),
    ensures
        r matches Some((node, p)) ==> pos < p <= src@.len() && pat_wf(node@),
        (match sp_postfix(src@, pos as int) {
            Option::Some(v) => r matches Some(x) && x.0@ == v.0 && x.1 as int == v.1,
            Option::None => r is None,
        }),
    decreases src@.len() - pos, 1int,
{
    let atom_parse = p_atom(src, pos);
    match atom_parse {
        Option::None => None,
        Option::Some((atom, p0)) => p_ops(src, p0, atom, Ghost(pos as int)),
    }
}

/// Applies the postfix operators from `p` on to the already-parsed
/// `node`.
fn p_ops(src: &Vec<char>, p: usize, node: PatNode, Ghost(start): Ghost<int>) -> (r: Option<
    (PatNode, usize),
>)
    requires
        start < p <= src@.len(),
        pat_wf(node@),
    ensures
        r matches Some((n2, p2)) ==> start < p2 <= src@.len() && pat_wf(n2@),
        (match sp_pops(src@, p as int, node@) {
            Option::Some(v) => r matches Some(x) && x.0@ == v.0 && x.1 as int == v.1,
            Option::None => r is None,
        }),
    decreases src@.len() - p,
{
    let ghost s = src@;
    let n = src.len();
    if p >= n {
        return Some((node, p));
    }
    let c = src[p];
    if !(c == '*' || c == '+' || c == '?' || c == '{') {
        return Some((node, p));
    }
    if c == '*' {
        let wrapped = PatNode::Repetition { min: 0, max: None, sub: Box::new(node) };
        return p_ops(src, p + 1, wrapped, Ghost(start));
    }
    if c == '+' {
        let wrapped = PatNode::Repetition { min: 1, max: None, sub: Box::new(node) };
        return p_ops(src, p + 1, wrapped, Ghost(start));
    }
    if c == '?' {
        let wrapped = PatNode::Repetition { min: 0, max: Some(1), sub: Box::new(node) };
        return p_ops(src, p + 1, wrapped, Ghost(start));
    }
    // c == '{'
    if !(p + 1 < n && is_digit(src[p + 1])) {
        // a bare `{` is a literal atom, handled by the caller
        return Some((node, p));
    }
    let number_parse = p_number(src, p + 1);
    match number_parse {
        Option::None => None,
        Option::Some((lo_n, p1)) => {
            if p1 < n && src[p1] == '}' {
                let wrapped = PatNode::Repetition {
                    min: lo_n,
                    max: Some(lo_n),
                    sub: Box::new(node),
                };
                p_ops(src, p1 + 1, wrapped, Ghost(start))
            } else if p1 < n && src[p1] == ',' {
                if p1 + 1 < n && src[p1 + 1] == '}' {
                    let wrapped = PatNode::Repetition { min: lo_n, max: None, sub: Box::new(node) };
                    p_ops(src, p1 + 2, wrapped, Ghost(start))
                } else if p1 + 1 < n && is_digit(src[p1 + 1]) {
                    let hi_parse = p_number(src, p1 + 1);
                    match hi_parse {
                        Option::None => None,
                        Option::Some((hi_n, p2)) => {
                            if p2 < n && src[p2] == '}' && lo_n <= hi_n {
                                let wrapped = PatNode::Repetition {
                                    min: lo_n,
                                    max: Some(hi_n),
                                    sub: Box::new(node),
                                };
                                p_ops(src, p2 + 1, wrapped, Ghost(start))
                            } else {
                                None
                            }
                        },
                    }
                } else {
                    None
                }
            } else {
                None
            }
        },
    }
}

/// Whether `c` is an ASCII decimal digit.
fn is_digit(c: char) -> (r: bool)
    ensures
        r == sp_digit(c),
{
    '0' <= c && c <= '9'
}

/// Parses a run of decimal digits as a bounded repetition count;
/// `None` when there is no digit or the value overflows.
fn p_number(src: &Vec<char>, pos: usize) -> (r: Option<(u32, usize)>)
    requires
        pos <= src@.len(),
    ensures
        r matches Some((_, p)) ==> pos < p <= src@.len(),
        (match sp_number(src@, pos as int) {
            Option::Some(v) => r matches Some(x) && x.0 == v.0 && x.1 as int == v.1,
            Option::None => r is None,
        }),
    decreases src@.len() - pos,
{
    let ghost s = src@;
    if !(pos < src.len() && is_digit(src[pos])) {
        return None;
    }
    proof {
        lemma_sp_digits_end(s, pos as int);
    }
    let ghost e = sp_digits_end(s, pos as int);
    let mut acc: u32 = 0;
    let mut p = pos;
    while p < src.len() && is_digit(src[p])
        invariant
            s == src@,
            pos <= p <= s.len(),
            p <= e <= s.len(),
            sp_digits_end(s, pos as int) == e,
            sp_digits_end(s, p as int) == e,
            forall|k: int| pos <= k < e ==> sp_digit(s[k]),
            acc == crate::lexer::dig_val(s, pos as int, p as int),
        decreases src@.len() - p,
    {
        let d: u32 = (src[p] as u32) - ('0' as u32);
        proof {
            assert(sp_digit(s[p as int]));
            assert(sp_digits_end(s, p as int) == sp_digits_end(s, p as int + 1));
            lemma_sp_digits_end(s, p as int + 1);
            assert(p as int + 1 <= e);
            assert(crate::lexer::dig_val(s, pos as int, p as int + 1) == crate::lexer::dig_val(
                s,
                pos as int,
                p as int,
            ) * 10 + (s[p as int] as u32 - '0' as u32));
        }
        let step = acc.checked_mul(10);
        match step {
            Option::Some(m) => {
                match m.checked_add(d) {
                    Option::Some(a2) => {
                        acc = a2;
                    },
                    Option::None => {
                        proof {
                            assert(crate::lexer::dig_val(s, pos as int, p as int + 1)
                                > u32::MAX);
                            lemma_overflowing_digits(s, pos as int, p as int + 1, e);
                            assert((pos as int) < e && e <= s.len());
                            assert(sp_digit(s[pos as int]));
                            assert(sp_number(s, pos as int) is None);
                        }
                        return None;
                    },
                }
            },
            Option::None => {
                proof {
                    assert(crate::lexer::dig_val(s, pos as int, p as int) * 10 > u32::MAX);
                    assert(crate::lexer::dig_val(s, pos as int, p as int + 1) > u32::MAX) by {
                        crate::lexer::lemma_dig_val_nonneg(s, pos as int, p as int);
                        assert(s[p as int] as u32 - '0' as u32 >= 0);
                    }
                    lemma_overflowing_digits(s, pos as int, p as int + 1, e);
                    assert((pos as int) < e && e <= s.len());
                    assert(sp_digit(s[pos as int]));
                    assert(sp_number(s, pos as int) is None);
                }
                return None;
            },
        }
        p = p + 1;
    }
    proof {
        assert(sp_digits_end(s, p as int) == p as int);
        assert(p as int == e);
    }
    Some((acc, p))
}

/// A digit run whose prefix already overflows has an overflowing
/// value.
proof fn lemma_overflowing_digits(s: Seq<char>, i: int, k: int, e: int)
    requires
        i <= k <= e,
        forall|q: int| i <= q < e ==> sp_digit(s[q]),
        crate::lexer::dig_val(s, i, k) > u32::MAX,
    ensures
        crate::lexer::dig_val(s, i, e) > u32::MAX,
{
    assert(crate::lexer::all_digits(s, i, e)) by {
        assert(forall|q: int| i <= q < e ==> crate::lexer::is_dig(#[trigger] s[q]));
    }
    crate::lexer::lemma_dig_val_grows(s, i, k, e);
}

/// Parses one atom: a group, a class, `.`, an escape, or a plain
/// character.
fn p_atom(src: &Vec<char>, pos: usize) -> (r: Option<(PatNode, usize)>)
    requires
        pos <= src@.len(),
    ensures
        r matches Some((node, p)) ==> pos < p <= src@.len() && pat_wf(node@),
        (match sp_atom(src@, pos as int) {
            Option::Some(v) => r matches Some(x) && x.0@ == v.0 && x.1 as int == v.1,
            Option::None => r is None,
        }),
    decreases src@.len() - pos, 0int,
{
    let ghost s = src@;
    if pos >= src.len() {
        return None;
    }
    let c = src[pos];
    if c == '(' {
        let inner_parse = p_alt(src, pos + 1);
        match inner_parse {
            Option::None => None,
            Option::Some((inner, p)) => {
                if p < src.len() && src[p] == ')' {
                    Some((PatNode::Group(Box::new(inner)), p + 1))
                } else {
                    None
                }
            },
        }
    } else if c == '[' {
        p_class(src, pos + 1)
    } else if c == '\\' {
        if pos + 1 < src.len() {
            let e = src[pos + 1];
            match escaped_atom(e) {
                Option::Some(node) => Some((node, pos + 2)),
                Option::None => None,
            }
        } else {
            None
        }
    } else if c == '.' {
        let node = PatNode::Class(dot_ranges());
        proof {
            assert(node@ == PatView::Class(sp_dot()));
        }
        Some((node, pos + 1))
    } else if c == '|' || c == ')' || c == '*' || c == '+' || c == '?' || c == '^' || c == '$'
        || c == ']' {
        None
    } else {
        let node = PatNode::Literal(char_to_string(c));
        proof {
            assert(node@ == PatView::Literal(seq![c]));
        }
        Some((node, pos + 1))
    }
}

/// The atom that an escape sequence `\c` denotes.
fn escaped_atom(e: char) -> (r: Option<PatNode>)
    ensures
        (match sp_escape_atom(e) {
            Option::Some(v) => r matches Some(node) && node@ == v && pat_wf(v),
            Option::None => r is None,
        }),
{
    if e == 'n' {
        let node = PatNode::Literal(char_to_string('\n'));
        proof {
            assert(node@ == PatView::Literal(seq!['\n']));
        }
        Some(node)
    } else if e == 't' {
        let node = PatNode::Literal(char_to_string('\t'));
        proof {
            assert(node@ == PatView::Literal(seq!['\t']));
        }
        Some(node)
    } else if e == 'r' {
        let node = PatNode::Literal(char_to_string('\r'));
        proof {
            assert(node@ == PatView::Literal(seq!['\r']));
        }
        Some(node)
    } else if e == 'd' {
        let mut rs: Vec<(char, char)> = Vec::new();
        rs.push(('0', '9'));
        proof {
            assert(rs@ =~= seq![('0', '9')]);
        }
        Some(PatNode::Class(rs))
    } else if e == 'w' {
        let mut rs: Vec<(char, char)> = Vec::new();
        rs.push(('0', '9'));
        rs.push(('A', 'Z'));
        rs.push(('_', '_'));
        rs.push(('a', 'z'));
        proof {
            assert(rs@ =~= seq![('0', '9'), ('A', 'Z'), ('_', '_'), ('a', 'z')]);
        }
        Some(PatNode::Class(rs))
    } else if e == 's' {
        let mut rs: Vec<(char, char)> = Vec::new();
        rs.push(('\t', '\n'));
        rs.push(('\r', '\r'));
        rs.push((' ', ' '));
        proof {
            assert(rs@ =~= seq![('\t', '\n'), ('\r', '\r'), (' ', ' ')]);
        }
        Some(PatNode::Class(rs))
    } else if e == '\\' || e == '.' || e == '*' || e == '+' || e == '?' || e == '(' || e == ')'
        || e == '[' || e == ']' || e == '{' || e == '}' || e == '|' || e == '-' || e == '^' || e
        == '$' || e == '"' || e == '/' {
        let node = PatNode::Literal(char_to_string(e));
        proof {
            assert(node@ == PatView::Literal(seq![e]));
        }
        Some(node)
    } else {
        None
    }
}

/// The ranges of `.`: every scalar value except the line feed.
fn dot_ranges() -> (r: Vec<(char, char)>)
    ensures
        r@ =~= sp_dot(),
{
    let mut rs: Vec<(char, char)> = Vec::new();
    rs.push(('\u{0}', '\u{9}'));
    rs.push(('\u{B}', '\u{D7FF}'));
    rs.push(('\u{E000}', '\u{10FFFF}'));
    rs
}

/// The character that an escape inside a class denotes.
fn class_escape(e: char) -> (r: Option<char>)
    ensures
        r == sp_class_escape(e),
{
    if e == 'n' {
        Some('\n')
    } else if e == 't' {
        Some('\t')
    } else if e == 'r' {
        Some('\r')
    } else if e == '\\' || e == ']' || e == '[' || e == '-' || e == '^' || e == '.' || e == '*'
        || e == '+' || e == '?' || e == '(' || e == ')' || e == '{' || e == '}' || e == '|' || e
        == '"' || e == '/' || e == '$' {
        Some(e)
    } else {
        None
    }
}

/// Pushes the range `[lo, hi]`, split at the surrogate gap when it
/// would span it, so that sampling the class picks uniformly within
/// ranges of scalar values only.
fn push_range(items: &mut Vec<(char, char)>, lo: char, hi: char)
    requires
        lo as u32 <= hi as u32,
    ensures
        final(items)@ == old(items)@ + sp_gap_split(lo, hi),
        forall|k: int|
            0 <= k < sp_gap_split(lo, hi).len() ==> {
                let lo2 = (#[trigger] sp_gap_split(lo, hi)[k]).0;
                let hi2 = sp_gap_split(lo, hi)[k].1;
                lo2 as u32 <= hi2 as u32 && !((lo2 as u32) < 0xD800 && (hi2 as u32) > 0xDFFF)
            },
{
    proof {
        vstd::utf8::char_is_scalar(lo);
        vstd::utf8::char_is_scalar(hi);
    }
    if (lo as u32) < 0xD800 && (hi as u32) > 0xDFFF {
        items.push((lo, '\u{D7FF}'));
        items.push(('\u{E000}', hi));
        proof {
            assert(items@ =~= old(items)@ + sp_gap_split(lo, hi));
        }
    } else {
        items.push((lo, hi));
        proof {
            assert(items@ =~= old(items)@ + sp_gap_split(lo, hi));
        }
    }
}

/// Whether a class range is ordered and stays on one side of the
/// surrogate gap.
pub open spec fn wf_range(x: (char, char)) -> bool {
    x.0 as u32 <= x.1 as u32 && !((x.0 as u32) < 0xD800 && (x.1 as u32) > 0xDFFF)
}

/// Pushes what remains of `iv` after taking `r` out of it.
fn subtract_push(out: &mut Vec<(char, char)>, iv: (char, char), r: (char, char))
    requires
        wf_range(iv),
    ensures
        final(out)@ == old(out)@ + sp_subtract(iv, r),
        forall|k: int|
            0 <= k < sp_subtract(iv, r).len() ==> wf_range(#[trigger] sp_subtract(iv, r)[k]),
{
    proof {
        vstd::utf8::char_is_scalar(iv.0);
        vstd::utf8::char_is_scalar(iv.1);
        vstd::utf8::char_is_scalar(r.0);
        vstd::utf8::char_is_scalar(r.1);
    }
    if (r.1 as u32) < (iv.0 as u32) || (r.0 as u32) > (iv.1 as u32) {
        out.push(iv);
        proof {
            assert(out@ =~= old(out)@ + sp_subtract(iv, r));
        }
    } else {
        let ghost left = if (iv.0 as u32) < (r.0 as u32) {
            seq![(iv.0, code_to_char((r.0 as u32 - 1) as u32))]
        } else {
            Seq::<(char, char)>::empty()
        };
        if (iv.0 as u32) < (r.0 as u32) {
            let bcode: u32 = r.0 as u32 - 1;
            proof {
                assert(iv.0 as u32 <= bcode && bcode < iv.1 as u32 + 1);
                assert(valid_scalar(bcode));
            }
            match char_from_u32(bcode) {
                Option::Some(c) => {
                    proof {
                        vstd::utf8::char_u32_cast(c, bcode);
                    }
                    out.push((iv.0, c));
                },
                Option::None => {
                    proof {
                        assert(false);
                    }
                },
            }
        }
        if (r.1 as u32) < (iv.1 as u32) {
            let bcode: u32 = r.1 as u32 + 1;
            proof {
                assert(iv.0 as u32 <= bcode && bcode <= iv.1 as u32);
                assert(valid_scalar(bcode));
            }
            match char_from_u32(bcode) {
                Option::Some(c) => {
                    proof {
                        vstd::utf8::char_u32_cast(c, bcode);
                    }
                    out.push((c, iv.1));
                },
                Option::None => {
                    proof {
                        assert(false);
                    }
                },
            }
        }
        proof {
            assert(out@ =~= old(out)@ + sp_subtract(iv, r));
        }
    }
}

/// The complement of the union of the listed ranges, within the
/// scalar values: what a negated class denotes.
fn complement_class(items: &Vec<(char, char)>) -> (r: Vec<(char, char)>)
    ensures
        r@ == sp_complement(items@, 0, sp_all_scalars()),
        forall|k: int| 0 <= k < r@.len() ==> wf_range(#[trigger] r@[k]),
{
    let ghost its = items@;
    let mut uncovered: Vec<(char, char)> = Vec::new();
    uncovered.push(('\u{0}', '\u{D7FF}'));
    uncovered.push(('\u{E000}', '\u{10FFFF}'));
    proof {
        assert(uncovered@ =~= sp_all_scalars());
    }
    let mut i: usize = 0;
    while i < items.len()
        invariant
            its == items@,
            i <= its.len(),
            forall|k: int| 0 <= k < uncovered@.len() ==> wf_range(#[trigger] uncovered@[k]),
            sp_complement(its, 0, sp_all_scalars()) == sp_complement(its, i as int, uncovered@),
        decreases items@.len() - i,
    {
        let rr = items[i];
        let ghost unc = uncovered@;
        let mut next: Vec<(char, char)> = Vec::new();
        let mut j: usize = 0;
        proof {
            assert(next@ =~= Seq::<(char, char)>::empty());
        }
        while j < uncovered.len()
            invariant
                unc == uncovered@,
                j <= unc.len(),
                rr == its[i as int] || rr == items@[i as int],
                forall|k: int| 0 <= k < unc.len() ==> wf_range(#[trigger] unc[k]),
                forall|k: int| 0 <= k < next@.len() ==> wf_range(#[trigger] next@[k]),
                sp_sub_list(unc, rr, 0) =~= next@ + sp_sub_list(unc, rr, j as int),
            decreases uncovered@.len() - j,
        {
            let ghost before = next@;
            subtract_push(&mut next, uncovered[j], rr);
            proof {
                assert((before + sp_subtract(unc[j as int], rr)) + sp_sub_list(
                    unc,
                    rr,
                    j as int + 1,
                ) =~= before + (sp_subtract(unc[j as int], rr) + sp_sub_list(
                    unc,
                    rr,
                    j as int + 1,
                )));
            }
            j = j + 1;
        }
        proof {
            assert(sp_sub_list(unc, rr, unc.len() as int) =~= Seq::<(char, char)>::empty());
            assert(next@ + Seq::<(char, char)>::empty() =~= next@);
            assert(next@ =~= sp_sub_list(unc, rr, 0));
            assert(rr == its[i as int]);
        }
        uncovered = next;
        i = i + 1;
    }
    uncovered
}

/// Parses the items of a character class after its `[`; a leading `^`
/// negates the class, which then denotes every scalar value outside
/// the listed ranges.
fn p_class(src: &Vec<char>, pos: usize) -> (r: Option<(PatNode, usize)>)
    requires
        pos <= src@.len(),
    ensures
        r matches Some((node, p)) ==> pos < p <= src@.len() && pat_wf(node@),
        (match sp_class(src@, pos as int, Seq::empty(), false) {
            Option::Some(v) => r matches Some(x) && x.0@ == v.0 && x.1 as int == v.1,
            Option::None => r is None,
        }),
    decreases src@.len() - pos,
{
    let ghost s = src@;
    let n = src.len();
    let mut items: Vec<(char, char)> = Vec::new();
    let mut p = pos;
    let mut neg = false;
    proof {
        assert(items@ =~= Seq::<(char, char)>::empty());
    }
    loop
        invariant
            s == src@,
            n == s.len(),
            pos <= p <= n,
            forall|k: int|
                0 <= k < items@.len() ==> {
                    let lo2 = (#[trigger] items@[k]).0;
                    let hi2 = items@[k].1;
                    lo2 as u32 <= hi2 as u32 && !((lo2 as u32) < 0xD800 && (hi2 as u32) > 0xDFFF)
                },
            sp_class(s, pos as int, Seq::empty(), false) == sp_class(s, p as int, items@, neg),
        decreases src@.len() - p,
    {
        if p >= n {
            return None;
        }
        if src[p] == ']' {
            if items.len() == 0 {
                return None;
            }
            if neg {
                let comp = complement_class(&items);
                if comp.len() == 0 {
                    return None;
                }
                let ghost compv = comp@;
                let node = PatNode::Class(comp);
                proof {
                    assert(node@ == PatView::Class(compv));
                    assert forall|k: int|
                        0 <= k < compv.len() implies {
                        let lo2 = (#[trigger] compv[k]).0;
                        let hi2 = compv[k].1;
                        lo2 as u32 <= hi2 as u32 && !((lo2 as u32) < 0xD800 && (hi2 as u32)
                            > 0xDFFF)
                    } by {
                        assert(wf_range(compv[k]));
                    }
                }
                return Some((node, p + 1));
            }
            let node = PatNode::Class(items);
            return Some((node, p + 1));
        }
        if src[p] == '^' && items.len() == 0 && !neg {
            neg = true;
            p = p + 1;
            continue ;
        }
        let ghost items0 = items@;
        let lo: char;
        let p1: usize;
        if src[p] == '\\' {
            if p + 1 >= n {
                return None;
            }
            match class_escape(src[p + 1]) {
                Option::Some(c) => {
                    lo = c;
                    p1 = p + 2;
                },
                Option::None => {
                    return None;
                },
            }
        } else {
            lo = src[p];
            p1 = p + 1;
        }
        if p1 < n && p1 + 1 < n && src[p1] == '-' && src[p1 + 1] != ']' {
            let hi: char;
            let p2: usize;
            if src[p1 + 1] == '\\' {
                if p1 + 2 >= n {
                    return None;
                }
                match class_escape(src[p1 + 2]) {
                    Option::Some(c) => {
                        hi = c;
                        p2 = p1 + 3;
                    },
                    Option::None => {
                        return None;
                    },
                }
            } else {
                hi = src[p1 + 1];
                p2 = p1 + 2;
            }
            if !(lo as u32 <= hi as u32) {
                return None;
            }
            push_range(&mut items, lo, hi);
            proof {
                assert(sp_class(s, p as int, items0, neg) == sp_class(s, p2 as int, items@, neg));
            }
            p = p2;
        } else {
            push_range(&mut items, lo, lo);
            proof {
                assert(sp_class(s, p as int, items0, neg) == sp_class(s, p1 as int, items@, neg));
            }
            p = p1;
        }
    }
}

/// Whether two string slices hold the same characters.
pub fn str_eq(a: &str, b: &str) -> (r: bool)
    ensures
        r == (a@ == b@),
{
    let na = a.unicode_len();
    let nb = b.unicode_len();
    if na != nb {
        return false;
    }
    let mut i: usize = 0;
    while i < na
        invariant
            na == a@.len(),
            na == b@.len(),
            i <= na,
            forall|k: int| 0 <= k < i ==> a@[k] == b@[k],
        decreases na - i,
    {
        if a.get_char(i) != b.get_char(i) {
            return false;
        }
        i = i + 1;
    }
    proof {
        assert(a@ =~= b@);
    }
    true
}

/// The characters of a string slice, in order.
pub fn str_to_chars(s: &str) -> (r: Vec<char>)
    ensures
        r@ =~= s@,
{
    let n = s.unicode_len();
    let mut v: Vec<char> = Vec::new();
    let mut i: usize = 0;
    while i < n
        invariant
            n == s@.len(),
            i <= n,
            v@ =~= s@.subrange(0, i as int),
        decreases n - i,
    {
        v.push(s.get_char(i));
        proof {
            assert(v@ =~= s@.subrange(0, i as int + 1));
        }
        i = i + 1;
    }
    v
}

} // verus!
