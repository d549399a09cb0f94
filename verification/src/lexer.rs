//! The tokenizer: a stream of `(start, token, end)` triples from the
//! grammar text.
//!
//! Whitespace and `//` line comments are skipped. Identifiers are runs
//! of letters, digits, `-` and `_`; a run of digits is an integer
//! unless it keeps a leading zero, and the run `re` is the pattern
//! keyword. String literals support the escapes `\"`, `\n`, `\t`, `\r`
//! and `\\`. An integer that does not fit an unsigned machine integer,
//! an unterminated or ill-escaped string, and any other unexpected
//! byte are lexical errors carrying their spans.

use vstd::prelude::*;

use crate::error::LexicalError;
use crate::regex::{push_char, str_to_chars};
use crate::span::Span;
use crate::token::{Token, TokenView};

verus! {

/// Whitespace skipped between tokens.
pub open spec fn is_ws(c: char) -> bool {
    c == ' ' || c == '\t' || c == '\n' || c == '\r' || c == '\u{c}'
}

/// A character of an identifier or integer run.
pub open spec fn is_word(c: char) -> bool {
    ('a' <= c && c <= 'z') || ('A' <= c && c <= 'Z') || ('0' <= c && c <= '9') || c == '-' || c
        == '_'
}

/// An ASCII decimal digit.
pub open spec fn is_dig(c: char) -> bool {
    '0' <= c && c <= '9'
}

/// The position just after the current line: past the next line feed,
/// or the end of input.
pub open spec fn skip_line(s: Seq<char>, i: int) -> int
    decreases s.len() - i,
{
    if i < 0 || i >= s.len() {
        s.len() as int
    } else if s[i] == '\n' {
        i + 1
    } else {
        skip_line(s, i + 1)
    }
}

/// `skip_line` stays within the input and never goes backwards.
pub proof fn lemma_skip_line(s: Seq<char>, i: int)
    requires
        0 <= i <= s.len(),
    ensures
        i <= skip_line(s, i) <= s.len(),
    decreases s.len() - i,
{
    if i < s.len() && s[i] != '\n' {
        lemma_skip_line(s, i + 1);
    }
}

/// The first position at or after `i` that starts a token: past
/// whitespace and line comments.
pub open spec fn spec_skip(s: Seq<char>, i: int) -> int
    decreases s.len() - i, 0int,
    via spec_skip_dec
{
    if i < 0 || i >= s.len() {
        s.len() as int
    } else if is_ws(s[i]) {
        spec_skip(s, i + 1)
    } else if s[i] == '/' && i + 1 < s.len() && s[i + 1] == '/' {
        spec_skip(s, skip_line(s, i + 2))
    } else {
        i
    }
}

#[via_fn]
proof fn spec_skip_dec(s: Seq<char>, i: int) {
    if 0 <= i < s.len() && !is_ws(s[i]) && s[i] == '/' && i + 1 < s.len() && s[i + 1] == '/' {
        lemma_skip_line(s, i + 2);
    }
}

/// `spec_skip` stays within the input and never goes backwards.
pub proof fn lemma_spec_skip(s: Seq<char>, i: int)
    requires
        0 <= i <= s.len(),
    ensures
        i <= spec_skip(s, i) <= s.len(),
    decreases s.len() - i,
{
    if i < s.len() {
        if is_ws(s[i]) {
            lemma_spec_skip(s, i + 1);
        } else if s[i] == '/' && i + 1 < s.len() && s[i + 1] == '/' {
            lemma_skip_line(s, i + 2);
            lemma_spec_skip(s, skip_line(s, i + 2));
        }
    }
}

/// The end of the identifier or integer run starting at `i`.
pub open spec fn scan_word(s: Seq<char>, i: int) -> int
    decreases s.len() - i,
{
    if i < 0 || i >= s.len() || !is_word(s[i]) {
        i
    } else {
        scan_word(s, i + 1)
    }
}

/// `scan_word` stays within the input and never goes backwards.
pub proof fn lemma_scan_word(s: Seq<char>, i: int)
    requires
        0 <= i <= s.len(),
    ensures
        i <= scan_word(s, i) <= s.len(),
        forall|k: int| i <= k < scan_word(s, i) ==> is_word(s[k]),
    decreases s.len() - i,
{
    if i < s.len() && is_word(s[i]) {
        lemma_scan_word(s, i + 1);
    }
}

/// Whether every character in `[i, j)` is a digit.
pub open spec fn all_digits(s: Seq<char>, i: int, j: int) -> bool {
    forall|k: int| i <= k < j ==> is_dig(#[trigger] s[k])
}

/// The numeric value of the digits in `[i, j)`.
pub open spec fn dig_val(s: Seq<char>, i: int, j: int) -> int
    decreases j - i,
{
    if j <= i {
        0
    } else {
        dig_val(s, i, j - 1) * 10 + (s[j - 1] as u32 - '0' as u32)
    }
}

/// The character denoted by a string escape `\c`, if `c` is a
/// supported escape.
pub open spec fn str_escape(c: char) -> Option<char> {
    if c == '"' {
        Option::Some('"')
    } else if c == 'n' {
        Option::Some('\n')
    } else if c == 't' {
        Option::Some('\t')
    } else if c == 'r' {
        Option::Some('\r')
    } else if c == '\\' {
        Option::Some('\\')
    } else {
        Option::None
    }
}

/// Scans a string literal body from `i` (just after the opening
/// quote): the unescaped content and the position after the closing
/// quote, or `None` when the literal is unterminated or holds an
/// unsupported escape.
pub open spec fn scan_str(s: Seq<char>, i: int) -> Option<(Seq<char>, int)>
    decreases s.len() - i,
{
    if i < 0 || i >= s.len() {
        Option::None
    } else if s[i] == '"' {
        Option::Some((Seq::empty(), i + 1))
    } else if s[i] == '\\' {
        if i + 1 < s.len() {
            match str_escape(s[i + 1]) {
                Option::Some(c) => match scan_str(s, i + 2) {
                    Option::Some((t, e)) => Option::Some((seq![c] + t, e)),
                    Option::None => Option::None,
                },
                Option::None => Option::None,
            }
        } else {
            Option::None
        }
    } else {
        match scan_str(s, i + 1) {
            Option::Some((t, e)) => Option::Some((seq![s[i]] + t, e)),
            Option::None => Option::None,
        }
    }
}

/// A scanned string body ends within the input, after where it began.
pub proof fn lemma_scan_str(s: Seq<char>, i: int)
    requires
        0 <= i,
    ensures
        scan_str(s, i) matches Some(te) ==> i < te.1 <= s.len(),
    decreases s.len() - i,
{
    if 0 <= i < s.len() {
        if s[i] == '\\' {
            if i + 1 < s.len() {
                lemma_scan_str(s, i + 2);
            }
        } else if s[i] != '"' {
            lemma_scan_str(s, i + 1);
        }
    }
}

/// What the tokenizer does at one position.
pub enum LexModel {
    /// Only whitespace and comments remain.
    End,
    /// The token `[start, end)`; scanning continues at `end`.
    Tok(int, TokenView, int),
    /// A byte that starts no token, at `[start, end)`.
    ErrTok(int, int),
    /// An integer literal in `[start, end)` that overflows.
    ErrInt(int, int),
}

/// The next token starting at or after `i0`.
pub open spec fn spec_next(s: Seq<char>, i0: int) -> LexModel {
    let i = spec_skip(s, i0);
    if i >= s.len() {
        LexModel::End
    } else {
        let c = s[i];
        if is_word(c) {
            let j = scan_word(s, i);
            if j - i == 2 && s[i] == 'r' && s[i + 1] == 'e' {
                LexModel::Tok(i, TokenView::Re, j)
            } else if all_digits(s, i, j) && (j - i == 1 || s[i] != '0') {
                if dig_val(s, i, j) <= usize::MAX {
                    LexModel::Tok(i, TokenView::Int(dig_val(s, i, j) as usize), j)
                } else {
                    LexModel::ErrInt(i, j)
                }
            } else {
                LexModel::Tok(i, TokenView::Id(s.subrange(i, j)), j)
            }
        } else if c == '{' {
            LexModel::Tok(i, TokenView::LBrace, i + 1)
        } else if c == '}' {
            LexModel::Tok(i, TokenView::RBrace, i + 1)
        } else if c == '(' {
            LexModel::Tok(i, TokenView::LParen, i + 1)
        } else if c == ')' {
            LexModel::Tok(i, TokenView::RParen, i + 1)
        } else if c == '|' {
            LexModel::Tok(i, TokenView::Or, i + 1)
        } else if c == ',' {
            LexModel::Tok(i, TokenView::Comma, i + 1)
        } else if c == ';' {
            LexModel::Tok(i, TokenView::Semi, i + 1)
        } else if c == '<' {
            LexModel::Tok(i, TokenView::LAngle, i + 1)
        } else if c == '>' {
            LexModel::Tok(i, TokenView::RAngle, i + 1)
        } else if c == ':' {
            if i + 2 < s.len() && s[i + 1] == ':' && s[i + 2] == '=' {
                LexModel::Tok(i, TokenView::Def, i + 3)
            } else {
                LexModel::Tok(i, TokenView::Colon, i + 1)
            }
        } else if c == '"' {
            match scan_str(s, i + 1) {
                Option::Some((t, e)) => LexModel::Tok(i, TokenView::Str(t), e),
                Option::None => LexModel::ErrTok(i, i + 1),
            }
        } else {
            LexModel::ErrTok(i, i + 1)
        }
    }
}

/// A produced token begins at or after the scan position and ends
/// after it begins, within the input.
pub proof fn lemma_next_advances(s: Seq<char>, i0: int)
    requires
        0 <= i0 <= s.len(),
    ensures
        spec_next(s, i0) matches LexModel::Tok(st, _, en) ==> i0 <= st < en <= s.len(),
        spec_next(s, i0) matches LexModel::ErrTok(st, en) ==> i0 <= st < en <= s.len(),
        spec_next(s, i0) matches LexModel::ErrInt(st, en) ==> i0 <= st < en <= s.len(),
{
    lemma_spec_skip(s, i0);
    let i = spec_skip(s, i0);
    if i < s.len() {
        let c = s[i];
        if is_word(c) {
            assert(scan_word(s, i) == scan_word(s, i + 1));
            lemma_scan_word(s, i + 1);
        } else if c == '"' {
            lemma_scan_str(s, i + 1);
        }
    }
}

/// The whole token stream of the input, or the lexical error that
/// cuts it short.
pub enum TokensModel {
    /// Every token, as `(start, token, end)` triples in order.
    Toks(Seq<(int, TokenView, int)>),
    /// A byte that starts no token, at `[start, end)`.
    BadByte(int, int),
    /// An overflowing integer literal, at `[start, end)`.
    BadInt(int, int),
}

/// Tokenizing the input from position `i` to its end.
pub open spec fn spec_tokens(s: Seq<char>, i: int) -> TokensModel
    decreases s.len() - i,
    via spec_tokens_dec
{
    if !(0 <= i <= s.len()) {
        TokensModel::Toks(Seq::empty())
    } else {
        match spec_next(s, i) {
            LexModel::End => TokensModel::Toks(Seq::empty()),
            LexModel::Tok(st, tv, en) => match spec_tokens(s, en) {
                TokensModel::Toks(rest) => TokensModel::Toks(seq![(st, tv, en)] + rest),
                e => e,
            },
            LexModel::ErrTok(a, b) => TokensModel::BadByte(a, b),
            LexModel::ErrInt(a, b) => TokensModel::BadInt(a, b),
        }
    }
}

#[via_fn]
proof fn spec_tokens_dec(s: Seq<char>, i: int) {
    if 0 <= i <= s.len() {
        lemma_next_advances(s, i);
    }
}

/// The models of a sequence of spanned tokens.
pub open spec fn triple_views(v: Seq<(usize, Token, usize)>) -> Seq<(int, TokenView, int)> {
    Seq::new(v.len(), |i: int| (v[i].0 as int, v[i].1@, v[i].2 as int))
}

/// Tokenizes the whole input: exactly the stream that `spec_tokens`
/// describes, or its lexical error.
pub fn tokenize(input: &str) -> (r: Result<Vec<(usize, Token, usize)>, LexicalError>)
    ensures
        match spec_tokens(input@, 0) {
            TokensModel::Toks(ts) => r matches Ok(v) && triple_views(v@) == ts,
            TokensModel::BadByte(a, b) => r matches Err(e) && e == (LexicalError::InvalidToken(
                Span { start: a as usize, end: b as usize },
            )),
            TokensModel::BadInt(a, b) => r matches Err(e) && e == (LexicalError::InvalidInteger(
                Span { start: a as usize, end: b as usize },
            )),
        },
{
    let ghost s = input@;
    let mut lexer = Lexer::new(input);
    let mut toks: Vec<(usize, Token, usize)> = Vec::new();
    proof {
        assert(triple_views(toks@) =~= Seq::<(int, TokenView, int)>::empty());
    }
    loop
        invariant
            s == input@,
            lexer.chars@ == s,
            lexer.pos <= s.len(),
            spec_tokens(s, 0) == (match spec_tokens(s, lexer.pos as int) {
                TokensModel::Toks(rest) => TokensModel::Toks(triple_views(toks@) + rest),
                e => e,
            }),
        decreases s.len() - lexer.pos,
    {
        let ghost before = lexer.pos as int;
        let ghost toks0 = triple_views(toks@);
        proof {
            lemma_next_advances(s, before);
        }
        match lexer.next_token() {
            Option::None => {
                proof {
                    assert(spec_tokens(s, before) == TokensModel::Toks(
                        Seq::<(int, TokenView, int)>::empty(),
                    ));
                    assert(toks0 + Seq::<(int, TokenView, int)>::empty() =~= toks0);
                }
                return Ok(toks);
            },
            Option::Some(t) => {
                match t {
                    Ok(triple) => {
                        let ghost st = triple.0 as int;
                        let ghost en = triple.2 as int;
                        toks.push(triple);
                        proof {
                            assert(triple_views(toks@) =~= toks0.push(
                                (st, triple.1@, en),
                            ));
                            match spec_tokens(s, en) {
                                TokensModel::Toks(rest) => {
                                    assert((toks0 + (seq![(st, triple.1@, en)] + rest))
                                        =~= (toks0.push((st, triple.1@, en)) + rest));
                                },
                                TokensModel::BadByte(_, _) => {},
                                TokensModel::BadInt(_, _) => {},
                            }
                        }
                    },
                    Err(e) => {
                        return Err(e);
                    },
                }
            },
        }
    }
}

/// A lazy stream of tokens over the grammar text.
#[derive(Debug)]
pub struct Lexer {
    /// The characters of the input.
    pub chars: Vec<char>,
    /// The current scan position.
    pub pos: usize,
}

impl Lexer {
    /// A tokenizer at the start of `input`.
    pub fn new(input: &str) -> (r: Lexer)
        ensures
            r.chars@ == input@,
            r.pos == 0,
    {
        Lexer { chars: str_to_chars(input), pos: 0 }
    }

    /// The next token, an error, or `None` at the end of input; the
    /// scan position advances past what was consumed.
    pub fn next_token(&mut self) -> (r: Option<Result<(usize, Token, usize), LexicalError>>)
        requires
            old(self).pos <= old(self).chars@.len(),
        ensures
            final(self).chars@ == old(self).chars@,
            final(self).pos <= final(self).chars@.len(),
            match spec_next(old(self).chars@, old(self).pos as int) {
                LexModel::End => r is None && final(self).pos == final(self).chars@.len(),
                LexModel::Tok(st, tv, en) => r matches Some(x) && (x matches Ok(t) && t.0 == st
                    && t.1@ == tv && t.2 == en) && final(self).pos == en,
                LexModel::ErrTok(st, en) => r matches Some(x) && (x matches Err(e) && e == (
                LexicalError::InvalidToken(Span { start: st as usize, end: en as usize })))
                    && final(self).pos == en,
                LexModel::ErrInt(st, en) => r matches Some(x) && (x matches Err(e) && e == (
                LexicalError::InvalidInteger(Span { start: st as usize, end: en as usize })))
                    && final(self).pos == en,
            },
    {
        let ghost s = self.chars@;
        let ghost p0 = self.pos as int;
        let n = self.chars.len();
        proof {
            lemma_next_advances(s, p0);
        }
        self.skip_trivia();
        if self.pos >= n {
            return None;
        }
        let i = self.pos;
        let c = self.chars[i];
        if is_word_exec(c) {
            // an identifier, an integer, or the keyword `re`
            let mut j = i;
            while j < n && is_word_exec(self.chars[j])
                invariant
                    s == old(self).chars@,
                    s == self.chars@,
                    n == s.len(),
                    i <= j <= n,
                    scan_word(s, i as int) == scan_word(s, j as int),
                    forall|k: int| i <= k < j ==> is_word(s[k]),
                decreases n - j,
            {
                j = j + 1;
            }
            proof {
                assert(j as int == scan_word(s, i as int));
            }
            self.pos = j;
            if j - i == 2 && c == 'r' && self.chars[i + 1] == 'e' {
                return Some(Ok((i, Token::Re, j)));
            }
            let mut digits = true;
            let mut k = i;
            while k < j
                invariant
                    s == old(self).chars@,
                    s == self.chars@,
                    i <= k <= j <= s.len(),
                    digits == all_digits(s, i as int, k as int),
                decreases j - k,
            {
                let d = self.chars[k];
                proof {
                    assert(s[k as int] == d);
                }
                if !('0' <= d && d <= '9') {
                    digits = false;
                    proof {
                        assert(!is_dig(s[k as int]));
                        assert(!all_digits(s, i as int, k as int + 1));
                    }
                } else {
                    proof {
                        assert(is_dig(s[k as int]));
                        if digits {
                            assert forall|k2: int| i <= k2 < k + 1 implies is_dig(
                                #[trigger] s[k2],
                            ) by {
                                if k2 < k {
                                    assert(all_digits(s, i as int, k as int));
                                }
                            }
                            assert(all_digits(s, i as int, k as int + 1));
                        } else {
                            let bad = choose|k2: int|
                                i <= k2 < k && !is_dig(#[trigger] s[k2]);
                            assert(!is_dig(s[bad]));
                            assert(!all_digits(s, i as int, k as int + 1));
                        }
                    }
                }
                k = k + 1;
            }
            if digits && (j - i == 1 || c != '0') {
                // an integer literal; overflow is a lexical error
                match self.parse_digits(i, j) {
                    Option::Some(v) => {
                        return Some(Ok((i, Token::Int(v), j)));
                    },
                    Option::None => {
                        return Some(
                            Err(LexicalError::InvalidInteger(Span::new(i, j))),
                        );
                    },
                }
            }
            let text = self.word_text(i, j);
            return Some(Ok((i, Token::Id(text), j)));
        }
        if c == '{' {
            self.pos = i + 1;
            return Some(Ok((i, Token::LBrace, i + 1)));
        }
        if c == '}' {
            self.pos = i + 1;
            return Some(Ok((i, Token::RBrace, i + 1)));
        }
        if c == '(' {
            self.pos = i + 1;
            return Some(Ok((i, Token::LParen, i + 1)));
        }
        if c == ')' {
            self.pos = i + 1;
            return Some(Ok((i, Token::RParen, i + 1)));
        }
        if c == '|' {
            self.pos = i + 1;
            return Some(Ok((i, Token::Or, i + 1)));
        }
        if c == ',' {
            self.pos = i + 1;
            return Some(Ok((i, Token::Comma, i + 1)));
        }
        if c == ';' {
            self.pos = i + 1;
            return Some(Ok((i, Token::Semi, i + 1)));
        }
        if c == '<' {
            self.pos = i + 1;
            return Some(Ok((i, Token::LAngle, i + 1)));
        }
        if c == '>' {
            self.pos = i + 1;
            return Some(Ok((i, Token::RAngle, i + 1)));
        }
        if c == ':' {
            if n - i > 2 && self.chars[i + 1] == ':' && self.chars[i + 2] == '=' {
                self.pos = i + 3;
                return Some(Ok((i, Token::Def, i + 3)));
            }
            self.pos = i + 1;
            return Some(Ok((i, Token::Colon, i + 1)));
        }
        if c == '"' {
            match self.scan_string(i + 1) {
                Option::Some((text, e)) => {
                    self.pos = e;
                    return Some(Ok((i, Token::Str(text), e)));
                },
                Option::None => {
                    self.pos = i + 1;
                    return Some(Err(LexicalError::InvalidToken(Span::new(i, i + 1))));
                },
            }
        }
        self.pos = i + 1;
        Some(Err(LexicalError::InvalidToken(Span::new(i, i + 1))))
    }

    /// Advances the scan position past whitespace and line comments.
    fn skip_trivia(&mut self)
        requires
            old(self).pos <= old(self).chars@.len(),
        ensures
            final(self).chars@ == old(self).chars@,
            final(self).pos <= final(self).chars@.len(),
            final(self).pos as int == spec_skip(old(self).chars@, old(self).pos as int),
    {
        let ghost s = self.chars@;
        let ghost p0 = self.pos as int;
        let n = self.chars.len();
        loop
            invariant
                s == old(self).chars@,
                p0 == old(self).pos as int,
                s == self.chars@,
                n == s.len(),
                self.pos <= n,
                spec_skip(s, p0) == spec_skip(s, self.pos as int),
            decreases n - self.pos,
        {
            if self.pos >= n {
                proof {
                    assert(spec_skip(s, self.pos as int) == self.pos as int);
                }
                return ;
            }
            let c = self.chars[self.pos];
            if c == ' ' || c == '\t' || c == '\n' || c == '\r' || c == '\u{c}' {
                self.pos = self.pos + 1;
            } else if c == '/' && self.pos + 1 < n && self.chars[self.pos + 1] == '/' {
                // a line comment: to past the next line feed
                let ghost q = self.pos as int;
                self.pos = self.pos + 2;
                let ghost q2 = self.pos as int;
                proof {
                    assert(spec_skip(s, q) == spec_skip(s, skip_line(s, q2)));
                }
                while self.pos < n && self.chars[self.pos] != '\n'
                    invariant
                        s == old(self).chars@,
                        s == self.chars@,
                        n == s.len(),
                        self.pos <= n,
                        q2 <= self.pos as int,
                        skip_line(s, q2) == skip_line(s, self.pos as int),
                    decreases n - self.pos,
                {
                    self.pos = self.pos + 1;
                }
                if self.pos < n {
                    self.pos = self.pos + 1;
                }
                proof {
                    assert(self.pos as int == skip_line(s, q2));
                }
            } else {
                proof {
                    assert(spec_skip(s, self.pos as int) == self.pos as int);
                }
                return ;
            }
        }
    }

    /// Parses the digit run `[i, j)` as an unsigned machine integer;
    /// `None` on overflow.
    fn parse_digits(&self, i: usize, j: usize) -> (r: Option<usize>)
        requires
            i <= j <= self.chars@.len(),
            all_digits(self.chars@, i as int, j as int),
        ensures
            dig_val(self.chars@, i as int, j as int) <= usize::MAX ==> (r matches Some(v) && v
                == dig_val(self.chars@, i as int, j as int)),
            dig_val(self.chars@, i as int, j as int) > usize::MAX ==> r is None,
    {
        let ghost s = self.chars@;
        let mut acc: usize = 0;
        let mut k = i;
        while k < j
            invariant
                s == self.chars@,
                i <= k <= j <= s.len(),
                all_digits(s, i as int, j as int),
                acc == dig_val(s, i as int, k as int),
            decreases j - k,
        {
            let d = self.chars[k];
            proof {
                assert(is_dig(s[k as int]));
            }
            let dv: u32 = (d as u32) - ('0' as u32);
            let step = acc.checked_mul(10);
            match step {
                Option::Some(m) => {
                    match m.checked_add(dv as usize) {
                        Option::Some(a2) => {
                            acc = a2;
                        },
                        Option::None => {
                            proof {
                                lemma_dig_val_grows(s, i as int, k as int + 1, j as int);
                            }
                            return None;
                        },
                    }
                },
                Option::None => {
                    proof {
                        lemma_dig_val_grows(s, i as int, k as int + 1, j as int);
                    }
                    return None;
                },
            }
            k = k + 1;
        }
        Some(acc)
    }

    /// The characters `[i, j)` as a string.
    fn word_text(&self, i: usize, j: usize) -> (r: String)
        requires
            i <= j <= self.chars@.len(),
        ensures
            r@ == self.chars@.subrange(i as int, j as int),
    {
        let ghost s = self.chars@;
        let mut out = String::new();
        let mut k = i;
        while k < j
            invariant
                s == self.chars@,
                i <= k <= j <= s.len(),
                out@ =~= s.subrange(i as int, k as int),
            decreases j - k,
        {
            push_char(&mut out, self.chars[k]);
            proof {
                assert(out@ =~= s.subrange(i as int, k as int + 1));
            }
            k = k + 1;
        }
        out
    }

    /// Scans a string literal body from `p` (just after the opening
    /// quote): the unescaped content and the position after the
    /// closing quote.
    fn scan_string(&self, p: usize) -> (r: Option<(String, usize)>)
        requires
            p <= self.chars@.len(),
        ensures
            match scan_str(self.chars@, p as int) {
                Option::Some(te) => r matches Some(x) && x.0@ == te.0 && x.1 == te.1,
                Option::None => r is None,
            },
    {
        let ghost s = self.chars@;
        let n = self.chars.len();
        let mut acc = String::new();
        let mut q = p;
        loop
            invariant
                s == self.chars@,
                n == s.len(),
                p <= q <= n,
                (match scan_str(s, p as int) {
                    Option::Some(te) => scan_str(s, q as int) matches Some(te2) && te.0 == acc@
                        + te2.0 && te.1 == te2.1,
                    Option::None => scan_str(s, q as int) is None,
                }),
            decreases n - q,
        {
            if q >= n {
                return None;
            }
            let c = self.chars[q];
            if c == '"' {
                proof {
                    assert(scan_str(s, q as int) matches Some(te2) && te2.0 =~= Seq::<
                        char,
                    >::empty() && te2.1 == q + 1);
                    assert(acc@ + Seq::<char>::empty() =~= acc@);
                }
                return Some((acc, q + 1));
            }
            if c == '\\' {
                if q + 1 >= n {
                    return None;
                }
                let e = self.chars[q + 1];
                let unescaped: char;
                if e == '"' {
                    unescaped = '"';
                } else if e == 'n' {
                    unescaped = '\n';
                } else if e == 't' {
                    unescaped = '\t';
                } else if e == 'r' {
                    unescaped = '\r';
                } else if e == '\\' {
                    unescaped = '\\';
                } else {
                    proof {
                        assert(str_escape(s[q as int + 1]) is None);
                    }
                    return None;
                }
                proof {
                    assert(str_escape(s[q as int + 1]) == Option::Some(unescaped));
                }
                let ghost before = acc@;
                push_char(&mut acc, unescaped);
                proof {
                    match scan_str(s, q as int + 2) {
                        Option::Some((t2, e2)) => {
                            assert((before + (seq![unescaped] + t2)) =~= (before.push(unescaped)
                                + t2));
                        },
                        Option::None => {},
                    }
                }
                q = q + 2;
            } else {
                let ghost before = acc@;
                push_char(&mut acc, c);
                proof {
                    match scan_str(s, q as int + 1) {
                        Option::Some((t2, e2)) => {
                            assert((before + (seq![c] + t2)) =~= (before.push(c) + t2));
                        },
                        Option::None => {},
                    }
                }
                q = q + 1;
            }
        }
    }
}

/// A character of an identifier or integer run, executable form.
fn is_word_exec(c: char) -> (r: bool)
    ensures
        r == is_word(c),
{
    ('a' <= c && c <= 'z') || ('A' <= c && c <= 'Z') || ('0' <= c && c <= '9') || c == '-' || c
        == '_'
}

/// Longer digit runs have values at least as large.
pub(crate) proof fn lemma_dig_val_grows(s: Seq<char>, i: int, k: int, j: int)
    requires
        i <= k <= j,
        all_digits(s, i, j),
    ensures
        dig_val(s, i, k) <= dig_val(s, i, j),
    decreases j - k,
{
    if k < j {
        assert(all_digits(s, i, j - 1));
        lemma_dig_val_grows(s, i, k, j - 1);
        lemma_dig_val_nonneg(s, i, j - 1);
        assert(dig_val(s, i, j) == dig_val(s, i, j - 1) * 10 + (s[j - 1] as u32 - '0' as u32));
        assert(dig_val(s, i, j - 1) * 10 >= dig_val(s, i, j - 1)) by (nonlinear_arith)
            requires
                dig_val(s, i, j - 1) >= 0,
        ;
        assert(is_dig(s[j - 1]));
    }
}

/// Digit values are nonnegative.
pub(crate) proof fn lemma_dig_val_nonneg(s: Seq<char>, i: int, j: int)
    requires
        all_digits(s, i, j),
    ensures
        dig_val(s, i, j) >= 0,
    decreases j - i,
{
    if j > i {
        assert(all_digits(s, i, j - 1));
        lemma_dig_val_nonneg(s, i, j - 1);
        assert(is_dig(s[j - 1]));
        assert(dig_val(s, i, j - 1) * 10 >= 0) by (nonlinear_arith)
            requires
                dig_val(s, i, j - 1) >= 0,
        ;
    }
}

} // verus!
