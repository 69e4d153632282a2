//! Expressions over word vectors: `king - man + woman`, `(a + b) / 2`.
//!
//! ```text
//! expression := term ( ('+' | '-') term )*
//! term       := atom ( '/' integer-literal )?
//! atom       := word | '(' expression ')'
//! ```
//!
//! The text is cut into tokens one at a time, and the tokens are parsed into
//! an `Expr` whose words are places in the vocabulary of a model.
use vstd::prelude::*;
use crate::error::{Error, ErrorView, SyntaxError, SyntaxErrorView};
use crate::models::{LanguageModel, WordVecView};
use crate::text::{chars_of, decimal, decimal_text, string_of};

verus! {

/// A token of an expression.
#[derive(PartialEq, Eq, Debug, Clone)]
pub enum Token {
    RParen,
    LParen,
    Plus,
    Minus,
    Divide,
    /// A run of lower-case letters.
    Word(String),
    /// A character that begins no token, or a run of digits too large for a
    /// number.
    Invalid(String),
    /// A run of digits, by its value.
    Number(i32),
}

/// A `Token` with its text as a sequence of characters.
pub ghost enum TokenView {
    RParen,
    LParen,
    Plus,
    Minus,
    Divide,
    Word(Seq<char>),
    Invalid(Seq<char>),
    Number(i32),
}

impl View for Token {
    type V = TokenView;

    open spec fn view(&self) -> TokenView {
        match *self {
            Token::RParen => TokenView::RParen,
            Token::LParen => TokenView::LParen,
            Token::Plus => TokenView::Plus,
            Token::Minus => TokenView::Minus,
            Token::Divide => TokenView::Divide,
            Token::Word(w) => TokenView::Word(w@),
            Token::Invalid(w) => TokenView::Invalid(w@),
            Token::Number(n) => TokenView::Number(n),
        }
    }
}

impl TokenView {
    /// The token as it is written.
    pub open spec fn text(self) -> Seq<char> {
        match self {
            TokenView::RParen => seq![')'],
            TokenView::LParen => seq!['('],
            TokenView::Plus => seq!['+'],
            TokenView::Minus => seq!['-'],
            TokenView::Divide => seq!['/'],
            TokenView::Word(w) => w,
            TokenView::Invalid(w) => w,
            TokenView::Number(n) => decimal_text(n as int),
        }
    }
}

impl Token {
    /// The token as it is written.
    pub fn to_string(&self) -> (s: String)
        ensures
            s@ == self@.text(),
    {
        proof {
            reveal_strlit(")");
            reveal_strlit("(");
            reveal_strlit("+");
            reveal_strlit("-");
            reveal_strlit("/");
        }
        match self {
            Token::RParen => {
                let s = ")".to_string();
                assert(s@ =~= seq![')']);
                s
            },
            Token::LParen => {
                let s = "(".to_string();
                assert(s@ =~= seq!['(']);
                s
            },
            Token::Plus => {
                let s = "+".to_string();
                assert(s@ =~= seq!['+']);
                s
            },
            Token::Minus => {
                let s = "-".to_string();
                assert(s@ =~= seq!['-']);
                s
            },
            Token::Divide => {
                let s = "/".to_string();
                assert(s@ =~= seq!['/']);
                s
            },
            Token::Word(w) => w.clone(),
            Token::Invalid(w) => w.clone(),
            Token::Number(n) => decimal(*n),
        }
    }
}

/// A lower-case letter.
pub open spec fn is_lower(c: char) -> bool {
    'a' <= c <= 'z'
}

/// A decimal digit.
pub open spec fn is_digit(c: char) -> bool {
    '0' <= c <= '9'
}

/// A character that separates tokens: a space, a tab, a line feed, a form
/// feed or a carriage return.
pub open spec fn is_blank(c: char) -> bool {
    c == ' ' || c == '\t' || c == '\n' || c == '\x0C' || c == '\r'
}

/// The value of a decimal digit.
pub open spec fn digit_value(c: char) -> nat {
    (c as nat - '0' as nat) as nat
}

/// The first place at or behind `pos` that holds no blank.
pub open spec fn blank_end(chars: Seq<char>, pos: int) -> int
    decreases chars.len() - pos,
{
    if 0 <= pos < chars.len() && is_blank(chars[pos]) {
        blank_end(chars, pos + 1)
    } else {
        pos
    }
}

/// The first place at or behind `pos` that holds no lower-case letter.
pub open spec fn word_end(chars: Seq<char>, pos: int) -> int
    decreases chars.len() - pos,
{
    if 0 <= pos < chars.len() && is_lower(chars[pos]) {
        word_end(chars, pos + 1)
    } else {
        pos
    }
}

/// The first place at or behind `pos` that holds no digit.
pub open spec fn digits_end(chars: Seq<char>, pos: int) -> int
    decreases chars.len() - pos,
{
    if 0 <= pos < chars.len() && is_digit(chars[pos]) {
        digits_end(chars, pos + 1)
    } else {
        pos
    }
}

/// The number that a run of digits denotes.
pub open spec fn number_value(digits: Seq<char>) -> nat
    decreases digits.len(),
{
    if digits.len() == 0 {
        0
    } else {
        10 * number_value(digits.drop_last()) + digit_value(digits.last())
    }
}

/// The token of a run of digits: the number, where it fits in 32 bits with
/// a sign, and else the run as an invalid token.
pub open spec fn number_token(digits: Seq<char>) -> TokenView {
    if number_value(digits) <= i32::MAX {
        TokenView::Number(number_value(digits) as i32)
    } else {
        TokenView::Invalid(digits)
    }
}

/// The token that begins at `pos`, where a token begins there, with the
/// place behind it.
pub open spec fn token_at(chars: Seq<char>, pos: int) -> (TokenView, int)
    recommends
        0 <= pos < chars.len(),
{
    let c = chars[pos];
    if is_lower(c) {
        (TokenView::Word(chars.subrange(pos, word_end(chars, pos))), word_end(chars, pos))
    } else if is_digit(c) {
        (number_token(chars.subrange(pos, digits_end(chars, pos))), digits_end(chars, pos))
    } else if c == '+' {
        (TokenView::Plus, pos + 1)
    } else if c == '-' {
        (TokenView::Minus, pos + 1)
    } else if c == '(' {
        (TokenView::LParen, pos + 1)
    } else if c == ')' {
        (TokenView::RParen, pos + 1)
    } else if c == '/' {
        (TokenView::Divide, pos + 1)
    } else {
        (TokenView::Invalid(seq![c]), pos + 1)
    }
}

/// The next token at or behind `pos`, behind any blanks, with the place
/// behind it; `None` where only blanks are left.
pub open spec fn scan(chars: Seq<char>, pos: int) -> Option<(TokenView, int)> {
    let start = blank_end(chars, pos);
    if 0 <= start < chars.len() {
        Some(token_at(chars, start))
    } else {
        None
    }
}

/// The tokens from `pos` to the end of the text.
pub open spec fn tokens_from(chars: Seq<char>, pos: int) -> Seq<TokenView>
    decreases chars.len() - pos,
    via tokens_from_decreases
{
    match scan(chars, pos) {
        None => Seq::empty(),
        Some((token, next)) => seq![token] + tokens_from(chars, next),
    }
}

#[via_fn]
proof fn tokens_from_decreases(chars: Seq<char>, pos: int) {
    lemma_scan_advances(chars, pos);
}

/// The tokens of a text.
pub open spec fn tokenize(chars: Seq<char>) -> Seq<TokenView> {
    tokens_from(chars, 0)
}

proof fn lemma_blank_end(chars: Seq<char>, pos: int)
    ensures
        pos <= blank_end(chars, pos),
        0 <= pos <= chars.len() ==> blank_end(chars, pos) <= chars.len(),
        forall|k: int| pos <= k < blank_end(chars, pos) ==> 0 <= k < chars.len() && is_blank(chars[k]),
        0 <= blank_end(chars, pos) < chars.len() ==> !is_blank(chars[blank_end(chars, pos)]),
    decreases chars.len() - pos,
{
    if 0 <= pos < chars.len() && is_blank(chars[pos]) {
        lemma_blank_end(chars, pos + 1);
    }
}

proof fn lemma_word_end(chars: Seq<char>, pos: int)
    ensures
        pos <= word_end(chars, pos),
        0 <= pos <= chars.len() ==> word_end(chars, pos) <= chars.len(),
        0 <= pos < chars.len() && is_lower(chars[pos]) ==> pos < word_end(chars, pos),
        forall|k: int| pos <= k < word_end(chars, pos) ==> 0 <= k < chars.len() && is_lower(chars[k]),
        0 <= word_end(chars, pos) < chars.len() ==> !is_lower(chars[word_end(chars, pos)]),
    decreases chars.len() - pos,
{
    if 0 <= pos < chars.len() && is_lower(chars[pos]) {
        lemma_word_end(chars, pos + 1);
    }
}

proof fn lemma_digits_end(chars: Seq<char>, pos: int)
    ensures
        pos <= digits_end(chars, pos),
        0 <= pos <= chars.len() ==> digits_end(chars, pos) <= chars.len(),
        0 <= pos < chars.len() && is_digit(chars[pos]) ==> pos < digits_end(chars, pos),
        forall|k: int|
            pos <= k < digits_end(chars, pos) ==> 0 <= k < chars.len() && is_digit(chars[k]),
        0 <= digits_end(chars, pos) < chars.len() ==> !is_digit(chars[digits_end(chars, pos)]),
    decreases chars.len() - pos,
{
    if 0 <= pos < chars.len() && is_digit(chars[pos]) {
        lemma_digits_end(chars, pos + 1);
    }
}

/// A token ends behind the place where the scan for it began, and within
/// the text.
pub proof fn lemma_scan_advances(chars: Seq<char>, pos: int)
    ensures
        scan(chars, pos) matches Some((_, next)) ==> pos < next && (0 <= pos ==> next
            <= chars.len()),
{
    lemma_blank_end(chars, pos);
    let start = blank_end(chars, pos);
    if 0 <= start < chars.len() {
        lemma_word_end(chars, start);
        lemma_digits_end(chars, start);
    }
}

fn lower(c: char) -> (r: bool)
    ensures
        r == is_lower(c),
{
    'a' <= c && c <= 'z'
}

fn digit(c: char) -> (r: bool)
    ensures
        r == is_digit(c),
{
    '0' <= c && c <= '9'
}

fn blank(c: char) -> (r: bool)
    ensures
        r == is_blank(c),
{
    c == ' ' || c == '\t' || c == '\n' || c == '\x0C' || c == '\r'
}

/// The tokens of a text, cut one at a time. The token that was looked at
/// last without being taken is kept, so that it is cut only once.
pub struct Tokens {
    chars: Vec<char>,
    pos: usize,
    next_token: Option<Option<Token>>,
}

impl Tokens {
    /// The place of the scan lies within the text, and where the end of the
    /// tokens was seen, no token is left.
    pub closed spec fn wf(&self) -> bool {
        &&& self.pos <= self.chars.len()
        &&& self.next_token matches Some(None) ==> scan(self.chars@, self.pos as int) is None
    }

    /// The tokens that are still to come.
    pub closed spec fn rest(&self) -> Seq<TokenView> {
        match self.next_token {
            Some(Some(t)) => seq![t@] + tokens_from(self.chars@, self.pos as int),
            _ => tokens_from(self.chars@, self.pos as int),
        }
    }

    /// The tokens of `text`.
    pub fn from(text: &str) -> (tokens: Tokens)
        ensures
            tokens.wf(),
            tokens.rest() == tokenize(text@),
    {
        Tokens { chars: chars_of(text), pos: 0, next_token: None }
    }

    /// The character at the place of the scan.
    fn peek_char(&self) -> (c: Option<char>)
        requires
            self.pos <= self.chars.len(),
        ensures
            c == if self.pos < self.chars.len() {
                Some(self.chars@[self.pos as int])
            } else {
                None
            },
    {
        if self.pos < self.chars.len() {
            Some(self.chars[self.pos])
        } else {
            None
        }
    }

    /// Takes the character at the place of the scan.
    fn take(&mut self) -> (c: Option<char>)
        requires
            old(self).pos <= old(self).chars.len(),
        ensures
            final(self).chars == old(self).chars,
            final(self).next_token == old(self).next_token,
            match c {
                Some(x) => old(self).pos < old(self).chars.len() && x == old(self).chars@[old(self).pos as int] && final(self).pos == old(self).pos + 1,
                None => old(self).pos == old(self).chars.len() && final(self).pos == old(self).pos,
            },
    {
        let c = self.peek_char();
        if c.is_some() {
            self.pos = self.pos + 1;
        }
        c
    }

    /// Takes the run of lower-case letters at the place of the scan.
    fn word(&mut self) -> (token: Token)
        requires
            old(self).pos <= old(self).chars.len(),
        ensures
            final(self).chars == old(self).chars,
            final(self).next_token == old(self).next_token,
            final(self).pos == word_end(old(self).chars@, old(self).pos as int),
            final(self).pos <= final(self).chars.len(),
            token@ == TokenView::Word(
                old(self).chars@.subrange(old(self).pos as int, final(self).pos as int),
            ),
    {
        let start = self.pos;
        proof {
            lemma_word_end(self.chars@, start as int);
        }
        loop
            invariant
                start <= self.pos <= self.chars.len(),
                self.chars == old(self).chars,
                self.next_token == old(self).next_token,
                word_end(self.chars@, start as int) == word_end(self.chars@, self.pos as int),
            ensures
                self.pos == word_end(self.chars@, start as int),
            decreases self.chars.len() - self.pos,
        {
            match self.peek_char() {
                Some(c) => {
                    if lower(c) {
                        self.take();
                    } else {
                        break ;
                    }
                },
                None => {
                    break ;
                },
            }
        }
        Token::Word(string_of(&self.chars, start, self.pos))
    }

    /// Takes the run of digits at the place of the scan.
    fn number(&mut self) -> (token: Token)
        requires
            old(self).pos <= old(self).chars.len(),
        ensures
            final(self).chars == old(self).chars,
            final(self).next_token == old(self).next_token,
            final(self).pos == digits_end(old(self).chars@, old(self).pos as int),
            final(self).pos <= final(self).chars.len(),
            token@ == number_token(
                old(self).chars@.subrange(old(self).pos as int, final(self).pos as int),
            ),
    {
        let start = self.pos;
        let mut value: u32 = 0;
        let mut fits = true;
        assert(self.chars@.subrange(start as int, start as int) =~= Seq::<char>::empty());
        loop
            invariant
                start <= self.pos <= self.chars.len(),
                self.chars == old(self).chars,
                self.next_token == old(self).next_token,
                digits_end(self.chars@, start as int) == digits_end(self.chars@, self.pos as int),
                fits ==> value == number_value(
                    self.chars@.subrange(start as int, self.pos as int),
                ) && value <= i32::MAX,
                !fits ==> number_value(self.chars@.subrange(start as int, self.pos as int))
                    > i32::MAX,
            ensures
                self.pos == digits_end(self.chars@, start as int),
            decreases self.chars.len() - self.pos,
        {
            match self.peek_char() {
                Some(c) => {
                    if digit(c) {
                        let d: u32 = c as u32 - '0' as u32;
                        proof {
                            let run = self.chars@.subrange(start as int, self.pos + 1);
                            assert(run.drop_last() =~= self.chars@.subrange(
                                start as int,
                                self.pos as int,
                            ));
                            assert(run.last() == c);
                            assert(d == digit_value(c));
                        }
                        if fits {
                            if value > (0x7fff_ffffu32 - d) / 10 {
                                fits = false;
                            } else {
                                value = value * 10 + d;
                            }
                        }
                        self.take();
                    } else {
                        break ;
                    }
                },
                None => {
                    break ;
                },
            }
        }
        if fits {
            Token::Number(value as i32)
        } else {
            Token::Invalid(string_of(&self.chars, start, self.pos))
        }
    }

    /// Cuts the next token off the text.
    fn get_next_token(&mut self) -> (token: Option<Token>)
        requires
            old(self).pos <= old(self).chars.len(),
        ensures
            final(self).chars == old(self).chars,
            final(self).next_token == old(self).next_token,
            final(self).pos <= final(self).chars.len(),
            match scan(old(self).chars@, old(self).pos as int) {
                Some((t, next)) => token matches Some(x) && x@ == t && final(self).pos == next,
                None => token is None && scan(final(self).chars@, final(self).pos as int) is None,
            },
    {
        let ghost begin = self.pos as int;
        loop
            invariant
                old(self).pos <= self.pos <= self.chars.len(),
                self.chars == old(self).chars,
                self.next_token == old(self).next_token,
                blank_end(self.chars@, begin) == blank_end(self.chars@, self.pos as int),
                begin == old(self).pos,
            ensures
                self.pos == blank_end(self.chars@, begin),
            decreases self.chars.len() - self.pos,
        {
            match self.peek_char() {
                Some(c) => {
                    if blank(c) {
                        self.take();
                    } else {
                        break ;
                    }
                },
                None => {
                    break ;
                },
            }
        }
        let c = match self.peek_char() {
            Some(c) => c,
            None => {
                return None;
            },
        };
        if lower(c) {
            return Some(self.word());
        }
        if digit(c) {
            return Some(self.number());
        }
        self.take();
        Some(
            if c == '+' {
                Token::Plus
            } else if c == '-' {
                Token::Minus
            } else if c == '(' {
                Token::LParen
            } else if c == ')' {
                Token::RParen
            } else if c == '/' {
                Token::Divide
            } else {
                let mut text = String::new();
                text.push(c);
                assert(text@ =~= seq![c]);
                Token::Invalid(text)
            },
        )
    }

    /// The next token, without taking it.
    pub fn peek(&mut self) -> (token: Option<&Token>)
        requires
            old(self).wf(),
        ensures
            final(self).wf(),
            final(self).rest() == old(self).rest(),
            match token {
                Some(t) => old(self).rest().len() > 0 && t@ == old(self).rest()[0],
                None => old(self).rest().len() == 0,
            },
    {
        if self.next_token.is_none() {
            let token = self.get_next_token();
            self.next_token = Some(token);
        }
        match &self.next_token {
            Some(t) => t.as_ref(),
            None => None,
        }
    }

    /// Takes the next token.
    pub fn next(&mut self) -> (token: Option<Token>)
        requires
            old(self).wf(),
        ensures
            final(self).wf(),
            match token {
                Some(t) => old(self).rest().len() > 0 && t@ == old(self).rest()[0] && final(self).rest() == old(self).rest().drop_first(),
                None => old(self).rest().len() == 0 && final(self).rest() == old(self).rest(),
            },
    {
        match self.next_token.take() {
            Some(Some(t)) => {
                assert((seq![t@] + tokens_from(self.chars@, self.pos as int)).drop_first()
                    =~= tokens_from(self.chars@, self.pos as int));
                Some(t)
            },
            Some(None) => {
                self.next_token = Some(None);
                None
            },
            None => {
                let token = self.get_next_token();
                proof {
                    let all = tokens_from(old(self).chars@, old(self).pos as int);
                    if token is Some {
                        assert(all.drop_first() =~= tokens_from(self.chars@, self.pos as int));
                    }
                }
                if token.is_none() {
                    self.next_token = Some(None);
                }
                token
            },
        }
    }
}

/// A parsed expression. Its words are places in the vocabulary of the
/// model that it was parsed against.
#[derive(Debug, PartialEq, Eq)]
pub enum Expr {
    /// The vector of the word at this place.
    Word(usize),
    /// The sum of two vectors.
    Add(Box<Expr>, Box<Expr>),
    /// The difference of two vectors.
    Sub(Box<Expr>, Box<Expr>),
    /// A vector divided by a positive number.
    Div(Box<Expr>, i32),
}

impl Expr {
    /// Every word of the expression is a place below `n`, and every divisor
    /// is positive.
    pub open spec fn within(self, n: int) -> bool
        decreases self,
    {
        match self {
            Expr::Word(i) => i < n,
            Expr::Add(l, r) => l.within(n) && r.within(n),
            Expr::Sub(l, r) => l.within(n) && r.within(n),
            Expr::Div(l, d) => l.within(n) && d > 0,
        }
    }

    /// The label of the vector that the expression denotes: the word
    /// itself, the labels of the two operands around the sign of a sum or a
    /// difference, and the label of the dividend for a quotient.
    pub open spec fn spec_label(self, words: Seq<WordVecView>) -> Seq<char>
        decreases self,
    {
        match self {
            Expr::Word(i) => words[i as int].word,
            Expr::Add(l, r) => l.spec_label(words) + " + "@ + r.spec_label(words),
            Expr::Sub(l, r) => l.spec_label(words) + " - "@ + r.spec_label(words),
            Expr::Div(l, _) => l.spec_label(words),
        }
    }

    /// The label of the vector that the expression denotes.
    pub fn label(&self, model: &LanguageModel) -> (s: String)
        requires
            self.within(model@.len() as int),
        ensures
            s@ == self.spec_label(model@),
        decreases self,
    {
        match self {
            Expr::Word(i) => model.vector(*i).word.clone(),
            Expr::Add(l, r) => {
                let mut s = l.label(model);
                s.append(" + ");
                s.append(r.label(model).as_str());
                s
            },
            Expr::Sub(l, r) => {
                let mut s = l.label(model);
                s.append(" - ");
                s.append(r.label(model).as_str());
                s
            },
            Expr::Div(l, _) => l.label(model),
        }
    }
}

/// What parsing makes of a sequence of tokens: an expression and the tokens
/// behind it, or the error.
pub type Parsed = Result<(Expr, Seq<TokenView>), ErrorView>;

/// The error of a malformed expression.
pub open spec fn syntax(e: SyntaxErrorView) -> Parsed {
    Err(ErrorView::SyntaxError(e))
}

/// `atom := word | '(' expression ')'`
pub open spec fn parse_atom(ts: Seq<TokenView>, index: Map<Seq<char>, usize>) -> Parsed
    decreases ts.len(), 0nat,
{
    if ts.len() == 0 {
        syntax(SyntaxErrorView::UnexpectedEnd)
    } else {
        match ts[0] {
            TokenView::LParen => match parse_expression(ts.drop_first(), index) {
                Err(e) => Err(e),
                Ok((inner, rest)) => if rest.len() > 0 && rest[0] is RParen {
                    Ok((inner, rest.drop_first()))
                } else {
                    syntax(SyntaxErrorView::UnclosedParen)
                },
            },
            TokenView::Word(w) => if index.contains_key(w) {
                Ok((Expr::Word(index[w]), ts.drop_first()))
            } else {
                Err(ErrorView::UnknownWord(w))
            },
            t => syntax(SyntaxErrorView::UnexpectedToken(t.text())),
        }
    }
}

/// `term := atom ( '/' integer-literal )?`, where the integer is not zero.
pub open spec fn parse_term(ts: Seq<TokenView>, index: Map<Seq<char>, usize>) -> Parsed
    decreases ts.len(), 1nat,
{
    match parse_atom(ts, index) {
        Err(e) => Err(e),
        Ok((atom, rest)) => if rest.len() > 0 && rest[0] is Divide {
            if rest.len() == 1 {
                syntax(SyntaxErrorView::MissingDivisor)
            } else {
                match rest[1] {
                    TokenView::Number(n) => if n > 0 {
                        Ok((Expr::Div(Box::new(atom), n), rest.skip(2)))
                    } else {
                        syntax(SyntaxErrorView::InvalidDivisor(rest[1].text()))
                    },
                    t => syntax(SyntaxErrorView::InvalidDivisor(t.text())),
                }
            }
        } else {
            Ok((atom, rest))
        },
    }
}

/// `( ('+' | '-') term )*` behind the operand `lhs`. The operators group to
/// the left. The list ends at the end of the tokens or before a closing
/// parenthesis.
pub open spec fn parse_tail(lhs: Expr, ts: Seq<TokenView>, index: Map<Seq<char>, usize>) -> Parsed
    decreases ts.len(), 2nat,
{
    if ts.len() == 0 {
        Ok((lhs, ts))
    } else {
        match ts[0] {
            TokenView::RParen => Ok((lhs, ts)),
            TokenView::Plus => match parse_term(ts.drop_first(), index) {
                Err(e) => Err(e),
                Ok((rhs, rest)) => if rest.len() < ts.len() {
                    parse_tail(Expr::Add(Box::new(lhs), Box::new(rhs)), rest, index)
                } else {
                    arbitrary()
                },
            },
            TokenView::Minus => match parse_term(ts.drop_first(), index) {
                Err(e) => Err(e),
                Ok((rhs, rest)) => if rest.len() < ts.len() {
                    parse_tail(Expr::Sub(Box::new(lhs), Box::new(rhs)), rest, index)
                } else {
                    arbitrary()
                },
            },
            TokenView::Invalid(text) => syntax(SyntaxErrorView::Untokenizable(text)),
            t => syntax(SyntaxErrorView::Misplaced(t.text())),
        }
    }
}

/// `expression := term ( ('+' | '-') term )*`
pub open spec fn parse_expression(ts: Seq<TokenView>, index: Map<Seq<char>, usize>) -> Parsed
    decreases ts.len(), 3nat,
{
    match parse_term(ts, index) {
        Err(e) => Err(e),
        Ok((first, rest)) => if rest.len() <= ts.len() {
            parse_tail(first, rest, index)
        } else {
            arbitrary()
        },
    }
}

/// The expression that a sequence of tokens denotes, or what is wrong with
/// it. The expression takes all the tokens: a token behind it, which can
/// only be a closing parenthesis that closes nothing, is an error.
pub open spec fn parsed_tokens(ts: Seq<TokenView>, index: Map<Seq<char>, usize>) -> Result<
    Expr,
    ErrorView,
> {
    match parse_expression(ts, index) {
        Ok((e, rest)) => if rest.len() == 0 {
            Ok(e)
        } else {
            Err(ErrorView::SyntaxError(SyntaxErrorView::UnmatchedParen(rest[0].text())))
        },
        Err(e) => Err(e),
    }
}

/// The expression that a text denotes against an index of words, or what is
/// wrong with it.
pub open spec fn parsed(text: Seq<char>, index: Map<Seq<char>, usize>) -> Result<Expr, ErrorView> {
    parsed_tokens(tokenize(text), index)
}

/// What holds of a successful parse of `ts` that left `rest` and gave `e`,
/// against an index into `n` words.
pub open spec fn consumed(ts: Seq<TokenView>, e: Expr, rest: Seq<TokenView>, n: int) -> bool {
    &&& rest.len() < ts.len()
    &&& rest == ts.skip(ts.len() - rest.len())
    &&& e.within(n)
}

/// A successful parse of an atom takes at least one token, leaves a tail of
/// its tokens, and gives an expression over the vocabulary.
pub proof fn lemma_parse_atom(ts: Seq<TokenView>, index: Map<Seq<char>, usize>, n: int)
    requires
        forall|w: Seq<char>| index.contains_key(w) ==> index[w] < n,
    ensures
        parse_atom(ts, index) matches Ok((e, rest)) ==> consumed(ts, e, rest, n),
    decreases ts.len(), 0nat,
{
    if ts.len() > 0 {
        match ts[0] {
            TokenView::LParen => {
                lemma_parse_expression(ts.drop_first(), index, n);
                match parse_expression(ts.drop_first(), index) {
                    Ok((inner, rest)) => {
                        if rest.len() > 0 && rest[0] is RParen {
                            assert(rest.drop_first() =~= ts.skip(ts.len() - (rest.len() - 1)));
                        }
                    },
                    Err(_) => {},
                }
            },
            TokenView::Word(w) => {
                assert(ts.drop_first() =~= ts.skip(ts.len() - (ts.len() - 1)));
            },
            _ => {},
        }
    }
}

/// A successful parse of a term takes at least one token, leaves a tail of
/// its tokens, and gives an expression over the vocabulary.
pub proof fn lemma_parse_term(ts: Seq<TokenView>, index: Map<Seq<char>, usize>, n: int)
    requires
        forall|w: Seq<char>| index.contains_key(w) ==> index[w] < n,
    ensures
        parse_term(ts, index) matches Ok((e, rest)) ==> consumed(ts, e, rest, n),
    decreases ts.len(), 1nat,
{
    lemma_parse_atom(ts, index, n);
    match parse_atom(ts, index) {
        Ok((atom, rest)) => {
            if rest.len() > 1 {
                assert(rest.skip(2) =~= ts.skip(ts.len() - (rest.len() - 2)));
            }
        },
        Err(_) => {},
    }
}

/// A successful parse of a list of operators and terms leaves a tail of its
/// tokens that is empty or begins with a closing parenthesis, and gives an
/// expression over the vocabulary if the operand before it was one.
pub proof fn lemma_parse_tail(lhs: Expr, ts: Seq<TokenView>, index: Map<Seq<char>, usize>, n: int)
    requires
        forall|w: Seq<char>| index.contains_key(w) ==> index[w] < n,
        lhs.within(n),
    ensures
        parse_tail(lhs, ts, index) matches Ok((e, rest)) ==> {
            &&& rest.len() <= ts.len()
            &&& rest == ts.skip(ts.len() - rest.len())
            &&& e.within(n)
            &&& rest.len() == 0 || rest[0] is RParen
        },
    decreases ts.len(), 2nat,
{
    if ts.len() > 0 {
        assert(ts =~= ts.skip(0));
        if ts[0] is Plus || ts[0] is Minus {
            lemma_parse_term(ts.drop_first(), index, n);
            match parse_term(ts.drop_first(), index) {
                Ok((rhs, rest)) => {
                    let next = if ts[0] is Plus {
                        Expr::Add(Box::new(lhs), Box::new(rhs))
                    } else {
                        Expr::Sub(Box::new(lhs), Box::new(rhs))
                    };
                    lemma_parse_tail(next, rest, index, n);
                    match parse_tail(next, rest, index) {
                        Ok((e, left)) => {
                            assert(left =~= ts.skip(ts.len() - left.len()));
                        },
                        Err(_) => {},
                    }
                },
                Err(_) => {},
            }
        }
    } else {
        assert(ts =~= ts.skip(0));
    }
}

/// A successful parse of an expression takes at least one token, leaves a
/// tail of its tokens that is empty or begins with a closing parenthesis,
/// and gives an expression over the vocabulary.
pub proof fn lemma_parse_expression(ts: Seq<TokenView>, index: Map<Seq<char>, usize>, n: int)
    requires
        forall|w: Seq<char>| index.contains_key(w) ==> index[w] < n,
    ensures
        parse_expression(ts, index) matches Ok((e, rest)) ==> consumed(ts, e, rest, n) && (
        rest.len() == 0 || rest[0] is RParen),
    decreases ts.len(), 3nat,
{
    lemma_parse_term(ts, index, n);
    match parse_term(ts, index) {
        Ok((first, rest)) => {
            lemma_parse_tail(first, rest, index, n);
            match parse_tail(first, rest, index) {
                Ok((e, left)) => {
                    assert(left =~= ts.skip(ts.len() - left.len()));
                },
                Err(_) => {},
            }
        },
        Err(_) => {},
    }
}

/// The outcome `r` of a parsing function that left the tokens `rest` is
/// the one that `spec` describes.
pub open spec fn agrees(r: Result<Expr, Error>, rest: Seq<TokenView>, spec: Parsed) -> bool {
    match spec {
        Ok((e, left)) => r == Ok::<Expr, Error>(e) && rest == left,
        Err(err) => r matches Err(e) && e@ == err,
    }
}

/// The places in the index of a model lie in its vocabulary.
proof fn lemma_index_within(model: &LanguageModel)
    requires
        model@.len() <= usize::MAX,
    ensures
        forall|w: Seq<char>| model.index().contains_key(w) ==> model.index()[w] < model@.len(),
{
    assert forall|w: Seq<char>| model.index().contains_key(w) implies model.index()[w]
        < model@.len() by {
        model.lemma_index(w);
    }
}

fn atom(tokens: &mut Tokens, model: &LanguageModel) -> (r: Result<Expr, Error>)
    requires
        old(tokens).wf(),
        model@.len() <= usize::MAX,
    ensures
        final(tokens).wf(),
        agrees(r, final(tokens).rest(), parse_atom(old(tokens).rest(), model.index())),
    decreases old(tokens).rest().len(), 0nat,
{
    let token = match tokens.next() {
        Some(t) => t,
        None => {
            return Err(Error::SyntaxError(SyntaxError::UnexpectedEnd));
        },
    };
    match token {
        Token::LParen => {
            let inner = match expression(tokens, model) {
                Ok(e) => e,
                Err(e) => {
                    return Err(e);
                },
            };
            match tokens.next() {
                Some(Token::RParen) => Ok(inner),
                _ => Err(Error::SyntaxError(SyntaxError::UnclosedParen)),
            }
        },
        Token::Word(word) => match model.lookup(word.as_str()) {
            Some(i) => Ok(Expr::Word(i)),
            None => Err(Error::UnknownWord(word)),
        },
        other => Err(Error::SyntaxError(SyntaxError::UnexpectedToken(other.to_string()))),
    }
}

fn term(tokens: &mut Tokens, model: &LanguageModel) -> (r: Result<Expr, Error>)
    requires
        old(tokens).wf(),
        model@.len() <= usize::MAX,
    ensures
        final(tokens).wf(),
        agrees(r, final(tokens).rest(), parse_term(old(tokens).rest(), model.index())),
    decreases old(tokens).rest().len(), 1nat,
{
    let operand = match atom(tokens, model) {
        Ok(e) => e,
        Err(e) => {
            return Err(e);
        },
    };
    let ghost rest = tokens.rest();
    let divides = match tokens.peek() {
        Some(Token::Divide) => true,
        _ => false,
    };
    if !divides {
        return Ok(operand);
    }
    tokens.next();
    let divisor = match tokens.next() {
        Some(t) => t,
        None => {
            return Err(Error::SyntaxError(SyntaxError::MissingDivisor));
        },
    };
    assert(tokens.rest() =~= rest.skip(2));
    match divisor {
        Token::Number(n) => {
            if n > 0 {
                Ok(Expr::Div(Box::new(operand), n))
            } else {
                Err(Error::SyntaxError(SyntaxError::InvalidDivisor(divisor.to_string())))
            }
        },
        other => Err(Error::SyntaxError(SyntaxError::InvalidDivisor(other.to_string()))),
    }
}

fn rhs(lhs: Expr, tokens: &mut Tokens, model: &LanguageModel) -> (r: Result<Expr, Error>)
    requires
        old(tokens).wf(),
        model@.len() <= usize::MAX,
    ensures
        final(tokens).wf(),
        agrees(r, final(tokens).rest(), parse_tail(lhs, old(tokens).rest(), model.index())),
    decreases old(tokens).rest().len(), 2nat,
{
    let ends = match tokens.peek() {
        None => true,
        Some(Token::RParen) => true,
        _ => false,
    };
    if ends {
        return Ok(lhs);
    }
    let token = match tokens.next() {
        Some(t) => t,
        None => {
            return Ok(lhs);
        },
    };
    let ghost behind = tokens.rest();
    match token {
        Token::Plus => {
            let operand = match term(tokens, model) {
                Ok(e) => e,
                Err(e) => {
                    return Err(e);
                },
            };
            proof {
                lemma_index_within(model);
                lemma_parse_term(behind, model.index(), model@.len() as int);
            }
            rhs(Expr::Add(Box::new(lhs), Box::new(operand)), tokens, model)
        },
        Token::Minus => {
            let operand = match term(tokens, model) {
                Ok(e) => e,
                Err(e) => {
                    return Err(e);
                },
            };
            proof {
                lemma_index_within(model);
                lemma_parse_term(behind, model.index(), model@.len() as int);
            }
            rhs(Expr::Sub(Box::new(lhs), Box::new(operand)), tokens, model)
        },
        Token::Invalid(text) => Err(Error::SyntaxError(SyntaxError::Untokenizable(text))),
        other => Err(Error::SyntaxError(SyntaxError::Misplaced(other.to_string()))),
    }
}

fn expression(tokens: &mut Tokens, model: &LanguageModel) -> (r: Result<Expr, Error>)
    requires
        old(tokens).wf(),
        model@.len() <= usize::MAX,
    ensures
        final(tokens).wf(),
        agrees(r, final(tokens).rest(), parse_expression(old(tokens).rest(), model.index())),
    decreases old(tokens).rest().len(), 3nat,
{
    let first = match term(tokens, model) {
        Ok(e) => e,
        Err(e) => {
            return Err(e);
        },
    };
    proof {
        lemma_index_within(model);
        lemma_parse_term(old(tokens).rest(), model.index(), model@.len() as int);
    }
    rhs(first, tokens, model)
}

/// Parses an expression against the vocabulary of a model. Succeeds exactly
/// on the texts that follow the grammar from their first token to their
/// last and name only words of the vocabulary, and says what is wrong with
/// any other.
pub fn parse(expr: &str, model: &LanguageModel) -> (r: Result<Expr, Error>)
    ensures
        match parsed(expr@, model.index()) {
            Ok(e) => r == Ok::<Expr, Error>(e) && e.within(model@.len() as int),
            Err(err) => r matches Err(e) && e@ == err,
        },
{
    let mut tokens = Tokens::from(expr);
    let n = model.len();
    proof {
        lemma_index_within(model);
        lemma_parse_expression(tokenize(expr@), model.index(), model@.len() as int);
    }
    let whole = match expression(&mut tokens, model) {
        Ok(e) => e,
        Err(e) => {
            return Err(e);
        },
    };
    match tokens.peek() {
        None => Ok(whole),
        Some(t) => Err(Error::SyntaxError(SyntaxError::UnmatchedParen(t.to_string()))),
    }
}

/// An expression is parsed only where it takes all the tokens, and the
/// token that is reported behind an expression is a closing parenthesis.
pub proof fn lemma_parsed_tokens(ts: Seq<TokenView>, index: Map<Seq<char>, usize>)
    ensures
        parsed_tokens(ts, index) matches Ok(e) ==> parse_expression(ts, index) == Ok::<
            _,
            ErrorView,
        >((e, Seq::<TokenView>::empty())),
        parse_expression(ts, index) matches Ok((_, rest)) ==> rest.len() > 0 ==> parsed_tokens(
            ts,
            index,
        ) == Err::<Expr, _>(ErrorView::SyntaxError(SyntaxErrorView::UnmatchedParen(seq![')']))),
{
    // any bound on the places of the index will do here
    let top = usize::MAX + 1;
    lemma_parse_expression(ts, index, top);
    match parse_expression(ts, index) {
        Ok((e, rest)) => {
            if rest.len() == 0 {
                assert(rest =~= Seq::<TokenView>::empty());
            }
        },
        Err(_) => {},
    }
}

/// `+` or `-`.
pub open spec fn is_sign(t: TokenView) -> bool {
    t is Plus || t is Minus
}

/// The operators group to the left: parentheses around the first two
/// operands of `a op b op c` change nothing, whatever the words and the
/// two signs are, and whether or not the words are in the vocabulary.
pub proof fn lemma_left_grouping(
    a: Seq<char>,
    b: Seq<char>,
    c: Seq<char>,
    first: TokenView,
    second: TokenView,
    index: Map<Seq<char>, usize>,
)
    requires
        is_sign(first),
        is_sign(second),
    ensures
        parsed_tokens(
            seq![TokenView::Word(a), first, TokenView::Word(b), second, TokenView::Word(c)],
            index,
        ) == parsed_tokens(
            seq![
                TokenView::LParen,
                TokenView::Word(a),
                first,
                TokenView::Word(b),
                TokenView::RParen,
                second,
                TokenView::Word(c),
            ],
            index,
        ),
{
    let wa = TokenView::Word(a);
    let wb = TokenView::Word(b);
    let wc = TokenView::Word(c);
    let plain = seq![wa, first, wb, second, wc];
    let grouped = seq![TokenView::LParen, wa, first, wb, TokenView::RParen, second, wc];
    let none = Seq::<TokenView>::empty();
    // the tails of the two sequences
    let r1 = seq![first, wb, second, wc];
    let r2 = seq![wb, second, wc];
    let r3 = seq![second, wc];
    let r4 = seq![wc];
    let g1 = seq![wa, first, wb, TokenView::RParen, second, wc];
    let g2 = seq![first, wb, TokenView::RParen, second, wc];
    let g3 = seq![wb, TokenView::RParen, second, wc];
    let g4 = seq![TokenView::RParen, second, wc];
    assert(plain.drop_first() =~= r1);
    assert(r1.drop_first() =~= r2);
    assert(r2.drop_first() =~= r3);
    assert(r3.drop_first() =~= r4);
    assert(r4.drop_first() =~= none);
    assert(grouped.drop_first() =~= g1);
    assert(g1.drop_first() =~= g2);
    assert(g2.drop_first() =~= g3);
    assert(g3.drop_first() =~= g4);
    assert(g4.drop_first() =~= r3);
    reveal_with_fuel(parse_atom, 2);
    reveal_with_fuel(parse_term, 2);
    reveal_with_fuel(parse_tail, 4);
    reveal_with_fuel(parse_expression, 2);
    if index.contains_key(a) && index.contains_key(b) && index.contains_key(c) {
        let ea = Expr::Word(index[a]);
        let eb = Expr::Word(index[b]);
        let ec = Expr::Word(index[c]);
        let left = if first is Plus {
            Expr::Add(Box::new(ea), Box::new(eb))
        } else {
            Expr::Sub(Box::new(ea), Box::new(eb))
        };
        let whole = if second is Plus {
            Expr::Add(Box::new(left), Box::new(ec))
        } else {
            Expr::Sub(Box::new(left), Box::new(ec))
        };
        // without parentheses
        assert(parse_term(r4, index) == Ok::<_, ErrorView>((ec, none)));
        assert(parse_tail(whole, none, index) == Ok::<_, ErrorView>((whole, none)));
        assert(parse_tail(left, r3, index) == Ok::<_, ErrorView>((whole, none)));
        assert(parse_term(r2, index) == Ok::<_, ErrorView>((eb, r3)));
        assert(parse_tail(ea, r1, index) == Ok::<_, ErrorView>((whole, none)));
        assert(parse_term(plain, index) == Ok::<_, ErrorView>((ea, r1)));
        assert(parse_expression(plain, index) == Ok::<_, ErrorView>((whole, none)));
        // with parentheses
        assert(parse_term(g3, index) == Ok::<_, ErrorView>((eb, g4)));
        assert(parse_tail(left, g4, index) == Ok::<_, ErrorView>((left, g4)));
        assert(parse_tail(ea, g2, index) == Ok::<_, ErrorView>((left, g4)));
        assert(parse_term(g1, index) == Ok::<_, ErrorView>((ea, g2)));
        assert(parse_expression(g1, index) == Ok::<_, ErrorView>((left, g4)));
        assert(parse_atom(grouped, index) == Ok::<_, ErrorView>((left, r3)));
        assert(parse_term(grouped, index) == Ok::<_, ErrorView>((left, r3)));
        assert(parse_expression(grouped, index) == Ok::<_, ErrorView>((whole, none)));
    } else if !index.contains_key(a) {
        assert(parse_term(plain, index) == Err::<(Expr, Seq<TokenView>), _>(ErrorView::UnknownWord(a)));
        assert(parse_term(g1, index) == Err::<(Expr, Seq<TokenView>), _>(ErrorView::UnknownWord(a)));
        assert(parse_expression(g1, index) == Err::<(Expr, Seq<TokenView>), _>(ErrorView::UnknownWord(a)));
        assert(parse_atom(grouped, index) == Err::<(Expr, Seq<TokenView>), _>(ErrorView::UnknownWord(a)));
    } else if !index.contains_key(b) {
        let ea = Expr::Word(index[a]);
        assert(parse_term(r2, index) == Err::<(Expr, Seq<TokenView>), _>(ErrorView::UnknownWord(b)));
        assert(parse_tail(ea, r1, index) == Err::<(Expr, Seq<TokenView>), _>(ErrorView::UnknownWord(b)));
        assert(parse_term(plain, index) == Ok::<_, ErrorView>((ea, r1)));
        assert(parse_term(g3, index) == Err::<(Expr, Seq<TokenView>), _>(ErrorView::UnknownWord(b)));
        assert(parse_tail(ea, g2, index) == Err::<(Expr, Seq<TokenView>), _>(ErrorView::UnknownWord(b)));
        assert(parse_term(g1, index) == Ok::<_, ErrorView>((ea, g2)));
        assert(parse_expression(g1, index) == Err::<(Expr, Seq<TokenView>), _>(ErrorView::UnknownWord(b)));
        assert(parse_atom(grouped, index) == Err::<(Expr, Seq<TokenView>), _>(ErrorView::UnknownWord(b)));
    } else {
        let ea = Expr::Word(index[a]);
        let eb = Expr::Word(index[b]);
        let left = if first is Plus {
            Expr::Add(Box::new(ea), Box::new(eb))
        } else {
            Expr::Sub(Box::new(ea), Box::new(eb))
        };
        assert(parse_term(r4, index) == Err::<(Expr, Seq<TokenView>), _>(ErrorView::UnknownWord(c)));
        assert(parse_tail(left, r3, index) == Err::<(Expr, Seq<TokenView>), _>(ErrorView::UnknownWord(c)));
        assert(parse_term(r2, index) == Ok::<_, ErrorView>((eb, r3)));
        assert(parse_tail(ea, r1, index) == Err::<(Expr, Seq<TokenView>), _>(ErrorView::UnknownWord(c)));
        assert(parse_term(plain, index) == Ok::<_, ErrorView>((ea, r1)));
        assert(parse_term(g3, index) == Ok::<_, ErrorView>((eb, g4)));
        assert(parse_tail(left, g4, index) == Ok::<_, ErrorView>((left, g4)));
        assert(parse_tail(ea, g2, index) == Ok::<_, ErrorView>((left, g4)));
        assert(parse_term(g1, index) == Ok::<_, ErrorView>((ea, g2)));
        assert(parse_expression(g1, index) == Ok::<_, ErrorView>((left, g4)));
        assert(parse_atom(grouped, index) == Ok::<_, ErrorView>((left, r3)));
        assert(parse_term(grouped, index) == Ok::<_, ErrorView>((left, r3)));
    }
}

proof fn lemma_blank_end_shift(chars: Seq<char>, k: int, pos: int)
    requires
        0 <= k <= pos <= chars.len(),
    ensures
        blank_end(chars.skip(k), pos - k) == blank_end(chars, pos) - k,
    decreases chars.len() - pos,
{
    if pos < chars.len() && is_blank(chars[pos]) {
        lemma_blank_end_shift(chars, k, pos + 1);
    }
}

proof fn lemma_word_end_shift(chars: Seq<char>, k: int, pos: int)
    requires
        0 <= k <= pos <= chars.len(),
    ensures
        word_end(chars.skip(k), pos - k) == word_end(chars, pos) - k,
    decreases chars.len() - pos,
{
    if pos < chars.len() && is_lower(chars[pos]) {
        lemma_word_end_shift(chars, k, pos + 1);
    }
}

proof fn lemma_digits_end_shift(chars: Seq<char>, k: int, pos: int)
    requires
        0 <= k <= pos <= chars.len(),
    ensures
        digits_end(chars.skip(k), pos - k) == digits_end(chars, pos) - k,
    decreases chars.len() - pos,
{
    if pos < chars.len() && is_digit(chars[pos]) {
        lemma_digits_end_shift(chars, k, pos + 1);
    }
}

/// The scan of a text from a place on is the scan of the text behind that
/// place, with the places counted from there.
proof fn lemma_scan_shift(chars: Seq<char>, k: int, pos: int)
    requires
        0 <= k <= pos <= chars.len(),
    ensures
        match scan(chars, pos) {
            Some((t, next)) => scan(chars.skip(k), pos - k) == Some((t, next - k)),
            None => scan(chars.skip(k), pos - k) is None,
        },
{
    lemma_blank_end_shift(chars, k, pos);
    lemma_blank_end(chars, pos);
    let start = blank_end(chars, pos);
    if start < chars.len() {
        lemma_word_end_shift(chars, k, start);
        lemma_digits_end_shift(chars, k, start);
        lemma_word_end(chars, start);
        lemma_digits_end(chars, start);
        assert(chars.skip(k).subrange(start - k, word_end(chars, start) - k) =~= chars.subrange(
            start,
            word_end(chars, start),
        ));
        assert(chars.skip(k).subrange(start - k, digits_end(chars, start) - k)
            =~= chars.subrange(start, digits_end(chars, start)));
    }
}

/// The tokens of a text from a place on are the tokens of the text behind
/// that place.
pub proof fn lemma_tokens_of_suffix(chars: Seq<char>, pos: int)
    requires
        0 <= pos <= chars.len(),
    ensures
        tokens_from(chars, pos) == tokenize(chars.skip(pos)),
    decreases chars.len() - pos,
{
    lemma_scan_shift(chars, pos, pos);
    lemma_scan_advances(chars, pos);
    match scan(chars, pos) {
        Some((t, next)) => {
            lemma_tokens_of_suffix(chars, next);
            lemma_tokens_of_suffix(chars.skip(pos), next - pos);
            assert(chars.skip(pos).skip(next - pos) =~= chars.skip(next));
        },
        None => {},
    }
}

/// A word: a run of lower-case letters that is not empty.
pub open spec fn is_word(text: Seq<char>) -> bool {
    text.len() > 0 && forall|i: int| 0 <= i < text.len() ==> is_lower(#[trigger] text[i])
}

/// The token of a character that is a token by itself.
pub open spec fn sign_token(c: char) -> TokenView {
    if c == '+' {
        TokenView::Plus
    } else if c == '-' {
        TokenView::Minus
    } else if c == '(' {
        TokenView::LParen
    } else if c == ')' {
        TokenView::RParen
    } else if c == '/' {
        TokenView::Divide
    } else {
        TokenView::Invalid(seq![c])
    }
}

proof fn lemma_word_end_of_run(chars: Seq<char>, pos: int, end: int)
    requires
        0 <= pos <= end <= chars.len(),
        forall|i: int| pos <= i < end ==> is_lower(#[trigger] chars[i]),
        end == chars.len() || !is_lower(chars[end]),
    ensures
        word_end(chars, pos) == end,
    decreases end - pos,
{
    if pos < end {
        lemma_word_end_of_run(chars, pos + 1, end);
    }
}

/// A word at the beginning of a text is its first token, where no
/// lower-case letter follows the word.
pub proof fn lemma_tokenize_word(word: Seq<char>, rest: Seq<char>)
    requires
        is_word(word),
        rest.len() == 0 || !is_lower(rest[0]),
    ensures
        tokenize(word + rest) == seq![TokenView::Word(word)] + tokenize(rest),
{
    let chars = word + rest;
    let end = word.len() as int;
    assert(is_lower(chars[0])) by {
        assert(chars[0] == word[0]);
    }
    assert forall|i: int| 0 <= i < end implies is_lower(#[trigger] chars[i]) by {
        assert(chars[i] == word[i]);
    }
    if rest.len() > 0 {
        assert(chars[end] == rest[0]);
    }
    lemma_word_end_of_run(chars, 0, end);
    assert(chars.subrange(0, end) =~= word);
    lemma_tokens_of_suffix(chars, end);
    assert(chars.skip(end) =~= rest);
}

/// A character that is neither a blank, a letter nor a digit is a token by
/// itself.
pub proof fn lemma_tokenize_sign(c: char, rest: Seq<char>)
    requires
        !is_blank(c),
        !is_lower(c),
        !is_digit(c),
    ensures
        tokenize(seq![c] + rest) == seq![sign_token(c)] + tokenize(rest),
{
    let chars = seq![c] + rest;
    assert(chars[0] == c);
    lemma_tokens_of_suffix(chars, 1);
    assert(chars.skip(1) =~= rest);
}

/// A blank at the beginning of a text changes nothing of its tokens.
pub proof fn lemma_tokenize_blank(c: char, rest: Seq<char>)
    requires
        is_blank(c),
    ensures
        tokenize(seq![c] + rest) == tokenize(rest),
{
    let chars = seq![c] + rest;
    assert(chars[0] == c);
    assert(blank_end(chars, 0) == blank_end(chars, 1));
    assert(scan(chars, 0) == scan(chars, 1));
    lemma_scan_advances(chars, 0);
    lemma_tokens_of_suffix(chars, 1);
    assert(chars.skip(1) =~= rest);
}

/// The text `a - b + c` denotes what `(a - b) + c` denotes, for any three
/// words: the same expression where all three are in the vocabulary, and
/// else the same error.
pub proof fn lemma_grouping_of_text(
    a: Seq<char>,
    b: Seq<char>,
    c: Seq<char>,
    index: Map<Seq<char>, usize>,
)
    requires
        is_word(a),
        is_word(b),
        is_word(c),
    ensures
        parsed(a + " - "@ + b + " + "@ + c, index) == parsed(
            "("@ + a + " - "@ + b + ") + "@ + c,
            index,
        ),
{
    reveal_strlit(" - ");
    reveal_strlit(" + ");
    reveal_strlit("(");
    reveal_strlit(") + ");
    let none = Seq::<char>::empty();
    let wa = TokenView::Word(a);
    let wb = TokenView::Word(b);
    let wc = TokenView::Word(c);
    // the text behind each token, from the end
    let t0 = c + none;
    let t1 = seq![' '] + t0;
    let t2 = seq!['+'] + t1;
    let t3 = seq![' '] + t2;
    lemma_tokenize_word(c, none);
    assert(tokenize(none) =~= Seq::<TokenView>::empty());
    lemma_tokenize_blank(' ', t0);
    lemma_tokenize_sign('+', t1);
    lemma_tokenize_blank(' ', t2);
    assert(tokenize(t3) =~= seq![TokenView::Plus, wc]);
    // a - b + c
    let r4 = b + t3;
    let r5 = seq![' '] + r4;
    let r6 = seq!['-'] + r5;
    let r7 = seq![' '] + r6;
    let r8 = a + r7;
    assert(t3[0] == ' ');
    lemma_tokenize_word(b, t3);
    lemma_tokenize_blank(' ', r4);
    lemma_tokenize_sign('-', r5);
    lemma_tokenize_blank(' ', r6);
    assert(r7[0] == ' ');
    lemma_tokenize_word(a, r7);
    assert(tokenize(r8) =~= seq![wa, TokenView::Minus, wb, TokenView::Plus, wc]);
    assert(a + " - "@ + b + " + "@ + c =~= r8);
    // (a - b) + c
    let g3 = seq![')'] + t3;
    let g4 = b + g3;
    let g5 = seq![' '] + g4;
    let g6 = seq!['-'] + g5;
    let g7 = seq![' '] + g6;
    let g8 = a + g7;
    let g9 = seq!['('] + g8;
    lemma_tokenize_sign(')', t3);
    assert(g3[0] == ')');
    lemma_tokenize_word(b, g3);
    lemma_tokenize_blank(' ', g4);
    lemma_tokenize_sign('-', g5);
    lemma_tokenize_blank(' ', g6);
    assert(g7[0] == ' ');
    lemma_tokenize_word(a, g7);
    lemma_tokenize_sign('(', g8);
    assert(tokenize(g9) =~= seq![
        TokenView::LParen,
        wa,
        TokenView::Minus,
        wb,
        TokenView::RParen,
        TokenView::Plus,
        wc,
    ]);
    assert("("@ + a + " - "@ + b + ") + "@ + c =~= g9);
    lemma_left_grouping(a, b, c, TokenView::Minus, TokenView::Plus, index);
}

/// A number: a run of digits that is not empty.
pub open spec fn is_number(text: Seq<char>) -> bool {
    text.len() > 0 && forall|i: int| 0 <= i < text.len() ==> is_digit(#[trigger] text[i])
}

proof fn lemma_digits_end_of_run(chars: Seq<char>, pos: int, end: int)
    requires
        0 <= pos <= end <= chars.len(),
        forall|i: int| pos <= i < end ==> is_digit(#[trigger] chars[i]),
        end == chars.len() || !is_digit(chars[end]),
    ensures
        digits_end(chars, pos) == end,
    decreases end - pos,
{
    if pos < end {
        lemma_digits_end_of_run(chars, pos + 1, end);
    }
}

/// A number at the beginning of a text is its first token, where no digit
/// follows the number.
pub proof fn lemma_tokenize_number(number: Seq<char>, rest: Seq<char>)
    requires
        is_number(number),
        rest.len() == 0 || !is_digit(rest[0]),
    ensures
        tokenize(number + rest) == seq![number_token(number)] + tokenize(rest),
{
    let chars = number + rest;
    let end = number.len() as int;
    assert(is_digit(chars[0])) by {
        assert(chars[0] == number[0]);
    }
    assert forall|i: int| 0 <= i < end implies is_digit(#[trigger] chars[i]) by {
        assert(chars[i] == number[i]);
    }
    if rest.len() > 0 {
        assert(chars[end] == rest[0]);
    }
    lemma_digits_end_of_run(chars, 0, end);
    assert(chars.subrange(0, end) =~= number);
    lemma_tokens_of_suffix(chars, end);
    assert(chars.skip(end) =~= rest);
}

/// The text `(a + a) / 2` denotes the half of the sum of the vector of `a`
/// with itself, for any word `a` of the vocabulary.
pub proof fn lemma_half_of_double(a: Seq<char>, index: Map<Seq<char>, usize>)
    requires
        is_word(a),
        index.contains_key(a),
    ensures
        parsed("("@ + a + " + "@ + a + ") / 2"@, index) == Ok::<Expr, ErrorView>(
            Expr::Div(
                Box::new(Expr::Add(Box::new(Expr::Word(index[a])), Box::new(Expr::Word(index[a])))),
                2,
            ),
        ),
{
    reveal_strlit(" + ");
    reveal_strlit("(");
    reveal_strlit(") / 2");
    let none = Seq::<char>::empty();
    let none_t = Seq::<TokenView>::empty();
    let wa = TokenView::Word(a);
    let two = seq!['2'];
    let t0 = two + none;
    let t1 = seq![' '] + t0;
    let t2 = seq!['/'] + t1;
    let t3 = seq![' '] + t2;
    let t4 = seq![')'] + t3;
    let t5 = a + t4;
    let t6 = seq![' '] + t5;
    let t7 = seq!['+'] + t6;
    let t8 = seq![' '] + t7;
    let t9 = a + t8;
    let t10 = seq!['('] + t9;
    assert(is_number(two));
    assert(number_value(two) == 2) by {
        assert(two.drop_last() =~= none);
        assert(number_value(none) == 0);
        assert(digit_value('2') == 2);
    }
    assert(tokenize(none) =~= none_t);
    lemma_tokenize_number(two, none);
    lemma_tokenize_blank(' ', t0);
    lemma_tokenize_sign('/', t1);
    lemma_tokenize_blank(' ', t2);
    lemma_tokenize_sign(')', t3);
    assert(t4[0] == ')');
    lemma_tokenize_word(a, t4);
    lemma_tokenize_blank(' ', t5);
    lemma_tokenize_sign('+', t6);
    lemma_tokenize_blank(' ', t7);
    assert(t8[0] == ' ');
    lemma_tokenize_word(a, t8);
    lemma_tokenize_sign('(', t9);
    let n2 = TokenView::Number(2);
    let s0 = seq![n2];
    let s1 = seq![TokenView::Divide, n2];
    let s2 = seq![TokenView::RParen, TokenView::Divide, n2];
    let s3 = seq![wa, TokenView::RParen, TokenView::Divide, n2];
    let s4 = seq![TokenView::Plus, wa, TokenView::RParen, TokenView::Divide, n2];
    let s5 = seq![wa, TokenView::Plus, wa, TokenView::RParen, TokenView::Divide, n2];
    let s6 = seq![TokenView::LParen, wa, TokenView::Plus, wa, TokenView::RParen, TokenView::Divide, n2];
    assert(tokenize(t10) =~= s6);
    assert("("@ + a + " + "@ + a + ") / 2"@ =~= t10);
    assert(s6.drop_first() =~= s5);
    assert(s5.drop_first() =~= s4);
    assert(s4.drop_first() =~= s3);
    assert(s3.drop_first() =~= s2);
    assert(s2.drop_first() =~= s1);
    assert(s1.skip(2) =~= none_t);
    let ea = Expr::Word(index[a]);
    let sum = Expr::Add(Box::new(ea), Box::new(ea));
    let half = Expr::Div(Box::new(sum), 2);
    reveal_with_fuel(parse_atom, 2);
    reveal_with_fuel(parse_term, 2);
    reveal_with_fuel(parse_tail, 3);
    reveal_with_fuel(parse_expression, 2);
    assert(parse_term(s3, index) == Ok::<_, ErrorView>((ea, s2)));
    assert(parse_tail(sum, s2, index) == Ok::<_, ErrorView>((sum, s2)));
    assert(parse_tail(ea, s4, index) == Ok::<_, ErrorView>((sum, s2)));
    assert(parse_term(s5, index) == Ok::<_, ErrorView>((ea, s4)));
    assert(parse_expression(s5, index) == Ok::<_, ErrorView>((sum, s2)));
    assert(parse_atom(s6, index) == Ok::<_, ErrorView>((sum, s1)));
    assert(parse_term(s6, index) == Ok::<_, ErrorView>((half, none_t)));
    assert(parse_tail(half, none_t, index) == Ok::<_, ErrorView>((half, none_t)));
    assert(parse_expression(s6, index) == Ok::<_, ErrorView>((half, none_t)));
}

} // verus!
