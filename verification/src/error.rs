use vstd::prelude::*;

verus! {

/// What is wrong with the text of an expression. Each variant that names a
/// piece of the input carries that piece as written.
#[derive(Debug, Clone, PartialEq, Eq)]
pub enum SyntaxError {
    /// The input ended where a word or an opening parenthesis had to follow.
    UnexpectedEnd,
    /// A token that cannot begin an operand stood where one had to begin.
    UnexpectedToken(String),
    /// A token that cannot follow a complete operand stood behind one.
    Misplaced(String),
    /// A piece of the input that is no token of the language.
    Untokenizable(String),
    /// An opening parenthesis whose closing one is missing.
    UnclosedParen,
    /// A closing parenthesis that closes nothing, behind a complete
    /// expression.
    UnmatchedParen(String),
    /// The input ended behind a division sign.
    MissingDivisor,
    /// What follows a division sign is not a positive integer literal.
    InvalidDivisor(String),
}

/// `SyntaxError` with its texts as sequences of characters.
pub ghost enum SyntaxErrorView {
    UnexpectedEnd,
    UnexpectedToken(Seq<char>),
    Misplaced(Seq<char>),
    Untokenizable(Seq<char>),
    UnclosedParen,
    UnmatchedParen(Seq<char>),
    MissingDivisor,
    InvalidDivisor(Seq<char>),
}

impl View for SyntaxError {
    type V = SyntaxErrorView;

    open spec fn view(&self) -> SyntaxErrorView {
        match *self {
            SyntaxError::UnexpectedEnd => SyntaxErrorView::UnexpectedEnd,
            SyntaxError::UnexpectedToken(t) => SyntaxErrorView::UnexpectedToken(t@),
            SyntaxError::Misplaced(t) => SyntaxErrorView::Misplaced(t@),
            SyntaxError::Untokenizable(t) => SyntaxErrorView::Untokenizable(t@),
            SyntaxError::UnclosedParen => SyntaxErrorView::UnclosedParen,
            SyntaxError::UnmatchedParen(t) => SyntaxErrorView::UnmatchedParen(t@),
            SyntaxError::MissingDivisor => SyntaxErrorView::MissingDivisor,
            SyntaxError::InvalidDivisor(t) => SyntaxErrorView::InvalidDivisor(t@),
        }
    }
}

/// The recoverable failures of the library.
#[derive(Debug, Clone, PartialEq, Eq)]
pub enum Error {
    /// A stored model or vocabulary list does not follow its format.
    FormatError,
    /// A word of an expression is not in the vocabulary.
    UnknownWord(String),
    /// An expression is malformed.
    SyntaxError(SyntaxError),
    /// A component of a vector is not a finite number, or a distance is not
    /// a number.
    InvalidVector,
    /// A failure reported from outside the library, by its description.
    Other(String),
}

/// `Error` with its texts as sequences of characters.
pub ghost enum ErrorView {
    FormatError,
    UnknownWord(Seq<char>),
    SyntaxError(SyntaxErrorView),
    InvalidVector,
    Other(Seq<char>),
}

impl View for Error {
    type V = ErrorView;

    open spec fn view(&self) -> ErrorView {
        match *self {
            Error::FormatError => ErrorView::FormatError,
            Error::UnknownWord(w) => ErrorView::UnknownWord(w@),
            Error::SyntaxError(e) => ErrorView::SyntaxError(e@),
            Error::InvalidVector => ErrorView::InvalidVector,
            Error::Other(m) => ErrorView::Other(m@),
        }
    }
}

/// `text` between single quotes, followed by `tail`.
pub open spec fn quoted(text: Seq<char>, tail: Seq<char>) -> Seq<char> {
    seq!['\''] + text + seq!['\''] + tail
}

fn quote(text: &str, tail: &str) -> (r: String)
    ensures
        r@ == quoted(text@, tail@),
{
    let mut r = "'".to_string();
    proof {
        reveal_strlit("'");
        assert("'"@ =~= seq!['\'']);
    }
    r.append(text);
    r.append("'");
    r.append(tail);
    r
}

impl SyntaxErrorView {
    /// The sentence that describes the error.
    pub open spec fn message(self) -> Seq<char> {
        match self {
            SyntaxErrorView::UnexpectedEnd => "Invalid end of expression"@,
            SyntaxErrorView::UnexpectedToken(t) => "Invalid token "@ + t,
            SyntaxErrorView::Misplaced(t) => quoted(t, " found in invalid position"@),
            SyntaxErrorView::Untokenizable(t) => quoted(t, " could not be tokenized"@),
            SyntaxErrorView::UnclosedParen => "Unclosed parentheses"@,
            SyntaxErrorView::UnmatchedParen(t) => quoted(t, " closes no parenthesis"@),
            SyntaxErrorView::MissingDivisor =>
                "An expression may not end with a division operator"@,
            SyntaxErrorView::InvalidDivisor(t) => quoted(
                t,
                " is not a valid numerator: must be an integer"@,
            ),
        }
    }
}

impl ErrorView {
    /// The sentence that describes the error.
    pub open spec fn message(self) -> Seq<char> {
        match self {
            ErrorView::FormatError => "Invalid format for vocabulary file"@,
            ErrorView::UnknownWord(w) => quoted(w, " is not present in the language model"@),
            ErrorView::SyntaxError(e) => e.message(),
            ErrorView::InvalidVector => "Vector holds a value that is not a finite number"@,
            ErrorView::Other(m) => m,
        }
    }
}

impl SyntaxError {
    /// Describes the error in a sentence.
    pub fn message(&self) -> (r: String)
        ensures
            r@ == self@.message(),
    {
        match self {
            SyntaxError::UnexpectedEnd => "Invalid end of expression".to_string(),
            SyntaxError::UnexpectedToken(t) => {
                let mut r = "Invalid token ".to_string();
                r.append(t.as_str());
                r
            },
            SyntaxError::Misplaced(t) => quote(t.as_str(), " found in invalid position"),
            SyntaxError::Untokenizable(t) => quote(t.as_str(), " could not be tokenized"),
            SyntaxError::UnclosedParen => "Unclosed parentheses".to_string(),
            SyntaxError::UnmatchedParen(t) => quote(t.as_str(), " closes no parenthesis"),
            SyntaxError::MissingDivisor =>
                "An expression may not end with a division operator".to_string(),
            SyntaxError::InvalidDivisor(t) => quote(
                t.as_str(),
                " is not a valid numerator: must be an integer",
            ),
        }
    }
}

impl Error {
    /// Describes the error in a sentence.
    pub fn message(&self) -> (r: String)
        ensures
            r@ == self@.message(),
    {
        match self {
            Error::FormatError => "Invalid format for vocabulary file".to_string(),
            Error::UnknownWord(w) => quote(w.as_str(), " is not present in the language model"),
            Error::SyntaxError(e) => e.message(),
            Error::InvalidVector => "Vector holds a value that is not a finite number".to_string(),
            Error::Other(m) => m.clone(),
        }
    }
}

} // verus!
