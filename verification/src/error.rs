use vstd::prelude::*;
use vstd::string::*;
use crate::symbols::SymbolDef;
use crate::text::{digits_of, push_number};

verus! {

/// Remembers where a token was read, so that an error found later can be
/// reported at that place. `None` stands for the end of the input.
#[derive(Clone, Copy, Debug, PartialEq)]
pub struct SyntaxErrorFactory {
    pub pos: Option<(usize, usize)>,
}

impl SyntaxErrorFactory {
    pub fn new(line: usize, column: usize) -> (r: SyntaxErrorFactory)
        ensures
            r.pos == Some((line, column)),
    {
        SyntaxErrorFactory { pos: Some((line, column)) }
    }

    pub fn new_eof() -> (r: SyntaxErrorFactory)
        ensures
            r.pos is None,
    {
        SyntaxErrorFactory { pos: None }
    }

    /// The place of the first token, or the end of the input when there is
    /// no token at all.
    pub fn from_symbols(symbols: &[SymbolDef]) -> (r: SyntaxErrorFactory)
        ensures
            r.pos == (if symbols@.len() == 0 {
                None
            } else {
                symbols@[0].errfactory.pos
            }),
    {
        if symbols.len() == 0 {
            SyntaxErrorFactory::new_eof()
        } else {
            symbols[0].errfactory
        }
    }

    pub fn gen_error(&self, errortype: SyntaxErrorType) -> (r: SyntaxError)
        ensures
            r.pos == self.pos,
            r.errortype == errortype,
    {
        SyntaxError { errortype, pos: self.pos }
    }
}

#[derive(Debug, PartialEq)]
pub enum SyntaxErrorType {
    UnexpectedSymbol(char),
    ExpectedSemicolon,
    MalformedUserpath,
    MalformedIfStatement,
    NotAType,
    BadExpression,
    BadUserBlock,
    BadDefinition(Option<String>),
}

/// The mathematical value of a `SyntaxErrorType`.
pub enum SyntaxErrorKind {
    UnexpectedSymbol(char),
    ExpectedSemicolon,
    MalformedUserpath,
    MalformedIfStatement,
    NotAType,
    BadExpression,
    BadUserBlock,
    BadDefinition(Option<Seq<char>>),
}

impl View for SyntaxErrorType {
    type V = SyntaxErrorKind;

    open spec fn view(&self) -> SyntaxErrorKind {
        match self {
            SyntaxErrorType::UnexpectedSymbol(c) => SyntaxErrorKind::UnexpectedSymbol(*c),
            SyntaxErrorType::ExpectedSemicolon => SyntaxErrorKind::ExpectedSemicolon,
            SyntaxErrorType::MalformedUserpath => SyntaxErrorKind::MalformedUserpath,
            SyntaxErrorType::MalformedIfStatement => SyntaxErrorKind::MalformedIfStatement,
            SyntaxErrorType::NotAType => SyntaxErrorKind::NotAType,
            SyntaxErrorType::BadExpression => SyntaxErrorKind::BadExpression,
            SyntaxErrorType::BadUserBlock => SyntaxErrorKind::BadUserBlock,
            SyntaxErrorType::BadDefinition(kind) => SyntaxErrorKind::BadDefinition(
                match kind {
                    Some(name) => Some(name@),
                    None => None,
                },
            ),
        }
    }
}

impl Clone for SyntaxErrorType {
    fn clone(&self) -> (r: Self)
        ensures
            r@ == self@,
    {
        match self {
            SyntaxErrorType::UnexpectedSymbol(c) => SyntaxErrorType::UnexpectedSymbol(*c),
            SyntaxErrorType::ExpectedSemicolon => SyntaxErrorType::ExpectedSemicolon,
            SyntaxErrorType::MalformedUserpath => SyntaxErrorType::MalformedUserpath,
            SyntaxErrorType::MalformedIfStatement => SyntaxErrorType::MalformedIfStatement,
            SyntaxErrorType::NotAType => SyntaxErrorType::NotAType,
            SyntaxErrorType::BadExpression => SyntaxErrorType::BadExpression,
            SyntaxErrorType::BadUserBlock => SyntaxErrorType::BadUserBlock,
            SyntaxErrorType::BadDefinition(kind) => SyntaxErrorType::BadDefinition(
                match kind {
                    Some(name) => Some(name.clone()),
                    None => None,
                },
            ),
        }
    }
}

/// A lexical or syntactic error: what went wrong, and where. `pos` is the
/// line and column, or `None` for the end of the input.
#[derive(Debug, PartialEq)]
pub struct SyntaxError {
    pub pos: Option<(usize, usize)>,
    pub errortype: SyntaxErrorType,
}

/// The mathematical value of a `SyntaxError`.
pub struct SyntaxErrorView {
    pub pos: Option<(usize, usize)>,
    pub errortype: SyntaxErrorKind,
}

impl View for SyntaxError {
    type V = SyntaxErrorView;

    open spec fn view(&self) -> SyntaxErrorView {
        SyntaxErrorView { pos: self.pos, errortype: self.errortype@ }
    }
}

impl Clone for SyntaxError {
    fn clone(&self) -> (r: Self)
        ensures
            r@ == self@,
    {
        SyntaxError { pos: self.pos, errortype: self.errortype.clone() }
    }
}

impl SyntaxError {
    pub fn new(line: usize, column: usize, errortype: SyntaxErrorType) -> (r: SyntaxError)
        ensures
            r.pos == Some((line, column)),
            r.errortype == errortype,
    {
        SyntaxError { errortype, pos: Some((line, column)) }
    }

    pub fn new_eof(errortype: SyntaxErrorType) -> (r: SyntaxError)
        ensures
            r.pos is None,
            r.errortype == errortype,
    {
        SyntaxError { errortype, pos: None }
    }
}

/// What went wrong, in words.
pub open spec fn kind_message(kind: SyntaxErrorKind) -> Seq<char> {
    match kind {
        SyntaxErrorKind::UnexpectedSymbol(c) => "Unexpected character '"@ + seq![c] + "'"@,
        SyntaxErrorKind::ExpectedSemicolon => "Expected semicolon"@,
        SyntaxErrorKind::MalformedUserpath => "Malformed Userpath"@,
        SyntaxErrorKind::MalformedIfStatement => "Malformed if statement"@,
        SyntaxErrorKind::NotAType => "Not a type"@,
        SyntaxErrorKind::BadExpression => "Bad expression"@,
        SyntaxErrorKind::BadUserBlock => "Bad user block"@,
        SyntaxErrorKind::BadDefinition(found) => "Bad definition"@ + (match found {
            Some(name) => " of type "@ + name,
            None => Seq::empty(),
        }) + ", expected Userpath or servername"@,
    }
}

/// The whole report of an error, in words: where, and what.
pub open spec fn error_message(e: SyntaxErrorView) -> Seq<char> {
    "Syntax Error "@ + (match e.pos {
        Some(pos) => "on line "@ + digits_of(pos.0 as nat) + seq![':'] + digits_of(pos.1 as nat),
        None => "at end of file"@,
    }) + "! "@ + kind_message(e.errortype) + "."@
}

impl SyntaxErrorType {
    /// What went wrong, in words.
    pub fn to_string(&self) -> (r: String)
        ensures
            r@ == kind_message(self@),
    {
        match self {
            SyntaxErrorType::UnexpectedSymbol(c) => {
                let mut out = "Unexpected character '".to_string();
                out.push(*c);
                out.append("'");
                assert(out@ =~= kind_message(self@));
                out
            },
            SyntaxErrorType::ExpectedSemicolon => "Expected semicolon".to_string(),
            SyntaxErrorType::MalformedUserpath => "Malformed Userpath".to_string(),
            SyntaxErrorType::MalformedIfStatement => "Malformed if statement".to_string(),
            SyntaxErrorType::NotAType => "Not a type".to_string(),
            SyntaxErrorType::BadExpression => "Bad expression".to_string(),
            SyntaxErrorType::BadUserBlock => "Bad user block".to_string(),
            SyntaxErrorType::BadDefinition(found) => {
                let mut out = "Bad definition".to_string();
                match found {
                    Some(name) => {
                        out.append(" of type ");
                        out.append(name.as_str());
                    },
                    None => {},
                }
                out.append(", expected Userpath or servername");
                assert(out@ =~= kind_message(self@));
                out
            },
        }
    }
}

impl SyntaxError {
    /// The whole report of the error, in words.
    pub fn to_string(&self) -> (r: String)
        ensures
            r@ == error_message(self@),
    {
        let mut out = "Syntax Error ".to_string();
        match self.pos {
            Some(pos) => {
                out.append("on line ");
                push_number(&mut out, pos.0 as u64);
                out.push(':');
                push_number(&mut out, pos.1 as u64);
            },
            None => {
                out.append("at end of file");
            },
        }
        out.append("! ");
        out.append(self.errortype.to_string().as_str());
        out.append(".");
        assert(out@ =~= error_message(self@));
        out
    }
}

/// The error that a position and a kind make.
pub open spec fn error_at(pos: Option<(usize, usize)>, kind: SyntaxErrorKind) -> SyntaxErrorView {
    SyntaxErrorView { pos, errortype: kind }
}

/// `first` in front of what `rest` holds, or the error of `rest`.
pub open spec fn prepend<T>(first: Seq<T>, rest: Result<Seq<T>, SyntaxErrorView>) -> Result<
    Seq<T>,
    SyntaxErrorView,
> {
    match rest {
        Ok(more) => Ok(first + more),
        Err(e) => Err(e),
    }
}

pub proof fn lemma_prepend_twice<T>(
    first: Seq<T>,
    second: Seq<T>,
    rest: Result<Seq<T>, SyntaxErrorView>,
)
    ensures
        prepend(first, prepend(second, rest)) == prepend(first + second, rest),
{
    match rest {
        Ok(more) => {
            assert(first + (second + more) =~= (first + second) + more);
        },
        Err(_) => {},
    }
}

pub proof fn lemma_prepend_nothing<T>(rest: Result<Seq<T>, SyntaxErrorView>)
    ensures
        prepend(Seq::empty(), rest) == rest,
{
    match rest {
        Ok(more) => {
            assert(Seq::<T>::empty() + more =~= more);
        },
        Err(_) => {},
    }
}

/// What ends a run: a value of the wrong kind where an instruction needs
/// another, a position outside a text or tuple, a destructuring whose two
/// sides differ in length, a modifier that is unknown or refuses its
/// arguments, or an evaluation nested deeper than the interpreter's bound.
#[derive(Clone, Copy, Debug, PartialEq, Eq)]
pub enum RuntimeError {
    ExpectedText,
    ExpectedTuple,
    ExpectedAddress,
    ExpectedDraft,
    ExpectedNumber,
    NoLength,
    OutOfRange,
    ArityMismatch,
    BadModifier,
    BadPattern,
    TooDeep,
}

} // verus!
