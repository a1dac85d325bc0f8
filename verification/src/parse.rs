//! The surface syntax: characters to tokens, tokens to a formula.
//!
//! Three levels, each associating to the right:
//! implication and biconditional bind loosest, then conjunction and
//! disjunction, then negation, the quantifiers, predicates, names and
//! bracketed formulas.

use crate::ast::{Connective, Formula, Name};
use crate::text::{chars_of, push_char};
use vstd::prelude::*;
use vstd::string::*;

verus! {

/// One lexical unit of the surface syntax.
#[derive(Debug)]
pub enum Token {
    Var(String),
    Not,
    And,
    Or,
    Implicate,
    Biimplicate,
    Comma,
    Slash,
    OpenParen,
    CloseParen,
    ForAll,
    Exists,
}

/// A token as contracts see it.
pub enum Lexeme {
    Var(Name),
    Not,
    And,
    Or,
    Implicate,
    Biimplicate,
    Comma,
    Slash,
    OpenParen,
    CloseParen,
    ForAll,
    Exists,
}

impl View for Token {
    type V = Lexeme;

    open spec fn view(&self) -> Lexeme {
        match self {
            Token::Var(x) => Lexeme::Var(x@),
            Token::Not => Lexeme::Not,
            Token::And => Lexeme::And,
            Token::Or => Lexeme::Or,
            Token::Implicate => Lexeme::Implicate,
            Token::Biimplicate => Lexeme::Biimplicate,
            Token::Comma => Lexeme::Comma,
            Token::Slash => Lexeme::Slash,
            Token::OpenParen => Lexeme::OpenParen,
            Token::CloseParen => Lexeme::CloseParen,
            Token::ForAll => Lexeme::ForAll,
            Token::Exists => Lexeme::Exists,
        }
    }
}

impl Clone for Token {
    fn clone(&self) -> (r: Token)
        ensures
            r@ == self@,
    {
        match self {
            Token::Var(x) => Token::Var(x.clone()),
            Token::Not => Token::Not,
            Token::And => Token::And,
            Token::Or => Token::Or,
            Token::Implicate => Token::Implicate,
            Token::Biimplicate => Token::Biimplicate,
            Token::Comma => Token::Comma,
            Token::Slash => Token::Slash,
            Token::OpenParen => Token::OpenParen,
            Token::CloseParen => Token::CloseParen,
            Token::ForAll => Token::ForAll,
            Token::Exists => Token::Exists,
        }
    }
}

/// Why a text is no formula. Each variant holds the token at which the
/// parser stopped, or `None` where the text ended too early.
#[derive(Debug)]
pub enum ParseError {
    /// A bracket was opened and something else stands where it should close.
    UncosedParen(Option<Token>),
    /// A formula was expected to start here.
    UnexpectedToken(Option<Token>),
    /// The argument list of a predicate is neither continued nor closed here.
    InvalidArgumentList(Option<Token>),
}

/// A parse error as contracts see it.
pub enum ParseFailure {
    UncosedParen(Option<Lexeme>),
    UnexpectedToken(Option<Lexeme>),
    InvalidArgumentList(Option<Lexeme>),
}

/// The token at a place, if the place exists.
pub open spec fn token_at(tokens: Seq<Lexeme>, at: int) -> Option<Lexeme> {
    if 0 <= at < tokens.len() {
        Some(tokens[at])
    } else {
        None
    }
}

impl View for ParseError {
    type V = ParseFailure;

    open spec fn view(&self) -> ParseFailure {
        match self {
            ParseError::UncosedParen(t) => ParseFailure::UncosedParen(
                match t {
                    Some(t) => Some(t@),
                    None => None,
                },
            ),
            ParseError::UnexpectedToken(t) => ParseFailure::UnexpectedToken(
                match t {
                    Some(t) => Some(t@),
                    None => None,
                },
            ),
            ParseError::InvalidArgumentList(t) => ParseFailure::InvalidArgumentList(
                match t {
                    Some(t) => Some(t@),
                    None => None,
                },
            ),
        }
    }
}

/// The token that a character stands for; a space stands for none.
pub open spec fn token_of(c: char) -> Option<Lexeme> {
    if c == '¬' || c == '!' {
        Some(Lexeme::Not)
    } else if c == '∧' || c == '&' || c == '∪' {
        Some(Lexeme::And)
    } else if c == '∨' || c == '|' || c == '∩' {
        Some(Lexeme::Or)
    } else if c == '→' || c == '>' {
        Some(Lexeme::Implicate)
    } else if c == '↔' || c == '=' {
        Some(Lexeme::Biimplicate)
    } else if c == ',' {
        Some(Lexeme::Comma)
    } else if c == '/' {
        Some(Lexeme::Slash)
    } else if c == '(' {
        Some(Lexeme::OpenParen)
    } else if c == ')' {
        Some(Lexeme::CloseParen)
    } else if c == '\\' {
        Some(Lexeme::ForAll)
    } else if c == '.' {
        Some(Lexeme::Exists)
    } else if c == ' ' {
        None
    } else {
        Some(Lexeme::Var(seq![c]))
    }
}

/// The tokens of a text: one for each character that is no space.
pub open spec fn lex_text(text: Seq<char>) -> Seq<Lexeme>
    decreases text.len(),
{
    if text.len() == 0 {
        Seq::empty()
    } else {
        match token_of(text.last()) {
            Some(t) => lex_text(text.drop_last()).push(t),
            None => lex_text(text.drop_last()),
        }
    }
}

/// What a parse gives: the formula and the place of the first token after
/// it, or the error.
pub type Parsed = Result<(Formula, int), ParseFailure>;

/// The rest of a predicate's argument list from `at` on: `, name` any number
/// of times, then `)`. `args` holds the arguments read so far.
pub open spec fn arguments_at(tokens: Seq<Lexeme>, at: int, args: Seq<Name>) -> Result<
    (Seq<Name>, int),
    ParseFailure,
>
    decreases tokens.len() - at,
{
    if 0 <= at && at + 1 < tokens.len() && tokens[at] is Comma && tokens[at + 1] is Var {
        arguments_at(tokens, at + 2, args.push(tokens[at + 1]->Var_0))
    } else if 0 <= at < tokens.len() && tokens[at] is CloseParen {
        Ok((args, at + 1))
    } else {
        Err(ParseFailure::InvalidArgumentList(token_at(tokens, at)))
    }
}

/// The innermost level: a negation, a quantifier with its name and body, a
/// predicate with its arguments, a name, or a bracketed formula.
pub open spec fn parse1_at(tokens: Seq<Lexeme>, at: int) -> Parsed
    decreases tokens.len() - at, 0nat,
{
    if !(0 <= at < tokens.len()) {
        Err(ParseFailure::UnexpectedToken(None))
    } else {
        match tokens[at] {
            Lexeme::Not => match parse1_at(tokens, at + 1) {
                Ok((inner, next)) => Ok((Formula::Not(Box::new(inner)), next)),
                Err(e) => Err(e),
            },
            Lexeme::ForAll | Lexeme::Exists => if at + 1 >= tokens.len() {
                Err(ParseFailure::UnexpectedToken(Some(tokens[at])))
            } else if tokens[at + 1] is Var {
                match parse1_at(tokens, at + 2) {
                    Ok((body, next)) => Ok(
                        (
                            if tokens[at] is ForAll {
                                Formula::ForAll(tokens[at + 1]->Var_0, Box::new(body))
                            } else {
                                Formula::Exists(tokens[at + 1]->Var_0, Box::new(body))
                            },
                            next,
                        ),
                    ),
                    Err(e) => Err(e),
                }
            } else {
                Err(ParseFailure::UnexpectedToken(Some(tokens[at + 1])))
            },
            Lexeme::Var(x) => if at + 2 < tokens.len() && tokens[at + 1] is OpenParen && tokens[at
                + 2] is Var {
                match arguments_at(tokens, at + 3, seq![tokens[at + 2]->Var_0]) {
                    Ok((args, next)) => Ok((Formula::Predicate(x, args), next)),
                    Err(e) => Err(e),
                }
            } else {
                Ok((Formula::Var(x), at + 1))
            },
            Lexeme::OpenParen => match parse3_at(tokens, at + 1) {
                Ok((inner, next)) => if 0 <= next < tokens.len() && tokens[next] is CloseParen {
                    Ok((inner, next + 1))
                } else {
                    Err(ParseFailure::UncosedParen(token_at(tokens, next)))
                },
                Err(e) => Err(e),
            },
            other => Err(ParseFailure::UnexpectedToken(Some(other))),
        }
    }
}

/// The middle level: a formula of the innermost level, or one joined by
/// `∧` or `∨` to a formula of this level on its right.
pub open spec fn parse2_at(tokens: Seq<Lexeme>, at: int) -> Parsed
    decreases tokens.len() - at, 1nat,
{
    match parse1_at(tokens, at) {
        Err(e) => Err(e),
        Ok((left, next)) => if at < next < tokens.len() && tokens[next] is And {
            match parse2_at(tokens, next + 1) {
                Ok((right, end)) => Ok((Formula::And(Box::new(left), Box::new(right)), end)),
                Err(e) => Err(e),
            }
        } else if at < next < tokens.len() && tokens[next] is Or {
            match parse2_at(tokens, next + 1) {
                Ok((right, end)) => Ok((Formula::Or(Box::new(left), Box::new(right)), end)),
                Err(e) => Err(e),
            }
        } else {
            Ok((left, next))
        },
    }
}

/// The outermost level: a formula of the middle level, or one joined by `→`
/// or `↔` to a formula of this level on its right.
pub open spec fn parse3_at(tokens: Seq<Lexeme>, at: int) -> Parsed
    decreases tokens.len() - at, 2nat,
{
    match parse2_at(tokens, at) {
        Err(e) => Err(e),
        Ok((left, next)) => if at < next < tokens.len() && tokens[next] is Implicate {
            match parse3_at(tokens, next + 1) {
                Ok((right, end)) => Ok((Formula::Implicate(Box::new(left), Box::new(right)), end)),
                Err(e) => Err(e),
            }
        } else if at < next < tokens.len() && tokens[next] is Biimplicate {
            match parse3_at(tokens, next + 1) {
                Ok((right, end)) => Ok(
                    (Formula::Biimplicate(Box::new(left), Box::new(right)), end),
                ),
                Err(e) => Err(e),
            }
        } else {
            Ok((left, next))
        },
    }
}

/// The formula that a text denotes. What follows the first complete formula
/// is not looked at.
pub open spec fn parse_text(text: Seq<char>) -> Result<Formula, ParseFailure> {
    match parse3_at(lex_text(text), 0) {
        Ok((f, _)) => Ok(f),
        Err(e) => Err(e),
    }
}

/// The tokens that a sequence of values stands for.
pub open spec fn lexemes_of(tokens: Seq<Token>) -> Seq<Lexeme> {
    Seq::new(tokens.len(), |i: int| tokens[i]@)
}

/// Whether an executable parse result stands for the result `expected`.
pub open spec fn parsed_as(r: Result<(Connective, usize), ParseError>, expected: Parsed) -> bool {
    match r {
        Ok((f, next)) => expected == Ok::<(Formula, int), ParseFailure>((f@, next as int)),
        Err(e) => expected == Err::<(Formula, int), ParseFailure>(e@),
    }
}

/// A parse that succeeds ends after the place where it began, within the tokens.
pub proof fn lemma_parse_advances(tokens: Seq<Lexeme>, at: int, level: nat)
    requires
        0 <= at,
        level <= 2,
    ensures
        level == 0 ==> (parse1_at(tokens, at) matches Ok((_, next)) ==> at < next <= tokens.len()),
        level == 1 ==> (parse2_at(tokens, at) matches Ok((_, next)) ==> at < next <= tokens.len()),
        level == 2 ==> (parse3_at(tokens, at) matches Ok((_, next)) ==> at < next <= tokens.len()),
    decreases tokens.len() - at, level,
{
    if level == 0 {
        if at < tokens.len() {
            match tokens[at] {
                Lexeme::Not => {
                    lemma_parse_advances(tokens, at + 1, 0);
                },
                Lexeme::ForAll | Lexeme::Exists => {
                    if at + 1 < tokens.len() {
                        lemma_parse_advances(tokens, at + 2, 0);
                    }
                },
                Lexeme::Var(x) => {
                    if at + 2 < tokens.len() {
                        lemma_arguments_advance(tokens, at + 3, seq![tokens[at + 2]->Var_0]);
                    }
                },
                Lexeme::OpenParen => {
                    lemma_parse_advances(tokens, at + 1, 2);
                },
                _ => {},
            }
        }
    } else if level == 1 {
        lemma_parse_advances(tokens, at, 0);
        match parse1_at(tokens, at) {
            Ok((_, next)) => {
                if next < tokens.len() {
                    lemma_parse_advances(tokens, next + 1, 1);
                }
            },
            Err(_) => {},
        }
    } else {
        lemma_parse_advances(tokens, at, 1);
        match parse2_at(tokens, at) {
            Ok((_, next)) => {
                if next < tokens.len() {
                    lemma_parse_advances(tokens, next + 1, 2);
                }
            },
            Err(_) => {},
        }
    }
}

/// An argument list that is read to its end ends after the place where it
/// began, within the tokens.
pub proof fn lemma_arguments_advance(tokens: Seq<Lexeme>, at: int, args: Seq<Name>)
    requires
        0 <= at,
    ensures
        arguments_at(tokens, at, args) matches Ok((_, next)) ==> at < next <= tokens.len(),
    decreases tokens.len() - at,
{
    if at + 1 < tokens.len() && tokens[at] is Comma && tokens[at + 1] is Var {
        lemma_arguments_advance(tokens, at + 2, args.push(tokens[at + 1]->Var_0));
    }
}

/// The token that a character stands for; a space stands for none.
fn token_for(c: char) -> (r: Option<Token>)
    ensures
        match r {
            Some(t) => token_of(c) == Some(t@),
            None => token_of(c) == None::<Lexeme>,
        },
{
    if c == '¬' || c == '!' {
        Some(Token::Not)
    } else if c == '∧' || c == '&' || c == '∪' {
        Some(Token::And)
    } else if c == '∨' || c == '|' || c == '∩' {
        Some(Token::Or)
    } else if c == '→' || c == '>' {
        Some(Token::Implicate)
    } else if c == '↔' || c == '=' {
        Some(Token::Biimplicate)
    } else if c == ',' {
        Some(Token::Comma)
    } else if c == '/' {
        Some(Token::Slash)
    } else if c == '(' {
        Some(Token::OpenParen)
    } else if c == ')' {
        Some(Token::CloseParen)
    } else if c == '\\' {
        Some(Token::ForAll)
    } else if c == '.' {
        Some(Token::Exists)
    } else if c == ' ' {
        None
    } else {
        let mut name = String::new();
        push_char(&mut name, c);
        assert(name@ =~= seq![c]);
        Some(Token::Var(name))
    }
}

/// Splits a text into tokens: one for each character that is no space.
pub fn lex(src: &str) -> (tokens: Vec<Token>)
    ensures
        lexemes_of(tokens@) == lex_text(src@),
{
    let mut tokens: Vec<Token> = Vec::new();
    let chars = chars_of(src);
    let mut i: usize = 0;
    assert(src@.take(0) =~= Seq::empty());
    assert(lexemes_of(tokens@) =~= Seq::empty());
    while i < chars.len()
        invariant
            i <= chars.len(),
            chars@ == src@,
            lexemes_of(tokens@) == lex_text(src@.take(i as int)),
        decreases chars.len() - i,
    {
        let c = chars[i];
        proof {
            assert(src@.take(i + 1).drop_last() =~= src@.take(i as int));
            assert(src@.take(i + 1).last() == c);
        }
        let ghost before = tokens@;
        match token_for(c) {
            Some(t) => {
                tokens.push(t);
                assert(lexemes_of(tokens@) =~= lexemes_of(before).push(t@));
            },
            None => {},
        }
        i += 1;
    }
    assert(src@.take(chars.len() as int) =~= src@);
    tokens
}

/// A copy of the token at a place, if the place exists.
fn token_copy(tokens: &Vec<Token>, at: usize) -> (r: Option<Token>)
    ensures
        match r {
            Some(t) => token_at(lexemes_of(tokens@), at as int) == Some(t@),
            None => token_at(lexemes_of(tokens@), at as int) == None::<Lexeme>,
        },
{
    if at < tokens.len() {
        Some(tokens[at].clone())
    } else {
        None
    }
}

/// Reads the rest of the argument list of a predicate: `, name` any
/// number of times, then `)`. `first` is the argument read already.
fn parse_arguments(tokens: &Vec<Token>, at: usize, first: String) -> (r: Result<
    (Vec<String>, usize),
    ParseError,
>)
    requires
        at <= tokens.len(),
    ensures
        match r {
            Ok((args, next)) => arguments_at(lexemes_of(tokens@), at as int, seq![first@]) == Ok::<
                (Seq<Name>, int),
                ParseFailure,
            >((crate::ast::names_of(args@), next as int)) && at < next <= tokens.len(),
            Err(e) => arguments_at(lexemes_of(tokens@), at as int, seq![first@]) == Err::<
                (Seq<Name>, int),
                ParseFailure,
            >(e@),
        },
{
    let ghost all = lexemes_of(tokens@);
    let ghost goal = arguments_at(all, at as int, seq![first@]);
    let mut args: Vec<String> = Vec::new();
    args.push(first);
    assert(crate::ast::names_of(args@) =~= seq![first@]);
    let mut rest: usize = at;
    loop
        invariant
            at <= rest <= tokens.len(),
            all == lexemes_of(tokens@),
            goal == arguments_at(all, at as int, seq![first@]),
            goal == arguments_at(all, rest as int, crate::ast::names_of(args@)),
        decreases tokens.len() - rest,
    {
        if rest < tokens.len() {
            match &tokens[rest] {
                Token::Comma => {
                    if rest + 1 < tokens.len() {
                        match &tokens[rest + 1] {
                            Token::Var(arg) => {
                                let ghost before = args@;
                                args.push(arg.clone());
                                assert(crate::ast::names_of(args@) =~= crate::ast::names_of(
                                    before,
                                ).push(arg@));
                                rest = rest + 2;
                                continue ;
                            },
                            _ => {},
                        }
                    }
                },
                Token::CloseParen => {
                    return Ok((args, rest + 1));
                },
                _ => {},
            }
        }
        return Err(ParseError::InvalidArgumentList(token_copy(tokens, rest)));
    }
}

/// Reads a formula of the outermost level.
fn parse_top(tokens: &Vec<Token>, at: usize) -> (r: Result<(Connective, usize), ParseError>)
    requires
        at <= tokens.len(),
    ensures
        parsed_as(r, parse3_at(lexemes_of(tokens@), at as int)),
        r matches Ok((_, next)) ==> at < next <= tokens.len(),
    decreases tokens.len() - at, 3nat,
{
    parse3(tokens, at)
}

/// Reads a formula of the middle level, and an implication or a
/// biconditional if `→` or `↔` follows it.
fn parse3(tokens: &Vec<Token>, at: usize) -> (r: Result<(Connective, usize), ParseError>)
    requires
        at <= tokens.len(),
    ensures
        parsed_as(r, parse3_at(lexemes_of(tokens@), at as int)),
        r matches Ok((_, next)) ==> at < next <= tokens.len(),
    decreases tokens.len() - at, 2nat,
{
    let (left, rest) = match parse2(tokens, at) {
        Ok(found) => found,
        Err(e) => {
            return Err(e);
        },
    };
    if rest < tokens.len() {
        match &tokens[rest] {
            Token::Implicate => {
                return match parse3(tokens, rest + 1) {
                    Ok((right, end)) => Ok(
                        (Connective::Implicate(Box::new(left), Box::new(right)), end),
                    ),
                    Err(e) => Err(e),
                };
            },
            Token::Biimplicate => {
                return match parse3(tokens, rest + 1) {
                    Ok((right, end)) => Ok(
                        (Connective::Biimplicate(Box::new(left), Box::new(right)), end),
                    ),
                    Err(e) => Err(e),
                };
            },
            _ => {},
        }
    }
    Ok((left, rest))
}

/// Reads a formula of the innermost level, and a conjunction or a
/// disjunction if `∧` or `∨` follows it.
fn parse2(tokens: &Vec<Token>, at: usize) -> (r: Result<(Connective, usize), ParseError>)
    requires
        at <= tokens.len(),
    ensures
        parsed_as(r, parse2_at(lexemes_of(tokens@), at as int)),
        r matches Ok((_, next)) ==> at < next <= tokens.len(),
    decreases tokens.len() - at, 1nat,
{
    let (left, rest) = match parse1(tokens, at) {
        Ok(found) => found,
        Err(e) => {
            return Err(e);
        },
    };
    if rest < tokens.len() {
        match &tokens[rest] {
            Token::And => {
                return match parse2(tokens, rest + 1) {
                    Ok((right, end)) => Ok((Connective::And(Box::new(left), Box::new(right)), end)),
                    Err(e) => Err(e),
                };
            },
            Token::Or => {
                return match parse2(tokens, rest + 1) {
                    Ok((right, end)) => Ok((Connective::Or(Box::new(left), Box::new(right)), end)),
                    Err(e) => Err(e),
                };
            },
            _ => {},
        }
    }
    Ok((left, rest))
}

/// Reads a negation, a quantified formula, a predicate, a name or a
/// bracketed formula.
fn parse1(tokens: &Vec<Token>, at: usize) -> (r: Result<(Connective, usize), ParseError>)
    requires
        at <= tokens.len(),
    ensures
        parsed_as(r, parse1_at(lexemes_of(tokens@), at as int)),
        r matches Ok((_, next)) ==> at < next <= tokens.len(),
    decreases tokens.len() - at, 0nat,
{
    if at >= tokens.len() {
        return Err(ParseError::UnexpectedToken(None));
    }
    match &tokens[at] {
        Token::Not => match parse1(tokens, at + 1) {
            Ok((expr, rest)) => Ok((Connective::Not(Box::new(expr)), rest)),
            Err(e) => Err(e),
        },
        Token::ForAll => {
            if at + 1 >= tokens.len() {
                return Err(ParseError::UnexpectedToken(token_copy(tokens, at)));
            }
            match &tokens[at + 1] {
                Token::Var(name) => match parse1(tokens, at + 2) {
                    Ok((right, rest)) => Ok(
                        (Connective::ForAll(name.clone(), Box::new(right)), rest),
                    ),
                    Err(e) => Err(e),
                },
                _ => Err(ParseError::UnexpectedToken(token_copy(tokens, at + 1))),
            }
        },
        Token::Exists => {
            if at + 1 >= tokens.len() {
                return Err(ParseError::UnexpectedToken(token_copy(tokens, at)));
            }
            match &tokens[at + 1] {
                Token::Var(name) => match parse1(tokens, at + 2) {
                    Ok((right, rest)) => Ok(
                        (Connective::Exists(name.clone(), Box::new(right)), rest),
                    ),
                    Err(e) => Err(e),
                },
                _ => Err(ParseError::UnexpectedToken(token_copy(tokens, at + 1))),
            }
        },
        Token::Var(x) => {
            if tokens.len() - at > 2 {
                match (&tokens[at + 1], &tokens[at + 2]) {
                    (Token::OpenParen, Token::Var(arg)) => {
                        return match parse_arguments(tokens, at + 3, arg.clone()) {
                            Ok((args, rest)) => Ok((Connective::Predicate(x.clone(), args), rest)),
                            Err(e) => Err(e),
                        };
                    },
                    _ => {},
                }
            }
            Ok((Connective::Var(x.clone()), at + 1))
        },
        Token::OpenParen => match parse_top(tokens, at + 1) {
            Ok((expr, rest)) => {
                if rest < tokens.len() {
                    match &tokens[rest] {
                        Token::CloseParen => {
                            return Ok((expr, rest + 1));
                        },
                        _ => {},
                    }
                }
                Err(ParseError::UncosedParen(token_copy(tokens, rest)))
            },
            Err(e) => Err(e),
        },
        _ => Err(ParseError::UnexpectedToken(token_copy(tokens, at))),
    }
}

/// Reads a formula from a text. Characters stand for tokens one by one:
/// `¬ !` negation, `∧ & ∪` conjunction, `∨ | ∩` disjunction, `→ >`
/// implication, `↔ =` biconditional, `\` the universal and `.` the
/// existential quantifier, `( ) , /` themselves; spaces are skipped and
/// every other character is a name. What follows the first complete
/// formula is not looked at.
pub fn parse(src: &str) -> (r: Result<Connective, ParseError>)
    ensures
        match r {
            Ok(f) => parse_text(src@) == Ok::<Formula, ParseFailure>(f@),
            Err(e) => parse_text(src@) == Err::<Formula, ParseFailure>(e@),
        },
{
    let tokens = lex(src);
    match parse_top(&tokens, 0) {
        Ok((con, _)) => Ok(con),
        Err(e) => Err(e),
    }
}

} // verus!
