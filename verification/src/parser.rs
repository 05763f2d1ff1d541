//! The parser: from text to a term, or to the reason why the text is none.

use vstd::prelude::*;
use crate::balance::{balanced, lemma_parse_text_balanced};
use crate::chars::{ident_char, LAMBDA};
use crate::grammar::{
    after, extend_run, identifier_end, is_reported, left_assoc, lemma_parse_term,
    lemma_parse_text, parse_application, parse_lambda, parse_non_application_term, parse_run,
    parse_term, parse_text, parse_var, skip_spaces, starts_term, Parsed,
};
use crate::term::{Term, TermView};

verus! {

/// Why a text is not a term.
#[derive(Debug, PartialEq, Eq, Clone, Copy)]
pub enum ParseError {
    /// A character that cannot stand where it was met, or the sigil that was
    /// wanted there.
    UnexpectedCharacter(char),
    /// A group was opened and not closed.
    UnmatchedParenthesis,
    /// The binder sigil is not followed by a parameter and a dot.
    InvalidLambda,
    /// No term stands where one is wanted, or text is left after the term.
    InvalidApplication,
    /// An identifier was wanted and no character of one is there.
    InvalidVariable,
}

impl ParseError {
    /// The error in words.
    pub open spec fn message_spec(self) -> Seq<char> {
        match self {
            ParseError::InvalidLambda => "Invalid lambda expression"@,
            ParseError::InvalidApplication => "Invalid application expression"@,
            ParseError::InvalidVariable => "Invalid variable expression"@,
            ParseError::UnexpectedCharacter(c) => "Unexpected character: "@.push(c),
            ParseError::UnmatchedParenthesis => "Unmatched parenthesis"@,
        }
    }

    /// The error in words, as it is shown to a user.
    pub fn message(&self) -> (text: String)
        ensures
            text@ == self.message_spec(),
    {
        match self {
            ParseError::InvalidLambda => "Invalid lambda expression".to_owned(),
            ParseError::InvalidApplication => "Invalid application expression".to_owned(),
            ParseError::InvalidVariable => "Invalid variable expression".to_owned(),
            ParseError::UnexpectedCharacter(c) => {
                let mut text = "Unexpected character: ".to_owned();
                text.push(*c);
                text
            },
            ParseError::UnmatchedParenthesis => "Unmatched parenthesis".to_owned(),
        }
    }
}

/// The model of what reading a term returned.
pub open spec fn term_result(r: Result<Term, ParseError>) -> Result<TermView, ParseError> {
    match r {
        Ok(term) => Ok(term@),
        Err(e) => Err(e),
    }
}

/// The model of what reading an identifier returned.
pub open spec fn name_result(r: Result<String, ParseError>) -> Result<Seq<char>, ParseError> {
    match r {
        Ok(name) => Ok(name@),
        Err(e) => Err(e),
    }
}

/// What a run comes to when `terms` were read before it.
spec fn join_run(terms: Seq<TermView>, more: Parsed<Seq<TermView>>) -> Parsed<Seq<TermView>> {
    match more.result {
        Err(e) => Parsed { result: Err(e), rest: more.rest },
        Ok(others) => Parsed { result: Ok(terms + others), rest: more.rest },
    }
}

/// Whether a term can begin with `c`.
fn begins_term(c: char) -> (begins: bool)
    ensures
        begins == starts_term(c),
{
    c == '(' || c == LAMBDA || ident_char(c)
}

/// Whether a character was read and is the one that is wanted.
fn is_char(read: Option<char>, wanted: char) -> (same: bool)
    ensures
        same == (read == Some(wanted)),
{
    match read {
        Some(c) => c == wanted,
        None => false,
    }
}

/// The characters of a text and the position of the next one to read.
struct Parser {
    chars: Vec<char>,
    pos: usize,
}

impl Parser {
    /// The position lies inside the text or at its end.
    spec fn wf(&self) -> bool {
        self.pos <= self.chars@.len()
    }

    /// A parser at the start of `input`.
    fn new(input: &str) -> (parser: Parser)
        ensures
            parser.chars@ == input@,
            parser.pos == 0,
    {
        let mut chars: Vec<char> = Vec::new();
        for c in it: input.chars()
            invariant
                chars@ == it.seq().take(it.index()),
                it.seq() == input@,
        {
            chars.push(c);
        }
        Parser { chars, pos: 0 }
    }

    /// The next character, which stays unread.
    fn peek(&self) -> (c: Option<char>)
        requires
            self.wf(),
        ensures
            c == if self.pos < self.chars@.len() {
                Some(self.chars@[self.pos as int])
            } else {
                None::<char>
            },
    {
        if self.pos < self.chars.len() {
            Some(self.chars[self.pos])
        } else {
            None
        }
    }

    /// Takes the next character, if there is one.
    fn next(&mut self) -> (c: Option<char>)
        requires
            old(self).wf(),
        ensures
            final(self).wf(),
            final(self).chars == old(self).chars,
            final(self).pos == after(old(self).chars@, old(self).pos as int),
            c == if old(self).pos < old(self).chars@.len() {
                Some(old(self).chars@[old(self).pos as int])
            } else {
                None::<char>
            },
    {
        if self.pos < self.chars.len() {
            let c = self.chars[self.pos];
            self.pos = self.pos + 1;
            Some(c)
        } else {
            None
        }
    }

    /// Moves past the whitespace at the current position.
    fn skip_whitespace(&mut self)
        requires
            old(self).wf(),
        ensures
            final(self).wf(),
            final(self).chars == old(self).chars,
            final(self).pos == skip_spaces(old(self).chars@, old(self).pos as int),
            old(self).pos <= final(self).pos,
    {
        while self.pos < self.chars.len() && self.chars[self.pos].is_whitespace()
            invariant
                self.wf(),
                self.chars == old(self).chars,
                old(self).pos <= self.pos,
                skip_spaces(self.chars@, self.pos as int) == skip_spaces(
                    old(self).chars@,
                    old(self).pos as int,
                ),
            decreases self.chars@.len() - self.pos,
        {
            self.pos = self.pos + 1;
        }
    }

    /// Reads an identifier.
    fn parse_var(&mut self) -> (r: Result<String, ParseError>)
        requires
            old(self).wf(),
        ensures
            final(self).wf(),
            final(self).chars == old(self).chars,
            (Parsed { result: name_result(r), rest: final(self).pos as int }) == parse_var(
                old(self).chars@,
                old(self).pos as int,
            ),
            old(self).pos <= final(self).pos,
    {
        let mut name = String::new();
        let start: usize = self.pos;
        while self.pos < self.chars.len() && ident_char(self.chars[self.pos])
            invariant
                self.wf(),
                self.chars == old(self).chars,
                start == old(self).pos,
                start <= self.pos,
                name@ == self.chars@.subrange(start as int, self.pos as int),
                identifier_end(self.chars@, self.pos as int) == identifier_end(
                    self.chars@,
                    start as int,
                ),
            decreases self.chars@.len() - self.pos,
        {
            name.push(self.chars[self.pos]);
            self.pos = self.pos + 1;
            assert(name@ =~= self.chars@.subrange(start as int, self.pos as int));
        }
        if self.pos == start {
            Err(ParseError::InvalidVariable)
        } else {
            Ok(name)
        }
    }

    /// Reads an abstraction.
    fn parse_lambda(&mut self) -> (r: Result<Term, ParseError>)
        requires
            old(self).wf(),
        ensures
            final(self).wf(),
            final(self).chars == old(self).chars,
            (Parsed { result: term_result(r), rest: final(self).pos as int }) == parse_lambda(
                old(self).chars@,
                old(self).pos as int,
            ),
        decreases old(self).chars@.len() - old(self).pos, 0nat,
    {
        if !is_char(self.next(), LAMBDA) {
            return Err(ParseError::UnexpectedCharacter(LAMBDA));
        }
        self.skip_whitespace();
        let param = match self.parse_var() {
            Ok(name) => name,
            Err(_) => {
                return Err(ParseError::InvalidLambda);
            },
        };
        self.skip_whitespace();
        if !is_char(self.next(), '.') {
            return Err(ParseError::InvalidLambda);
        }
        match self.parse_term() {
            Ok(body) => Ok(Term::Abs(param, Box::new(body))),
            Err(e) => Err(e),
        }
    }

    /// Reads an application: the terms that stand one after the other,
    /// applied from the left. A term that begins and cannot be read is an
    /// error of the application.
    fn parse_application(&mut self) -> (r: Result<Term, ParseError>)
        requires
            old(self).wf(),
        ensures
            final(self).wf(),
            final(self).chars == old(self).chars,
            (Parsed { result: term_result(r), rest: final(self).pos as int })
                == parse_application(old(self).chars@, old(self).pos as int),
        decreases old(self).chars@.len() - old(self).pos, 4nat,
    {
        let ghost text = self.chars@;
        let ghost whole = parse_run(text, self.pos as int);
        let ghost terms: Seq<TermView> = Seq::empty();
        let mut app: Option<Term> = None;
        loop
            invariant_except_break
                whole == join_run(terms, parse_run(text, self.pos as int)),
            invariant
                self.wf(),
                self.chars == old(self).chars,
                text == self.chars@,
                old(self).pos <= self.pos,
                whole == parse_run(text, old(self).pos as int),
                match app {
                    Some(term) => terms.len() > 0 && term@ == left_assoc(terms),
                    None => terms.len() == 0,
                },
            ensures
                whole == (Parsed { result: Ok(terms), rest: self.pos as int }),
            decreases self.chars@.len() - self.pos,
        {
            let ghost here = self.pos as int;
            self.skip_whitespace();
            let more = match self.peek() {
                Some(c) => begins_term(c),
                None => false,
            };
            if !more {
                assert(terms + Seq::<TermView>::empty() =~= terms);
                break ;
            }
            proof {
                lemma_parse_term(text, self.pos as int);
            }
            match self.parse_term() {
                Err(e) => {
                    return Err(e);
                },
                Ok(term) => {
                    proof {
                        let longer = terms.push(term@);
                        assert(longer.drop_last() =~= terms);
                        let rest = parse_run(text, self.pos as int);
                        assert(join_run(longer, rest) == join_run(
                            terms,
                            extend_run(term@, rest),
                        )) by {
                            if let Ok(others) = rest.result {
                                assert(longer + others =~= terms + (seq![term@] + others));
                            }
                        }
                        terms = longer;
                    }
                    app = Some(
                        match app {
                            Some(function) => Term::App(Box::new(function), Box::new(term)),
                            None => term,
                        },
                    );
                },
            }
        }
        match app {
            Some(term) => Ok(term),
            None => Err(ParseError::InvalidApplication),
        }
    }

    /// Reads a term: a group in parentheses, or a term that is no
    /// application.
    fn parse_term(&mut self) -> (r: Result<Term, ParseError>)
        requires
            old(self).wf(),
        ensures
            final(self).wf(),
            final(self).chars == old(self).chars,
            (Parsed { result: term_result(r), rest: final(self).pos as int }) == parse_term(
                old(self).chars@,
                old(self).pos as int,
            ),
        decreases old(self).chars@.len() - old(self).pos, 2nat,
    {
        self.skip_whitespace();
        if !is_char(self.peek(), '(') {
            return self.parse_non_application_term();
        }
        let _ = self.next();
        self.skip_whitespace();
        let group = match self.peek() {
            None => {
                return Err(ParseError::UnmatchedParenthesis);
            },
            Some(c) => if c == LAMBDA {
                self.parse_lambda()
            } else {
                self.parse_application()
            },
        };
        match group {
            Err(e) => Err(e),
            Ok(term) => {
                self.skip_whitespace();
                if is_char(self.next(), ')') {
                    Ok(term)
                } else {
                    Err(ParseError::UnmatchedParenthesis)
                }
            },
        }
    }

    /// Reads a term that is no application: an abstraction or a variable.
    fn parse_non_application_term(&mut self) -> (r: Result<Term, ParseError>)
        requires
            old(self).wf(),
        ensures
            final(self).wf(),
            final(self).chars == old(self).chars,
            (Parsed { result: term_result(r), rest: final(self).pos as int })
                == parse_non_application_term(old(self).chars@, old(self).pos as int),
        decreases old(self).chars@.len() - old(self).pos, 1nat,
    {
        self.skip_whitespace();
        match self.peek() {
            None => Err(ParseError::InvalidApplication),
            Some(c) => if c == LAMBDA {
                self.parse_lambda()
            } else if ident_char(c) {
                match self.parse_var() {
                    Ok(name) => Ok(Term::Var(name)),
                    Err(e) => Err(e),
                }
            } else {
                Err(ParseError::InvalidApplication)
            },
        }
    }
}

/// Reads a whole text as one term. The text is a term exactly when one
/// term stands in it, with nothing but whitespace before and behind it.
/// Every term that is read is well-formed and comes from a text whose
/// parentheses are balanced; a text that is refused is refused for an
/// unmatched parenthesis, an invalid abstraction or an invalid application.
pub fn parse(input: &str) -> (r: Result<Term, ParseError>)
    ensures
        term_result(r) == parse_text(input@),
        r matches Ok(term) ==> term@.well_formed(),
        r matches Err(e) ==> is_reported(e),
        r is Ok ==> balanced(input@, 0, input@.len() as int),
{
    let mut parser = Parser::new(input);
    proof {
        lemma_parse_text(input@);
        lemma_parse_text_balanced(input@);
    }
    match parser.parse_term() {
        Err(e) => Err(e),
        Ok(term) => {
            parser.skip_whitespace();
            if parser.peek().is_some() {
                Err(ParseError::InvalidApplication)
            } else {
                Ok(term)
            }
        },
    }
}

} // verus!
