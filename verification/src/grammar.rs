//! The grammar as a function from text and position to what a reader finds
//! there. Applications are written in parentheses. Whitespace may stand
//! between any two tokens and means nothing. The reader looks one
//! character ahead and never goes back: where a term begins and cannot be
//! read, the whole text is refused.

use vstd::prelude::*;
use crate::chars::{is_ident_char, is_space, LAMBDA};
use crate::parser::ParseError;
use crate::term::{is_identifier, TermView};

verus! {

/// What one attempt to read found, and the position of the first character
/// it left unread.
pub struct Parsed<T> {
    pub result: Result<T, ParseError>,
    pub rest: int,
}

/// The position after the whitespace that starts at `pos`.
pub open spec fn skip_spaces(s: Seq<char>, pos: int) -> int
    decreases s.len() - pos,
{
    if 0 <= pos < s.len() && is_space(s[pos]) {
        skip_spaces(s, pos + 1)
    } else {
        pos
    }
}

/// The position after the identifier characters that start at `pos`.
pub open spec fn identifier_end(s: Seq<char>, pos: int) -> int
    decreases s.len() - pos,
{
    if 0 <= pos < s.len() && is_ident_char(s[pos]) {
        identifier_end(s, pos + 1)
    } else {
        pos
    }
}

/// The position after the character at `pos` was taken, if there is one.
pub open spec fn after(s: Seq<char>, pos: int) -> int {
    if pos < s.len() {
        pos + 1
    } else {
        pos
    }
}

/// An identifier: the longest run of identifier characters at `pos`.
pub open spec fn parse_var(s: Seq<char>, pos: int) -> Parsed<Seq<char>> {
    let end = identifier_end(s, pos);
    if end == pos {
        Parsed { result: Err(ParseError::InvalidVariable), rest: pos }
    } else {
        Parsed { result: Ok(s.subrange(pos, end)), rest: end }
    }
}

/// The terms of a run, applied from the left: `a b c` is `((a b) c)`.
pub open spec fn left_assoc(terms: Seq<TermView>) -> TermView
    recommends
        terms.len() > 0,
    decreases terms.len(),
{
    if terms.len() <= 1 {
        terms[0]
    } else {
        TermView::App(Box::new(left_assoc(terms.drop_last())), Box::new(terms.last()))
    }
}

/// Whether a term can begin with `c`: a group, an abstraction or a
/// variable.
pub open spec fn starts_term(c: char) -> bool {
    c == '(' || c == LAMBDA || is_ident_char(c)
}

/// The run that begins with `first` and goes on as `more` does.
pub open spec fn extend_run(first: TermView, more: Parsed<Seq<TermView>>) -> Parsed<
    Seq<TermView>,
> {
    match more.result {
        Err(e) => Parsed { result: Err(e), rest: more.rest },
        Ok(terms) => Parsed { result: Ok(seq![first] + terms), rest: more.rest },
    }
}

/// An abstraction: the sigil, a parameter, a dot and a term, with
/// whitespace between them as one likes.
pub open spec fn parse_lambda(s: Seq<char>, pos: int) -> Parsed<TermView>
    decreases s.len() - pos, 0nat,
    when 0 <= pos <= s.len()
    via parse_lambda_decreases
{
    if pos < s.len() && s[pos] == LAMBDA {
        let bind = parse_var(s, skip_spaces(s, pos + 1));
        match bind.result {
            Err(_) => Parsed { result: Err(ParseError::InvalidLambda), rest: bind.rest },
            Ok(param) => {
                let dot = skip_spaces(s, bind.rest);
                if dot < s.len() && s[dot] == '.' {
                    let body = parse_term(s, dot + 1);
                    match body.result {
                        Err(e) => Parsed { result: Err(e), rest: body.rest },
                        Ok(b) => Parsed {
                            result: Ok(TermView::Abs(param, Box::new(b))),
                            rest: body.rest,
                        },
                    }
                } else {
                    Parsed { result: Err(ParseError::InvalidLambda), rest: after(s, dot) }
                }
            },
        }
    } else {
        Parsed { result: Err(ParseError::UnexpectedCharacter(LAMBDA)), rest: after(s, pos) }
    }
}

/// A term that is no application: an abstraction or a variable.
pub open spec fn parse_non_application_term(s: Seq<char>, pos: int) -> Parsed<TermView>
    decreases s.len() - pos, 1nat,
    when 0 <= pos <= s.len()
    via parse_non_application_term_decreases
{
    let start = skip_spaces(s, pos);
    if start < s.len() && s[start] == LAMBDA {
        parse_lambda(s, start)
    } else if start < s.len() && is_ident_char(s[start]) {
        let name = parse_var(s, start);
        match name.result {
            Err(e) => Parsed { result: Err(e), rest: name.rest },
            Ok(n) => Parsed { result: Ok(TermView::Var(n)), rest: name.rest },
        }
    } else {
        Parsed { result: Err(ParseError::InvalidApplication), rest: start }
    }
}

/// A term: a group in parentheses, which holds an abstraction or an
/// application, or else a term that is no application. Whitespace may
/// stand before the term, behind the opening parenthesis and before the
/// closing one.
pub open spec fn parse_term(s: Seq<char>, pos: int) -> Parsed<TermView>
    decreases s.len() - pos, 2nat,
    when 0 <= pos <= s.len()
    via parse_term_decreases
{
    let start = skip_spaces(s, pos);
    if start < s.len() && s[start] == '(' {
        let inner = skip_spaces(s, start + 1);
        if inner >= s.len() {
            Parsed { result: Err(ParseError::UnmatchedParenthesis), rest: inner }
        } else {
            let group = if s[inner] == LAMBDA {
                parse_lambda(s, inner)
            } else {
                parse_application(s, inner)
            };
            match group.result {
                Err(e) => Parsed { result: Err(e), rest: group.rest },
                Ok(term) => {
                    let close = skip_spaces(s, group.rest);
                    if close < s.len() && s[close] == ')' {
                        Parsed { result: Ok(term), rest: close + 1 }
                    } else {
                        Parsed {
                            result: Err(ParseError::UnmatchedParenthesis),
                            rest: after(s, close),
                        }
                    }
                },
            }
        }
    } else {
        parse_non_application_term(s, start)
    }
}

/// The terms that stand one after the other from `pos` on. The run goes on
/// as long as the next character after whitespace can begin a term, and
/// ends before the first that cannot; a term that begins and cannot be
/// read makes the whole run fail. Every term read takes at least one
/// character ([`lemma_parse_term`]); the test on `rest` is there so that
/// the definition is seen to end.
pub open spec fn parse_run(s: Seq<char>, pos: int) -> Parsed<Seq<TermView>>
    decreases s.len() - pos, 3nat,
    when 0 <= pos <= s.len()
    via parse_run_decreases
{
    let start = skip_spaces(s, pos);
    if start < s.len() && starts_term(s[start]) {
        let next = parse_term(s, start);
        match next.result {
            Err(e) => Parsed { result: Err(e), rest: next.rest },
            Ok(term) => if start < next.rest <= s.len() {
                extend_run(term, parse_run(s, next.rest))
            } else {
                Parsed { result: Ok(seq![term]), rest: next.rest }
            },
        }
    } else {
        Parsed { result: Ok(Seq::empty()), rest: start }
    }
}

/// An application: one term or more, applied from the left. A run without
/// a term is no application.
pub open spec fn parse_application(s: Seq<char>, pos: int) -> Parsed<TermView>
    decreases s.len() - pos, 4nat,
    when 0 <= pos <= s.len()
{
    let run = parse_run(s, pos);
    match run.result {
        Err(e) => Parsed { result: Err(e), rest: run.rest },
        Ok(terms) => if terms.len() == 0 {
            Parsed { result: Err(ParseError::InvalidApplication), rest: run.rest }
        } else {
            Parsed { result: Ok(left_assoc(terms)), rest: run.rest }
        },
    }
}

/// What a whole text stands for: one term, with whitespace before and
/// behind it as one likes, and nothing else.
pub open spec fn parse_text(s: Seq<char>) -> Result<TermView, ParseError> {
    let whole = parse_term(s, 0);
    match whole.result {
        Err(e) => Err(e),
        Ok(term) => if skip_spaces(s, whole.rest) < s.len() {
            Err(ParseError::InvalidApplication)
        } else {
            Ok(term)
        },
    }
}

/// Skipping whitespace moves forward, stays inside the text, and stops at a
/// character that is no whitespace.
pub proof fn lemma_skip_spaces(s: Seq<char>, pos: int)
    requires
        0 <= pos <= s.len(),
    ensures
        pos <= skip_spaces(s, pos) <= s.len(),
        skip_spaces(s, pos) < s.len() ==> !is_space(s[skip_spaces(s, pos)]),
        forall|i: int| pos <= i < skip_spaces(s, pos) ==> is_space(#[trigger] s[i]),
    decreases s.len() - pos,
{
    if pos < s.len() && is_space(s[pos]) {
        lemma_skip_spaces(s, pos + 1);
    }
}

/// An identifier's end lies inside the text, after identifier characters
/// only and before a character that is none.
pub proof fn lemma_identifier_end(s: Seq<char>, pos: int)
    requires
        0 <= pos <= s.len(),
    ensures
        pos <= identifier_end(s, pos) <= s.len(),
        identifier_end(s, pos) < s.len() ==> !is_ident_char(s[identifier_end(s, pos)]),
        forall|i: int| pos <= i < identifier_end(s, pos) ==> is_ident_char(#[trigger] s[i]),
    decreases s.len() - pos,
{
    if pos < s.len() && is_ident_char(s[pos]) {
        lemma_identifier_end(s, pos + 1);
    }
}

#[via_fn]
proof fn parse_lambda_decreases(s: Seq<char>, pos: int) {
    if pos < s.len() {
        lemma_skip_spaces(s, pos + 1);
        lemma_identifier_end(s, skip_spaces(s, pos + 1));
        lemma_skip_spaces(s, identifier_end(s, skip_spaces(s, pos + 1)));
    }
}

#[via_fn]
proof fn parse_non_application_term_decreases(s: Seq<char>, pos: int) {
    lemma_skip_spaces(s, pos);
}

#[via_fn]
proof fn parse_term_decreases(s: Seq<char>, pos: int) {
    lemma_skip_spaces(s, pos);
    if skip_spaces(s, pos) < s.len() {
        lemma_skip_spaces(s, skip_spaces(s, pos) + 1);
    }
}

#[via_fn]
proof fn parse_run_decreases(s: Seq<char>, pos: int) {
    lemma_skip_spaces(s, pos);
}

/// Where an identifier is read it took at least one character, and where
/// no whitespace stood at its start it is an identifier.
pub proof fn lemma_parse_var(s: Seq<char>, pos: int)
    requires
        0 <= pos <= s.len(),
    ensures
        pos <= parse_var(s, pos).rest <= s.len(),
        parse_var(s, pos).result matches Ok(name) ==> {
            &&& pos < parse_var(s, pos).rest
            &&& name[0] == s[pos]
            &&& !is_space(s[pos]) ==> is_identifier(name)
        },
        pos < s.len() && is_ident_char(s[pos]) ==> parse_var(s, pos).result is Ok,
{
    lemma_identifier_end(s, pos);
    if pos < s.len() && is_ident_char(s[pos]) {
        lemma_identifier_end(s, pos + 1);
    }
}

/// Applying well-formed terms from the left gives a well-formed term.
pub proof fn lemma_left_assoc_well_formed(terms: Seq<TermView>)
    requires
        terms.len() > 0,
        forall|i: int| 0 <= i < terms.len() ==> (#[trigger] terms[i]).well_formed(),
    ensures
        left_assoc(terms).well_formed(),
    decreases terms.len(),
{
    if terms.len() > 1 {
        lemma_left_assoc_well_formed(terms.drop_last());
    }
}

/// The errors that reading a term can end in. The other two arise only
/// inside: a missing identifier is reported as an invalid abstraction, and
/// an abstraction is only looked for where its sigil was seen.
pub open spec fn is_reported(e: ParseError) -> bool {
    e is UnmatchedParenthesis || e is InvalidLambda || e is InvalidApplication
}

/// Reading an abstraction where its sigil stands ends inside the text.
/// Where it succeeds, it took at least one character and found a
/// well-formed term; where it fails, the error is a reported one.
pub proof fn lemma_parse_lambda(s: Seq<char>, pos: int)
    requires
        0 <= pos <= s.len(),
    ensures
        pos <= parse_lambda(s, pos).rest <= s.len(),
        parse_lambda(s, pos).result matches Ok(term) ==> {
            &&& pos < parse_lambda(s, pos).rest
            &&& term.well_formed()
        },
        pos < s.len() && s[pos] == LAMBDA ==> (parse_lambda(s, pos).result matches Err(e)
            ==> is_reported(e)),
    decreases s.len() - pos, 0nat,
{
    if pos < s.len() && s[pos] == LAMBDA {
        lemma_skip_spaces(s, pos + 1);
        let start = skip_spaces(s, pos + 1);
        lemma_parse_var(s, start);
        let bind = parse_var(s, start);
        if bind.result is Ok {
            lemma_skip_spaces(s, bind.rest);
            let dot = skip_spaces(s, bind.rest);
            if dot < s.len() && s[dot] == '.' {
                lemma_parse_term(s, dot + 1);
            }
        }
    }
}

/// Reading a term that is no application ends inside the text. Where it
/// succeeds, it took at least one character and found a well-formed term;
/// where it fails, the error is a reported one.
pub proof fn lemma_parse_non_application_term(s: Seq<char>, pos: int)
    requires
        0 <= pos <= s.len(),
    ensures
        pos <= parse_non_application_term(s, pos).rest <= s.len(),
        parse_non_application_term(s, pos).result matches Ok(term) ==> {
            &&& pos < parse_non_application_term(s, pos).rest
            &&& term.well_formed()
        },
        parse_non_application_term(s, pos).result matches Err(e) ==> is_reported(e),
    decreases s.len() - pos, 1nat,
{
    lemma_skip_spaces(s, pos);
    let start = skip_spaces(s, pos);
    if start < s.len() && s[start] == LAMBDA {
        lemma_parse_lambda(s, start);
    } else if start < s.len() && is_ident_char(s[start]) {
        lemma_parse_var(s, start);
    }
}

/// Reading a term ends inside the text. Where it succeeds, it took at
/// least one character and found a well-formed term; where it fails, the
/// error is a reported one.
pub proof fn lemma_parse_term(s: Seq<char>, pos: int)
    requires
        0 <= pos <= s.len(),
    ensures
        pos <= parse_term(s, pos).rest <= s.len(),
        parse_term(s, pos).result matches Ok(term) ==> {
            &&& pos < parse_term(s, pos).rest
            &&& term.well_formed()
        },
        parse_term(s, pos).result matches Err(e) ==> is_reported(e),
    decreases s.len() - pos, 2nat,
{
    lemma_skip_spaces(s, pos);
    let start = skip_spaces(s, pos);
    if start < s.len() && s[start] == '(' {
        lemma_skip_spaces(s, start + 1);
        let inner = skip_spaces(s, start + 1);
        if inner < s.len() {
            if s[inner] == LAMBDA {
                lemma_parse_lambda(s, inner);
                lemma_skip_spaces(s, parse_lambda(s, inner).rest);
            } else {
                lemma_parse_application(s, inner);
                lemma_skip_spaces(s, parse_application(s, inner).rest);
            }
        }
    } else {
        lemma_parse_non_application_term(s, start);
    }
}

/// A run ends inside the text. Where it succeeds, it holds well-formed
/// terms, and one that holds a term took at least one character; where it
/// fails, the error is a reported one.
pub proof fn lemma_parse_run(s: Seq<char>, pos: int)
    requires
        0 <= pos <= s.len(),
    ensures
        pos <= parse_run(s, pos).rest <= s.len(),
        parse_run(s, pos).result matches Ok(terms) ==> {
            &&& terms.len() > 0 ==> pos < parse_run(s, pos).rest
            &&& forall|i: int| 0 <= i < terms.len() ==> (#[trigger] terms[i]).well_formed()
        },
        parse_run(s, pos).result matches Err(e) ==> is_reported(e),
    decreases s.len() - pos, 3nat,
{
    lemma_skip_spaces(s, pos);
    let start = skip_spaces(s, pos);
    if start < s.len() && starts_term(s[start]) {
        lemma_parse_term(s, start);
        let next = parse_term(s, start);
        if next.result is Ok {
            lemma_parse_run(s, next.rest);
        }
    }
}

/// Reading an application ends inside the text. Where it succeeds, it took
/// at least one character and found a well-formed term; where it fails,
/// the error is a reported one.
pub proof fn lemma_parse_application(s: Seq<char>, pos: int)
    requires
        0 <= pos <= s.len(),
    ensures
        pos <= parse_application(s, pos).rest <= s.len(),
        parse_application(s, pos).result matches Ok(term) ==> {
            &&& pos < parse_application(s, pos).rest
            &&& term.well_formed()
        },
        parse_application(s, pos).result matches Err(e) ==> is_reported(e),
    decreases s.len() - pos, 4nat,
{
    lemma_parse_run(s, pos);
    let run = parse_run(s, pos);
    match run.result {
        Ok(terms) => {
            if terms.len() > 0 {
                lemma_left_assoc_well_formed(terms);
            }
        },
        Err(_) => {},
    }
}

/// A text is a well-formed term, or is refused for an unmatched
/// parenthesis, an invalid abstraction or an invalid application.
pub proof fn lemma_parse_text(s: Seq<char>)
    ensures
        parse_text(s) matches Ok(term) ==> term.well_formed(),
        parse_text(s) matches Err(e) ==> is_reported(e),
{
    lemma_parse_term(s, 0);
}

} // verus!
