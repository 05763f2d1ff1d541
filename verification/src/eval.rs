//! Reduction: capture-avoiding substitution, the normal-order step, and
//! evaluation within a bound on the number of steps.

use vstd::prelude::*;
use crate::eval_laws::lemma_normal_form_is_fixed;
use crate::term::{lemma_free_mentions, lemma_mentions_bounded, Term, TermView};

verus! {

/// The character that is appended to a parameter to make a fresh one.
pub const FRESH_SUFFIX: char = '_';

/// Whether `candidate` cannot serve as a fresh parameter for an abstraction
/// with the given body while `replacement` is put for `name`: it occurs in
/// the body, or free in the replacement, or is `name` itself.
pub open spec fn taken(
    candidate: Seq<char>,
    body: TermView,
    replacement: TermView,
    name: Seq<char>,
) -> bool {
    body.mentions(candidate) || replacement.is_free(candidate) || candidate == name
}

/// The first of `candidate`, `candidate_`, `candidate__`, ... that is not
/// taken.
pub open spec fn fresh_from(
    candidate: Seq<char>,
    body: TermView,
    replacement: TermView,
    name: Seq<char>,
) -> Seq<char>
    decreases body.longest_name() + replacement.longest_name() + name.len() + 1 - candidate.len(),
    via fresh_from_decreases
{
    if taken(candidate, body, replacement, name) {
        fresh_from(candidate.push(FRESH_SUFFIX), body, replacement, name)
    } else {
        candidate
    }
}

/// A name that is taken is no longer than the longest name in sight.
pub proof fn lemma_taken_bounded(
    candidate: Seq<char>,
    body: TermView,
    replacement: TermView,
    name: Seq<char>,
)
    requires
        taken(candidate, body, replacement, name),
    ensures
        candidate.len() <= body.longest_name() + replacement.longest_name() + name.len(),
{
    if body.mentions(candidate) {
        lemma_mentions_bounded(body, candidate);
    } else if replacement.is_free(candidate) {
        lemma_free_mentions(replacement, candidate);
        lemma_mentions_bounded(replacement, candidate);
    }
}

#[via_fn]
proof fn fresh_from_decreases(
    candidate: Seq<char>,
    body: TermView,
    replacement: TermView,
    name: Seq<char>,
) {
    if taken(candidate, body, replacement, name) {
        lemma_taken_bounded(candidate, body, replacement, name);
    }
}

impl TermView {
    /// The term with `to` in place of the free occurrences of `from`. It
    /// is meant for a `to` that does not occur in the term.
    pub open spec fn rename(self, from: Seq<char>, to: Seq<char>) -> TermView
        decreases self,
    {
        match self {
            TermView::Var(n) => if n == from {
                TermView::Var(to)
            } else {
                self
            },
            TermView::Abs(param, body) => if param == from {
                self
            } else {
                TermView::Abs(param, Box::new(body.rename(from, to)))
            },
            TermView::App(function, argument) => TermView::App(
                Box::new(function.rename(from, to)),
                Box::new(argument.rename(from, to)),
            ),
        }
    }

    /// The term with `replacement` in place of the free occurrences of
    /// `name`. An abstraction whose parameter is free in the replacement
    /// gets a fresh parameter first, so that it captures nothing.
    pub open spec fn substitute(self, name: Seq<char>, replacement: TermView) -> TermView
        decreases self.size(),
        via Self::substitute_decreases
    {
        match self {
            TermView::Var(n) => if n == name {
                replacement
            } else {
                self
            },
            TermView::Abs(param, body) => if param == name {
                self
            } else if replacement.is_free(param) {
                let fresh = fresh_from(param.push(FRESH_SUFFIX), *body, replacement, name);
                TermView::Abs(
                    fresh,
                    Box::new(body.rename(param, fresh).substitute(name, replacement)),
                )
            } else {
                TermView::Abs(param, Box::new(body.substitute(name, replacement)))
            },
            TermView::App(function, argument) => TermView::App(
                Box::new(function.substitute(name, replacement)),
                Box::new(argument.substitute(name, replacement)),
            ),
        }
    }

    #[via_fn]
    proof fn substitute_decreases(self, name: Seq<char>, replacement: TermView) {
        match self {
            TermView::Abs(param, body) => {
                let fresh = fresh_from(param.push(FRESH_SUFFIX), *body, replacement, name);
                lemma_rename_size(*body, param, fresh);
            },
            _ => {},
        }
    }

    /// Whether the term is an abstraction.
    pub open spec fn is_abstraction(self) -> bool {
        self is Abs
    }

    /// Whether the term is in normal form: no application in it has an
    /// abstraction as its function.
    pub open spec fn is_normal(self) -> bool
        decreases self,
    {
        match self {
            TermView::Var(_) => true,
            TermView::Abs(_, body) => body.is_normal(),
            TermView::App(function, argument) => !function.is_abstraction()
                && function.is_normal() && argument.is_normal(),
        }
    }

    /// One step of normal-order reduction: the leftmost of the outermost
    /// redexes is contracted. `None` where there is no redex.
    pub open spec fn step(self) -> Option<TermView>
        decreases self,
    {
        match self {
            TermView::Var(_) => None,
            TermView::Abs(param, body) => match body.step() {
                Some(reduced) => Some(TermView::Abs(param, Box::new(reduced))),
                None => None,
            },
            TermView::App(function, argument) => match *function {
                TermView::Abs(param, body) => Some(body.substitute(param, *argument)),
                _ => match function.step() {
                    Some(reduced) => Some(TermView::App(Box::new(reduced), argument)),
                    None => match argument.step() {
                        Some(reduced) => Some(TermView::App(function, Box::new(reduced))),
                        None => None,
                    },
                },
            },
        }
    }

    /// The term after `steps` steps of normal-order reduction, or its
    /// normal form where that is reached earlier.
    pub open spec fn reduce(self, steps: nat) -> TermView
        decreases steps,
    {
        if steps == 0 {
            self
        } else {
            match self.step() {
                Some(next) => next.reduce((steps - 1) as nat),
                None => self,
            }
        }
    }

    /// The normal form, where normal-order reduction reaches it within
    /// `steps` steps.
    pub open spec fn evaluate(self, steps: nat) -> Option<TermView> {
        if self.reduce(steps).is_normal() {
            Some(self.reduce(steps))
        } else {
            None
        }
    }
}

/// Renaming keeps the number of nodes.
pub proof fn lemma_rename_size(t: TermView, from: Seq<char>, to: Seq<char>)
    ensures
        t.rename(from, to).size() == t.size(),
    decreases t,
{
    match t {
        TermView::Var(_) => {},
        TermView::Abs(param, body) => {
            if param != from {
                lemma_rename_size(*body, from, to);
            }
        },
        TermView::App(function, argument) => {
            lemma_rename_size(*function, from, to);
            lemma_rename_size(*argument, from, to);
        },
    }
}

/// The model of a term that may be absent.
pub open spec fn term_option(o: Option<Term>) -> Option<TermView> {
    match o {
        Some(term) => Some(term@),
        None => None,
    }
}

/// The term with `to` in place of the free occurrences of `from`.
fn rename(term: &Term, from: &String, to: &String) -> (renamed: Term)
    ensures
        renamed@ == term@.rename(from@, to@),
    decreases term,
{
    match term {
        Term::Var(n) => if *n == *from {
            Term::Var(to.clone())
        } else {
            Term::Var(n.clone())
        },
        Term::Abs(param, body) => if *param == *from {
            term.clone()
        } else {
            Term::Abs(param.clone(), Box::new(rename(body, from, to)))
        },
        Term::App(function, argument) => Term::App(
            Box::new(rename(function, from, to)),
            Box::new(rename(argument, from, to)),
        ),
    }
}

/// A parameter to put in place of `param`: `param` with as many suffix
/// characters as it takes, and at least one, until the name is free to use.
fn fresh_name(param: &String, body: &Term, replacement: &Term, name: &String) -> (fresh: String)
    ensures
        fresh@ == fresh_from(param@.push(FRESH_SUFFIX), body@, replacement@, name@),
{
    let mut candidate = param.clone();
    candidate.push(FRESH_SUFFIX);
    while body.mentions(&candidate) || replacement.is_free(&candidate) || candidate == *name
        invariant
            fresh_from(candidate@, body@, replacement@, name@) == fresh_from(
                param@.push(FRESH_SUFFIX),
                body@,
                replacement@,
                name@,
            ),
        decreases
            body@.longest_name() + replacement@.longest_name() + name@.len() + 1
                - candidate@.len(),
    {
        proof {
            lemma_taken_bounded(candidate@, body@, replacement@, name@);
        }
        candidate.push(FRESH_SUFFIX);
    }
    candidate
}

/// Puts `replacement` for the free occurrences of `name` in `term`, and
/// renames parameters of `term` where they would capture a free name of
/// `replacement`.
pub fn substitute(term: &Term, name: &String, replacement: &Term) -> (result: Term)
    ensures
        result@ == term@.substitute(name@, replacement@),
    decreases term@.size(),
{
    match term {
        Term::Var(n) => if *n == *name {
            replacement.clone()
        } else {
            Term::Var(n.clone())
        },
        Term::Abs(param, body) => if *param == *name {
            term.clone()
        } else if replacement.is_free(param) {
            let fresh = fresh_name(param, body, replacement, name);
            let renamed = rename(body, param, &fresh);
            proof {
                lemma_rename_size(body@, param@, fresh@);
            }
            Term::Abs(fresh, Box::new(substitute(&renamed, name, replacement)))
        } else {
            Term::Abs(param.clone(), Box::new(substitute(body, name, replacement)))
        },
        Term::App(function, argument) => Term::App(
            Box::new(substitute(function, name, replacement)),
            Box::new(substitute(argument, name, replacement)),
        ),
    }
}

/// Whether `term` is in normal form.
pub fn is_normal(term: &Term) -> (normal: bool)
    ensures
        normal == term@.is_normal(),
    decreases term,
{
    match term {
        Term::Var(_) => true,
        Term::Abs(_, body) => is_normal(body),
        Term::App(function, argument) => {
            let redex = match &**function {
                Term::Abs(_, _) => true,
                _ => false,
            };
            !redex && is_normal(function) && is_normal(argument)
        },
    }
}

/// One step of normal-order reduction, or `None` where `term` is in normal
/// form.
pub fn step(term: &Term) -> (next: Option<Term>)
    ensures
        term_option(next) == term@.step(),
    decreases term,
{
    proof {
        reveal_with_fuel(Term::model, 2);
    }
    match term {
        Term::Var(_) => None,
        Term::Abs(param, body) => match step(body) {
            Some(reduced) => Some(Term::Abs(param.clone(), Box::new(reduced))),
            None => None,
        },
        Term::App(function, argument) => match &**function {
            Term::Abs(param, body) => Some(substitute(body, param, argument)),
            _ => match step(function) {
                Some(reduced) => Some(
                    Term::App(Box::new(reduced), Box::new((**argument).clone())),
                ),
                None => match step(argument) {
                    Some(reduced) => Some(
                        Term::App(Box::new((**function).clone()), Box::new(reduced)),
                    ),
                    None => None,
                },
            },
        },
    }
}

/// Reduces `term` in normal order for `max_steps` steps, or to its normal
/// form where that takes fewer.
pub fn reduce(term: &Term, max_steps: u64) -> (result: Term)
    ensures
        result@ == term@.reduce(max_steps as nat),
{
    let mut current = term.clone();
    let mut left: u64 = max_steps;
    while left > 0
        invariant
            current@.reduce(left as nat) == term@.reduce(max_steps as nat),
        decreases left,
    {
        match step(&current) {
            Some(next) => {
                current = next;
                left = left - 1;
            },
            None => {
                left = 0;
            },
        }
    }
    current
}

/// The normal form of `term`, where normal-order reduction reaches it
/// within `max_steps` steps; `None` where it does not.
pub fn evaluate(term: &Term, max_steps: u64) -> (normal_form: Option<Term>)
    ensures
        term_option(normal_form) == term@.evaluate(max_steps as nat),
        term@.is_normal() ==> term_option(normal_form) == Some(term@),
{
    proof {
        if term@.is_normal() {
            lemma_normal_form_is_fixed(term@, max_steps as nat);
        }
    }
    let result = reduce(term, max_steps);
    if is_normal(&result) {
        Some(result)
    } else {
        None
    }
}

} // verus!
