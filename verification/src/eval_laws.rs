//! What holds of substitution and reduction for every term.

use vstd::prelude::*;
use crate::chars::is_ident_char;
use crate::eval::{fresh_from, lemma_rename_size, lemma_taken_bounded, taken, FRESH_SUFFIX};
use crate::term::{is_identifier, lemma_free_mentions, TermView};

verus! {

/// A term is in normal form exactly when it has no step to take.
pub proof fn lemma_normal_iff_no_step(t: TermView)
    ensures
        t.is_normal() <==> t.step() is None,
    decreases t,
{
    match t {
        TermView::Var(_) => {},
        TermView::Abs(_, body) => {
            lemma_normal_iff_no_step(*body);
        },
        TermView::App(function, argument) => {
            lemma_normal_iff_no_step(*function);
            lemma_normal_iff_no_step(*argument);
        },
    }
}

/// Reduction leaves a term in normal form as it is, whatever the bound, and
/// evaluation returns it.
pub proof fn lemma_normal_form_is_fixed(t: TermView, steps: nat)
    requires
        t.is_normal(),
    ensures
        t.reduce(steps) == t,
        t.evaluate(steps) == Some(t),
{
    lemma_normal_iff_no_step(t);
}

/// Once the normal form is reached, more steps change nothing.
pub proof fn lemma_reduce_stable(t: TermView, steps: nat, more: nat)
    requires
        t.reduce(steps).is_normal(),
        steps <= more,
    ensures
        t.reduce(more) == t.reduce(steps),
    decreases steps,
{
    if steps == 0 {
        lemma_normal_form_is_fixed(t, more);
    } else {
        match t.step() {
            Some(next) => {
                lemma_reduce_stable(next, (steps - 1) as nat, (more - 1) as nat);
            },
            None => {},
        }
    }
}

/// Evaluation is a function of the term alone: where it finds a normal form
/// within some bound, it finds the same one within every larger bound.
pub proof fn lemma_evaluate_deterministic(t: TermView, steps: nat, more: nat)
    requires
        t.evaluate(steps) is Some,
        steps <= more,
    ensures
        t.evaluate(more) == t.evaluate(steps),
{
    lemma_reduce_stable(t, steps, more);
}

/// What evaluation returns is in normal form, and evaluating it again
/// returns it unchanged.
pub proof fn lemma_evaluate_idempotent(t: TermView, steps: nat, again: nat)
    requires
        t.evaluate(steps) is Some,
    ensures
        t.evaluate(steps)->0.is_normal(),
        t.evaluate(steps)->0.evaluate(again) == t.evaluate(steps),
{
    lemma_normal_form_is_fixed(t.reduce(steps), again);
}

/// The self-application `(λx. (x x))`.
pub open spec fn self_application(x: Seq<char>) -> TermView {
    TermView::Abs(
        x,
        Box::new(TermView::App(Box::new(TermView::Var(x)), Box::new(TermView::Var(x)))),
    )
}

/// The term `((λx. (x x)) (λx. (x x)))`.
pub open spec fn omega(x: Seq<char>) -> TermView {
    TermView::App(Box::new(self_application(x)), Box::new(self_application(x)))
}

/// Omega steps to itself.
pub proof fn lemma_omega_steps_to_itself(x: Seq<char>)
    ensures
        omega(x).step() == Some(omega(x)),
{
    let half = self_application(x);
    let body = TermView::App(Box::new(TermView::Var(x)), Box::new(TermView::Var(x)));
    assert(TermView::Var(x).substitute(x, half) == half);
    assert(body.substitute(x, half) == omega(x));
}

/// Omega has no normal form: whatever the bound, reduction is still at
/// omega and evaluation finds nothing.
pub proof fn lemma_omega_has_no_normal_form(x: Seq<char>, steps: nat)
    ensures
        omega(x).reduce(steps) == omega(x),
        omega(x).evaluate(steps) is None,
    decreases steps,
{
    lemma_omega_steps_to_itself(x);
    if steps > 0 {
        lemma_omega_has_no_normal_form(x, (steps - 1) as nat);
    }
    assert(self_application(x).is_abstraction());
    assert(!omega(x).is_normal());
}

/// The fresh name is not taken: it occurs neither in the body nor free in
/// the replacement, and is not the name that is replaced.
pub proof fn lemma_fresh_not_taken(
    candidate: Seq<char>,
    body: TermView,
    replacement: TermView,
    name: Seq<char>,
)
    ensures
        !taken(fresh_from(candidate, body, replacement, name), body, replacement, name),
    decreases body.longest_name() + replacement.longest_name() + name.len() + 1 - candidate.len(),
{
    if taken(candidate, body, replacement, name) {
        lemma_taken_bounded(candidate, body, replacement, name);
        lemma_fresh_not_taken(candidate.push(FRESH_SUFFIX), body, replacement, name);
    }
}

/// The fresh name is the candidate with suffix characters behind it: it
/// begins as the candidate does, and is an identifier where the candidate
/// is one.
pub proof fn lemma_fresh_shape(
    candidate: Seq<char>,
    body: TermView,
    replacement: TermView,
    name: Seq<char>,
)
    requires
        candidate.len() > 0,
    ensures
        fresh_from(candidate, body, replacement, name).len() >= candidate.len(),
        fresh_from(candidate, body, replacement, name)[0] == candidate[0],
        is_identifier(candidate) ==> is_identifier(
            fresh_from(candidate, body, replacement, name),
        ),
    decreases body.longest_name() + replacement.longest_name() + name.len() + 1 - candidate.len(),
{
    if taken(candidate, body, replacement, name) {
        lemma_taken_bounded(candidate, body, replacement, name);
        lemma_fresh_shape(candidate.push(FRESH_SUFFIX), body, replacement, name);
    }
}

/// After a renaming to a name that did not occur, the new name is free
/// exactly where the old one was, the old one is free no longer, and every
/// other name is free as before.
pub proof fn lemma_rename_free(t: TermView, from: Seq<char>, to: Seq<char>, y: Seq<char>)
    requires
        !t.mentions(to),
    ensures
        t.rename(from, to).is_free(y) <==> if y == to {
            t.is_free(from)
        } else {
            y != from && t.is_free(y)
        },
    decreases t,
{
    if t.is_free(to) {
        lemma_free_mentions(t, to);
    }
    match t {
        TermView::Var(_) => {},
        TermView::Abs(param, body) => {
            if param != from {
                lemma_rename_free(*body, from, to, y);
            }
        },
        TermView::App(function, argument) => {
            lemma_rename_free(*function, from, to, y);
            lemma_rename_free(*argument, from, to, y);
        },
    }
}

/// Substitution captures nothing. A name is free in the result exactly when
/// it was free in the term and is not the name replaced, or the name
/// replaced was free in the term and the name is free in the replacement.
pub proof fn lemma_substitute_free(
    t: TermView,
    name: Seq<char>,
    replacement: TermView,
    y: Seq<char>,
)
    ensures
        t.substitute(name, replacement).is_free(y) <==> (t.is_free(y) && y != name) || (t.is_free(
            name,
        ) && replacement.is_free(y)),
    decreases t.size(),
{
    match t {
        TermView::Var(_) => {},
        TermView::Abs(param, body) => {
            if param == name {
            } else if replacement.is_free(param) {
                let fresh = fresh_from(param.push(FRESH_SUFFIX), *body, replacement, name);
                let renamed = body.rename(param, fresh);
                lemma_fresh_not_taken(param.push(FRESH_SUFFIX), *body, replacement, name);
                lemma_rename_size(*body, param, fresh);
                lemma_rename_free(*body, param, fresh, y);
                lemma_rename_free(*body, param, fresh, name);
                lemma_substitute_free(renamed, name, replacement, y);
                if body.is_free(fresh) {
                    lemma_free_mentions(*body, fresh);
                }
            } else {
                lemma_substitute_free(*body, name, replacement, y);
            }
        },
        TermView::App(function, argument) => {
            lemma_substitute_free(*function, name, replacement, y);
            lemma_substitute_free(*argument, name, replacement, y);
        },
    }
}

/// Substitution for a name that is not free changes no free name.
pub proof fn lemma_substitute_closed(
    t: TermView,
    name: Seq<char>,
    replacement: TermView,
    y: Seq<char>,
)
    requires
        !t.is_free(name),
    ensures
        t.substitute(name, replacement).is_free(y) == t.is_free(y),
{
    lemma_substitute_free(t, name, replacement, y);
}

/// A step of reduction frees no name: what is free afterwards was free
/// before.
pub proof fn lemma_step_free(t: TermView, y: Seq<char>)
    requires
        t.step() is Some,
        t.step()->0.is_free(y),
    ensures
        t.is_free(y),
    decreases t,
{
    match t {
        TermView::Var(_) => {},
        TermView::Abs(_, body) => {
            lemma_step_free(*body, y);
        },
        TermView::App(function, argument) => {
            match *function {
                TermView::Abs(param, body) => {
                    lemma_substitute_free(*body, param, *argument, y);
                    assert(function.is_free(y) == (param != y && body.is_free(y)));
                },
                _ => {
                    if function.step() is Some {
                        if function.step()->0.is_free(y) {
                            lemma_step_free(*function, y);
                        }
                    } else if argument.step()->0.is_free(y) {
                        lemma_step_free(*argument, y);
                    }
                },
            }
        },
    }
}

/// Renaming a parameter to an identifier that begins as it does keeps a
/// term well-formed.
pub proof fn lemma_rename_well_formed(t: TermView, from: Seq<char>, to: Seq<char>)
    requires
        t.well_formed(),
        is_identifier(to),
        from.len() > 0,
        to[0] == from[0],
    ensures
        t.rename(from, to).well_formed(),
    decreases t,
{
    match t {
        TermView::Var(_) => {},
        TermView::Abs(param, body) => {
            if param != from {
                lemma_rename_well_formed(*body, from, to);
            }
        },
        TermView::App(function, argument) => {
            lemma_rename_well_formed(*function, from, to);
            lemma_rename_well_formed(*argument, from, to);
        },
    }
}

/// Substitution of a well-formed term into a well-formed term gives one.
pub proof fn lemma_substitute_well_formed(t: TermView, name: Seq<char>, replacement: TermView)
    requires
        t.well_formed(),
        replacement.well_formed(),
    ensures
        t.substitute(name, replacement).well_formed(),
    decreases t.size(),
{
    match t {
        TermView::Var(_) => {},
        TermView::Abs(param, body) => {
            if param == name {
            } else if replacement.is_free(param) {
                let first = param.push(FRESH_SUFFIX);
                let fresh = fresh_from(first, *body, replacement, name);
                assert(first[0] == param[0]);
                assert(is_identifier(first)) by {
                    assert forall|i: int| 0 <= i < first.len() implies is_ident_char(
                        #[trigger] first[i],
                    ) by {
                        if i < param.len() {
                            assert(first[i] == param[i]);
                        }
                    }
                }
                lemma_fresh_shape(first, *body, replacement, name);
                lemma_rename_well_formed(*body, param, fresh);
                lemma_rename_size(*body, param, fresh);
                lemma_substitute_well_formed(body.rename(param, fresh), name, replacement);
            } else {
                lemma_substitute_well_formed(*body, name, replacement);
            }
        },
        TermView::App(function, argument) => {
            lemma_substitute_well_formed(*function, name, replacement);
            lemma_substitute_well_formed(*argument, name, replacement);
        },
    }
}

/// A step of reduction keeps a term well-formed.
pub proof fn lemma_step_well_formed(t: TermView)
    requires
        t.well_formed(),
        t.step() is Some,
    ensures
        t.step()->0.well_formed(),
    decreases t,
{
    match t {
        TermView::Var(_) => {},
        TermView::Abs(_, body) => {
            lemma_step_well_formed(*body);
        },
        TermView::App(function, argument) => {
            match *function {
                TermView::Abs(param, body) => {
                    assert(function.well_formed());
                    lemma_substitute_well_formed(*body, param, *argument);
                },
                _ => {
                    if function.step() is Some {
                        lemma_step_well_formed(*function);
                    } else {
                        lemma_step_well_formed(*argument);
                    }
                },
            }
        },
    }
}

/// Reduction keeps a term well-formed, however many steps it takes.
pub proof fn lemma_reduce_well_formed(t: TermView, steps: nat)
    requires
        t.well_formed(),
    ensures
        t.reduce(steps).well_formed(),
    decreases steps,
{
    if steps > 0 && t.step() is Some {
        lemma_step_well_formed(t);
        lemma_reduce_well_formed(t.step()->0, (steps - 1) as nat);
    }
}

} // verus!
