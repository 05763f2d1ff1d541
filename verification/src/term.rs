//! Lambda terms, their mathematical model and their canonical notation.

use vstd::prelude::*;
use crate::chars::{is_ident_char, is_space, LAMBDA};

verus! {

/// The mathematical model of a term: a finite tree whose names are
/// sequences of characters.
pub enum TermView {
    Var(Seq<char>),
    Abs(Seq<char>, Box<TermView>),
    App(Box<TermView>, Box<TermView>),
}

/// A term of the untyped lambda calculus. Each node owns its sub-terms.
#[derive(Debug, PartialEq, Eq)]
pub enum Term {
    /// A reference to a name, bound or free.
    Var(String),
    /// A function that binds its parameter in its body.
    Abs(String, Box<Term>),
    /// A function applied to an argument.
    App(Box<Term>, Box<Term>),
}

impl Term {
    /// The tree that the term stands for.
    pub open spec fn model(self) -> TermView
        decreases self,
    {
        match self {
            Term::Var(name) => TermView::Var(name@),
            Term::Abs(param, body) => TermView::Abs(param@, Box::new(body.model())),
            Term::App(function, argument) => TermView::App(
                Box::new(function.model()),
                Box::new(argument.model()),
            ),
        }
    }
}

impl View for Term {
    type V = TermView;

    open spec fn view(&self) -> TermView {
        self.model()
    }
}

/// An identifier: one character or more, each a letter, a digit or `_`.
/// It begins with a character that is no whitespace, so that it can be
/// told from the whitespace before it.
pub open spec fn is_identifier(name: Seq<char>) -> bool {
    &&& name.len() > 0
    &&& forall|i: int| 0 <= i < name.len() ==> is_ident_char(#[trigger] name[i])
    &&& !is_space(name[0])
}

/// A name under which a variable can be written down and read back: an
/// identifier that does not begin with the binder sigil.
pub open spec fn is_variable_name(name: Seq<char>) -> bool {
    &&& is_identifier(name)
    &&& name[0] != LAMBDA
}

impl TermView {
    /// The number of nodes.
    pub open spec fn size(self) -> nat
        decreases self,
    {
        match self {
            TermView::Var(_) => 1,
            TermView::Abs(_, body) => 1 + body.size(),
            TermView::App(function, argument) => 1 + function.size() + argument.size(),
        }
    }

    /// Whether `name` occurs free: as a variable that no enclosing
    /// abstraction of the same name binds.
    pub open spec fn is_free(self, name: Seq<char>) -> bool
        decreases self,
    {
        match self {
            TermView::Var(n) => n == name,
            TermView::Abs(param, body) => param != name && body.is_free(name),
            TermView::App(function, argument) => function.is_free(name) || argument.is_free(name),
        }
    }

    /// Whether `name` occurs at all, as a variable or as a parameter.
    pub open spec fn mentions(self, name: Seq<char>) -> bool
        decreases self,
    {
        match self {
            TermView::Var(n) => n == name,
            TermView::Abs(param, body) => param == name || body.mentions(name),
            TermView::App(function, argument) => function.mentions(name) || argument.mentions(
                name,
            ),
        }
    }

    /// The length of the longest name that occurs.
    pub open spec fn longest_name(self) -> nat
        decreases self,
    {
        match self {
            TermView::Var(n) => n.len(),
            TermView::Abs(param, body) => if param.len() >= body.longest_name() {
                param.len()
            } else {
                body.longest_name()
            },
            TermView::App(function, argument) => if function.longest_name()
                >= argument.longest_name() {
                function.longest_name()
            } else {
                argument.longest_name()
            },
        }
    }

    /// Every parameter is an identifier and every variable carries a name
    /// that can be read back.
    pub open spec fn well_formed(self) -> bool
        decreases self,
    {
        match self {
            TermView::Var(n) => is_variable_name(n),
            TermView::Abs(param, body) => is_identifier(param) && body.well_formed(),
            TermView::App(function, argument) => function.well_formed() && argument.well_formed(),
        }
    }

    /// The canonical notation. An abstraction extends as far to the right as
    /// it can, so inside an application it stands in parentheses of its own.
    pub open spec fn render(self) -> Seq<char>
        decreases self, 0nat,
    {
        match self {
            TermView::Var(n) => n,
            TermView::Abs(param, body) => seq![LAMBDA] + param + seq!['.', ' '] + body.render(),
            TermView::App(function, argument) => seq!['('] + function.render_operand() + seq![' ']
                + argument.render_operand() + seq![')'],
        }
    }

    /// The notation of a term that stands directly inside an application.
    pub open spec fn render_operand(self) -> Seq<char>
        decreases self, 1nat,
    {
        match self {
            TermView::Abs(_, _) => seq!['('] + self.render() + seq![')'],
            _ => self.render(),
        }
    }
}

/// A name that occurs in a term is no longer than the term's longest name.
pub proof fn lemma_mentions_bounded(t: TermView, name: Seq<char>)
    requires
        t.mentions(name),
    ensures
        name.len() <= t.longest_name(),
    decreases t,
{
    match t {
        TermView::Var(_) => {},
        TermView::Abs(param, body) => {
            if param != name {
                lemma_mentions_bounded(*body, name);
            }
        },
        TermView::App(function, argument) => {
            if function.mentions(name) {
                lemma_mentions_bounded(*function, name);
            } else {
                lemma_mentions_bounded(*argument, name);
            }
        },
    }
}

/// A name that occurs free occurs.
pub proof fn lemma_free_mentions(t: TermView, name: Seq<char>)
    requires
        t.is_free(name),
    ensures
        t.mentions(name),
    decreases t,
{
    match t {
        TermView::Var(_) => {},
        TermView::Abs(_, body) => {
            lemma_free_mentions(*body, name);
        },
        TermView::App(function, argument) => {
            if function.is_free(name) {
                lemma_free_mentions(*function, name);
            } else {
                lemma_free_mentions(*argument, name);
            }
        },
    }
}

impl Clone for Term {
    fn clone(&self) -> (copy: Term)
        ensures
            copy@ == self@,
        decreases self,
    {
        match self {
            Term::Var(name) => Term::Var(name.clone()),
            Term::Abs(param, body) => Term::Abs(param.clone(), Box::new((**body).clone())),
            Term::App(function, argument) => Term::App(
                Box::new((**function).clone()),
                Box::new((**argument).clone()),
            ),
        }
    }
}

impl Term {
    /// Whether `name` occurs free in the term.
    pub fn is_free(&self, name: &String) -> (found: bool)
        ensures
            found == self@.is_free(name@),
        decreases self,
    {
        match self {
            Term::Var(n) => *n == *name,
            Term::Abs(param, body) => *param != *name && body.is_free(name),
            Term::App(function, argument) => function.is_free(name) || argument.is_free(name),
        }
    }

    /// Whether `name` occurs in the term, as a variable or as a parameter.
    pub fn mentions(&self, name: &String) -> (found: bool)
        ensures
            found == self@.mentions(name@),
        decreases self,
    {
        match self {
            Term::Var(n) => *n == *name,
            Term::Abs(param, body) => *param == *name || body.mentions(name),
            Term::App(function, argument) => function.mentions(name) || argument.mentions(name),
        }
    }

    /// Appends the term's canonical notation to `out`.
    fn render_into(&self, out: &mut String, operand: bool)
        ensures
            final(out)@ == old(out)@ + if operand {
                self@.render_operand()
            } else {
                self@.render()
            },
        decreases self, if operand { 1nat } else { 0nat },
    {
        match self {
            Term::Var(name) => {
                out.append(name.as_str());
            },
            Term::Abs(param, body) => {
                if operand {
                    out.push('(');
                    self.render_into(out, false);
                    out.push(')');
                    assert(final(out)@ =~= old(out)@ + self@.render_operand());
                } else {
                    out.push(LAMBDA);
                    out.append(param.as_str());
                    out.push('.');
                    out.push(' ');
                    body.render_into(out, false);
                    assert(final(out)@ =~= old(out)@ + self@.render());
                }
            },
            Term::App(function, argument) => {
                out.push('(');
                function.render_into(out, true);
                out.push(' ');
                argument.render_into(out, true);
                out.push(')');
                assert(final(out)@ =~= old(out)@ + self@.render());
            },
        }
    }

    /// The term in canonical notation.
    pub fn render(&self) -> (text: String)
        ensures
            text@ == self@.render(),
    {
        let mut text = String::new();
        self.render_into(&mut text, false);
        assert(text@ =~= self@.render());
        text
    }
}

} // verus!
