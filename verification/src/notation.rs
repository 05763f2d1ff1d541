//! The canonical notation can be read back: the parser finds in the
//! rendering of a well-formed term that very term.

use vstd::prelude::*;
use crate::chars::{is_ident_char, is_space, LAMBDA};
use crate::eval_laws::lemma_reduce_well_formed;
use crate::grammar::lemma_parse_text;
use crate::grammar::{
    identifier_end, left_assoc, parse_application, parse_lambda, parse_run, parse_term,
    parse_text, parse_var, skip_spaces, starts_term, Parsed,
};
use crate::parser::ParseError;
use crate::term::TermView;

verus! {

/// The word `w` stands in `s` at `pos`.
pub open spec fn stands_at(s: Seq<char>, pos: int, w: Seq<char>) -> bool {
    &&& 0 <= pos
    &&& pos + w.len() <= s.len()
    &&& forall|i: int| 0 <= i < w.len() ==> s[pos + i] == #[trigger] w[i]
}

/// No identifier can go on at `pos`: the text ends there, or the character
/// there is none of an identifier.
pub open spec fn stops_at(s: Seq<char>, pos: int) -> bool {
    pos == s.len() || (0 <= pos < s.len() && !is_ident_char(s[pos]))
}

/// Where a word stands, its front and its back stand.
proof fn lemma_stands_split(s: Seq<char>, pos: int, front: Seq<char>, back: Seq<char>)
    requires
        stands_at(s, pos, front + back),
    ensures
        stands_at(s, pos, front),
        stands_at(s, pos + front.len(), back),
{
    let w = front + back;
    assert forall|i: int| 0 <= i < front.len() implies s[pos + i] == #[trigger] front[i] by {
        assert(w[i] == front[i]);
    }
    assert forall|i: int| 0 <= i < back.len() implies s[pos + front.len() + i]
        == #[trigger] back[i] by {
        assert(w[front.len() + i] == back[i]);
    }
}

/// A run of identifier characters that cannot go on is read to its end.
proof fn lemma_identifier_run(s: Seq<char>, pos: int, end: int)
    requires
        0 <= pos <= end <= s.len(),
        forall|i: int| pos <= i < end ==> is_ident_char(#[trigger] s[i]),
        stops_at(s, end),
    ensures
        identifier_end(s, pos) == end,
    decreases end - pos,
{
    if pos < end {
        lemma_identifier_run(s, pos + 1, end);
    }
}

/// An identifier that stands at `pos` and cannot go on is what is read
/// there.
proof fn lemma_read_identifier(name: Seq<char>, s: Seq<char>, pos: int)
    requires
        name.len() > 0,
        forall|i: int| 0 <= i < name.len() ==> is_ident_char(#[trigger] name[i]),
        stands_at(s, pos, name),
        stops_at(s, pos + name.len()),
    ensures
        parse_var(s, pos) == (Parsed { result: Ok(name), rest: pos + name.len() }),
{
    let end = pos + name.len();
    assert forall|i: int| pos <= i < end implies is_ident_char(#[trigger] s[i]) by {
        assert(s[pos + (i - pos)] == name[i - pos]);
    }
    lemma_identifier_run(s, pos, end);
    assert(s.subrange(pos, end) =~= name) by {
        assert forall|i: int| 0 <= i < name.len() implies s.subrange(pos, end)[i] == name[i] by {
            assert(s[pos + i] == name[i]);
        }
    }
}

/// Whitespace before a term is passed over.
proof fn lemma_space_before_term(s: Seq<char>, pos: int)
    requires
        0 <= pos < s.len(),
        is_space(s[pos]),
    ensures
        parse_term(s, pos) == parse_term(s, pos + 1),
{
}

/// The notation of a well-formed term as an operand is not empty, and
/// begins with a parenthesis or with the first character of a variable.
proof fn lemma_operand_head(t: TermView)
    requires
        t.well_formed(),
    ensures
        t.render_operand().len() > 0,
        t.render_operand()[0] != LAMBDA,
        !is_space(t.render_operand()[0]),
        starts_term(t.render_operand()[0]),
{
}

/// Where a character that is no whitespace stands, none is passed over.
proof fn lemma_no_space(s: Seq<char>, pos: int)
    requires
        0 <= pos <= s.len(),
        pos < s.len() ==> !is_space(s[pos]),
    ensures
        skip_spaces(s, pos) == pos,
{
}

/// The rendering of a well-formed abstraction, where no identifier can go
/// on behind it, is read as that abstraction.
pub proof fn lemma_read_lambda(t: TermView, s: Seq<char>, pos: int)
    requires
        t is Abs,
        t.well_formed(),
        stands_at(s, pos, t.render()),
        stops_at(s, pos + t.render().len()),
    ensures
        parse_lambda(s, pos) == (Parsed { result: Ok(t), rest: pos + t.render().len() }),
    decreases t, 0nat,
{
    let param = t->Abs_0;
    let body = *t->Abs_1;
    let head = seq![LAMBDA] + param;
    let dot = pos + 1 + param.len();
    assert(t.render() == head + seq!['.', ' '] + body.render());
    lemma_stands_split(s, pos, head + seq!['.', ' '], body.render());
    lemma_stands_split(s, pos, head, seq!['.', ' ']);
    lemma_stands_split(s, pos, seq![LAMBDA], param);
    assert(s[pos] == LAMBDA) by {
        assert(s[pos + 0] == seq![LAMBDA][0]);
    }
    assert(s[pos + 1] == param[0]) by {
        assert(s[pos + 1 + 0] == param[0]);
    }
    assert(s[dot] == '.') by {
        assert(s[dot + 0] == seq!['.', ' '][0]);
    }
    assert(s[dot + 1] == ' ') by {
        assert(s[dot + 1] == seq!['.', ' '][1]);
    }
    lemma_no_space(s, pos + 1);
    lemma_read_identifier(param, s, pos + 1);
    lemma_no_space(s, dot);
    lemma_space_before_term(s, dot + 1);
    lemma_read_term(body, s, dot + 2);
}

/// The rendering of a well-formed term, where no identifier can go on
/// behind it, is read as that term.
pub proof fn lemma_read_term(t: TermView, s: Seq<char>, pos: int)
    requires
        t.well_formed(),
        stands_at(s, pos, t.render()),
        stops_at(s, pos + t.render().len()),
    ensures
        parse_term(s, pos) == (Parsed { result: Ok(t), rest: pos + t.render().len() }),
    decreases t, 1nat,
{
    match t {
        TermView::Var(name) => {
            assert(s[pos + 0] == name[0]);
            lemma_no_space(s, pos);
            lemma_read_identifier(name, s, pos);
        },
        TermView::Abs(param, body) => {
            assert(t.render()[0] == LAMBDA);
            assert(s[pos + 0] == t.render()[0]);
            lemma_no_space(s, pos);
            lemma_read_lambda(t, s, pos);
        },
        TermView::App(function, argument) => {
            let first = function.render_operand();
            let second = argument.render_operand();
            let left = pos + 1;
            let gap = left + first.len();
            let right = gap + 1;
            let close = right + second.len();
            assert(t.render() == seq!['('] + first + seq![' '] + second + seq![')']);
            lemma_stands_split(s, pos, seq!['('] + first + seq![' '] + second, seq![')']);
            lemma_stands_split(s, pos, seq!['('] + first + seq![' '], second);
            lemma_stands_split(s, pos, seq!['('] + first, seq![' ']);
            lemma_stands_split(s, pos, seq!['('], first);
            assert(s[pos] == '(') by {
                assert(s[pos + 0] == seq!['('][0]);
            }
            assert(s[gap] == ' ') by {
                assert(s[gap + 0] == seq![' '][0]);
            }
            assert(s[close] == ')') by {
                assert(s[close + 0] == seq![')'][0]);
            }
            lemma_operand_head(*function);
            lemma_operand_head(*argument);
            assert(s[left] == first[0]) by {
                assert(s[left + 0] == first[0]);
            }
            assert(s[right] == second[0]) by {
                assert(s[right + 0] == second[0]);
            }
            lemma_no_space(s, pos);
            lemma_no_space(s, left);
            lemma_no_space(s, right);
            lemma_no_space(s, close);
            assert(skip_spaces(s, gap) == right);
            lemma_read_operand(*function, s, left);
            lemma_read_operand(*argument, s, right);
            let last = parse_run(s, close);
            assert(last == (Parsed { result: Ok(Seq::<TermView>::empty()), rest: close }));
            let middle = parse_run(s, gap);
            assert(middle.rest == close);
            assert(middle.result is Ok);
            assert(middle.result->Ok_0 =~= seq![*argument]);
            let whole = parse_run(s, left);
            assert(whole.rest == close);
            assert(whole.result is Ok);
            assert(whole.result->Ok_0 =~= seq![*function, *argument]);
            assert(whole.result->Ok_0.drop_last() =~= seq![*function]);
            assert(left_assoc(seq![*function]) == *function);
            assert(left_assoc(whole.result->Ok_0) == t);
            assert(parse_application(s, left) == (Parsed { result: Ok(t), rest: close }));
        },
    }
}

/// The rendering of a well-formed term as an operand, where no identifier
/// can go on behind it, is read as that term.
pub proof fn lemma_read_operand(t: TermView, s: Seq<char>, pos: int)
    requires
        t.well_formed(),
        stands_at(s, pos, t.render_operand()),
        stops_at(s, pos + t.render_operand().len()),
    ensures
        parse_term(s, pos) == (Parsed { result: Ok(t), rest: pos + t.render_operand().len() }),
    decreases t, 2nat,
{
    if t is Abs {
        let inner = t.render();
        let close = pos + 1 + inner.len();
        lemma_stands_split(s, pos, seq!['('] + inner, seq![')']);
        lemma_stands_split(s, pos, seq!['('], inner);
        assert(s[pos] == '(') by {
            assert(s[pos + 0] == seq!['('][0]);
        }
        assert(s[close] == ')') by {
            assert(s[close + 0] == seq![')'][0]);
        }
        assert(s[pos + 1] == LAMBDA) by {
            assert(inner[0] == LAMBDA);
            assert(s[pos + 1 + 0] == inner[0]);
        }
        lemma_no_space(s, pos);
        lemma_no_space(s, pos + 1);
        lemma_no_space(s, close);
        lemma_read_lambda(t, s, pos + 1);
    } else {
        lemma_read_term(t, s, pos);
    }
}

/// Parsing undoes rendering: the canonical notation of a well-formed term
/// is a text that stands for that term.
pub proof fn lemma_parse_render(t: TermView)
    requires
        t.well_formed(),
    ensures
        parse_text(t.render()) == Ok::<TermView, ParseError>(t),
{
    lemma_read_term(t, t.render(), 0);
    lemma_no_space(t.render(), t.render().len() as int);
}

/// A gap between two operands: whitespace, one character or more, none of
/// which could go on an identifier.
pub open spec fn is_gap(w: Seq<char>) -> bool {
    &&& w.len() > 0
    &&& forall|i: int| 0 <= i < w.len() ==> is_space(#[trigger] w[i]) && !is_ident_char(w[i])
}

/// The operands of a group after its first, each with its gap before it.
pub open spec fn render_rest(terms: Seq<TermView>, gaps: Seq<Seq<char>>) -> Seq<char>
    recommends
        gaps.len() == terms.len(),
    decreases terms.len(),
{
    if terms.len() == 0 {
        Seq::empty()
    } else {
        gaps[0] + terms[0].render_operand() + render_rest(terms.drop_first(), gaps.drop_first())
    }
}

/// A group written flat: its operands one after the other, with the gaps
/// between them, in one pair of parentheses.
pub open spec fn render_group(terms: Seq<TermView>, gaps: Seq<Seq<char>>) -> Seq<char>
    recommends
        terms.len() > 0,
        gaps.len() == terms.len() - 1,
{
    seq!['('] + terms[0].render_operand() + render_rest(terms.drop_first(), gaps) + seq![')']
}

/// Whitespace that ends before a character that is none is passed over to
/// its end.
proof fn lemma_skip_gap(s: Seq<char>, pos: int, end: int)
    requires
        0 <= pos <= end < s.len(),
        forall|i: int| pos <= i < end ==> is_space(#[trigger] s[i]),
        !is_space(s[end]),
    ensures
        skip_spaces(s, pos) == end,
    decreases end - pos,
{
    if pos < end {
        lemma_skip_gap(s, pos + 1, end);
    }
}

/// The operands that stand before the end of a group are read as a run,
/// which ends at the closing parenthesis.
proof fn lemma_read_rest(terms: Seq<TermView>, gaps: Seq<Seq<char>>, s: Seq<char>, pos: int)
    requires
        gaps.len() == terms.len(),
        forall|i: int| 0 <= i < terms.len() ==> (#[trigger] terms[i]).well_formed(),
        forall|i: int| 0 <= i < gaps.len() ==> is_gap(#[trigger] gaps[i]),
        stands_at(s, pos, render_rest(terms, gaps) + seq![')']),
    ensures
        parse_run(s, pos) == (Parsed {
            result: Ok(terms),
            rest: pos + render_rest(terms, gaps).len(),
        }),
    decreases terms.len(),
{
    if terms.len() == 0 {
        assert(s[pos] == ')') by {
            assert(s[pos + 0] == (render_rest(terms, gaps) + seq![')'])[0]);
        }
        lemma_no_space(s, pos);
        assert(parse_run(s, pos).result->Ok_0 =~= terms);
    } else {
        let first = terms[0];
        let others = terms.drop_first();
        let gap = gaps[0];
        let operand = first.render_operand();
        let tail = render_rest(others, gaps.drop_first()) + seq![')'];
        let start = pos + gap.len();
        let next = start + operand.len();
        assert(render_rest(terms, gaps) + seq![')'] =~= gap + operand + tail);
        lemma_stands_split(s, pos, gap + operand, tail);
        lemma_stands_split(s, pos, gap, operand);
        assert(is_gap(gap));
        assert forall|i: int| pos <= i < start implies is_space(#[trigger] s[i]) by {
            assert(s[pos + (i - pos)] == gap[i - pos]);
        }
        assert forall|i: int| 0 <= i < others.len() implies (#[trigger] others[i]).well_formed() by {
            assert(others[i] == terms[i + 1]);
        }
        assert forall|i: int| 0 <= i < gaps.drop_first().len() implies is_gap(
            #[trigger] gaps.drop_first()[i],
        ) by {
            assert(gaps.drop_first()[i] == gaps[i + 1]);
        }
        assert(!is_ident_char(s[next])) by {
            assert(s[next + 0] == tail[0]);
            if others.len() > 0 {
                assert(is_gap(gaps.drop_first()[0]));
                assert(tail[0] == gaps.drop_first()[0][0]);
            } else {
                assert(tail[0] == ')');
            }
        }
        lemma_operand_head(first);
        assert(s[start] == operand[0]) by {
            assert(s[start + 0] == operand[0]);
        }
        lemma_skip_gap(s, pos, start);
        lemma_read_operand(first, s, start);
        lemma_read_rest(others, gaps.drop_first(), s, next);
        assert(parse_run(s, pos).result is Ok);
        assert(parse_run(s, pos).result->Ok_0 =~= terms);
    }
}

/// A group written flat, with whatever whitespace between its operands, is
/// read as the operands applied from the left.
pub proof fn lemma_parse_group(terms: Seq<TermView>, gaps: Seq<Seq<char>>)
    requires
        terms.len() > 0,
        gaps.len() == terms.len() - 1,
        forall|i: int| 0 <= i < terms.len() ==> (#[trigger] terms[i]).well_formed(),
        forall|i: int| 0 <= i < gaps.len() ==> is_gap(#[trigger] gaps[i]),
    ensures
        parse_text(render_group(terms, gaps)) == Ok::<TermView, ParseError>(left_assoc(terms)),
{
    let s = render_group(terms, gaps);
    let first = terms[0];
    let others = terms.drop_first();
    let operand = first.render_operand();
    let tail = render_rest(others, gaps) + seq![')'];
    let next = operand.len() as int + 1;
    assert(s =~= seq!['('] + operand + tail);
    assert(stands_at(s, 0, seq!['('] + operand + tail));
    lemma_stands_split(s, 0, seq!['('] + operand, tail);
    lemma_stands_split(s, 0, seq!['('], operand);
    lemma_operand_head(first);
    assert(s[0] == '(');
    assert(s[1] == operand[0]) by {
        assert(s[1int + 0] == operand[0]);
    }
    assert(!is_ident_char(s[next])) by {
        assert(s[next + 0] == tail[0]);
        if others.len() > 0 {
            assert(is_gap(gaps[0]));
            assert(tail[0] == gaps[0][0]);
        } else {
            assert(tail[0] == ')');
        }
    }
    lemma_no_space(s, 0);
    lemma_no_space(s, 1);
    lemma_read_operand(first, s, 1);
    assert forall|i: int| 0 <= i < others.len() implies (#[trigger] others[i]).well_formed() by {
        assert(others[i] == terms[i + 1]);
    }
    lemma_read_rest(others, gaps, s, next);
    let close: int = next + render_rest(others, gaps).len();
    assert(parse_run(s, 1).result is Ok);
    assert(parse_run(s, 1).result->Ok_0 =~= terms);
    assert(parse_run(s, 1).rest == close);
    assert(s[close] == ')') by {
        assert(s[next + render_rest(others, gaps).len()] == tail[render_rest(
            others,
            gaps,
        ).len() as int]);
    }
    lemma_no_space(s, close);
    assert(parse_application(s, 1) == (Parsed { result: Ok(left_assoc(terms)), rest: close }));
    lemma_no_space(s, s.len() as int);
}

/// Application associates to the left: three operands in one group are
/// read as the first applied to the second, and that applied to the third,
/// which is what the nested notation is read as.
pub proof fn lemma_group_associates_left(
    a: TermView,
    b: TermView,
    c: TermView,
    gaps: Seq<Seq<char>>,
)
    requires
        a.well_formed(),
        b.well_formed(),
        c.well_formed(),
        gaps.len() == 2,
        is_gap(gaps[0]),
        is_gap(gaps[1]),
    ensures
        parse_text(render_group(seq![a, b, c], gaps)) == Ok::<TermView, ParseError>(
            TermView::App(Box::new(TermView::App(Box::new(a), Box::new(b))), Box::new(c)),
        ),
        parse_text(render_group(seq![a, b, c], gaps)) == parse_text(
            TermView::App(Box::new(TermView::App(Box::new(a), Box::new(b))), Box::new(c)).render(),
        ),
{
    let terms = seq![a, b, c];
    let nested = TermView::App(Box::new(TermView::App(Box::new(a), Box::new(b))), Box::new(c));
    lemma_parse_group(terms, gaps);
    assert(terms.drop_last() =~= seq![a, b]);
    assert(seq![a, b].drop_last() =~= seq![a]);
    assert(left_assoc(seq![a]) == a);
    assert(left_assoc(seq![a, b]) == TermView::App(Box::new(a), Box::new(b)));
    assert(left_assoc(terms) == nested);
    assert(TermView::App(Box::new(a), Box::new(b)).well_formed());
    lemma_parse_render(nested);
}

/// A term that was read loses nothing when it is written down: its
/// canonical notation is read as the same term again.
pub proof fn lemma_parse_is_canonical(s: Seq<char>)
    ensures
        parse_text(s) matches Ok(term) ==> parse_text(term.render()) == Ok::<
            TermView,
            ParseError,
        >(term),
{
    lemma_parse_text(s);
    if let Ok(term) = parse_text(s) {
        lemma_parse_render(term);
    }
}

/// Two well-formed terms with the same notation are the same term.
pub proof fn lemma_render_injective(t: TermView, u: TermView)
    requires
        t.well_formed(),
        u.well_formed(),
        t.render() == u.render(),
    ensures
        t == u,
{
    lemma_parse_render(t);
    lemma_parse_render(u);
}

/// What reduction makes of a well-formed term can be written down and read
/// back, however many steps were taken.
pub proof fn lemma_reduced_reads_back(t: TermView, steps: nat)
    requires
        t.well_formed(),
    ensures
        parse_text(t.reduce(steps).render()) == Ok::<TermView, ParseError>(t.reduce(steps)),
{
    lemma_reduce_well_formed(t, steps);
    lemma_parse_render(t.reduce(steps));
}

} // verus!
