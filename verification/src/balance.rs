//! Parentheses: a text that is read as a term closes every group that it
//! opens, and closes none that it has not opened.

use vstd::prelude::*;
use crate::chars::{is_ident_char, LAMBDA};
use crate::grammar::{
    identifier_end, lemma_identifier_end, lemma_parse_application, lemma_parse_lambda,
    lemma_parse_non_application_term, lemma_parse_run, lemma_parse_term, lemma_parse_var,
    lemma_skip_spaces, parse_application,
    parse_lambda, parse_non_application_term, parse_run, parse_term, parse_text, parse_var,
    skip_spaces, starts_term,
};

verus! {

/// What a character adds to the number of open groups.
pub open spec fn opens(c: char) -> int {
    if c == '(' {
        1
    } else if c == ')' {
        -1
    } else {
        0
    }
}

/// The number of groups that the characters from `from` up to `to` leave
/// open: the opening parentheses among them less the closing ones.
pub open spec fn depth(s: Seq<char>, from: int, to: int) -> int
    decreases to - from,
{
    if to <= from {
        0
    } else {
        depth(s, from, to - 1) + opens(s[to - 1])
    }
}

/// The characters from `from` up to `to` hold as many closing parentheses
/// as opening ones, and no more closing than opening ones up to any point.
pub open spec fn balanced(s: Seq<char>, from: int, to: int) -> bool {
    &&& depth(s, from, to) == 0
    &&& forall|k: int| from <= k <= to ==> #[trigger] depth(s, from, k) >= 0
}

/// No parenthesis stands from `from` up to `to`.
pub open spec fn no_parentheses(s: Seq<char>, from: int, to: int) -> bool {
    forall|i: int| from <= i < to ==> opens(#[trigger] s[i]) == 0
}

/// The depth of a stretch is the sum of the depths of its two parts.
proof fn lemma_depth_split(s: Seq<char>, from: int, mid: int, to: int)
    requires
        from <= mid <= to,
    ensures
        depth(s, from, to) == depth(s, from, mid) + depth(s, mid, to),
    decreases to - mid,
{
    if mid < to {
        lemma_depth_split(s, from, mid, to - 1);
    }
}

/// A stretch without parentheses is balanced.
proof fn lemma_plain_balanced(s: Seq<char>, from: int, to: int)
    requires
        from <= to,
        no_parentheses(s, from, to),
    ensures
        balanced(s, from, to),
        forall|k: int| from <= k <= to ==> #[trigger] depth(s, from, k) == 0,
    decreases to - from,
{
    if from < to {
        lemma_plain_balanced(s, from, to - 1);
        assert(opens(s[to - 1]) == 0);
    }
}

/// Two balanced stretches, one behind the other, are balanced together.
proof fn lemma_balanced_join(s: Seq<char>, from: int, mid: int, to: int)
    requires
        from <= mid <= to,
        balanced(s, from, mid),
        balanced(s, mid, to),
    ensures
        balanced(s, from, to),
{
    lemma_depth_split(s, from, mid, to);
    assert forall|k: int| from <= k <= to implies #[trigger] depth(s, from, k) >= 0 by {
        if k > mid {
            lemma_depth_split(s, from, mid, k);
            assert(depth(s, mid, k) >= 0);
        }
    }
}

/// A balanced stretch between an opening and a closing parenthesis is
/// balanced together with them.
proof fn lemma_balanced_wrap(s: Seq<char>, open: int, close: int)
    requires
        0 <= open < close < s.len(),
        s[open] == '(',
        s[close] == ')',
        balanced(s, open + 1, close),
    ensures
        balanced(s, open, close + 1),
{
    assert(depth(s, open, open + 1) == 1) by {
        assert(depth(s, open, open) == 0);
    }
    assert forall|k: int| open <= k <= close + 1 implies #[trigger] depth(s, open, k) >= 0 by {
        if open < k <= close {
            lemma_depth_split(s, open, open + 1, k);
            assert(depth(s, open + 1, k) >= 0);
        } else if k == close + 1 {
            lemma_depth_split(s, open, open + 1, close);
        }
    }
    lemma_depth_split(s, open, open + 1, close);
}

/// The whitespace that is passed over holds no parenthesis.
proof fn lemma_spaces_balanced(s: Seq<char>, pos: int)
    requires
        0 <= pos <= s.len(),
    ensures
        balanced(s, pos, skip_spaces(s, pos)),
{
    lemma_skip_spaces(s, pos);
    lemma_plain_balanced(s, pos, skip_spaces(s, pos));
}

/// The characters of an identifier hold no parenthesis.
proof fn lemma_identifier_balanced(s: Seq<char>, pos: int)
    requires
        0 <= pos <= s.len(),
    ensures
        balanced(s, pos, identifier_end(s, pos)),
{
    lemma_identifier_end(s, pos);
    lemma_plain_balanced(s, pos, identifier_end(s, pos));
}

/// What is read as an abstraction is balanced.
pub proof fn lemma_parse_lambda_balanced(s: Seq<char>, pos: int)
    requires
        0 <= pos <= s.len(),
    ensures
        parse_lambda(s, pos).result is Ok ==> balanced(s, pos, parse_lambda(s, pos).rest),
    decreases s.len() - pos, 0nat,
{
    if pos < s.len() && s[pos] == LAMBDA {
        lemma_skip_spaces(s, pos + 1);
        let start = skip_spaces(s, pos + 1);
        lemma_parse_var(s, start);
        let bind = parse_var(s, start);
        if bind.result is Ok {
            lemma_skip_spaces(s, bind.rest);
            let dot = skip_spaces(s, bind.rest);
            if dot < s.len() && s[dot] == '.' {
                let body = parse_term(s, dot + 1);
                lemma_parse_term(s, dot + 1);
                if body.result is Ok {
                    lemma_parse_term_balanced(s, dot + 1);
                    lemma_plain_balanced(s, pos, pos + 1);
                    lemma_spaces_balanced(s, pos + 1);
                    lemma_identifier_balanced(s, start);
                    lemma_spaces_balanced(s, bind.rest);
                    lemma_plain_balanced(s, dot, dot + 1);
                    lemma_balanced_join(s, pos, pos + 1, start);
                    lemma_balanced_join(s, pos, start, bind.rest);
                    lemma_balanced_join(s, pos, bind.rest, dot);
                    lemma_balanced_join(s, pos, dot, dot + 1);
                    lemma_balanced_join(s, pos, dot + 1, body.rest);
                }
            }
        }
    }
}

/// What is read as a term that is no application is balanced.
pub proof fn lemma_parse_non_application_term_balanced(s: Seq<char>, pos: int)
    requires
        0 <= pos <= s.len(),
    ensures
        parse_non_application_term(s, pos).result is Ok ==> balanced(
            s,
            pos,
            parse_non_application_term(s, pos).rest,
        ),
    decreases s.len() - pos, 1nat,
{
    lemma_skip_spaces(s, pos);
    lemma_spaces_balanced(s, pos);
    let start = skip_spaces(s, pos);
    if start < s.len() && s[start] == LAMBDA {
        lemma_parse_lambda(s, start);
        lemma_parse_lambda_balanced(s, start);
        if parse_lambda(s, start).result is Ok {
            lemma_balanced_join(s, pos, start, parse_lambda(s, start).rest);
        }
    } else if start < s.len() && is_ident_char(s[start]) {
        lemma_parse_var(s, start);
        lemma_identifier_balanced(s, start);
        lemma_balanced_join(s, pos, start, parse_var(s, start).rest);
    }
}

/// What is read as a term is balanced.
pub proof fn lemma_parse_term_balanced(s: Seq<char>, pos: int)
    requires
        0 <= pos <= s.len(),
    ensures
        parse_term(s, pos).result is Ok ==> balanced(s, pos, parse_term(s, pos).rest),
    decreases s.len() - pos, 2nat,
{
    lemma_skip_spaces(s, pos);
    lemma_spaces_balanced(s, pos);
    let start = skip_spaces(s, pos);
    if start < s.len() && s[start] == '(' {
        lemma_skip_spaces(s, start + 1);
        lemma_spaces_balanced(s, start + 1);
        let inner = skip_spaces(s, start + 1);
        if inner < s.len() {
            let group = if s[inner] == LAMBDA {
                parse_lambda(s, inner)
            } else {
                parse_application(s, inner)
            };
            if s[inner] == LAMBDA {
                lemma_parse_lambda(s, inner);
                lemma_parse_lambda_balanced(s, inner);
            } else {
                lemma_parse_application(s, inner);
                lemma_parse_run(s, inner);
                lemma_parse_run_balanced(s, inner);
            }
            if group.result is Ok {
                lemma_skip_spaces(s, group.rest);
                lemma_spaces_balanced(s, group.rest);
                let close = skip_spaces(s, group.rest);
                if close < s.len() && s[close] == ')' {
                    lemma_balanced_join(s, start + 1, inner, group.rest);
                    lemma_balanced_join(s, start + 1, group.rest, close);
                    lemma_balanced_wrap(s, start, close);
                    lemma_balanced_join(s, pos, start, close + 1);
                }
            }
        }
    } else {
        lemma_parse_non_application_term_balanced(s, start);
        if parse_non_application_term(s, start).result is Ok {
            lemma_parse_non_application_term(s, start);
            lemma_balanced_join(s, pos, start, parse_non_application_term(s, start).rest);
        }
    }
}

/// What is read as a run of terms is balanced.
pub proof fn lemma_parse_run_balanced(s: Seq<char>, pos: int)
    requires
        0 <= pos <= s.len(),
    ensures
        parse_run(s, pos).result is Ok ==> balanced(s, pos, parse_run(s, pos).rest),
    decreases s.len() - pos, 3nat,
{
    lemma_skip_spaces(s, pos);
    lemma_spaces_balanced(s, pos);
    let start = skip_spaces(s, pos);
    if start < s.len() && starts_term(s[start]) {
        lemma_parse_term(s, start);
        lemma_parse_term_balanced(s, start);
        let next = parse_term(s, start);
        if next.result is Ok {
            lemma_parse_run(s, next.rest);
            lemma_parse_run_balanced(s, next.rest);
            if parse_run(s, next.rest).result is Ok {
                lemma_balanced_join(s, pos, start, next.rest);
                lemma_balanced_join(s, pos, next.rest, parse_run(s, next.rest).rest);
            }
        }
    }
}

/// A text that is read as a term has balanced parentheses: as many closing
/// as opening ones, and in no part from its start more closing than
/// opening ones.
pub proof fn lemma_parse_text_balanced(s: Seq<char>)
    ensures
        parse_text(s) is Ok ==> balanced(s, 0, s.len() as int),
{
    lemma_parse_term(s, 0);
    lemma_parse_term_balanced(s, 0);
    let whole = parse_term(s, 0);
    if parse_text(s) is Ok {
        lemma_skip_spaces(s, whole.rest);
        lemma_spaces_balanced(s, whole.rest);
        lemma_balanced_join(s, 0, whole.rest, s.len() as int);
    }
}

} // verus!
