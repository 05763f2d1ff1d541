use lc::chars::ident_char;
use lc::parser::{parse, ParseError};
use lc::term::Term;

fn var(name: &str) -> Term {
    Term::Var(name.to_string())
}

fn abs(param: &str, body: Term) -> Term {
    Term::Abs(param.to_string(), Box::new(body))
}

fn app(function: Term, argument: Term) -> Term {
    Term::App(Box::new(function), Box::new(argument))
}

#[test]
fn parses_a_variable() {
    assert_eq!(parse("x"), Ok(var("x")));
    assert_eq!(parse("foo_1"), Ok(var("foo_1")));
    assert_eq!(parse("_"), Ok(var("_")));
    assert_eq!(parse("X9y"), Ok(var("X9y")));
}

#[test]
fn identifiers_are_case_sensitive() {
    assert_ne!(parse("x"), parse("X"));
}

#[test]
fn parses_an_abstraction() {
    assert_eq!(parse("λx. x"), Ok(abs("x", var("x"))));
    assert_eq!(parse("(λx. x)"), Ok(abs("x", var("x"))));
    assert_eq!(parse("λx.x"), Ok(abs("x", var("x"))));
    assert_eq!(parse("λx . x"), Ok(abs("x", var("x"))));
    assert_eq!(parse("λ x. x"), Ok(abs("x", var("x"))));
    assert_eq!(parse("λ  x  .  x"), Ok(abs("x", var("x"))));
    assert_eq!(parse("(λ\tx.\nx)"), Ok(abs("x", var("x"))));
}

#[test]
fn abstraction_body_may_be_a_group() {
    assert_eq!(parse("λx. (x y)"), Ok(abs("x", app(var("x"), var("y")))));
    assert_eq!(parse("λx. λy. x"), Ok(abs("x", abs("y", var("x")))));
    assert_eq!(parse("λx. (λy. x)"), Ok(abs("x", abs("y", var("x")))));
}

#[test]
fn parses_identity_applied_to_identity() {
    let term = parse("((λx. x) (λy. y))");
    assert_eq!(term, Ok(app(abs("x", var("x")), abs("y", var("y")))));
}

#[test]
fn rejects_application_without_parentheses() {
    assert_eq!(parse("(λx. x) (λy. y)"), Err(ParseError::InvalidApplication));
    assert_eq!(parse("a b"), Err(ParseError::InvalidApplication));
}

#[test]
fn application_associates_to_the_left() {
    assert_eq!(parse("(a b c)"), parse("((a b) c)"));
    assert_eq!(parse("(a b c)"), Ok(app(app(var("a"), var("b")), var("c"))));
    assert_eq!(
        parse("(a b c d)"),
        Ok(app(app(app(var("a"), var("b")), var("c")), var("d")))
    );
}

#[test]
fn nested_groups_keep_their_shape() {
    assert_eq!(parse("(a (b c))"), Ok(app(var("a"), app(var("b"), var("c")))));
    assert_ne!(parse("(a (b c))"), parse("(a b c)"));
}

#[test]
fn a_group_of_one_term_is_that_term() {
    assert_eq!(parse("(a)"), Ok(var("a")));
    assert_eq!(parse("((a))"), Ok(var("a")));
    assert_eq!(parse("((λx. x))"), Ok(abs("x", var("x"))));
}

#[test]
fn whitespace_between_terms_is_passed_over() {
    assert_eq!(parse("  x"), Ok(var("x")));
    assert_eq!(parse("( a   b )"), Ok(app(var("a"), var("b"))));
    assert_eq!(parse("(a\tb)"), Ok(app(var("a"), var("b"))));
    assert_eq!(parse("(a\nb)"), Ok(app(var("a"), var("b"))));
    assert_eq!(parse("(a\u{a0}b)"), Ok(app(var("a"), var("b"))));
    assert_eq!(parse("(a\u{3000}b)"), Ok(app(var("a"), var("b"))));
    assert_eq!(parse("(a\u{2003}b)"), Ok(app(var("a"), var("b"))));
    assert_eq!(parse("( λx. x)"), Ok(abs("x", var("x"))));
    assert_eq!(parse("(λx. x )"), Ok(abs("x", var("x"))));
    assert_eq!(parse("( λx. x )"), Ok(abs("x", var("x"))));
    assert_eq!(parse("(a b )"), Ok(app(var("a"), var("b"))));
    assert_eq!(parse("( ( a ) ( b ) )"), Ok(app(var("a"), var("b"))));
}

#[test]
fn whitespace_around_the_term_is_passed_over() {
    assert_eq!(parse("x "), Ok(var("x")));
    assert_eq!(parse("  x \t\n"), Ok(var("x")));
    assert_eq!(parse(" (a b)  "), Ok(app(var("a"), var("b"))));
    assert_eq!(parse("λx. x "), Ok(abs("x", var("x"))));
    assert_eq!(parse("x\u{3000}"), Ok(var("x")));
}

#[test]
fn any_whitespace_separates_the_operands_of_a_group() {
    let nested = Ok(app(app(var("a"), var("b")), var("c")));
    assert_eq!(parse("(a b c)"), nested);
    assert_eq!(parse("(a \t b\n\nc)"), nested);
    assert_eq!(parse("(a\u{2003}b\u{a0}\u{3000}c)"), nested);
    assert_eq!(parse("((λx. x)   (λy. y)\t(λz. z))"), parse("(((λx. x) (λy. y)) (λz. z))"));
}

#[test]
fn what_is_read_is_read_again_from_its_canonical_notation() {
    for text in [" ( a  b c ) ", "λ x . ( x y )", "(f λx. x y)", "((a))", "( λx. λy. (x y) )"] {
        let term = parse(text).expect(text);
        assert_eq!(parse(&term.render()), Ok(term));
    }
}

#[test]
fn whitespace_does_not_change_what_is_read() {
    assert_eq!(parse("( λx. x y)"), parse("(λx. x y)"));
    assert_eq!(parse("( λx. x y)"), Err(ParseError::UnmatchedParenthesis));
    assert_eq!(parse("( f λx. x y )"), parse("(f λx. x y)"));
    assert_eq!(parse("((λx. (x x)) (λx. (x x)))"), parse(" ( ( λ x . ( x x ) ) ( λ x . ( x x ) ) ) "));
}

#[test]
fn a_term_without_space_between_groups() {
    assert_eq!(
        parse("((λx. x)(λy. y))"),
        Ok(app(abs("x", var("x")), abs("y", var("y"))))
    );
    assert_eq!(parse("(a(b))"), Ok(app(var("a"), var("b"))));
}

#[test]
fn letters_and_digits_beyond_ascii_make_identifiers() {
    assert_eq!(parse("é"), Ok(var("é")));
    assert_eq!(parse("(α β)"), Ok(app(var("α"), var("β"))));
    assert_eq!(parse("藏٣"), Ok(var("藏٣")));
}

#[test]
fn the_sigil_counts_as_a_letter_inside_a_name() {
    assert_eq!(parse("xλ"), Ok(var("xλ")));
    assert_eq!(parse("λλ. x"), Ok(abs("λ", var("x"))));
    assert_eq!(parse("λλx. y"), Ok(abs("λx", var("y"))));
}

#[test]
fn punctuation_ends_an_identifier() {
    assert_eq!(parse("x'"), Err(ParseError::InvalidApplication));
    assert_eq!(parse("x-y"), Err(ParseError::InvalidApplication));
    assert_eq!(parse("λx'. x"), Err(ParseError::InvalidLambda));
}

#[test]
fn trailing_text_is_refused() {
    assert_eq!(parse("x y"), Err(ParseError::InvalidApplication));
    assert_eq!(parse("x y "), Err(ParseError::InvalidApplication));
    assert_eq!(parse("x ("), Err(ParseError::InvalidApplication));
    assert_eq!(parse("(a b))"), Err(ParseError::InvalidApplication));
    assert_eq!(parse("x)"), Err(ParseError::InvalidApplication));
}

#[test]
fn empty_text_is_an_invalid_application() {
    assert_eq!(parse(""), Err(ParseError::InvalidApplication));
    assert_eq!(parse("   "), Err(ParseError::InvalidApplication));
}

#[test]
fn empty_group_is_an_invalid_application() {
    assert_eq!(parse("()"), Err(ParseError::InvalidApplication));
    assert_eq!(parse("( )"), Err(ParseError::InvalidApplication));
    assert_eq!(parse(")"), Err(ParseError::InvalidApplication));
    assert_eq!(parse("."), Err(ParseError::InvalidApplication));
}

#[test]
fn unclosed_group_is_an_unmatched_parenthesis() {
    assert_eq!(parse("("), Err(ParseError::UnmatchedParenthesis));
    assert_eq!(parse("(a"), Err(ParseError::UnmatchedParenthesis));
    assert_eq!(parse("(a b"), Err(ParseError::UnmatchedParenthesis));
    assert_eq!(parse("(λx. x"), Err(ParseError::UnmatchedParenthesis));
    assert_eq!(parse("((a b) c"), Err(ParseError::UnmatchedParenthesis));
}

#[test]
fn wrong_character_where_a_group_closes_is_an_unmatched_parenthesis() {
    assert_eq!(parse("(a . b)"), Err(ParseError::UnmatchedParenthesis));
    assert_eq!(parse("(a, b)"), Err(ParseError::UnmatchedParenthesis));
}

#[test]
fn abstraction_that_opens_a_group_fills_it() {
    assert_eq!(parse("(λx. x y)"), Err(ParseError::UnmatchedParenthesis));
    assert_eq!(parse("(λx. x λy. y)"), Err(ParseError::UnmatchedParenthesis));
}

#[test]
fn sigil_without_parameter_or_dot_is_an_invalid_lambda() {
    assert_eq!(parse("λ"), Err(ParseError::InvalidLambda));
    assert_eq!(parse("λ. x"), Err(ParseError::InvalidLambda));
    assert_eq!(parse("λ ."), Err(ParseError::InvalidLambda));
    assert_eq!(parse("λ (x). x"), Err(ParseError::InvalidLambda));
    assert_eq!(parse("λx"), Err(ParseError::InvalidLambda));
    assert_eq!(parse("λx x"), Err(ParseError::InvalidLambda));
    assert_eq!(parse("(λ)"), Err(ParseError::InvalidLambda));
}

#[test]
fn abstraction_without_body_is_an_invalid_application() {
    assert_eq!(parse("λx."), Err(ParseError::InvalidApplication));
    assert_eq!(parse("λx. )"), Err(ParseError::InvalidApplication));
}

#[test]
fn error_in_the_first_term_of_a_group_is_handed_on() {
    assert_eq!(parse("((λ. x) a)"), Err(ParseError::InvalidLambda));
    assert_eq!(parse("(() a)"), Err(ParseError::InvalidApplication));
    assert_eq!(parse("((a"), Err(ParseError::UnmatchedParenthesis));
}

#[test]
fn error_in_a_later_term_of_a_group_is_handed_on() {
    assert_eq!(parse("(a (λ.))"), Err(ParseError::InvalidLambda));
    assert_eq!(parse("(a λ. b)"), Err(ParseError::InvalidLambda));
    assert_eq!(parse("(a λ)"), Err(ParseError::InvalidLambda));
    assert_eq!(parse("(a ()"), Err(ParseError::InvalidApplication));
    assert_eq!(parse("(a ())"), Err(ParseError::InvalidApplication));
    assert_eq!(parse("(a (b"), Err(ParseError::UnmatchedParenthesis));
    assert_eq!(parse("(a b (c d)"), Err(ParseError::UnmatchedParenthesis));
}

#[test]
fn a_run_ends_before_a_character_that_begins_no_term() {
    assert_eq!(parse("(a b)"), Ok(app(var("a"), var("b"))));
    assert_eq!(parse("(a b.)"), Err(ParseError::UnmatchedParenthesis));
    assert_eq!(parse("(a b"), Err(ParseError::UnmatchedParenthesis));
}

fn parentheses_are_balanced(text: &str) -> bool {
    let mut depth: i64 = 0;
    for c in text.chars() {
        if c == '(' {
            depth += 1;
        } else if c == ')' {
            depth -= 1;
        }
        if depth < 0 {
            return false;
        }
    }
    depth == 0
}

#[test]
fn a_text_that_is_read_has_balanced_parentheses() {
    let pieces = ["(", ")", "a", " ", "λ", "x", "."];
    let mut texts: Vec<String> = vec![String::new()];
    for _ in 0..6 {
        let mut longer: Vec<String> = Vec::new();
        for text in &texts {
            for piece in pieces {
                longer.push(format!("{}{}", text, piece));
            }
        }
        for text in &longer {
            if parse(text).is_ok() {
                assert!(parentheses_are_balanced(text), "{}", text);
            }
        }
        texts = longer;
    }
}

#[test]
fn abstraction_as_last_term_of_a_group() {
    assert_eq!(parse("(f λx. x)"), Ok(app(var("f"), abs("x", var("x")))));
    assert_eq!(
        parse("(f λx. (x y))"),
        Ok(app(var("f"), abs("x", app(var("x"), var("y")))))
    );
}

#[test]
fn bare_abstraction_inside_a_group_takes_one_term_as_body() {
    assert_eq!(
        parse("(f λx. x y)"),
        Ok(app(app(var("f"), abs("x", var("x"))), var("y")))
    );
}

#[test]
fn omega_parses() {
    let half = abs("x", app(var("x"), var("x")));
    assert_eq!(
        parse("((λx. (x x)) (λx. (x x)))"),
        Ok(app(half.clone(), half))
    );
}

#[test]
fn messages_name_the_error() {
    assert_eq!(ParseError::InvalidLambda.message(), "Invalid lambda expression");
    assert_eq!(
        ParseError::InvalidApplication.message(),
        "Invalid application expression"
    );
    assert_eq!(ParseError::InvalidVariable.message(), "Invalid variable expression");
    assert_eq!(
        ParseError::UnexpectedCharacter('λ').message(),
        "Unexpected character: λ"
    );
    assert_eq!(
        ParseError::UnexpectedCharacter('x').message(),
        "Unexpected character: x"
    );
    assert_eq!(ParseError::UnmatchedParenthesis.message(), "Unmatched parenthesis");
}

fn has_white_space_property(c: char) -> bool {
    matches!(
        c,
        '\u{9}'..='\u{d}'
            | ' '
            | '\u{85}'
            | '\u{a0}'
            | '\u{1680}'
            | '\u{2000}'..='\u{200a}'
            | '\u{2028}'
            | '\u{2029}'
            | '\u{202f}'
            | '\u{205f}'
            | '\u{3000}'
    )
}

#[test]
fn exactly_the_white_space_characters_are_passed_over() {
    for code in 0..=0x10ffff_u32 {
        if let Some(c) = char::from_u32(code) {
            let text = format!("{}x", c);
            let passed = parse(&text) == Ok(var("x"));
            assert_eq!(passed, has_white_space_property(c), "U+{:04X}", code);
        }
    }
}

#[test]
fn ascii_identifier_characters_are_letters_digits_and_underscore() {
    for code in 0..=0x7f_u32 {
        let c = char::from_u32(code).unwrap();
        let text = c.to_string();
        let expected = matches!(c, 'a'..='z' | 'A'..='Z' | '0'..='9' | '_');
        assert_eq!(parse(&text) == Ok(var(&text)), expected, "U+{:04X}", code);
    }
}

#[test]
fn every_name_of_one_letter_or_digit_is_read() {
    for code in 0..=0x10ffff_u32 {
        if let Some(c) = char::from_u32(code) {
            if c.is_alphanumeric() && c != 'λ' {
                let text = c.to_string();
                assert_eq!(parse(&text), Ok(var(&text)), "U+{:04X}", code);
            }
        }
    }
}

#[test]
fn identifier_characters_are_told_apart() {
    assert!(ident_char('a'));
    assert!(ident_char('Z'));
    assert!(ident_char('0'));
    assert!(ident_char('_'));
    assert!(ident_char('λ'));
    assert!(ident_char('é'));
    assert!(!ident_char(' '));
    assert!(!ident_char('('));
    assert!(!ident_char(')'));
    assert!(!ident_char('.'));
    assert!(!ident_char('\''));
    assert!(!ident_char('-'));
}

#[test]
fn a_flat_group_applies_its_operands_from_the_left() {
    assert_eq!(
        parse("(f (λx. x) a)"),
        Ok(app(app(var("f"), abs("x", var("x"))), var("a")))
    );
    assert_eq!(parse("(f (λx. x) a)"), parse("((f (λx. x)) a)"));
    assert_eq!(
        parse("((a b) (c d) e)"),
        Ok(app(
            app(app(var("a"), var("b")), app(var("c"), var("d"))),
            var("e")
        ))
    );
}
