use lc::parser::{parse, ParseError};
use lc::term::Term;

fn var(name: &str) -> Term {
    Term::Var(name.to_string())
}

fn abs(param: &str, body: Term) -> Term {
    Term::Abs(param.to_string(), Box::new(body))
}

fn app(function: Term, argument: Term) -> Term {
    Term::App(Box::new(function), Box::new(argument))
}

fn reads_back(term: Term) {
    assert_eq!(parse(&term.render()), Ok(term));
}

#[test]
fn renders_a_variable_as_its_name() {
    assert_eq!(var("x").render(), "x");
    assert_eq!(var("long_name_42").render(), "long_name_42");
}

#[test]
fn renders_an_abstraction_with_sigil_and_dot() {
    assert_eq!(abs("x", var("x")).render(), "λx. x");
    assert_eq!(abs("x", abs("y", var("x"))).render(), "λx. λy. x");
    assert_eq!(abs("x", app(var("x"), var("y"))).render(), "λx. (x y)");
}

#[test]
fn renders_an_application_in_parentheses() {
    assert_eq!(app(var("f"), var("a")).render(), "(f a)");
    assert_eq!(app(app(var("a"), var("b")), var("c")).render(), "((a b) c)");
    assert_eq!(app(var("a"), app(var("b"), var("c"))).render(), "(a (b c))");
}

#[test]
fn renders_an_abstraction_inside_an_application_in_parentheses() {
    let term = app(abs("x", var("x")), abs("y", var("y")));
    assert_eq!(term.render(), "((λx. x) (λy. y))");
    assert_eq!(app(var("f"), abs("x", var("x"))).render(), "(f (λx. x))");
    assert_eq!(app(abs("x", var("x")), var("a")).render(), "((λx. x) a)");
}

#[test]
fn renders_omega() {
    let half = abs("x", app(var("x"), var("x")));
    assert_eq!(app(half.clone(), half).render(), "((λx. (x x)) (λx. (x x)))");
}

#[test]
fn rendering_is_read_back_as_the_same_term() {
    reads_back(var("x"));
    reads_back(abs("x", var("x")));
    reads_back(app(var("f"), var("a")));
    reads_back(app(abs("x", var("x")), abs("y", var("y"))));
    reads_back(abs("f", abs("x", app(var("f"), app(var("f"), var("x"))))));
    reads_back(app(app(var("a"), var("b")), app(var("c"), var("d"))));
    reads_back(app(var("f"), abs("x", abs("y", app(var("y"), var("x"))))));
    reads_back(abs("x", app(abs("y", var("y")), var("x"))));
    reads_back(app(abs("x", abs("y", var("x"))), var("z_")));
    reads_back(abs("λ", var("x")));
    reads_back(var("é"));
}

#[test]
fn parsing_then_rendering_gives_the_canonical_notation() {
    assert_eq!(parse("( a   b c )").map(|t| t.render()), Ok("((a b) c)".to_string()));
    assert_eq!(parse("(f λx.x)").map(|t| t.render()), Ok("(f (λx. x))".to_string()));
    assert_eq!(parse("(λx. x)").map(|t| t.render()), Ok("λx. x".to_string()));
    assert_eq!(parse(" ( λ x . x ) ").map(|t| t.render()), Ok("λx. x".to_string()));
}

#[test]
fn a_variable_named_like_an_abstraction_is_not_read_back() {
    let odd = var("λx");
    assert_eq!(odd.render(), "λx");
    assert_eq!(parse(&odd.render()), Err(ParseError::InvalidLambda));
}

#[test]
fn a_name_with_other_characters_is_not_read_back() {
    let odd = var("a b");
    assert_eq!(parse(&odd.render()), Err(ParseError::InvalidApplication));
    let empty = var("");
    assert_eq!(parse(&empty.render()), Err(ParseError::InvalidApplication));
}

#[test]
fn clone_is_equal_to_the_original() {
    let term = app(abs("x", app(var("x"), var("y"))), var("z"));
    assert_eq!(term.clone(), term);
}

#[test]
fn free_names_are_those_that_no_abstraction_binds() {
    let term = app(abs("x", app(var("x"), var("y"))), var("x"));
    assert!(term.is_free(&"x".to_string()));
    assert!(term.is_free(&"y".to_string()));
    assert!(!term.is_free(&"z".to_string()));
    let closed = abs("x", abs("y", app(var("x"), var("y"))));
    assert!(!closed.is_free(&"x".to_string()));
    assert!(!closed.is_free(&"y".to_string()));
    let shadow = abs("x", abs("x", var("x")));
    assert!(!shadow.is_free(&"x".to_string()));
}

#[test]
fn mentioned_names_include_parameters() {
    let term = abs("x", var("y"));
    assert!(term.mentions(&"x".to_string()));
    assert!(term.mentions(&"y".to_string()));
    assert!(!term.mentions(&"z".to_string()));
    assert!(!term.is_free(&"x".to_string()));
}
