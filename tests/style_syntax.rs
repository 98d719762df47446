use stylish::style::{Document, Expr, Matcher, Value as Literal};
use stylish::{ParseErrorKind, Position};

#[test]
fn test() {
    let source = r##"
// Comments (only single line)
root > panel > image(width=width, height=height) {
    width = width,
    height = height,
    test_expr = width + 6,
    test_expr2 = -5 + -3,
    test_expr3 = height - 6,
    test_expr4 = -3--4,
    test_expr5 = 6 * 3,

    p_test = 5 * (1 + 2) - 3/5,

    call_test = do_thing(5, 3, 4 * 7) / pi(),
    hard_test = -banana() / -(5--4),
}
emoji(type="smile") {
    image = "icons/smile.png",
}

panel > @text {
    color = "#0050AA",
}
        "##;
    let doc = Document::parse(source);
    assert!(doc.is_ok(), "{:?}", doc.err());
}

#[test]
fn parse_counts_rules_matchers_and_properties() {
    let doc = Document::parse("root > panel > image(width=w) { a = 1, b = 2 }\n@text { c = \"x\" }").unwrap();
    assert_eq!(doc.rules.len(), 2);
    assert_eq!(doc.rules[0].matchers.len(), 3);
    assert_eq!(doc.rules[0].styles.len(), 2);
    assert!(matches!(doc.rules[1].matchers[0].matcher, Matcher::Text));
    match &doc.rules[0].matchers[2].matcher {
        Matcher::Element(e) => assert_eq!(e.name.name, "image"),
        _ => panic!("expected an element matcher"),
    }
}

#[test]
fn parse_precedence_multiplication_before_addition() {
    let doc = Document::parse("a { v = 1 + 2 * 3 }").unwrap();
    match &doc.rules[0].styles[0].1.expr {
        Expr::Add(l, r) => {
            assert!(matches!(l.expr, Expr::Value(Literal::Integer(1))));
            assert!(matches!(r.expr, Expr::Mul(_, _)));
        }
        _ => panic!("expected an addition at the top"),
    }
}

#[test]
fn parse_subtraction_is_left_associative() {
    let doc = Document::parse("a { v = 10 - 2 - 3 }").unwrap();
    match &doc.rules[0].styles[0].1.expr {
        Expr::Sub(l, r) => {
            assert!(matches!(l.expr, Expr::Sub(_, _)));
            assert!(matches!(r.expr, Expr::Value(Literal::Integer(3))));
        }
        _ => panic!("expected a subtraction at the top"),
    }
}

#[test]
fn parse_string_escapes() {
    let doc = Document::parse(r#"a { v = "q\"t\tn\nr\rb\\" }"#).unwrap();
    match &doc.rules[0].styles[0].1.expr {
        Expr::Value(Literal::String(s)) => assert_eq!(s, "q\"t\tn\nr\rb\\"),
        _ => panic!("expected a string"),
    }
}

#[test]
fn parse_duplicate_property_keeps_the_later() {
    let doc = Document::parse("a { v = 1, v = 2 }").unwrap();
    assert_eq!(doc.rules[0].styles.len(), 1);
    assert!(matches!(doc.rules[0].styles[0].1.expr, Expr::Value(Literal::Integer(2))));
}

#[test]
fn parse_empty_document_has_no_rules() {
    let doc = Document::parse("  // nothing here\n").unwrap();
    assert_eq!(doc.rules.len(), 0);
}

#[test]
fn parse_error_unclosed_block() {
    let err = Document::parse("a { v = 1,").unwrap_err();
    assert_eq!(err.kind, ParseErrorKind::UnexpectedEnd);
    assert_eq!(err.position, Position { offset: 10 });
}

#[test]
fn parse_error_unexpected_char() {
    let err = Document::parse("a { v = 1 ; }").unwrap_err();
    assert_eq!(err.kind, ParseErrorKind::UnexpectedChar(';'));
    assert_eq!(err.position.offset, 10);
}

#[test]
fn parse_error_integer_overflow() {
    let err = Document::parse("a { v = 2147483648 }").unwrap_err();
    assert_eq!(err.kind, ParseErrorKind::IntegerOverflow);
    let ok = Document::parse("a(v=-2147483648) { w = 2147483647 }");
    assert!(ok.is_ok());
}

#[test]
fn parse_float_literal_kept_as_text() {
    let doc = Document::parse("a { v = 1.5 }").unwrap();
    match &doc.rules[0].styles[0].1.expr {
        Expr::Value(Literal::Float(t)) => assert_eq!(t, "1.5"),
        _ => panic!("expected a float literal"),
    }
}
