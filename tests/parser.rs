use minilisp::ast::{ASTNode, ASTNodeValue, ASTParser, ASTParserError};
use minilisp::token::{Location, Tokenizer};

fn parse(src: &str) -> (Vec<ASTNode>, Result<(), (Location, ASTParserError)>) {
    let mut t = Tokenizer::new(src.to_string());
    t.try_parse_all().unwrap();
    let mut p = ASTParser::new(t.tokens);
    let r = p.try_parse_all();
    (p.roots, r)
}

#[test]
fn unterminated_list_is_unmatched_open_parenthesis() {
    let (_, r) = parse("(a (b) c");
    assert_eq!(
        r,
        Err((Location { row: 0, col: 0 }, ASTParserError::UnmatchedOpenParenthesis))
    );
}

#[test]
fn dangling_close_parenthesis_is_unexpected_token() {
    let (roots, r) = parse("(a) )");
    assert_eq!(roots.len(), 1);
    assert_eq!(r, Err((Location { row: 0, col: 4 }, ASTParserError::UnexpectedToken)));
}

#[test]
fn quote_without_form_is_unexpected_end() {
    let (_, r) = parse("(a) '");
    assert_eq!(r, Err((Location { row: 0, col: 4 }, ASTParserError::UnexpectedEnd)));
}

#[test]
fn nested_lists_and_quotes_keep_structure_and_locations() {
    let (roots, r) = parse("(f 1 \"s\")\n'(x (y))");
    assert_eq!(r, Ok(()));
    assert_eq!(roots.len(), 2);
    match &roots[0].value {
        ASTNodeValue::List(items) => {
            assert_eq!(items.len(), 3);
            assert!(matches!(&items[0].value, ASTNodeValue::Ident(s) if s == "f"));
            assert!(matches!(&items[1].value, ASTNodeValue::Number(n) if n.mantissa == 1));
            assert!(matches!(&items[2].value, ASTNodeValue::String(s) if s == "s"));
            assert_eq!(items[2].location, Location { row: 0, col: 5 });
        }
        other => panic!("unexpected: {:?}", other),
    }
    assert_eq!(roots[1].location, Location { row: 1, col: 0 });
    match &roots[1].value {
        ASTNodeValue::Quote(inner) => match &inner.value {
            ASTNodeValue::List(items) => {
                assert_eq!(items.len(), 2);
                assert!(matches!(&items[1].value, ASTNodeValue::List(v) if v.len() == 1));
            }
            other => panic!("unexpected: {:?}", other),
        },
        other => panic!("unexpected: {:?}", other),
    }
}

#[test]
fn empty_input_parses_to_nothing() {
    let (roots, r) = parse("");
    assert_eq!(r, Ok(()));
    assert_eq!(roots.len(), 0);
}

#[test]
fn try_parse_one_leaves_cursor_on_error() {
    let mut t = Tokenizer::new(") x".to_string());
    t.try_parse_all().unwrap();
    let mut p = ASTParser::new(t.tokens);
    assert_eq!(
        p.try_parse_one(),
        Err((Location { row: 0, col: 0 }, ASTParserError::UnexpectedToken))
    );
    assert_eq!(p.pos, 0);
    assert!(p.peek().is_some());
    assert_eq!(p.next(), Some(Location { row: 0, col: 0 }));
    assert_eq!(p.try_parse_one(), Ok(()));
    assert_eq!(p.roots.len(), 1);
}

#[test]
fn error_inside_a_list_is_located_at_its_token() {
    let (_, r) = parse("(x)\n(a ')");
    assert_eq!(r, Err((Location { row: 1, col: 4 }, ASTParserError::UnexpectedToken)));
    let (_, r) = parse("(a\n  (b c");
    assert_eq!(
        r,
        Err((Location { row: 1, col: 2 }, ASTParserError::UnmatchedOpenParenthesis))
    );
}

#[test]
fn nesting_too_deep_is_refused() {
    let (_, r) = parse(&format!("{}{}", "(".repeat(600), ")".repeat(600)));
    assert_eq!(r, Err((Location { row: 0, col: 512 }, ASTParserError::NestingTooDeep)));
    let (roots, r) = parse(&format!("{}{}", "(".repeat(400), ")".repeat(400)));
    assert_eq!(r, Ok(()));
    assert_eq!(roots.len(), 1);
}
