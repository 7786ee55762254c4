use minilisp::number::LispNumber;
use minilisp::token::{LexerError, Location, Token, TokenValue, Tokenizer};

fn lex(src: &str) -> Result<Vec<Token>, (Location, LexerError)> {
    let mut t = Tokenizer::new(src.to_string());
    match t.try_parse_all() {
        Ok(()) => Ok(t.tokens),
        Err(e) => Err(e),
    }
}

fn number_of(src: &str) -> LispNumber {
    let toks = lex(src).unwrap();
    assert_eq!(toks.len(), 1);
    match &toks[0].value {
        TokenValue::Number(n) => *n,
        other => panic!("not a number: {:?}", other),
    }
}

#[test]
fn number_literal_is_exact_decimal() {
    assert_eq!(number_of("3.25"), LispNumber { mantissa: 325, scale: 2 });
    assert_eq!(number_of("12"), LispNumber { mantissa: 12, scale: 0 });
    assert_eq!(number_of("007.50"), LispNumber { mantissa: 750, scale: 2 });
    assert_eq!(number_of("3."), LispNumber { mantissa: 3, scale: 0 });
    assert_eq!(number_of("0.001"), LispNumber { mantissa: 1, scale: 3 });
}

#[test]
fn leading_nine_starts_a_number() {
    assert_eq!(number_of("9"), LispNumber { mantissa: 9, scale: 0 });
    assert_eq!(number_of("98.7"), LispNumber { mantissa: 987, scale: 1 });
}

#[test]
fn largest_number_fits_and_one_more_digit_does_not() {
    assert_eq!(
        number_of("18446744073709551615"),
        LispNumber { mantissa: u64::MAX, scale: 0 }
    );
    match lex("18446744073709551616") {
        Err((loc, LexerError::NumberTooLarge)) => assert_eq!(loc, Location { row: 0, col: 0 }),
        other => panic!("unexpected: {:?}", other),
    }
    match lex("(x 1.84467440737095516150)") {
        Err((loc, LexerError::NumberTooLarge)) => assert_eq!(loc, Location { row: 0, col: 3 }),
        other => panic!("unexpected: {:?}", other),
    }
}

#[test]
fn location_tracks_rows_and_columns() {
    let toks = lex("(a\n  bc)\n\n 'x").unwrap();
    let locs: Vec<(usize, usize)> = toks.iter().map(|t| (t.location.row, t.location.col)).collect();
    assert_eq!(locs, vec![(0, 0), (0, 1), (1, 2), (1, 4), (3, 1), (3, 2)]);
    let mut t = Tokenizer::new("a\nbb \n c".to_string());
    t.try_parse_all().unwrap();
    assert_eq!(t.location, Location { row: 2, col: 2 });
}

#[test]
fn single_character_tokens() {
    let toks = lex("( ) '").unwrap();
    assert!(matches!(toks[0].value, TokenValue::LParen));
    assert!(matches!(toks[1].value, TokenValue::RParen));
    assert!(matches!(toks[2].value, TokenValue::Quote));
    assert_eq!(toks.len(), 3);
}

#[test]
fn string_literal_has_no_escapes() {
    let toks = lex("\"a\\nb c\"").unwrap();
    match &toks[0].value {
        TokenValue::String(s) => assert_eq!(s, "a\\nb c"),
        other => panic!("unexpected: {:?}", other),
    }
    assert_eq!(toks[0].location, Location { row: 0, col: 0 });
}

#[test]
fn unterminated_string_reports_its_opening() {
    match lex("(x\n \"abc") {
        Err((loc, LexerError::UnterminatedString)) => assert_eq!(loc, Location { row: 1, col: 1 }),
        other => panic!("unexpected: {:?}", other),
    }
}

#[test]
fn unrecognized_character_reports_its_location() {
    match lex("(a # b)") {
        Err((loc, LexerError::UnrecognizedCharacter)) => {
            assert_eq!(loc, Location { row: 0, col: 3 })
        }
        other => panic!("unexpected: {:?}", other),
    }
}

#[test]
fn symbols_take_punctuation_and_letters_greedily() {
    let toks = lex("+-*/%!^&|~<=>abc9 Xy").unwrap();
    assert_eq!(toks.len(), 2);
    match &toks[0].value {
        TokenValue::Symbol(s) => assert_eq!(s, "+-*/%!^&|~<=>abc9"),
        other => panic!("unexpected: {:?}", other),
    }
    match &toks[1].value {
        TokenValue::Symbol(s) => assert_eq!(s, "Xy"),
        other => panic!("unexpected: {:?}", other),
    }
}

#[test]
fn whitespace_only_gives_no_tokens() {
    assert_eq!(lex("  \t\n ").unwrap().len(), 0);
    assert_eq!(lex("").unwrap().len(), 0);
}

#[test]
fn try_parse_one_reads_a_single_token() {
    let mut t = Tokenizer::new("  foo bar".to_string());
    t.try_parse_one().unwrap();
    assert_eq!(t.tokens.len(), 1);
    assert_eq!(t.location, Location { row: 0, col: 5 });
}
