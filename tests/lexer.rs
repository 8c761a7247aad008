use fortran_rust_compiler::error::ErrorKind;
use fortran_rust_compiler::lexer::{
    read_token, skip, skip_comments, skip_until, skip_whitespace, take_while, tokenize,
    tokenize_number, tokenize_single_token, TokenKind, Tokenizer, NEXT_TOKEN_MESSAGE,
};

fn chars(s: &str) -> Vec<char> {
    s.chars().collect()
}

fn number(s: &str) -> Result<(TokenKind, usize), ErrorKind> {
    tokenize_number(&chars(s))
}

fn decimal(s: &str) -> TokenKind {
    TokenKind::Decimal(s.to_string())
}

#[test]
fn tokenize_a_single_digit_integer() {
    let (got, bytes_read) = number("1").unwrap();
    assert_eq!(got, TokenKind::Integer(1));
    assert_eq!(bytes_read, 1);
}

#[test]
fn tokenize_a_longer_integer() {
    let (got, bytes_read) = number("1234567890").unwrap();
    assert_eq!(got, TokenKind::Integer(1234567890));
    assert_eq!(bytes_read, 10);
}

#[test]
fn tokenize_basic_decimal() {
    let (got, _) = number("12.3").unwrap();
    assert_eq!(got, decimal("12.3"));
    if let TokenKind::Decimal(text) = got {
        assert_eq!(text.parse::<f64>().unwrap(), 12.3);
    }
}

#[test]
fn tokenize_string_with_multiple_decimal_points() {
    let (got, read) = number("12.3.456").unwrap();
    assert_eq!(got, decimal("12.3"));
    assert_eq!(read, 4);
}

#[test]
fn cant_tokenize_a_string_as_a_decimal() {
    let got = number("asdfghj");
    assert!(got.is_err(), "{:?} should be an error", got);
    assert_eq!(got, Err(ErrorKind::NothingMatched));
}

#[test]
fn tokenizing_decimal_stops_at_alpha() {
    let (got, read) = number("123.4asdfghj").unwrap();
    assert_eq!(got, decimal("123.4"));
    assert_eq!(read, 5);
}

#[test]
fn integer_that_does_not_fit_is_invalid() {
    assert_eq!(number("99999999999999999999999"), Err(ErrorKind::InvalidNumber));
}

#[test]
fn lone_point_is_invalid() {
    assert_eq!(number("."), Err(ErrorKind::InvalidNumber));
    assert_eq!(number(".5"), Ok((decimal(".5"), 2)));
}

#[test]
fn skip_past_several_whitespace_chars() {
    let src = " \t\n\r123";
    let should_be = 4;

    let num_skipped = skip_whitespace(&chars(src));
    assert_eq!(num_skipped, should_be);
}

#[test]
fn skipping_whitespace_when_first_is_a_letter_returns_zero() {
    let src = "Hello World";
    let should_be = 0;

    let num_skipped = skip_whitespace(&chars(src));
    assert_eq!(num_skipped, should_be);
}

#[test]
fn skip_whitespace_knows_unicode_spaces() {
    assert_eq!(skip_whitespace(&chars("\u{00A0}\u{3000}x")), 2);
}

#[test]
fn slash_slash_skips_to_end_of_line() {
    let got = skip_comments(&chars("! foo bar { baz }\n 1234"));
    assert_eq!(got, 18);
}

#[test]
fn comment_without_newline_runs_to_end() {
    assert_eq!(skip_comments(&chars("! to the end")), 12);
    assert_eq!(skip_comments(&chars("1 ! no comment here")), 0);
}

#[test]
fn skip_until_finds_first_occurrence() {
    assert_eq!(skip_until(&chars("abcabc"), &chars("bc")), 3);
    assert_eq!(skip_until(&chars("abc"), &chars("x")), 3);
}

#[test]
fn take_while_counts_accepted_chars() {
    assert_eq!(take_while(&chars("aab"), |c| c == 'a'), Ok(2));
    assert_eq!(take_while(&chars("baa"), |c| c == 'a'), Err(ErrorKind::NothingMatched));
}

#[test]
fn skip_passes_whitespace_and_comments() {
    assert_eq!(skip(&chars("  ! note\n\t! more\n  42")), 19);
    assert_eq!(skip(&chars("42")), 0);
}

#[test]
fn tokenize_one_plus_one() {
    let got = tokenize("1+1").unwrap();
    assert_eq!(
        got,
        vec![
            (TokenKind::Integer(1), 0, 1),
            (TokenKind::Plus, 1, 2),
            (TokenKind::Integer(1), 2, 3),
        ]
    );
}

#[test]
fn retokenizing_remainder_gives_following_tokens() {
    let src = "12 + 3.5 ! c\n+ 7";
    let all = tokenize(src).unwrap();
    assert_eq!(all.len(), 5);
    for (i, tok) in all.iter().enumerate() {
        let end = tok.2;
        let again = tokenize(&src[end..]).unwrap();
        let shifted: Vec<(TokenKind, usize, usize)> = again
            .into_iter()
            .map(|(k, s, e)| (k, s + end, e + end))
            .collect();
        assert_eq!(shifted, all[i + 1..].to_vec());
    }
}

#[test]
fn blank_source_has_no_tokens() {
    assert_eq!(tokenize("  \t\n! only a comment\n \r! another"), Ok(vec![]));
    assert_eq!(tokenize(""), Ok(vec![]));
}

#[test]
fn unknown_character_reports_its_location() {
    let got = tokenize("1 + x");
    assert_eq!(
        got,
        Err((
            ErrorKind::MessageWithLocation(4, NEXT_TOKEN_MESSAGE),
            ErrorKind::UnknownCharacter('x')
        ))
    );
}

#[test]
fn spans_count_bytes() {
    let got = tokenize("\u{00A0}7 +é");
    assert_eq!(
        got,
        Err((
            ErrorKind::MessageWithLocation(5, NEXT_TOKEN_MESSAGE),
            ErrorKind::UnknownCharacter('é')
        ))
    );
    assert_eq!(tokenize("\u{00A0}7").unwrap(), vec![(TokenKind::Integer(7), 2, 3)]);
}

#[test]
fn single_token_reports_eof_and_bytes() {
    assert_eq!(tokenize_single_token(""), Err(ErrorKind::UnexpectedEOF));
    assert_eq!(tokenize_single_token("+1"), Ok((TokenKind::Plus, 1)));
    assert_eq!(tokenize_single_token("42 "), Ok((TokenKind::Integer(42), 2)));
    assert_eq!(tokenize_single_token("?"), Err(ErrorKind::UnknownCharacter('?')));
    assert_eq!(read_token(&chars("3.25")), Ok((decimal("3.25"), 4)));
}

#[test]
fn tokenizer_walks_the_source() {
    let mut t = Tokenizer::new(" 5 ");
    assert_eq!(t.next_token(), Ok(Some((TokenKind::Integer(5), 1, 2))));
    assert_eq!(t.next_token(), Ok(None));
}

#[test]
fn tokenizer_returns_token_before_a_later_failure() {
    let mut t = Tokenizer::new("1 x");
    assert_eq!(t.next_token(), Ok(Some((TokenKind::Integer(1), 0, 1))));
    assert_eq!(
        t.next_token(),
        Err((
            ErrorKind::MessageWithLocation(2, NEXT_TOKEN_MESSAGE),
            ErrorKind::UnknownCharacter('x')
        ))
    );
}

#[test]
fn tokenizer_failure_is_located_after_the_blanks() {
    let mut t = Tokenizer::new("  x");
    assert_eq!(
        t.next_token(),
        Err((
            ErrorKind::MessageWithLocation(2, NEXT_TOKEN_MESSAGE),
            ErrorKind::UnknownCharacter('x')
        ))
    );
}
