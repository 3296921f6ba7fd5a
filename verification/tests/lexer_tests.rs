use hail_front::error::{Error, LitDefect};
use hail_front::lexer::tokenize;
use hail_front::token::{Token, TokenKind};

fn lex(src: &str) -> Vec<Token> {
    tokenize(0, &src.as_bytes().to_vec()).unwrap()
}

fn lex_err(src: &str) -> Error {
    tokenize(0, &src.as_bytes().to_vec()).unwrap_err()
}

fn kinds(toks: &[Token]) -> Vec<TokenKind> {
    toks.iter().map(|t| t.kind).collect()
}

#[test]
fn empty_input_yields_only_end_of_input() {
    let toks = lex("");
    assert_eq!(kinds(&toks), vec![TokenKind::Eof]);
    assert_eq!(toks[0].loc.span.start, 0);
    assert_eq!(toks[0].loc.span.end, 0);
}

#[test]
fn keywords_take_priority_over_identifiers() {
    let toks = lex("fn let return fnx letx returnx");
    assert_eq!(
        kinds(&toks),
        vec![
            TokenKind::KwFn,
            TokenKind::KwLet,
            TokenKind::KwReturn,
            TokenKind::Ident,
            TokenKind::Ident,
            TokenKind::Ident,
            TokenKind::Eof,
        ]
    );
    assert_eq!(toks[3].text, b"fnx".to_vec());
}

#[test]
fn maximal_munch_identifier_and_spans() {
    let toks = lex("  abc1_d ");
    assert_eq!(toks[0].kind, TokenKind::Ident);
    assert_eq!(toks[0].text, b"abc1_d".to_vec());
    assert_eq!(toks[0].loc.span.start, 2);
    assert_eq!(toks[0].loc.span.end, 8);
    assert_eq!(toks[1].kind, TokenKind::Eof);
    assert_eq!(toks[1].loc.span.start, 9);
}

#[test]
fn integer_literal_value() {
    let toks = lex("0 42 18446744073709551615");
    assert_eq!(toks[0].value, 0);
    assert_eq!(toks[1].value, 42);
    assert_eq!(toks[2].value, u64::MAX);
}

#[test]
fn comments_and_whitespace_produce_no_tokens() {
    let toks = lex("1 // a comment + 2\n\t 3 // at the end");
    assert_eq!(kinds(&toks), vec![TokenKind::Int, TokenKind::Int, TokenKind::Eof]);
    assert_eq!(toks[1].value, 3);
}

#[test]
fn comment_slash_pair_wins_over_division() {
    let toks = lex("1 / 2 //x");
    assert_eq!(
        kinds(&toks),
        vec![TokenKind::Int, TokenKind::Slash, TokenKind::Int, TokenKind::Eof]
    );
}

#[test]
fn operators_and_delimiters() {
    let toks = lex("+-*/=(){},;");
    assert_eq!(
        kinds(&toks),
        vec![
            TokenKind::Plus,
            TokenKind::Minus,
            TokenKind::Star,
            TokenKind::Slash,
            TokenKind::Assign,
            TokenKind::LParen,
            TokenKind::RParen,
            TokenKind::LBrace,
            TokenKind::RBrace,
            TokenKind::Comma,
            TokenKind::Semi,
            TokenKind::Eof,
        ]
    );
    assert_eq!(toks[2].loc.span.start, 2);
    assert_eq!(toks[2].loc.span.end, 3);
}

#[test]
fn string_literal_decodes_escapes() {
    let toks = lex(r#""a\n\t\r\\\"b""#);
    assert_eq!(toks[0].kind, TokenKind::Str);
    assert_eq!(toks[0].text, b"a\n\t\r\\\"b".to_vec());
    assert_eq!(toks[0].loc.span.start, 0);
    assert_eq!(toks[0].loc.span.end, 14);
}

#[test]
fn adjacent_string_literals_stay_separate_tokens() {
    let toks = lex(r#""\\" "x""#);
    assert_eq!(kinds(&toks), vec![TokenKind::Str, TokenKind::Str, TokenKind::Eof]);
    assert_eq!(toks[0].text, b"\\".to_vec());
    assert_eq!(toks[0].loc.span.start, 0);
    assert_eq!(toks[0].loc.span.end, 4);
    assert_eq!(toks[1].text, b"x".to_vec());
    assert_eq!(toks[1].loc.span.start, 5);
    assert_eq!(toks[1].loc.span.end, 8);
}

#[test]
fn unterminated_string_spans_from_opening_quote() {
    let e = lex_err("\"abc");
    match e {
        Error::MalformedLiteral { loc, defect } => {
            assert_eq!(defect, LitDefect::UnterminatedString);
            assert_eq!(loc.span.start, 0);
            assert_eq!(loc.span.end, 4);
        },
        other => panic!("expected a malformed literal, got {:?}", other),
    }
}

#[test]
fn unterminated_string_after_text() {
    let e = lex_err("x \"ab");
    match e {
        Error::MalformedLiteral { loc, defect } => {
            assert_eq!(defect, LitDefect::UnterminatedString);
            assert_eq!(loc.span.start, 2);
            assert_eq!(loc.span.end, 5);
        },
        other => panic!("expected a malformed literal, got {:?}", other),
    }
}

#[test]
fn invalid_escape_is_malformed() {
    let e = lex_err(r#""a\q""#);
    match e {
        Error::MalformedLiteral { loc, defect } => {
            assert_eq!(defect, LitDefect::InvalidEscape);
            assert_eq!(loc.span.start, 2);
            assert_eq!(loc.span.end, 4);
        },
        other => panic!("expected a malformed literal, got {:?}", other),
    }
}

#[test]
fn digits_running_into_letters_are_malformed() {
    let e = lex_err("12ab");
    match e {
        Error::MalformedLiteral { loc, defect } => {
            assert_eq!(defect, LitDefect::MalformedNumber);
            assert_eq!(loc.span.start, 0);
            assert_eq!(loc.span.end, 4);
        },
        other => panic!("expected a malformed literal, got {:?}", other),
    }
}

#[test]
fn oversized_integer_is_malformed() {
    let e = lex_err("18446744073709551616");
    match e {
        Error::MalformedLiteral { defect, .. } => {
            assert_eq!(defect, LitDefect::NumberTooLarge);
        },
        other => panic!("expected a malformed literal, got {:?}", other),
    }
}

#[test]
fn unexpected_character_has_single_byte_span() {
    let e = lex_err("a @ b");
    match e {
        Error::UnexpectedCharacter { loc } => {
            assert_eq!(loc.span.start, 2);
            assert_eq!(loc.span.end, 3);
        },
        other => panic!("expected an unexpected character, got {:?}", other),
    }
}

#[test]
fn stream_is_ordered_and_ends_with_one_eof() {
    let toks = lex("fn main() { let x = 1 + 2; }");
    assert!(toks.len() > 1);
    for w in toks.windows(2) {
        assert!(w[0].loc.span.end <= w[1].loc.span.start);
        assert!(w[0].kind != TokenKind::Eof);
    }
    let last = toks.last().unwrap();
    assert_eq!(last.kind, TokenKind::Eof);
    assert_eq!(last.loc.span.start, 28);
    assert_eq!(last.loc.span.end, 28);
}

#[test]
fn tokens_carry_the_file_identity() {
    let toks = tokenize(5, &b"x".to_vec()).unwrap();
    assert!(toks.iter().all(|t| t.loc.file == 5));
}
