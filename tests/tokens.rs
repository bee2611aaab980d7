use json_ast::span::{Loc, Span};
use json_ast::tokenizer::{
    is_hex, ColonToken, LeftBraceToken, LexError, NumberToken, RightBraceToken, StringToken, Token,
    Tokenizer,
};

#[test]
fn test_tokenizer() {
    let mut tokenizer = Tokenizer::new("{\"hello\": \"world\"}");
    let tokens = tokenizer.tokenize().unwrap();

    assert_eq!(tokens.len(), 5);

    assert_eq!(
        tokens,
        [
            Token::LeftBrace(LeftBraceToken {
                span: Span {
                    start: Loc { line: 1, column: 1, offset: 0 },
                    end: Loc { line: 1, column: 2, offset: 1 }
                }
            }),
            Token::String(StringToken {
                value: "\"hello\"".to_string(),
                span: Span {
                    start: Loc { line: 1, column: 2, offset: 1 },
                    end: Loc { line: 1, column: 9, offset: 8 }
                }
            }),
            Token::Colon(ColonToken {
                span: Span {
                    start: Loc { line: 1, column: 9, offset: 8 },
                    end: Loc { line: 1, column: 10, offset: 9 }
                }
            }),
            Token::String(StringToken {
                value: "\"world\"".to_string(),
                span: Span {
                    start: Loc { line: 1, column: 11, offset: 10 },
                    end: Loc { line: 1, column: 18, offset: 17 }
                }
            }),
            Token::RightBrace(RightBraceToken {
                span: Span {
                    start: Loc { line: 1, column: 18, offset: 17 },
                    end: Loc { line: 1, column: 19, offset: 18 }
                }
            })
        ]
    );
}

fn tokens_of(s: &str) -> Result<Vec<Token>, LexError> {
    Tokenizer::new(s).tokenize()
}

#[test]
fn tokenizing_twice_gives_the_same_tokens() {
    let text = "{\"k\": [1, -2.5e3, true, false, null, \"\\u0041\"]}\r\n";
    assert_eq!(tokens_of(text), tokens_of(text));
    assert_eq!(tokens_of("[1,@"), tokens_of("[1,@"));
}

#[test]
fn line_breaks() {
    let tokens = tokens_of("[\r\n1,\r2,\n3]").unwrap();
    assert_eq!(tokens.len(), 7);
    assert_eq!(*tokens[1].get_span(), Span {
        start: Loc { line: 2, column: 1, offset: 3 },
        end: Loc { line: 2, column: 2, offset: 4 },
    });
    assert_eq!(tokens[3].get_span().start, Loc { line: 3, column: 1, offset: 6 });
    assert_eq!(tokens[5].get_span().start, Loc { line: 4, column: 1, offset: 9 });
    assert_eq!(tokens[6].get_span().start, Loc { line: 4, column: 2, offset: 10 });
    let tokens = tokens_of("\t 1").unwrap();
    assert_eq!(tokens[0].get_span().start, Loc { line: 1, column: 3, offset: 2 });
}

#[test]
fn offsets_count_bytes_and_columns_count_characters() {
    let tokens = tokens_of("[\"\u{e9}\u{20ac}\u{1f600}\", 1]").unwrap();
    assert_eq!(tokens[1].get_span().start, Loc { line: 1, column: 2, offset: 1 });
    assert_eq!(tokens[1].get_span().end, Loc { line: 1, column: 7, offset: 1 + 1 + 2 + 3 + 4 + 1 });
    assert_eq!(tokens[3].get_span().start, Loc { line: 1, column: 9, offset: 14 });
}

#[test]
fn numbers() {
    let lexemes = |s: &str| -> Vec<String> {
        tokens_of(s)
            .unwrap()
            .into_iter()
            .map(|t| match t {
                Token::Number(NumberToken { value, .. }) => value,
                other => panic!("not a number: {:?}", other),
            })
            .collect()
    };
    assert_eq!(lexemes("0 -0 12 -3.25 1e5 2E-3 4.5e+6"), vec!["0", "-0", "12", "-3.25", "1e5", "2E-3", "4.5e+6"]);
    assert_eq!(lexemes("01"), vec!["0", "1"]);
    let t = tokens_of("-12.5e3").unwrap();
    assert_eq!(*t[0].get_span(), Span {
        start: Loc { line: 1, column: 1, offset: 0 },
        end: Loc { line: 1, column: 8, offset: 7 },
    });
}

#[test]
fn malformed_numbers() {
    assert_eq!(tokens_of("-"), Err(LexError::UnexpectedChar { ch: '-', line: 1, column: 1 }));
    assert_eq!(tokens_of("1."), Err(LexError::UnexpectedChar { ch: '.', line: 1, column: 2 }));
    assert_eq!(tokens_of("1e"), Err(LexError::UnexpectedChar { ch: 'e', line: 1, column: 2 }));
    assert_eq!(tokens_of(".5"), Err(LexError::UnexpectedChar { ch: '.', line: 1, column: 1 }));
}

#[test]
fn literals() {
    let t = tokens_of("true false null").unwrap();
    assert_eq!(t.len(), 3);
    assert!(matches!(&t[0], Token::Boolean(b) if b.value && b.span.end.offset == 4));
    assert!(matches!(&t[1], Token::Boolean(b) if !b.value && b.span.start.column == 6 && b.span.end.column == 11));
    assert!(matches!(&t[2], Token::Null(n) if n.span.start.offset == 11 && n.span.end.offset == 15));
    assert_eq!(tokens_of("tru"), Err(LexError::UnexpectedChar { ch: 't', line: 1, column: 1 }));
    assert_eq!(tokens_of("nul"), Err(LexError::UnexpectedChar { ch: 'n', line: 1, column: 1 }));
}

#[test]
fn lexical_errors() {
    assert_eq!(tokens_of("[1, @]"), Err(LexError::UnexpectedChar { ch: '@', line: 1, column: 5 }));
    assert_eq!(tokens_of("\n \"abc"), Err(LexError::UnterminatedString { line: 2, column: 2 }));
    assert_eq!(tokens_of("\"ab\\"), Err(LexError::UnterminatedString { line: 1, column: 1 }));
    assert_eq!(tokens_of(" \"a\\qb\""), Err(LexError::InvalidEscape { ch: 'q', line: 1, column: 5 }));
    assert_eq!(tokens_of("\"\\u12G4\""), Err(LexError::InvalidEscape { ch: 'u', line: 1, column: 3 }));
    assert_eq!(tokens_of("\"\\u12\""), Err(LexError::InvalidEscape { ch: 'u', line: 1, column: 3 }));
}

#[test]
fn string_lexemes_keep_escapes() {
    let t = tokens_of("\"a\\n\\u00e9\"").unwrap();
    assert!(matches!(&t[0], Token::String(s) if s.value == "\"a\\n\\u00e9\""));
    assert_eq!(tokens_of(""), Ok(vec![]));
}

#[test]
fn hex_digits() {
    for c in ['0', '9', 'a', 'f', 'A', 'F'] {
        assert!(is_hex(&c));
    }
    for c in ['g', 'G', '/', ':', ' '] {
        assert!(!is_hex(&c));
    }
}
