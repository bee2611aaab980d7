use json_ast::parser::{parse_string, Ast, ParseError};
use json_ast::span::{Loc, Span};
use json_ast::tokenizer::Kind;
use json_ast::{Json, JsonError};

fn span(sl: usize, sc: usize, so: usize, el: usize, ec: usize, eo: usize) -> Span {
    Span {
        start: Loc { line: sl, column: sc, offset: so },
        end: Loc { line: el, column: ec, offset: eo },
    }
}

#[test]
fn it_works() {
    let json = Json::parse("[{ \"hello\": [\"world\", 1, null, true, { \"a\": [] }] }]").unwrap();

    assert!(matches!(json, Json::Array(_)))
}

#[test]
fn test_from_str() {
    let json = "[{ \"hello\": [\"world\", 1, null, true, { \"a\": [] }] }]"
        .parse::<Json>()
        .unwrap();

    assert!(matches!(json, Json::Array(_)))
}

#[test]
fn empty_object_and_array() {
    match Json::parse("{}").unwrap() {
        Ast::Object(o) => {
            assert_eq!(o.value.len(), 0);
            assert_eq!(o.span, span(1, 1, 0, 1, 3, 2));
        }
        other => panic!("not an object: {:?}", other),
    }
    match Json::parse("[]").unwrap() {
        Ast::Array(a) => {
            assert_eq!(a.value.len(), 0);
            assert_eq!(a.span.start.offset, 0);
            assert_eq!(a.span.end.offset, 2);
        }
        other => panic!("not an array: {:?}", other),
    }
}

#[test]
fn trailing_comma_is_rejected() {
    assert_eq!(
        Json::parse("[1,2,]"),
        Err(JsonError::Parse(ParseError::UnexpectedToken {
            kind: Kind::RightBracket,
            span: span(1, 6, 5, 1, 7, 6),
        }))
    );
    assert_eq!(
        Json::parse("{\"a\":1,}"),
        Err(JsonError::Parse(ParseError::UnexpectedToken {
            kind: Kind::RightBrace,
            span: span(1, 8, 7, 1, 9, 8),
        }))
    );
}

#[test]
fn escape_decoding() {
    match Json::parse("\"a\\nb\"").unwrap() {
        Ast::String(s) => {
            assert_eq!(s.value, "a\nb");
            assert_eq!(s.value.chars().count(), 3);
            assert_eq!(s.span, span(1, 1, 0, 1, 7, 6));
        }
        other => panic!("not a string: {:?}", other),
    }
    match Json::parse("\"\\\"\\\\\\/\\b\\f\\r\\t\"").unwrap() {
        Ast::String(s) => assert_eq!(s.value, "\"\\/\u{8}\u{c}\r\t"),
        other => panic!("not a string: {:?}", other),
    }
}

#[test]
fn unicode_escape() {
    match Json::parse("\"\\u0041\"").unwrap() {
        Ast::String(s) => assert_eq!(s.value, "A"),
        other => panic!("not a string: {:?}", other),
    }
    assert_eq!(parse_string("\"x\\u00e9y\"").unwrap(), "x\u{e9}y");
    assert_eq!(parse_string("\"\\u20AC\"").unwrap(), "\u{20ac}");
}

#[test]
fn nesting() {
    let json = Json::parse("[{\"hello\":[\"world\",1,null,true,{\"a\":[]}]}]").unwrap();
    let Ast::Array(root) = json else { panic!("root is not an array") };
    assert_eq!(root.value.len(), 1);
    let Ast::Object(object) = root.value[0].as_ref() else { panic!("item is not an object") };
    assert_eq!(object.value.len(), 1);
    let property = &object.value[0];
    assert_eq!(property.key.value.value, "hello");
    let Ast::Array(items) = property.value.as_ref() else { panic!("value is not an array") };
    assert_eq!(items.value.len(), 5);
    assert!(matches!(items.value[0].as_ref(), Ast::String(s) if s.value == "world"));
    assert!(matches!(items.value[1].as_ref(), Ast::Number(n) if n.value == "1"));
    assert!(matches!(items.value[2].as_ref(), Ast::Null(_)));
    assert!(matches!(items.value[3].as_ref(), Ast::Boolean(b) if b.value));
    assert!(matches!(items.value[4].as_ref(), Ast::Object(o) if o.value.len() == 1));
}

#[test]
fn property_span_covers_key_and_value() {
    let json = Json::parse("{\"hello\":\"world\"}").unwrap();
    let Ast::Object(object) = json else { panic!("not an object") };
    let property = &object.value[0];
    assert_eq!((property.span.start.offset, property.span.end.offset), (1, 16));
    assert_eq!(property.key.value.value, "hello");
    assert_eq!(property.key.span, span(1, 2, 1, 1, 9, 8));
    assert!(matches!(property.value.as_ref(), Ast::String(s) if s.value == "world"));
}

#[test]
fn failure_locality() {
    assert_eq!(
        Json::parse("{\"a\": }"),
        Err(JsonError::Parse(ParseError::UnexpectedToken {
            kind: Kind::RightBrace,
            span: span(1, 7, 6, 1, 8, 7),
        }))
    );
}

#[test]
fn root_span_ends_at_last_token() {
    let json = Json::parse("  [1, [2, 3]]  ").unwrap();
    assert_eq!(json.get_span().start.offset, 2);
    assert_eq!(json.get_span().end.offset, 13);
    let Ast::Array(root) = json else { panic!("not an array") };
    let inner = root.value[1].get_span();
    assert!(root.span.start.offset <= inner.start.offset && inner.end.offset <= root.span.end.offset);
    assert_eq!((inner.start.offset, inner.end.offset), (6, 12));
}

#[test]
fn unexpected_end_of_input() {
    assert_eq!(Json::parse(""), Err(JsonError::Parse(ParseError::UnexpectedEof)));
    assert_eq!(Json::parse("   "), Err(JsonError::Parse(ParseError::UnexpectedEof)));
    assert_eq!(Json::parse("[1,"), Err(JsonError::Parse(ParseError::UnexpectedEof)));
    assert_eq!(Json::parse("{\"a\""), Err(JsonError::Parse(ParseError::UnexpectedEof)));
}

#[test]
fn missing_colon_and_non_string_key() {
    assert_eq!(
        Json::parse("{\"a\" 1}"),
        Err(JsonError::Parse(ParseError::UnexpectedToken { kind: Kind::Number, span: span(1, 6, 5, 1, 7, 6) }))
    );
    assert_eq!(
        Json::parse("{1:2}"),
        Err(JsonError::Parse(ParseError::UnexpectedToken { kind: Kind::Number, span: span(1, 2, 1, 1, 3, 2) }))
    );
    assert_eq!(
        Json::parse("]"),
        Err(JsonError::Parse(ParseError::UnexpectedToken { kind: Kind::RightBracket, span: span(1, 1, 0, 1, 2, 1) }))
    );
}

#[test]
fn invalid_escapes() {
    assert_eq!(parse_string("\"\\x\""), Err(ParseError::InvalidEscape { ch: 'x' }));
    assert_eq!(parse_string("\"\\uD800\""), Err(ParseError::InvalidEscape { ch: 'u' }));
    assert_eq!(parse_string("\"\\u12\""), Err(ParseError::InvalidEscape { ch: 'u' }));
    assert_eq!(parse_string("\"ab\\\""), Err(ParseError::InvalidEscape { ch: '\\' }));
    assert_eq!(parse_string("\"\""), Ok(String::new()));
    assert_eq!(parse_string(""), Ok(String::new()));
    assert_eq!(
        Json::parse("\"\\uDFFF\""),
        Err(JsonError::Parse(ParseError::InvalidEscape { ch: 'u' }))
    );
}

#[test]
fn duplicate_keys_are_kept_in_order() {
    let Ast::Object(o) = Json::parse("{\"k\":1,\"k\":2}").unwrap() else { panic!("not an object") };
    assert_eq!(o.value.len(), 2);
    assert!(matches!(o.value[0].value.as_ref(), Ast::Number(n) if n.value == "1"));
    assert!(matches!(o.value[1].value.as_ref(), Ast::Number(n) if n.value == "2"));
}

#[test]
fn trailing_tokens_after_the_root_are_not_read() {
    assert!(matches!(Json::parse("1 2"), Ok(Ast::Number(n)) if n.value == "1"));
}

#[test]
fn span_operations() {
    let a = span(1, 1, 0, 1, 3, 2);
    let b = span(2, 1, 5, 2, 4, 8);
    assert_eq!(a.merge(&b), span(1, 1, 0, 2, 4, 8));
    assert_eq!(b.merge(&a), span(1, 1, 0, 2, 4, 8));
    assert_eq!(a.join(&b), span(1, 1, 0, 2, 4, 8));
    let at = Span::at(Loc { line: 3, column: 4, offset: 9 });
    assert_eq!(at.start, at.end);
    assert_eq!(at.start.offset, 9);
}

#[test]
fn root_covers_trimmed_text_and_siblings_are_ordered() {
    let text = "\n\t {\"a\": [1, 22], \"b\": null} \r\n";
    let json = Json::parse(text).unwrap();
    let span = *json.get_span();
    assert_eq!(&text[span.start.offset..span.end.offset], text.trim());
    let Ast::Object(o) = json else { panic!("not an object") };
    assert!(o.value[0].span.end.offset <= o.value[1].span.start.offset);
    let p = &o.value[0];
    assert!(p.key.span.end.offset <= p.value.get_span().start.offset);
    let Ast::Array(items) = p.value.as_ref() else { panic!("not an array") };
    assert!(items.value[0].get_span().end.offset <= items.value[1].get_span().start.offset);
}
