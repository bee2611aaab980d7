use vstd::prelude::*;

pub mod parser;
pub mod span;
pub mod text;
pub mod tokenizer;

use crate::parser::{lemma_value_nested, nested, node_span, parse_tokens, value_at, Ast, Node, ParseError, Parser};
use crate::text::byte_offset;
use crate::tokenizer::{
    blank, is_blank, lemma_lex_edges, lemma_lex_ordered, lex, text_bytes, tokenized, views, LexError, Token, Tokenizer,
};

verus! {

/// A parsed JSON document: the root node of its syntax tree.
pub type Json = Ast;

/// Why a text is not a JSON document.
#[derive(Debug, PartialEq, Eq, Clone, Copy)]
pub enum JsonError {
    Lex(LexError),
    Parse(ParseError),
}

/// The document that a text holds: its tokens, then the value at the first token.
pub open spec fn parse_json(s: Seq<char>) -> Result<Node, JsonError> {
    match lex(s) {
        Err(e) => Err(JsonError::Lex(e)),
        Ok(ts) => match parse_tokens(ts) {
            Ok(n) => Ok(n),
            Err(e) => Err(JsonError::Parse(e)),
        },
    }
}

impl Json {
    pub fn parse(input: &str) -> (r: Result<Json, JsonError>)
        ensures
            match parse_json(input@) {
                Ok(n) => r is Ok && r->Ok_0.node() == n,
                Err(e) => r == Err::<Json, JsonError>(e),
            },
    {
        let mut tokenizer = Tokenizer::new(input);
        let tokens = match tokenizer.tokenize() {
            Ok(tokens) => tokens,
            Err(e) => {
                return Err(JsonError::Lex(e));
            },
        };
        let mut parser = Parser::new(tokens.as_slice());
        match parser.parse() {
            Ok(ast) => Ok(ast),
            Err(e) => Err(JsonError::Parse(e)),
        }
    }
}

impl std::str::FromStr for Json {
    type Err = JsonError;

    fn from_str(s: &str) -> Result<Json, JsonError> {
        Json::parse(s)
    }
}

/// Positions nest. For a text that parses, the root node's span runs from the start of
/// the first token to the end of the last token that was read, the span of every
/// child lies within the span of its parent, and siblings come in source order
/// without overlapping. (The text is one that fits in memory.)
pub proof fn lemma_positions(s: Seq<char>)
    requires
        text_bytes(s) <= isize::MAX,
        parse_json(s) is Ok,
    ensures
        ({
            let ts = lex(s)->Ok_0;
            let (n, j) = value_at(ts, 0)->Ok_0;
            &&& parse_json(s) == Ok::<Node, JsonError>(n)
            &&& 0 < j <= ts.len()
            &&& node_span(n).start == ts[0].span.start
            &&& node_span(n).end == ts[j - 1].span.end
            &&& nested(n)
        }),
{
    lemma_lex_ordered(s, 0, 1, 1);
    lemma_value_nested(lex(s)->Ok_0, 0);
}

/// For a document whose root value is followed by nothing but whitespace, the root's
/// span covers exactly the text with its leading and trailing whitespace left out.
pub proof fn lemma_root_covers_text(s: Seq<char>)
    requires
        text_bytes(s) <= isize::MAX,
        parse_json(s) is Ok,
        value_at(lex(s)->Ok_0, 0)->Ok_0.1 == lex(s)->Ok_0.len(),
    ensures
        exists|a: int, b: int|
            {
                &&& 0 <= a < b <= s.len()
                &&& blank(s, 0, a)
                &&& !is_blank(s[a])
                &&& blank(s, b, s.len() as int)
                &&& !is_blank(s[b - 1])
                &&& node_span(parse_json(s)->Ok_0).start.offset == byte_offset(s, a)
                &&& node_span(parse_json(s)->Ok_0).end.offset == byte_offset(s, b)
            },
{
    lemma_positions(s);
    let (a, b) = lemma_lex_edges(s, 0, 1, 1);
    assert(0 <= a < b <= s.len() && blank(s, 0, a) && !is_blank(s[a]) && blank(s, b, s.len() as int) && !is_blank(s[b - 1]));
}

/// Tokenizing the same text twice gives the same tokens, or the same error.
pub proof fn lemma_retokenize(s: Seq<char>, first: Result<Vec<Token>, LexError>, second: Result<Vec<Token>, LexError>)
    requires
        tokenized(lex(s), first),
        tokenized(lex(s), second),
    ensures
        first is Ok <==> second is Ok,
        first is Ok ==> views(first->Ok_0@) == views(second->Ok_0@),
        first is Err ==> first == second,
{
}

} // verus!
