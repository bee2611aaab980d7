use vstd::prelude::*;

use crate::span::{join, within, Span};
use crate::text::{chars_of, push_char};
use crate::tokenizer::{hex4_at, hex_digit, is_hex, ordered, views, Kind, Token, TokenView};

verus! {

/// A node of the syntax tree; every node carries the span of the text it came from.
#[derive(Debug, PartialEq)]
pub enum Ast {
    String(StringAst),
    Number(NumberAst),
    Boolean(BoolAst),
    Null(NullAst),
    Object(ObjectAst),
    Property(PropertyAst),
    Identifier(IdentifierAst),
    Array(ArrayAst),
}

/// A string value, escapes resolved.
#[derive(Debug, PartialEq)]
pub struct StringAst {
    pub value: String,
    pub span: Span,
}

/// A number; `value` is its lexeme, which follows the JSON number grammar.
#[derive(Debug, PartialEq)]
pub struct NumberAst {
    pub value: String,
    pub span: Span,
}

#[derive(Debug, PartialEq)]
pub struct BoolAst {
    pub value: bool,
    pub span: Span,
}

#[derive(Debug, PartialEq)]
pub struct NullAst {
    pub span: Span,
}

/// An object: its properties in source order, duplicate keys kept.
#[derive(Debug, PartialEq)]
pub struct ObjectAst {
    pub value: Vec<PropertyAst>,
    pub span: Span,
}

#[derive(Debug, PartialEq)]
pub struct PropertyAst {
    pub key: IdentifierAst,
    pub value: Box<Ast>,
    pub span: Span,
}

/// A property key.
#[derive(Debug, PartialEq)]
pub struct IdentifierAst {
    pub value: StringAst,
    pub span: Span,
}

/// An array: its items in source order.
#[derive(Debug, PartialEq)]
pub struct ArrayAst {
    pub value: Vec<Box<Ast>>,
    pub span: Span,
}

/// The mathematical picture of a node.
pub enum Node {
    Str { text: Seq<char>, span: Span },
    Number { text: Seq<char>, span: Span },
    Boolean { value: bool, span: Span },
    Null { span: Span },
    Object { properties: Seq<Node>, span: Span },
    Property { key: Box<Node>, child: Box<Node>, span: Span },
    Identifier { string: Box<Node>, span: Span },
    Array { items: Seq<Node>, span: Span },
}

impl StringAst {
    pub open spec fn node(&self) -> Node {
        Node::Str { text: self.value@, span: self.span }
    }
}

impl IdentifierAst {
    pub open spec fn node(&self) -> Node {
        Node::Identifier { string: Box::new(self.value.node()), span: self.span }
    }
}

impl PropertyAst {
    pub open spec fn node(&self) -> Node
        decreases self, 0int,
    {
        Node::Property { key: Box::new(self.key.node()), child: Box::new(self.value.node()), span: self.span }
    }
}

impl Ast {
    pub open spec fn node(&self) -> Node
        decreases self, 1int,
    {
        match self {
            Ast::String(a) => a.node(),
            Ast::Number(a) => Node::Number { text: a.value@, span: a.span },
            Ast::Boolean(a) => Node::Boolean { value: a.value, span: a.span },
            Ast::Null(a) => Node::Null { span: a.span },
            Ast::Object(o) => Node::Object {
                properties: Seq::new(
                    o.value@.len(),
                    |k: int|
                        if 0 <= k < o.value@.len() {
                            o.value@[k].node()
                        } else {
                            Node::Null { span: o.span }
                        },
                ),
                span: o.span,
            },
            Ast::Property(p) => p.node(),
            Ast::Identifier(a) => a.node(),
            Ast::Array(a) => Node::Array {
                items: Seq::new(
                    a.value@.len(),
                    |k: int|
                        if 0 <= k < a.value@.len() {
                            a.value@[k].node()
                        } else {
                            Node::Null { span: a.span }
                        },
                ),
                span: a.span,
            },
        }
    }

    pub fn get_span(&self) -> (r: &Span)
        ensures
            *r == node_span(self.node()),
    {
        match self {
            Ast::String(ast) => &ast.span,
            Ast::Number(ast) => &ast.span,
            Ast::Boolean(ast) => &ast.span,
            Ast::Null(ast) => &ast.span,
            Ast::Object(ast) => &ast.span,
            Ast::Property(ast) => {
                assert(node_span(ast.node()) == ast.span);
                &ast.span
            },
            Ast::Identifier(ast) => &ast.span,
            Ast::Array(ast) => &ast.span,
        }
    }
}

/// The span of a node.
pub open spec fn node_span(n: Node) -> Span {
    match n {
        Node::Str { span, .. } => span,
        Node::Number { span, .. } => span,
        Node::Boolean { span, .. } => span,
        Node::Null { span } => span,
        Node::Object { span, .. } => span,
        Node::Property { span, .. } => span,
        Node::Identifier { span, .. } => span,
        Node::Array { span, .. } => span,
    }
}

/// The nodes of a sequence of properties.
pub open spec fn prop_nodes(v: Seq<PropertyAst>) -> Seq<Node> {
    Seq::new(v.len(), |k: int| v[k].node())
}

/// The nodes of a sequence of items.
pub open spec fn item_nodes(v: Seq<Box<Ast>>) -> Seq<Node> {
    Seq::new(v.len(), |k: int| v[k].node())
}

/// The node of an object lists the nodes of its properties.
pub proof fn lemma_object_node(o: ObjectAst)
    ensures
        Ast::Object(o).node() == (Node::Object { properties: prop_nodes(o.value@), span: o.span }),
{
    if let Node::Object { properties, span } = Ast::Object(o).node() {
        assert(properties =~= prop_nodes(o.value@));
    }
}

/// The node of an array lists the nodes of its items.
pub proof fn lemma_array_node(a: ArrayAst)
    ensures
        Ast::Array(a).node() == (Node::Array { items: item_nodes(a.value@), span: a.span }),
{
    if let Node::Array { items, span } = Ast::Array(a).node() {
        assert(items =~= item_nodes(a.value@));
    }
}

/// Why parsing stopped.
#[derive(Debug, PartialEq, Eq, Clone, Copy)]
pub enum ParseError {
    /// A token that the grammar does not allow where it stands.
    UnexpectedToken { kind: Kind, span: Span },
    /// The tokens ran out inside a value.
    UnexpectedEof,
    /// A backslash in a string is followed by this character, which starts no escape
    /// (`u` where four hex digits naming a non-surrogate code point do not follow).
    InvalidEscape { ch: char },
}

// ---------------------------------------------------------------------------
// Escape resolution.

/// The character that a one-letter escape stands for.
pub open spec fn escape_char(c: char) -> Option<char> {
    if c == '"' || c == '\\' || c == '/' {
        Some(c)
    } else if c == 'b' {
        Some('\x08')
    } else if c == 'f' {
        Some('\x0c')
    } else if c == 'n' {
        Some('\n')
    } else if c == 'r' {
        Some('\r')
    } else if c == 't' {
        Some('\t')
    } else {
        None
    }
}

pub open spec fn hex_val(c: char) -> u32 {
    if '0' <= c && c <= '9' {
        (c as u32 - '0' as u32) as u32
    } else if 'a' <= c && c <= 'f' {
        (c as u32 - 'a' as u32 + 10) as u32
    } else {
        (c as u32 - 'A' as u32 + 10) as u32
    }
}

/// The code unit named by the four hex digits at `j`.
pub open spec fn hex4_val(s: Seq<char>, j: int) -> u32 {
    (hex_val(s[j]) * 4096 + hex_val(s[j + 1]) * 256 + hex_val(s[j + 2]) * 16 + hex_val(s[j + 3])) as u32
}

pub open spec fn surrogate(v: u32) -> bool {
    0xD800 <= v && v <= 0xDFFF
}

pub open spec fn then_chars(p: Seq<char>, r: Result<Seq<char>, ParseError>) -> Result<Seq<char>, ParseError> {
    match r {
        Ok(t) => Ok(p + t),
        Err(e) => Err(e),
    }
}

/// The characters `[j, end)` of `s` with their escapes resolved.
pub open spec fn decode_range(s: Seq<char>, j: int, end: int) -> Result<Seq<char>, ParseError>
    decreases end - j,
{
    if j < 0 || j >= end || end > s.len() {
        Ok(Seq::empty())
    } else if s[j] == '\\' {
        if j + 1 >= end {
            Err(ParseError::InvalidEscape { ch: '\\' })
        } else if escape_char(s[j + 1]) is Some {
            then_chars(seq![escape_char(s[j + 1])->0], decode_range(s, j + 2, end))
        } else if s[j + 1] == 'u' {
            if j + 6 <= end && hex4_at(s, j + 2) && !surrogate(hex4_val(s, j + 2)) {
                then_chars(seq![hex4_val(s, j + 2) as char], decode_range(s, j + 6, end))
            } else {
                Err(ParseError::InvalidEscape { ch: 'u' })
            }
        } else {
            Err(ParseError::InvalidEscape { ch: s[j + 1] })
        }
    } else {
        then_chars(seq![s[j]], decode_range(s, j + 1, end))
    }
}

/// The value of a quoted string: the characters between the first and the last, escapes resolved.
pub open spec fn string_value(q: Seq<char>) -> Result<Seq<char>, ParseError> {
    if q.len() >= 2 {
        decode_range(q, 1, q.len() - 1)
    } else {
        Ok(Seq::empty())
    }
}

/// Putting `b` and then `a` in front is putting `a + b` in front.
pub proof fn lemma_then_chars_assoc(a: Seq<char>, b: Seq<char>, r: Result<Seq<char>, ParseError>)
    ensures
        then_chars(a, then_chars(b, r)) == then_chars(a + b, r),
{
    if let Ok(t) = r {
        assert(a + (b + t) =~= (a + b) + t);
    }
}

/// Relies on `char::from_u32`: the character with code point `v`, where `v` is a Unicode scalar value.
#[verifier::external_body]
fn char_from(v: u32) -> (r: Option<char>)
    ensures
        (v < 0xD800 || (0xE000 <= v && v <= 0x10FFFF)) <==> r is Some,
        r is Some ==> r->0 as u32 == v,
{
    char::from_u32(v)
}

fn hex_value(c: char) -> (r: u32)
    requires
        hex_digit(c),
    ensures
        r == hex_val(c),
        r < 16,
{
    if c >= '0' && c <= '9' {
        c as u32 - '0' as u32
    } else if c >= 'a' && c <= 'f' {
        c as u32 - 'a' as u32 + 10
    } else {
        c as u32 - 'A' as u32 + 10
    }
}

fn escape_of(c: char) -> (r: Option<char>)
    ensures
        r == escape_char(c),
{
    if c == '"' || c == '\\' || c == '/' {
        Some(c)
    } else if c == 'b' {
        Some('\x08')
    } else if c == 'f' {
        Some('\x0c')
    } else if c == 'n' {
        Some('\n')
    } else if c == 'r' {
        Some('\r')
    } else if c == 't' {
        Some('\t')
    } else {
        None
    }
}

/// Resolves the escapes of a quoted string literal; the first and last characters
/// (the quotes) are left out.
pub fn parse_string(quoted_input: &str) -> (r: Result<String, ParseError>)
    ensures
        match string_value(quoted_input@) {
            Ok(v) => r is Ok && r->Ok_0@ == v,
            Err(e) => r == Err::<String, ParseError>(e),
        },
{
    let chars = chars_of(quoted_input);
    let mut ret = String::new();
    if chars.len() < 2 {
        return Ok(ret);
    }
    let ghost s = chars@;
    let end = chars.len() - 1;
    let mut index: usize = 1;
    assert(then_chars(Seq::empty(), decode_range(s, 1, end as int)) == decode_range(s, 1, end as int)) by {
        if let Ok(t) = decode_range(s, 1, end as int) {
            assert(Seq::<char>::empty() + t =~= t);
        }
    }
    while index < end
        invariant
            s == chars@,
            s == quoted_input@,
            end == s.len() - 1,
            1 <= index <= end,
            string_value(s) == then_chars(ret@, decode_range(s, index as int, end as int)),
        decreases end - index,
    {
        let c = chars[index];
        if c == '\\' {
            if index + 1 >= end {
                return Err(ParseError::InvalidEscape { ch: '\\' });
            }
            let next_c = chars[index + 1];
            if let Some(e) = escape_of(next_c) {
                proof {
                    lemma_then_chars_assoc(ret@, seq![e], decode_range(s, index + 2, end as int));
                }
                let ghost prev = ret@;
                push_char(&mut ret, e);
                assert(ret@ =~= prev + seq![e]);
                index = index + 2;
            } else if next_c == 'u' {
                if end - index >= 6 && is_hex(&chars[index + 2]) && is_hex(&chars[index + 3]) && is_hex(
                    &chars[index + 4],
                ) && is_hex(&chars[index + 5]) {
                    let v = hex_value(chars[index + 2]) * 4096 + hex_value(chars[index + 3]) * 256
                        + hex_value(chars[index + 4]) * 16 + hex_value(chars[index + 5]);
                    match char_from(v) {
                        Some(ch) => {
                            proof {
                                vstd::utf8::char_u32_cast(ch, v);
                                lemma_then_chars_assoc(ret@, seq![ch], decode_range(s, index + 6, end as int));
                            }
                            let ghost prev = ret@;
                            push_char(&mut ret, ch);
                            assert(ret@ =~= prev + seq![ch]);
                            index = index + 6;
                        },
                        None => {
                            return Err(ParseError::InvalidEscape { ch: 'u' });
                        },
                    }
                } else {
                    return Err(ParseError::InvalidEscape { ch: 'u' });
                }
            } else {
                return Err(ParseError::InvalidEscape { ch: next_c });
            }
        } else {
            proof {
                lemma_then_chars_assoc(ret@, seq![c], decode_range(s, index + 1, end as int));
            }
            let ghost prev = ret@;
            push_char(&mut ret, c);
            assert(ret@ =~= prev + seq![c]);
            index = index + 1;
        }
    }
    proof {
        assert(ret@ + Seq::<char>::empty() =~= ret@);
    }
    Ok(ret)
}


// ---------------------------------------------------------------------------
// The grammar, over the views of the tokens.

/// The error for a token that stands where the grammar does not allow it.
pub open spec fn unexpected(t: TokenView) -> ParseError {
    ParseError::UnexpectedToken { kind: t.kind, span: t.span }
}

/// The node of a literal token.
pub open spec fn literal_node(t: TokenView) -> Result<Node, ParseError> {
    match t.kind {
        Kind::Str => match string_value(t.text) {
            Ok(v) => Ok(Node::Str { text: v, span: t.span }),
            Err(e) => Err(e),
        },
        Kind::Number => Ok(Node::Number { text: t.text, span: t.span }),
        Kind::Boolean(b) => Ok(Node::Boolean { value: b, span: t.span }),
        Kind::Null => Ok(Node::Null { span: t.span }),
        _ => Err(unexpected(t)),
    }
}

/// The states of the object machine.
#[derive(Debug, PartialEq, Eq, Clone, Copy)]
pub enum ObjectState {
    Start,
    Opened,
    AfterItem,
    AfterComma,
}

/// The states of the property machine.
#[derive(Debug, PartialEq, Eq, Clone, Copy)]
pub enum PropertyState {
    Start,
    Key,
    Colon,
}

/// The states of the array machine.
#[derive(Debug, PartialEq, Eq, Clone, Copy)]
pub enum ArrayState {
    Start,
    Opened,
    AfterItem,
    AfterComma,
}

/// The value that starts at token `i`, with the index of the token after it.
/// Literals, objects and arrays begin with disjoint tokens.
pub open spec fn value_at(ts: Seq<TokenView>, i: int) -> Result<(Node, int), ParseError>
    decreases ts.len() - i, 2int,
{
    if i < 0 || i >= ts.len() {
        Err(ParseError::UnexpectedEof)
    } else if ts[i].kind == Kind::LeftBrace {
        object_from(ts, i, ts[i].span, Seq::empty(), ObjectState::Start)
    } else if ts[i].kind == Kind::LeftBracket {
        array_from(ts, i, ts[i].span, Seq::empty(), ArrayState::Start)
    } else {
        match literal_node(ts[i]) {
            Ok(n) => Ok((n, i + 1)),
            Err(e) => Err(e),
        }
    }
}

/// The object machine in state `st` at token `i`, with the span of the opening
/// brace and the properties read so far.
pub open spec fn object_from(ts: Seq<TokenView>, i: int, open: Span, props: Seq<Node>, st: ObjectState) -> Result<(Node, int), ParseError>
    decreases ts.len() - i, if st == ObjectState::Start { 1int } else { 3int },
{
    if i < 0 || i >= ts.len() {
        Err(ParseError::UnexpectedEof)
    } else {
        match st {
            ObjectState::Start => if ts[i].kind == Kind::LeftBrace {
                object_from(ts, i + 1, ts[i].span, props, ObjectState::Opened)
            } else {
                Err(unexpected(ts[i]))
            },
            ObjectState::AfterItem => if ts[i].kind == Kind::Comma {
                object_from(ts, i + 1, open, props, ObjectState::AfterComma)
            } else if ts[i].kind == Kind::RightBrace {
                Ok((Node::Object { properties: props, span: join(open, ts[i].span) }, i + 1))
            } else {
                Err(unexpected(ts[i]))
            },
            _ => if st == ObjectState::Opened && ts[i].kind == Kind::RightBrace {
                Ok((Node::Object { properties: props, span: join(open, ts[i].span) }, i + 1))
            } else {
                match property_at(ts, i) {
                    // a property always takes at least one token
                    Ok((p, j)) => if i < j <= ts.len() {
                        object_from(ts, j, open, props.push(p), ObjectState::AfterItem)
                    } else {
                        Err(ParseError::UnexpectedEof)
                    },
                    Err(e) => Err(e),
                }
            },
        }
    }
}

/// The property that starts at token `i`: a string, a colon, a value.
pub open spec fn property_at(ts: Seq<TokenView>, i: int) -> Result<(Node, int), ParseError>
    decreases ts.len() - i, 0int,
{
    if i < 0 || i >= ts.len() {
        Err(ParseError::UnexpectedEof)
    } else if ts[i].kind != Kind::Str {
        Err(unexpected(ts[i]))
    } else {
        match string_value(ts[i].text) {
            Err(e) => Err(e),
            Ok(key) => if i + 1 >= ts.len() {
                Err(ParseError::UnexpectedEof)
            } else if ts[i + 1].kind != Kind::Colon {
                Err(unexpected(ts[i + 1]))
            } else {
                match value_at(ts, i + 2) {
                    Ok((v, j)) => Ok(
                        (
                            Node::Property {
                                key: Box::new(
                                    Node::Identifier {
                                        string: Box::new(Node::Str { text: key, span: ts[i].span }),
                                        span: ts[i].span,
                                    },
                                ),
                                child: Box::new(v),
                                span: join(ts[i].span, node_span(v)),
                            },
                            j,
                        ),
                    ),
                    Err(e) => Err(e),
                }
            },
        }
    }
}

/// The array machine in state `st` at token `i`, with the span of the opening
/// bracket and the items read so far.
pub open spec fn array_from(ts: Seq<TokenView>, i: int, open: Span, items: Seq<Node>, st: ArrayState) -> Result<(Node, int), ParseError>
    decreases ts.len() - i, if st == ArrayState::Start { 1int } else { 3int },
{
    if i < 0 || i >= ts.len() {
        Err(ParseError::UnexpectedEof)
    } else {
        match st {
            ArrayState::Start => if ts[i].kind == Kind::LeftBracket {
                array_from(ts, i + 1, ts[i].span, items, ArrayState::Opened)
            } else {
                Err(unexpected(ts[i]))
            },
            ArrayState::AfterItem => if ts[i].kind == Kind::Comma {
                array_from(ts, i + 1, open, items, ArrayState::AfterComma)
            } else if ts[i].kind == Kind::RightBracket {
                Ok((Node::Array { items, span: join(open, ts[i].span) }, i + 1))
            } else {
                Err(unexpected(ts[i]))
            },
            _ => if st == ArrayState::Opened && ts[i].kind == Kind::RightBracket {
                Ok((Node::Array { items, span: join(open, ts[i].span) }, i + 1))
            } else {
                match value_at(ts, i) {
                    // a value always takes at least one token
                    Ok((v, j)) => if i < j <= ts.len() {
                        array_from(ts, j, open, items.push(v), ArrayState::AfterItem)
                    } else {
                        Err(ParseError::UnexpectedEof)
                    },
                    Err(e) => Err(e),
                }
            },
        }
    }
}

/// The document that a token sequence holds: the value at its first token.
pub open spec fn parse_tokens(ts: Seq<TokenView>) -> Result<Node, ParseError> {
    match value_at(ts, 0) {
        Ok((n, _)) => Ok(n),
        Err(e) => Err(e),
    }
}

/// No span is reversed, every child's span lies within its parent's, and siblings
/// come in source order without overlapping.
pub open spec fn nested(n: Node) -> bool
    decreases n,
{
    node_span(n).start.offset <= node_span(n).end.offset && match n {
        Node::Object { properties, span } => {
            &&& forall|k: int|
                0 <= k < properties.len() ==> within(node_span(#[trigger] properties[k]), span) && nested(
                    properties[k],
                )
            &&& forall|k: int, l: int|
                0 <= k < l < properties.len() ==> node_span(#[trigger] properties[k]).end.offset <= node_span(
                    #[trigger] properties[l],
                ).start.offset
        },
        Node::Property { key, child, span } => within(node_span(*key), span) && within(node_span(*child), span)
            && node_span(*key).end.offset <= node_span(*child).start.offset && nested(*key) && nested(*child),
        Node::Identifier { string, span } => within(node_span(*string), span) && nested(*string),
        Node::Array { items, span } => {
            &&& forall|k: int|
                0 <= k < items.len() ==> within(node_span(#[trigger] items[k]), span) && nested(items[k])
            &&& forall|k: int, l: int|
                0 <= k < l < items.len() ==> node_span(#[trigger] items[k]).end.offset <= node_span(
                    #[trigger] items[l],
                ).start.offset
        },
        _ => true,
    }
}

/// A value read from ordered tokens covers them from its first token to its last,
/// and its spans nest.
pub proof fn lemma_value_nested(ts: Seq<TokenView>, i: int)
    requires
        ordered(ts),
        0 <= i,
        value_at(ts, i) is Ok,
    ensures
        ({
            let (n, j) = value_at(ts, i)->Ok_0;
            &&& i < j <= ts.len()
            &&& nested(n)
            &&& node_span(n).start == ts[i].span.start
            &&& node_span(n).end == ts[j - 1].span.end
        }),
    decreases ts.len() - i, 2int,
{
    if ts[i].kind == Kind::LeftBrace {
        lemma_object_nested(ts, i, ts[i].span, Seq::empty(), ObjectState::Start);
    } else if ts[i].kind == Kind::LeftBracket {
        lemma_array_nested(ts, i, ts[i].span, Seq::empty(), ArrayState::Start);
    } else {
        assert(ts[i].span.start.offset <= ts[i].span.end.offset);
    }
}

/// A property read from ordered tokens covers them from its key to the end of its value,
/// and its spans nest.
pub proof fn lemma_property_nested(ts: Seq<TokenView>, i: int)
    requires
        ordered(ts),
        0 <= i,
        property_at(ts, i) is Ok,
    ensures
        ({
            let (n, j) = property_at(ts, i)->Ok_0;
            &&& i + 2 < j <= ts.len()
            &&& nested(n)
            &&& node_span(n).start == ts[i].span.start
            &&& node_span(n).end == ts[j - 1].span.end
        }),
    decreases ts.len() - i, 0int,
{
    lemma_value_nested(ts, i + 2);
    let (n, j) = property_at(ts, i)->Ok_0;
    assert(ts[i].span.start.offset <= ts[i].span.end.offset);
    assert(ts[i].span.end.offset <= ts[i + 2].span.start.offset);
    assert(ts[i].span.end.offset <= ts[j - 1].span.start.offset);
    assert(ts[j - 1].span.start.offset <= ts[j - 1].span.end.offset);
    if let Node::Property { key, child, span } = n {
        if let Node::Identifier { string, span: key_span } = *key {
            assert(nested(*string));
        }
        assert(nested(*key));
    }
}

/// The object machine, run on ordered tokens from a state whose properties so far nest
/// between the opening brace and token `i`, yields an object whose spans nest.
pub proof fn lemma_object_nested(ts: Seq<TokenView>, i: int, open: Span, props: Seq<Node>, st: ObjectState)
    requires
        ordered(ts),
        0 <= i,
        object_from(ts, i, open, props, st) is Ok,
        st == ObjectState::Start ==> props.len() == 0,
        st != ObjectState::Start ==> {
            &&& open.start.offset <= open.end.offset
            &&& i < ts.len() ==> open.end.offset <= ts[i].span.start.offset
            &&& forall|k: int|
                0 <= k < props.len() ==> nested(#[trigger] props[k]) && open.start.offset <= node_span(props[k]).start.offset
                    && (i < ts.len() ==> node_span(props[k]).end.offset <= ts[i].span.start.offset)
            &&& forall|k: int, l: int|
                0 <= k < l < props.len() ==> node_span(#[trigger] props[k]).end.offset <= node_span(#[trigger] props[l]).start.offset
        },
    ensures
        ({
            let (n, j) = object_from(ts, i, open, props, st)->Ok_0;
            &&& i < j <= ts.len()
            &&& nested(n)
            &&& node_span(n).start == (if st == ObjectState::Start { ts[i].span.start } else { open.start })
            &&& node_span(n).end == ts[j - 1].span.end
        }),
    decreases ts.len() - i, if st == ObjectState::Start { 1int } else { 3int },
{
    assert(ts[i].span.start.offset <= ts[i].span.end.offset);
    if i + 1 < ts.len() {
        assert(ts[i].span.end.offset <= ts[i + 1].span.start.offset);
    }
    match st {
        ObjectState::Start => {
            lemma_object_nested(ts, i + 1, ts[i].span, props, ObjectState::Opened);
        },
        ObjectState::AfterItem => {
            if ts[i].kind == Kind::Comma {
                lemma_object_nested(ts, i + 1, open, props, ObjectState::AfterComma);
            }
        },
        _ => {
            if !(st == ObjectState::Opened && ts[i].kind == Kind::RightBrace) {
                lemma_property_nested(ts, i);
                let (p, j) = property_at(ts, i)->Ok_0;
                if j < ts.len() {
                    assert(ts[j - 1].span.end.offset <= ts[j].span.start.offset);
                    assert(ts[i].span.end.offset <= ts[j].span.start.offset);
                }
                let next = props.push(p);
                assert forall|k: int|
                    0 <= k < next.len() implies nested(#[trigger] next[k]) && open.start.offset <= node_span(next[k]).start.offset
                        && (j < ts.len() ==> node_span(next[k]).end.offset <= ts[j].span.start.offset) by {
                    if k < props.len() {
                        assert(next[k] == props[k]);
                    }
                }
                assert forall|k: int, l: int|
                    0 <= k < l < next.len() implies node_span(#[trigger] next[k]).end.offset <= node_span(#[trigger] next[l]).start.offset by {
                    assert(next[k] == props[k]);
                    if l < props.len() {
                        assert(next[l] == props[l]);
                    }
                }
                lemma_object_nested(ts, j, open, next, ObjectState::AfterItem);
            }
        },
    }
}

/// The array machine, run on ordered tokens from a state whose items so far nest
/// between the opening bracket and token `i`, yields an array whose spans nest.
pub proof fn lemma_array_nested(ts: Seq<TokenView>, i: int, open: Span, items: Seq<Node>, st: ArrayState)
    requires
        ordered(ts),
        0 <= i,
        array_from(ts, i, open, items, st) is Ok,
        st == ArrayState::Start ==> items.len() == 0,
        st != ArrayState::Start ==> {
            &&& open.start.offset <= open.end.offset
            &&& i < ts.len() ==> open.end.offset <= ts[i].span.start.offset
            &&& forall|k: int|
                0 <= k < items.len() ==> nested(#[trigger] items[k]) && open.start.offset <= node_span(items[k]).start.offset
                    && (i < ts.len() ==> node_span(items[k]).end.offset <= ts[i].span.start.offset)
            &&& forall|k: int, l: int|
                0 <= k < l < items.len() ==> node_span(#[trigger] items[k]).end.offset <= node_span(#[trigger] items[l]).start.offset
        },
    ensures
        ({
            let (n, j) = array_from(ts, i, open, items, st)->Ok_0;
            &&& i < j <= ts.len()
            &&& nested(n)
            &&& node_span(n).start == (if st == ArrayState::Start { ts[i].span.start } else { open.start })
            &&& node_span(n).end == ts[j - 1].span.end
        }),
    decreases ts.len() - i, if st == ArrayState::Start { 1int } else { 3int },
{
    assert(ts[i].span.start.offset <= ts[i].span.end.offset);
    if i + 1 < ts.len() {
        assert(ts[i].span.end.offset <= ts[i + 1].span.start.offset);
    }
    match st {
        ArrayState::Start => {
            lemma_array_nested(ts, i + 1, ts[i].span, items, ArrayState::Opened);
        },
        ArrayState::AfterItem => {
            if ts[i].kind == Kind::Comma {
                lemma_array_nested(ts, i + 1, open, items, ArrayState::AfterComma);
            }
        },
        _ => {
            if !(st == ArrayState::Opened && ts[i].kind == Kind::RightBracket) {
                lemma_value_nested(ts, i);
                let (v, j) = value_at(ts, i)->Ok_0;
                if j < ts.len() {
                    assert(ts[j - 1].span.end.offset <= ts[j].span.start.offset);
                    assert(ts[i].span.end.offset <= ts[j].span.start.offset);
                }
                let next = items.push(v);
                assert forall|k: int|
                    0 <= k < next.len() implies nested(#[trigger] next[k]) && open.start.offset <= node_span(next[k]).start.offset
                        && (j < ts.len() ==> node_span(next[k]).end.offset <= ts[j].span.start.offset) by {
                    if k < items.len() {
                        assert(next[k] == items[k]);
                    }
                }
                assert forall|k: int, l: int|
                    0 <= k < l < next.len() implies node_span(#[trigger] next[k]).end.offset <= node_span(#[trigger] next[l]).start.offset by {
                    assert(next[k] == items[k]);
                    if l < items.len() {
                        assert(next[l] == items[l]);
                    }
                }
                lemma_array_nested(ts, j, open, next, ArrayState::AfterItem);
            }
        },
    }
}

/// `r` is what `expected` describes, and the parser stands at `at` after a success.
pub open spec fn agrees(r: Result<Ast, ParseError>, at: int, expected: Result<(Node, int), ParseError>) -> bool {
    match expected {
        Ok((n, j)) => r is Ok && r->Ok_0.node() == n && at == j,
        Err(e) => r == Err::<Ast, ParseError>(e),
    }
}

fn error_token(token: &Token) -> (r: ParseError)
    ensures
        r == unexpected(token@),
{
    ParseError::UnexpectedToken { kind: token.kind(), span: *token.get_span() }
}

/// A recursive-descent parser with one forward cursor over a token sequence.
pub struct Parser<'a> {
    tokens: &'a [Token],
    index: usize,
}

impl<'a> Parser<'a> {
    /// The views of the tokens.
    pub closed spec fn tokens(&self) -> Seq<TokenView> {
        views(self.tokens@)
    }

    /// The index of the next token.
    pub closed spec fn index(&self) -> int {
        self.index as int
    }

    pub closed spec fn wf(&self) -> bool {
        self.index <= self.tokens@.len()
    }

    pub fn new(tokens: &'a [Token]) -> (r: Self)
        ensures
            r.wf(),
            r.tokens() == views(tokens@),
            r.index() == 0,
    {
        Parser { tokens, index: 0 }
    }

    /// Parses one value from the current token on.
    pub fn parse(&mut self) -> (r: Result<Ast, ParseError>)
        requires
            old(self).wf(),
        ensures
            final(self).wf(),
            final(self).tokens() == old(self).tokens(),
            agrees(r, final(self).index(), value_at(old(self).tokens(), old(self).index())),
    {
        self.parse_value()
    }

    fn parse_value(&mut self) -> (r: Result<Ast, ParseError>)
        requires
            old(self).wf(),
        ensures
            final(self).wf(),
            final(self).tokens@ == old(self).tokens@,
            agrees(r, final(self).index(), value_at(old(self).tokens(), old(self).index())),
            r is Ok ==> final(self).index > old(self).index,
        decreases old(self).tokens@.len() - old(self).index, 2int,
    {
        let tokens = self.tokens;
        if self.index >= tokens.len() {
            return Err(ParseError::UnexpectedEof);
        }
        let token = &tokens[self.index];
        match token {
            Token::LeftBrace(_) => self.parse_object(),
            Token::LeftBracket(_) => self.parse_array(),
            _ => self.parse_literal(),
        }
    }

    fn parse_literal(&mut self) -> (r: Result<Ast, ParseError>)
        requires
            old(self).wf(),
            old(self).index < old(self).tokens@.len(),
        ensures
            final(self).wf(),
            final(self).tokens@ == old(self).tokens@,
            match literal_node(old(self).tokens()[old(self).index()]) {
                Ok(n) => r is Ok && r->Ok_0.node() == n && final(self).index == old(self).index + 1,
                Err(e) => r == Err::<Ast, ParseError>(e) && final(self).index == old(self).index,
            },
    {
        let tokens = self.tokens;
        let token = &tokens[self.index];
        let r = match token {
            Token::String(t) => match parse_string(t.value.as_str()) {
                Ok(value) => Ast::String(StringAst { value, span: t.span }),
                Err(e) => {
                    return Err(e);
                },
            },
            Token::Number(t) => Ast::Number(NumberAst { value: t.value.clone(), span: t.span }),
            Token::Boolean(t) => Ast::Boolean(BoolAst { value: t.value, span: t.span }),
            Token::Null(t) => Ast::Null(NullAst { span: t.span }),
            _ => {
                return Err(error_token(token));
            },
        };
        self.index = self.index + 1;
        Ok(r)
    }

    fn parse_object(&mut self) -> (r: Result<Ast, ParseError>)
        requires
            old(self).wf(),
            old(self).index < old(self).tokens@.len(),
        ensures
            final(self).wf(),
            final(self).tokens@ == old(self).tokens@,
            agrees(
                r,
                final(self).index(),
                object_from(old(self).tokens(), old(self).index(), old(self).tokens()[old(self).index()].span, Seq::empty(), ObjectState::Start),
            ),
            r is Ok ==> final(self).index > old(self).index,
        decreases old(self).tokens@.len() - old(self).index, 1int,
    {
        let ghost ts = self.tokens();
        let ghost i0 = self.index();
        let ghost expected = object_from(ts, i0, ts[i0].span, Seq::empty(), ObjectState::Start);
        let tokens = self.tokens;
        let mut state = ObjectState::Start;
        let mut open: Option<Span> = None;
        let mut props: Vec<PropertyAst> = Vec::new();
        assert(prop_nodes(props@) =~= Seq::<Node>::empty());
        while self.index < tokens.len()
            invariant
                self.wf(),
                self.tokens@ == tokens@,
                tokens@ == old(self).tokens@,
                i0 == old(self).index(),
                ts == views(tokens@),
                i0 < ts.len(),
                expected == object_from(ts, i0, ts[i0].span, Seq::empty(), ObjectState::Start),
                state == ObjectState::Start <==> open is None,
                state == ObjectState::Start ==> self.index == i0 && props@.len() == 0,
                state != ObjectState::Start ==> self.index > i0,
                expected == object_from(
                    ts,
                    self.index(),
                    match open {
                        Some(sp) => sp,
                        None => ts[i0].span,
                    },
                    prop_nodes(props@),
                    state,
                ),
            decreases tokens@.len() - self.index,
        {
            let token = &tokens[self.index];
            match state {
                ObjectState::Start => match token {
                    Token::LeftBrace(t) => {
                        open = Some(t.span);
                        state = ObjectState::Opened;
                        self.index = self.index + 1;
                    },
                    _ => {
                        return Err(error_token(token));
                    },
                },
                ObjectState::AfterItem => match token {
                    Token::Comma(_) => {
                        state = ObjectState::AfterComma;
                        self.index = self.index + 1;
                    },
                    Token::RightBrace(t) => {
                        self.index = self.index + 1;
                        let span = open.unwrap().join(&t.span);
                        let object = ObjectAst { value: props, span };
                        proof {
                            lemma_object_node(object);
                        }
                        return Ok(Ast::Object(object));
                    },
                    _ => {
                        return Err(error_token(token));
                    },
                },
                _ => {
                    if let Token::RightBrace(t) = token {
                        if matches!(state, ObjectState::Opened) {
                            self.index = self.index + 1;
                            let span = open.unwrap().join(&t.span);
                            let object = ObjectAst { value: props, span };
                            proof {
                                lemma_object_node(object);
                            }
                            return Ok(Ast::Object(object));
                        }
                    }
                    match self.parse_property() {
                        Ok(property) => {
                            let ghost before = prop_nodes(props@);
                            props.push(property);
                            assert(prop_nodes(props@) =~= before.push(property.node()));
                            state = ObjectState::AfterItem;
                        },
                        Err(e) => {
                            return Err(e);
                        },
                    }
                },
            }
        }
        Err(ParseError::UnexpectedEof)
    }

    fn parse_property(&mut self) -> (r: Result<PropertyAst, ParseError>)
        requires
            old(self).wf(),
        ensures
            final(self).wf(),
            final(self).tokens@ == old(self).tokens@,
            match property_at(old(self).tokens(), old(self).index()) {
                Ok((n, j)) => r is Ok && r->Ok_0.node() == n && final(self).index() == j,
                Err(e) => r == Err::<PropertyAst, ParseError>(e),
            },
            r is Ok ==> final(self).index > old(self).index,
        decreases old(self).tokens@.len() - old(self).index, 0int,
    {
        let ghost ts = self.tokens();
        let ghost i0 = self.index();
        let tokens = self.tokens;
        let mut state = PropertyState::Start;
        let mut key: Option<IdentifierAst> = None;
        while self.index < tokens.len()
            invariant
                self.wf(),
                self.tokens@ == tokens@,
                tokens@ == old(self).tokens@,
                i0 == old(self).index(),
                ts == views(tokens@),
                0 <= i0 <= ts.len(),
                state == PropertyState::Start ==> self.index == i0,
                state != PropertyState::Start ==> {
                    &&& key is Some
                    &&& ts[i0].kind == Kind::Str
                    &&& string_value(ts[i0].text) is Ok
                    &&& key->0.node() == Node::Identifier {
                        string: Box::new(Node::Str { text: string_value(ts[i0].text)->Ok_0, span: ts[i0].span }),
                        span: ts[i0].span,
                    }
                    &&& key->0.span == ts[i0].span
                },
                state == PropertyState::Key ==> self.index == i0 + 1,
                state == PropertyState::Colon ==> self.index == i0 + 2 && ts[i0 + 1].kind == Kind::Colon,
            decreases tokens@.len() - self.index,
        {
            let token = &tokens[self.index];
            match state {
                PropertyState::Start => match token {
                    Token::String(t) => {
                        match parse_string(t.value.as_str()) {
                            Ok(value) => {
                                key = Some(IdentifierAst { value: StringAst { value, span: t.span }, span: t.span });
                                state = PropertyState::Key;
                                self.index = self.index + 1;
                            },
                            Err(e) => {
                                return Err(e);
                            },
                        }
                    },
                    _ => {
                        return Err(error_token(token));
                    },
                },
                PropertyState::Key => match token {
                    Token::Colon(_) => {
                        state = PropertyState::Colon;
                        self.index = self.index + 1;
                    },
                    _ => {
                        return Err(error_token(token));
                    },
                },
                PropertyState::Colon => {
                    let value = match self.parse_value() {
                        Ok(v) => v,
                        Err(e) => {
                            return Err(e);
                        },
                    };
                    let key = key.unwrap();
                    let span = key.span.join(value.get_span());
                    return Ok(PropertyAst { key, value: Box::new(value), span });
                },
            }
        }
        Err(ParseError::UnexpectedEof)
    }

    fn parse_array(&mut self) -> (r: Result<Ast, ParseError>)
        requires
            old(self).wf(),
            old(self).index < old(self).tokens@.len(),
        ensures
            final(self).wf(),
            final(self).tokens@ == old(self).tokens@,
            agrees(
                r,
                final(self).index(),
                array_from(old(self).tokens(), old(self).index(), old(self).tokens()[old(self).index()].span, Seq::empty(), ArrayState::Start),
            ),
            r is Ok ==> final(self).index > old(self).index,
        decreases old(self).tokens@.len() - old(self).index, 1int,
    {
        let ghost ts = self.tokens();
        let ghost i0 = self.index();
        let ghost expected = array_from(ts, i0, ts[i0].span, Seq::empty(), ArrayState::Start);
        let tokens = self.tokens;
        let mut state = ArrayState::Start;
        let mut open: Option<Span> = None;
        let mut items: Vec<Box<Ast>> = Vec::new();
        assert(item_nodes(items@) =~= Seq::<Node>::empty());
        while self.index < tokens.len()
            invariant
                self.wf(),
                self.tokens@ == tokens@,
                tokens@ == old(self).tokens@,
                i0 == old(self).index(),
                ts == views(tokens@),
                i0 < ts.len(),
                expected == array_from(ts, i0, ts[i0].span, Seq::empty(), ArrayState::Start),
                state == ArrayState::Start <==> open is None,
                state == ArrayState::Start ==> self.index == i0 && items@.len() == 0,
                state != ArrayState::Start ==> self.index > i0,
                expected == array_from(
                    ts,
                    self.index(),
                    match open {
                        Some(sp) => sp,
                        None => ts[i0].span,
                    },
                    item_nodes(items@),
                    state,
                ),
            decreases tokens@.len() - self.index,
        {
            let token = &tokens[self.index];
            match state {
                ArrayState::Start => match token {
                    Token::LeftBracket(t) => {
                        open = Some(t.span);
                        state = ArrayState::Opened;
                        self.index = self.index + 1;
                    },
                    _ => {
                        return Err(error_token(token));
                    },
                },
                ArrayState::AfterItem => match token {
                    Token::Comma(_) => {
                        state = ArrayState::AfterComma;
                        self.index = self.index + 1;
                    },
                    Token::RightBracket(t) => {
                        self.index = self.index + 1;
                        let span = open.unwrap().join(&t.span);
                        let array = ArrayAst { value: items, span };
                        proof {
                            lemma_array_node(array);
                        }
                        return Ok(Ast::Array(array));
                    },
                    _ => {
                        return Err(error_token(token));
                    },
                },
                _ => {
                    if let Token::RightBracket(t) = token {
                        if matches!(state, ArrayState::Opened) {
                            self.index = self.index + 1;
                            let span = open.unwrap().join(&t.span);
                            let array = ArrayAst { value: items, span };
                            proof {
                                lemma_array_node(array);
                            }
                            return Ok(Ast::Array(array));
                        }
                    }
                    match self.parse_value() {
                        Ok(value) => {
                            let ghost before = item_nodes(items@);
                            let ghost n = value.node();
                            items.push(Box::new(value));
                            assert(item_nodes(items@) =~= before.push(n));
                            state = ArrayState::AfterItem;
                        },
                        Err(e) => {
                            return Err(e);
                        },
                    }
                },
            }
        }
        Err(ParseError::UnexpectedEof)
    }
}

} // verus!
