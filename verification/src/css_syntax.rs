//! CSS source text as the tokenizer reads it, and how it becomes the
//! flat token list of the host's style engine.
//!
//! The tokenizer yields plain tokens and nested blocks (function arguments,
//! parentheses, brackets, braces). A block becomes its opening token, the
//! tokens of its contents, and its closing token.

use vstd::prelude::*;
use vstd::string::{StrSliceExecFns, StringExecFns};
use crate::css::{
    encode_error, encode_token_stream, encoded_stream, Token, TokenStreamError, AT_KEYWORD_TOKEN,
    BAD_STRING_TOKEN, BAD_URL_TOKEN, CDC_TOKEN, CDO_TOKEN, COLON_TOKEN, COMMA_TOKEN,
    COMMENT_TOKEN, DELIM_TOKEN, DIMENSION_TOKEN, FUNCTION_TOKEN, HASH_TOKEN, IDENT_TOKEN,
    LEFT_CURLY_BRACKET_TOKEN, LEFT_PARENTHESES_TOKEN, LEFT_SQUARE_BRACKET_TOKEN, NUMBER_TOKEN,
    PERCENTAGE_TOKEN, RIGHT_CURLY_BRACKET_TOKEN, RIGHT_PARENTHESES_TOKEN,
    RIGHT_SQUARE_BRACKET_TOKEN, SEMICOLON_TOKEN, STRING_TOKEN, URL_TOKEN, WHITESPACE_TOKEN,
};
use crate::key::{decimal, decimal_string, signed_decimal, signed_decimal_string};
use vstd::utf8::{decode_utf8, encode_utf8, encode_utf8_decode_utf8, is_char_boundary};

verus! {

/// One token of CSS source that opens no block.
///
/// Numeric tokens carry the tokenizer's text of their value (for a
/// percentage, of the value times a hundred) and their integer value when
/// the source wrote an integer.
pub enum CssTokenView {
    Ident(String),
    AtKeyword(String),
    Hash(String),
    IDHash(String),
    QuotedString(String),
    UnquotedUrl(String),
    Delim(String),
    Number { has_sign: bool, value_text: String, int_value: Option<i32> },
    Percentage { has_sign: bool, value_text: String, int_value: Option<i32> },
    Dimension { has_sign: bool, value_text: String, int_value: Option<i32>, unit: String },
    WhiteSpace(String),
    Comment(String),
    Colon,
    Semicolon,
    Comma,
    IncludeMatch,
    DashMatch,
    PrefixMatch,
    SuffixMatch,
    SubstringMatch,
    CDO,
    CDC,
    BadUrl(String),
    BadString(String),
    CloseParenthesis,
    CloseSquareBracket,
    CloseCurlyBracket,
}

/// The kind of a nested block.
pub enum BlockKind {
    /// The arguments of a function with this name.
    Function(String),
    Parenthesis,
    SquareBracket,
    CurlyBracket,
}

/// A token or a nested block of CSS source.
pub enum CssNode {
    Token(CssTokenView),
    Block { kind: BlockKind, children: Vec<CssNode> },
}

/// A host token as its type id and its text.
pub open spec fn token_view(t: Token) -> (u8, Seq<char>) {
    (t.token_type, t.value@)
}

/// Host tokens as type ids and texts.
pub open spec fn tokens_view(ts: Seq<Token>) -> Seq<(u8, Seq<char>)> {
    ts.map_values(|t: Token| token_view(t))
}

/// The text of a number: its integer value when it has one, else the
/// tokenizer's text; with a `+` in front when the source wrote a sign and
/// the text starts with neither `+` nor `-`.
pub open spec fn number_text_spec(has_sign: bool, value_text: Seq<char>, int_value: Option<i32>) -> Seq<
    char,
> {
    let t = match int_value {
        Some(i) => signed_decimal(i as int),
        None => value_text,
    };
    if has_sign && !(t.len() > 0 && (t[0] == '-' || t[0] == '+')) {
        seq!['+'] + t
    } else {
        t
    }
}

/// The host token of a source token.
pub open spec fn token_spec(t: CssTokenView) -> (u8, Seq<char>) {
    match t {
        CssTokenView::Ident(v) => (IDENT_TOKEN, v@),
        CssTokenView::AtKeyword(v) => (AT_KEYWORD_TOKEN, v@),
        CssTokenView::Hash(v) => (HASH_TOKEN, v@),
        CssTokenView::IDHash(v) => (HASH_TOKEN, v@),
        CssTokenView::QuotedString(v) => (STRING_TOKEN, v@),
        CssTokenView::UnquotedUrl(v) => (URL_TOKEN, v@),
        CssTokenView::Delim(v) => (DELIM_TOKEN, v@),
        CssTokenView::Number { has_sign, value_text, int_value } => (
            NUMBER_TOKEN,
            number_text_spec(has_sign, value_text@, int_value),
        ),
        CssTokenView::Percentage { has_sign, value_text, int_value } => (
            PERCENTAGE_TOKEN,
            number_text_spec(has_sign, value_text@, int_value),
        ),
        CssTokenView::Dimension { has_sign, value_text, int_value, unit } => (
            DIMENSION_TOKEN,
            number_text_spec(has_sign, value_text@, int_value) + unit@,
        ),
        CssTokenView::WhiteSpace(v) => (WHITESPACE_TOKEN, v@),
        CssTokenView::Comment(v) => (COMMENT_TOKEN, v@),
        CssTokenView::Colon => (COLON_TOKEN, ":"@),
        CssTokenView::Semicolon => (SEMICOLON_TOKEN, ";"@),
        CssTokenView::Comma => (COMMA_TOKEN, ","@),
        CssTokenView::IncludeMatch => (DELIM_TOKEN, "~="@),
        CssTokenView::DashMatch => (DELIM_TOKEN, "|="@),
        CssTokenView::PrefixMatch => (DELIM_TOKEN, "^="@),
        CssTokenView::SuffixMatch => (DELIM_TOKEN, "$="@),
        CssTokenView::SubstringMatch => (DELIM_TOKEN, "*="@),
        CssTokenView::CDO => (CDO_TOKEN, "<!--"@),
        CssTokenView::CDC => (CDC_TOKEN, "-->"@),
        CssTokenView::BadUrl(v) => (BAD_URL_TOKEN, v@),
        CssTokenView::BadString(v) => (BAD_STRING_TOKEN, v@),
        CssTokenView::CloseParenthesis => (RIGHT_PARENTHESES_TOKEN, ")"@),
        CssTokenView::CloseSquareBracket => (RIGHT_SQUARE_BRACKET_TOKEN, "]"@),
        CssTokenView::CloseCurlyBracket => (RIGHT_CURLY_BRACKET_TOKEN, "}"@),
    }
}

/// The tokens that the tokenizer reports as parse errors: bad strings and
/// urls, and closing brackets without an opening one.
pub open spec fn is_parse_error_spec(t: CssTokenView) -> bool {
    match t {
        CssTokenView::BadUrl(_) | CssTokenView::BadString(_) | CssTokenView::CloseParenthesis
        | CssTokenView::CloseSquareBracket | CssTokenView::CloseCurlyBracket => true,
        _ => false,
    }
}

/// The opening host token of a block.
pub open spec fn open_token(k: BlockKind) -> (u8, Seq<char>) {
    match k {
        BlockKind::Function(name) => (FUNCTION_TOKEN, name@),
        BlockKind::Parenthesis => (LEFT_PARENTHESES_TOKEN, "("@),
        BlockKind::SquareBracket => (LEFT_SQUARE_BRACKET_TOKEN, "["@),
        BlockKind::CurlyBracket => (LEFT_CURLY_BRACKET_TOKEN, "{"@),
    }
}

/// The closing host token of a block; function arguments close with `)`.
pub open spec fn close_token(k: BlockKind) -> (u8, Seq<char>) {
    match k {
        BlockKind::Function(_) => (RIGHT_PARENTHESES_TOKEN, ")"@),
        BlockKind::Parenthesis => (RIGHT_PARENTHESES_TOKEN, ")"@),
        BlockKind::SquareBracket => (RIGHT_SQUARE_BRACKET_TOKEN, "]"@),
        BlockKind::CurlyBracket => (RIGHT_CURLY_BRACKET_TOKEN, "}"@),
    }
}

/// The host tokens of a sequence of source nodes, in source order.
pub open spec fn nodes_tokens(ns: Seq<CssNode>) -> Seq<(u8, Seq<char>)>
    decreases ns,
{
    if ns.len() == 0 {
        Seq::empty()
    } else {
        let last = ns[ns.len() - 1];
        let head = nodes_tokens(ns.subrange(0, ns.len() - 1));
        match last {
            CssNode::Token(t) => head.push(token_spec(t)),
            CssNode::Block { kind, children } => {
                proof {
                    assert(decreases_to!(ns => ns[ns.len() - 1]));
                }
                head + seq![open_token(kind)] + nodes_tokens(children@) + seq![close_token(kind)]
            },
        }
    }
}

/// The first token of the nodes, in source order and at any depth, that
/// the tokenizer reports as a parse error.
pub open spec fn first_parse_error(ns: Seq<CssNode>) -> Option<CssTokenView>
    decreases ns,
{
    if ns.len() == 0 {
        None
    } else {
        let last = ns[ns.len() - 1];
        match first_parse_error(ns.subrange(0, ns.len() - 1)) {
            Some(t) => Some(t),
            None => match last {
                CssNode::Token(t) => if is_parse_error_spec(t) {
                    Some(t)
                } else {
                    None
                },
                CssNode::Block { kind, children } => {
                    proof {
                        assert(decreases_to!(ns => ns[ns.len() - 1]));
                    }
                    first_parse_error(children@)
                },
            },
        }
    }
}

/// A parse error among the first `k` nodes is the first of all of them.
proof fn lemma_first_parse_error_prefix(ns: Seq<CssNode>, k: int)
    requires
        0 <= k <= ns.len(),
        first_parse_error(ns.subrange(0, k)) is Some,
    ensures
        first_parse_error(ns) == first_parse_error(ns.subrange(0, k)),
    decreases ns.len(),
{
    if k == ns.len() {
        assert(ns.subrange(0, k) =~= ns);
    } else {
        let pre = ns.subrange(0, ns.len() - 1);
        assert(pre.subrange(0, k) =~= ns.subrange(0, k));
        lemma_first_parse_error_prefix(pre, k);
    }
}

/// True when the tokenizer reports the token as a parse error.
pub fn is_parse_error(t: &CssTokenView) -> (r: bool)
    ensures
        r == is_parse_error_spec(*t),
{
    match t {
        CssTokenView::BadUrl(_) | CssTokenView::BadString(_) | CssTokenView::CloseParenthesis
        | CssTokenView::CloseSquareBracket | CssTokenView::CloseCurlyBracket => true,
        _ => false,
    }
}

/// The text of a number token (see [`number_text_spec`]).
pub fn number_text(has_sign: bool, value_text: &str, int_value: Option<i32>) -> (s: String)
    ensures
        s@ == number_text_spec(has_sign, value_text@, int_value),
{
    let text = match int_value {
        Some(i) => signed_decimal_string(i as i128),
        None => String::from_str(value_text),
    };
    let signed = text.as_str().unicode_len() > 0 && {
        let c = text.as_str().get_char(0);
        c == '-' || c == '+'
    };
    if has_sign && !signed {
        proof {
            reveal_strlit("+");
        }
        let plus = String::from_str("+");
        plus.concat(text.as_str())
    } else {
        text
    }
}

/// What kind of host token each kind of source token becomes: every hash
/// token, ID hash or not, and only those, becomes a hash token; each other
/// kind of source token has its own host type, except the match operators,
/// which travel as delimiters.
pub proof fn lemma_token_types(t: CssTokenView)
    ensures
        token_spec(t).0 == HASH_TOKEN <==> (t is Hash || t is IDHash),
        token_spec(t).0 == IDENT_TOKEN <==> t is Ident,
        token_spec(t).0 == AT_KEYWORD_TOKEN <==> t is AtKeyword,
        token_spec(t).0 == STRING_TOKEN <==> t is QuotedString,
        token_spec(t).0 == URL_TOKEN <==> t is UnquotedUrl,
        token_spec(t).0 == NUMBER_TOKEN <==> t is Number,
        token_spec(t).0 == PERCENTAGE_TOKEN <==> t is Percentage,
        token_spec(t).0 == DIMENSION_TOKEN <==> t is Dimension,
        token_spec(t).0 == WHITESPACE_TOKEN <==> t is WhiteSpace,
        token_spec(t).0 == COMMENT_TOKEN <==> t is Comment,
        token_spec(t).0 == COLON_TOKEN <==> t is Colon,
        token_spec(t).0 == SEMICOLON_TOKEN <==> t is Semicolon,
        token_spec(t).0 == COMMA_TOKEN <==> t is Comma,
        token_spec(t).0 == CDO_TOKEN <==> t is CDO,
        token_spec(t).0 == CDC_TOKEN <==> t is CDC,
        token_spec(t).0 == BAD_URL_TOKEN <==> t is BadUrl,
        token_spec(t).0 == BAD_STRING_TOKEN <==> t is BadString,
        token_spec(t).0 == RIGHT_PARENTHESES_TOKEN <==> t is CloseParenthesis,
        token_spec(t).0 == RIGHT_SQUARE_BRACKET_TOKEN <==> t is CloseSquareBracket,
        token_spec(t).0 == RIGHT_CURLY_BRACKET_TOKEN <==> t is CloseCurlyBracket,
        token_spec(t).0 == DELIM_TOKEN <==> (t is Delim || t is IncludeMatch || t is DashMatch
            || t is PrefixMatch || t is SuffixMatch || t is SubstringMatch),
{
}

/// A source token that carries text hands its text to the host unchanged.
pub proof fn lemma_token_text(t: CssTokenView)
    ensures
        t matches CssTokenView::Ident(v) ==> token_spec(t).1 == v@,
        t matches CssTokenView::AtKeyword(v) ==> token_spec(t).1 == v@,
        t matches CssTokenView::Hash(v) ==> token_spec(t).1 == v@,
        t matches CssTokenView::IDHash(v) ==> token_spec(t).1 == v@,
        t matches CssTokenView::QuotedString(v) ==> token_spec(t).1 == v@,
        t matches CssTokenView::UnquotedUrl(v) ==> token_spec(t).1 == v@,
        t matches CssTokenView::Delim(v) ==> token_spec(t).1 == v@,
        t matches CssTokenView::WhiteSpace(v) ==> token_spec(t).1 == v@,
        t matches CssTokenView::Comment(v) ==> token_spec(t).1 == v@,
        t matches CssTokenView::BadUrl(v) ==> token_spec(t).1 == v@,
        t matches CssTokenView::BadString(v) ==> token_spec(t).1 == v@,
{
}

/// The host token of a source token that opens no block.
pub fn token_to_spec(t: &CssTokenView) -> (r: Token)
    ensures
        token_view(r) == token_spec(*t),
{
    match t {
        CssTokenView::Ident(v) => Token::new(IDENT_TOKEN, v.as_str()),
        CssTokenView::AtKeyword(v) => Token::new(AT_KEYWORD_TOKEN, v.as_str()),
        CssTokenView::Hash(v) | CssTokenView::IDHash(v) => Token::new(HASH_TOKEN, v.as_str()),
        CssTokenView::QuotedString(v) => Token::new(STRING_TOKEN, v.as_str()),
        CssTokenView::UnquotedUrl(v) => Token::new(URL_TOKEN, v.as_str()),
        CssTokenView::Delim(v) => Token::new(DELIM_TOKEN, v.as_str()),
        CssTokenView::Number { has_sign, value_text, int_value } => Token {
            token_type: NUMBER_TOKEN,
            value: number_text(*has_sign, value_text.as_str(), *int_value),
        },
        CssTokenView::Percentage { has_sign, value_text, int_value } => Token {
            token_type: PERCENTAGE_TOKEN,
            value: number_text(*has_sign, value_text.as_str(), *int_value),
        },
        CssTokenView::Dimension { has_sign, value_text, int_value, unit } => {
            let mut text = number_text(*has_sign, value_text.as_str(), *int_value);
            text.append(unit.as_str());
            Token { token_type: DIMENSION_TOKEN, value: text }
        },
        CssTokenView::WhiteSpace(v) => Token::new(WHITESPACE_TOKEN, v.as_str()),
        CssTokenView::Comment(v) => Token::new(COMMENT_TOKEN, v.as_str()),
        CssTokenView::Colon => Token::new(COLON_TOKEN, ":"),
        CssTokenView::Semicolon => Token::new(SEMICOLON_TOKEN, ";"),
        CssTokenView::Comma => Token::new(COMMA_TOKEN, ","),
        CssTokenView::IncludeMatch => Token::new(DELIM_TOKEN, "~="),
        CssTokenView::DashMatch => Token::new(DELIM_TOKEN, "|="),
        CssTokenView::PrefixMatch => Token::new(DELIM_TOKEN, "^="),
        CssTokenView::SuffixMatch => Token::new(DELIM_TOKEN, "$="),
        CssTokenView::SubstringMatch => Token::new(DELIM_TOKEN, "*="),
        CssTokenView::CDO => Token::new(CDO_TOKEN, "<!--"),
        CssTokenView::CDC => Token::new(CDC_TOKEN, "-->"),
        CssTokenView::BadUrl(v) => Token::new(BAD_URL_TOKEN, v.as_str()),
        CssTokenView::BadString(v) => Token::new(BAD_STRING_TOKEN, v.as_str()),
        CssTokenView::CloseParenthesis => Token::new(RIGHT_PARENTHESES_TOKEN, ")"),
        CssTokenView::CloseSquareBracket => Token::new(RIGHT_SQUARE_BRACKET_TOKEN, "]"),
        CssTokenView::CloseCurlyBracket => Token::new(RIGHT_CURLY_BRACKET_TOKEN, "}"),
    }
}

fn open_block_token(k: &BlockKind) -> (r: Token)
    ensures
        token_view(r) == open_token(*k),
{
    match k {
        BlockKind::Function(name) => Token::new(FUNCTION_TOKEN, name.as_str()),
        BlockKind::Parenthesis => Token::new(LEFT_PARENTHESES_TOKEN, "("),
        BlockKind::SquareBracket => Token::new(LEFT_SQUARE_BRACKET_TOKEN, "["),
        BlockKind::CurlyBracket => Token::new(LEFT_CURLY_BRACKET_TOKEN, "{"),
    }
}

fn close_block_token(k: &BlockKind) -> (r: Token)
    ensures
        token_view(r) == close_token(*k),
{
    match k {
        BlockKind::Function(_) | BlockKind::Parenthesis => Token::new(RIGHT_PARENTHESES_TOKEN, ")"),
        BlockKind::SquareBracket => Token::new(RIGHT_SQUARE_BRACKET_TOKEN, "]"),
        BlockKind::CurlyBracket => Token::new(RIGHT_CURLY_BRACKET_TOKEN, "}"),
    }
}

/// Appends the host tokens of the nodes to `tokens`: each token as itself,
/// each block as its opening token, its contents and its closing token.
pub fn collect_tokens(nodes: &Vec<CssNode>, tokens: &mut Vec<Token>) -> (r: Result<(), Token>)
    ensures
        match first_parse_error(nodes@) {
            None => r is Ok && tokens_view(final(tokens)@) == tokens_view(old(tokens)@) + nodes_tokens(
                nodes@,
            ),
            Some(t) => r matches Err(tok) && token_view(tok) == token_spec(t),
        },
    decreases nodes@,
{
    let ghost start = tokens_view(tokens@);
    let mut i: usize = 0;
    while i < nodes.len()
        invariant
            i <= nodes@.len(),
            tokens_view(tokens@) == start + nodes_tokens(nodes@.subrange(0, i as int)),
            first_parse_error(nodes@.subrange(0, i as int)) is None,
        decreases nodes.len() - i,
    {
        let ghost before = tokens_view(tokens@);
        proof {
            let pre = nodes@.subrange(0, i + 1);
            assert(pre.subrange(0, pre.len() - 1) =~= nodes@.subrange(0, i as int));
            assert(pre[pre.len() - 1] == nodes@[i as int]);
        }
        match &nodes[i] {
            CssNode::Token(t) => {
                if is_parse_error(t) {
                    proof {
                        lemma_first_parse_error_prefix(nodes@, i + 1);
                    }
                    return Err(token_to_spec(t));
                }
                let tok = token_to_spec(t);
                tokens.push(tok);
                proof {
                    assert(tokens_view(tokens@) =~= before.push(token_view(tok)));
                }
            },
            CssNode::Block { kind, children } => {
                let open = open_block_token(kind);
                tokens.push(open);
                proof {
                    assert(tokens_view(tokens@) =~= before.push(token_view(open)));
                    assert(decreases_to!(nodes@ => nodes@[i as int]));
                }
                let ghost mid = tokens_view(tokens@);
                match collect_tokens(children, tokens) {
                    Ok(()) => {},
                    Err(tok) => {
                        proof {
                            lemma_first_parse_error_prefix(nodes@, i + 1);
                        }
                        return Err(tok);
                    },
                }
                let ghost inner = tokens_view(tokens@);
                let close = close_block_token(kind);
                tokens.push(close);
                proof {
                    assert(tokens_view(tokens@) =~= inner.push(token_view(close)));
                    assert(tokens_view(tokens@) =~= before + seq![open_token(*kind)] + nodes_tokens(
                        children@,
                    ) + seq![close_token(*kind)]);
                }
            },
        }
        i = i + 1;
    }
    proof {
        assert(nodes@.subrange(0, nodes@.len() as int) =~= nodes@);
    }
    Ok(())
}

/// Why CSS source has no host token stream.
#[derive(Debug)]
pub enum CssSourceError {
    /// A token the tokenizer reports as a parse error, as a host token.
    InvalidToken(Token),
    /// The tokens do not fit the stream's 32-bit fields.
    Encode(TokenStreamError),
}

/// The host token stream of CSS source: its tokens, encoded; the first
/// token that is a parse error refuses the source.
pub fn css_token_stream(nodes: &Vec<CssNode>) -> (r: Result<Vec<u8>, CssSourceError>)
    ensures
        match first_parse_error(nodes@) {
            Some(t) => r matches Err(CssSourceError::InvalidToken(tok)) && token_view(tok) == token_spec(
                t,
            ),
            None => exists|ts: Seq<Token>|
                #![trigger tokens_view(ts)]
                tokens_view(ts) == nodes_tokens(nodes@) && match r {
                    Ok(bytes) => encode_error(ts) is None && bytes@ == encoded_stream(ts),
                    Err(CssSourceError::Encode(e)) => encode_error(ts) == Some(e),
                    Err(CssSourceError::InvalidToken(_)) => false,
                },
        },
{
    let mut tokens: Vec<Token> = Vec::new();
    proof {
        assert(tokens_view(tokens@) =~= Seq::<(u8, Seq<char>)>::empty());
    }
    match collect_tokens(nodes, &mut tokens) {
        Ok(()) => {},
        Err(tok) => {
            return Err(CssSourceError::InvalidToken(tok));
        },
    }
    proof {
        assert(tokens_view(tokens@) =~= nodes_tokens(nodes@));
    }
    match encode_token_stream(tokens.as_slice()) {
        Ok(bytes) => Ok(bytes),
        Err(e) => Err(CssSourceError::Encode(e)),
    }
}

/// A Unicode `White_Space` character, the whitespace `str::trim` strips.
pub open spec fn is_white_space(c: char) -> bool {
    let u = c as u32;
    ||| 0x9 <= u <= 0xD
    ||| u == 0x20
    ||| u == 0x85
    ||| u == 0xA0
    ||| u == 0x1680
    ||| 0x2000 <= u <= 0x200A
    ||| u == 0x2028
    ||| u == 0x2029
    ||| u == 0x202F
    ||| u == 0x205F
    ||| u == 0x3000
}

/// The text without its leading whitespace.
pub open spec fn trim_start_spec(s: Seq<char>) -> Seq<char>
    decreases s.len(),
{
    if s.len() > 0 && is_white_space(s[0]) {
        trim_start_spec(s.drop_first())
    } else {
        s
    }
}

/// The text without its trailing whitespace.
pub open spec fn trim_end_spec(s: Seq<char>) -> Seq<char>
    decreases s.len(),
{
    if s.len() > 0 && is_white_space(s.last()) {
        trim_end_spec(s.drop_last())
    } else {
        s
    }
}

/// The text without leading and trailing whitespace.
pub open spec fn trimmed(s: Seq<char>) -> Seq<char> {
    trim_end_spec(trim_start_spec(s))
}

/// Calls `str::trim`: the slice with leading and trailing `White_Space`
/// characters removed, as its documentation states.
#[verifier::external_body]
fn str_trim(s: &str) -> (r: &str)
    ensures
        r@ == trimmed(s@),
{
    s.trim()
}

/// Most bytes of source quoted in a parse error message.
pub const MAX_SOURCE_LEN: usize = 80;

/// Source quoted in a parse error message: whole when its UTF-8 text has at
/// most [`MAX_SOURCE_LEN`] bytes, else its first [`MAX_SOURCE_LEN`] bytes
/// and `...`.
pub open spec fn truncated_source(s: Seq<char>) -> Seq<char> {
    if encode_utf8(s).len() <= MAX_SOURCE_LEN {
        s
    } else {
        decode_utf8(encode_utf8(s).take(MAX_SOURCE_LEN as int)) + seq!['.', '.', '.']
    }
}

/// Source that can be cut for a message: short enough, or with a character
/// boundary at the cut.
pub open spec fn truncatable(s: Seq<char>) -> bool {
    encode_utf8(s).len() <= MAX_SOURCE_LEN || is_char_boundary(encode_utf8(s), MAX_SOURCE_LEN as int)
}

/// Cuts source for a parse error message (see [`truncated_source`]).
pub fn truncate_source(source: &str) -> (r: String)
    requires
        truncatable(source@),
    ensures
        r@ == truncated_source(source@),
{
    if source.as_bytes().len() <= MAX_SOURCE_LEN {
        String::from_str(source)
    } else {
        let (head, _) = source.split_at(MAX_SOURCE_LEN);
        proof {
            encode_utf8_decode_utf8(head@);
            reveal_strlit("...");
            assert(encode_utf8(source@).take(MAX_SOURCE_LEN as int) =~= encode_utf8(source@).subrange(
                0,
                MAX_SOURCE_LEN as int,
            ));
            assert(head@ == decode_utf8(encode_utf8(source@).take(MAX_SOURCE_LEN as int)));
        }
        let mut r = String::from_str(head);
        r.append("...");
        proof {
            assert("..."@ =~= seq!['.', '.', '.']);
        }
        r
    }
}

/// The message of a parse error: the reason, the position (lines counted
/// from one), and the trimmed source, cut, when there is any.
pub open spec fn parse_error_message(reason: Seq<char>, line: nat, column: nat, source: Seq<char>) -> Seq<char> {
    let head = reason + seq![' ', 'a', 't', ' ', 'l', 'i', 'n', 'e', ' '] + decimal(line + 1) + seq![
        ',',
        ' ',
        'c',
        'o',
        'l',
        'u',
        'm',
        'n',
        ' ',
    ] + decimal(column);
    let t = trimmed(source);
    if t.len() == 0 {
        head
    } else {
        head + seq![' ', 'n', 'e', 'a', 'r', ' ', '`'] + truncated_source(t) + seq!['`']
    }
}

/// Formats a parse error at `line` (counted from zero) and `column` of
/// `source`.
pub fn format_parse_error(reason: &str, line: u32, column: u32, source: &str) -> (r: String)
    requires
        line < u32::MAX,
        truncatable(trimmed(source@)),
    ensures
        r@ == parse_error_message(reason@, line as nat, column as nat, source@),
{
    proof {
        reveal_strlit(" at line ");
        reveal_strlit(", column ");
        reveal_strlit(" near `");
        reveal_strlit("`");
    }
    let mut r = String::from_str(reason);
    r.append(" at line ");
    let l = decimal_string((line + 1) as u128);
    r.append(l.as_str());
    r.append(", column ");
    let c = decimal_string(column as u128);
    r.append(c.as_str());
    let t = str_trim(source);
    if t.is_empty() {
        r
    } else {
        r.append(" near `");
        let cut = truncate_source(t);
        r.append(cut.as_str());
        r.append("`");
        r
    }
}

} // verus!
