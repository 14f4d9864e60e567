use lynx_yew::css_syntax::{format_parse_error, truncate_source};
use lynx_yew::css::{
    encode_token_stream, CSSTokenStream, Token, CSS_TOKEN_STREAM_HEADER_LEN,
    CSS_TOKEN_STREAM_MAGIC, CSS_TOKEN_STREAM_RECORD_LEN, CSS_TOKEN_STREAM_VERSION,
    DIMENSION_TOKEN, FUNCTION_TOKEN, HASH_TOKEN, IDENT_TOKEN, LEFT_CURLY_BRACKET_TOKEN,
    NUMBER_TOKEN, PERCENTAGE_TOKEN, RIGHT_CURLY_BRACKET_TOKEN, RIGHT_PARENTHESES_TOKEN,
};
use lynx_yew::css_syntax::{
    collect_tokens, css_token_stream, is_parse_error, CssSourceError, number_text, token_to_spec, BlockKind,
    CssNode, CssTokenView,
};

fn tok(t: CssTokenView) -> CssNode {
    CssNode::Token(t)
}

fn ident(s: &str) -> CssNode {
    tok(CssTokenView::Ident(s.to_string()))
}

fn ws() -> CssNode {
    tok(CssTokenView::WhiteSpace(" ".to_string()))
}

fn curly(children: Vec<CssNode>) -> CssNode {
    CssNode::Block { kind: BlockKind::CurlyBracket, children }
}

/// The source `.item { color: red; }` as the tokenizer reads it.
fn item_rule() -> Vec<CssNode> {
    vec![
        tok(CssTokenView::Delim(".".to_string())),
        ident("item"),
        ws(),
        curly(vec![
            ws(),
            ident("color"),
            tok(CssTokenView::Colon),
            ws(),
            ident("red"),
            tok(CssTokenView::Semicolon),
            ws(),
        ]),
    ]
}

fn tokenize(nodes: &Vec<CssNode>) -> Vec<Token> {
    let mut tokens = Vec::new();
    collect_tokens(nodes, &mut tokens).unwrap();
    tokens
}

#[test]
fn tokenizes_css_text() {
    let tokens = tokenize(&item_rule());
    assert!(tokens
        .iter()
        .any(|token| token.token_type == IDENT_TOKEN && token.value == "color"));
    assert!(tokens
        .iter()
        .any(|token| token.token_type == LEFT_CURLY_BRACKET_TOKEN));
}

#[test]
fn encodes_css_token_stream_bytes() {
    let tokens = tokenize(&item_rule());
    let bytes = encode_token_stream(&tokens).unwrap();
    assert!(bytes.starts_with(&CSS_TOKEN_STREAM_MAGIC));
    assert_eq!(bytes[4], CSS_TOKEN_STREAM_VERSION);
    assert_eq!(bytes[5], CSS_TOKEN_STREAM_HEADER_LEN as u8);
    assert_eq!(bytes[6], CSS_TOKEN_STREAM_RECORD_LEN as u8);
    assert!(bytes.len() > CSS_TOKEN_STREAM_HEADER_LEN);
}

#[test]
fn css_macro_returns_static_token_stream_bytes() {
    // `.item { color: red; background-color: #fff; }` as the tokenizer reads it.
    let nodes = vec![
        tok(CssTokenView::Delim(".".to_string())),
        ident("item"),
        ws(),
        curly(vec![
            ws(),
            ident("color"),
            tok(CssTokenView::Colon),
            ws(),
            ident("red"),
            tok(CssTokenView::Semicolon),
            ws(),
            ident("background-color"),
            tok(CssTokenView::Colon),
            ws(),
            tok(CssTokenView::IDHash("fff".to_string())),
            tok(CssTokenView::Semicolon),
            ws(),
        ]),
    ];
    let tokens = CSSTokenStream::from_bytes(css_token_stream(&nodes).unwrap());

    assert!(!tokens.is_empty());
    assert!(tokens.has_valid_header());
    assert!(tokens.token_count().is_some_and(|count| count > 0));
    assert!(tokens.payload_len().is_some_and(|len| len > 0));
    assert!(tokens.as_bytes().starts_with(&CSS_TOKEN_STREAM_MAGIC));
}

#[test]
fn blocks_become_open_contents_close() {
    let nodes = vec![
        CssNode::Block {
            kind: BlockKind::Function("rgb".to_string()),
            children: vec![tok(CssTokenView::Number {
                has_sign: false,
                value_text: "1".to_string(),
                int_value: Some(1),
            })],
        },
        curly(vec![]),
    ];
    let tokens: Vec<(u8, String)> = tokenize(&nodes)
        .into_iter()
        .map(|t| (t.token_type, t.value))
        .collect();
    assert_eq!(
        tokens,
        vec![
            (FUNCTION_TOKEN, "rgb".to_string()),
            (NUMBER_TOKEN, "1".to_string()),
            (RIGHT_PARENTHESES_TOKEN, ")".to_string()),
            (LEFT_CURLY_BRACKET_TOKEN, "{".to_string()),
            (RIGHT_CURLY_BRACKET_TOKEN, "}".to_string()),
        ]
    );
}

#[test]
fn number_text_keeps_an_explicit_sign() {
    assert_eq!(number_text(true, "3", Some(3)), "+3");
    assert_eq!(number_text(true, "-3", Some(-3)), "-3");
    assert_eq!(number_text(false, "3", Some(3)), "3");
    assert_eq!(number_text(true, "1.5", None), "+1.5");
    assert_eq!(number_text(false, "-0.25", None), "-0.25");
    assert_eq!(number_text(true, "", None), "+");
}

#[test]
fn numeric_tokens_carry_their_text() {
    let pct = token_to_spec(&CssTokenView::Percentage {
        has_sign: false,
        value_text: "50".to_string(),
        int_value: Some(50),
    });
    assert_eq!((pct.token_type, pct.value.as_str()), (PERCENTAGE_TOKEN, "50"));
    let dim = token_to_spec(&CssTokenView::Dimension {
        has_sign: true,
        value_text: "2.5".to_string(),
        int_value: None,
        unit: "px".to_string(),
    });
    assert_eq!((dim.token_type, dim.value.as_str()), (DIMENSION_TOKEN, "+2.5px"));
    let hash = token_to_spec(&CssTokenView::Hash("123".to_string()));
    assert_eq!((hash.token_type, hash.value.as_str()), (HASH_TOKEN, "123"));
    let dash = token_to_spec(&CssTokenView::DashMatch);
    assert_eq!(dash.value, "|=");
}

#[test]
fn bad_tokens_are_parse_errors() {
    assert!(is_parse_error(&CssTokenView::BadUrl("x".to_string())));
    assert!(is_parse_error(&CssTokenView::CloseCurlyBracket));
    assert!(!is_parse_error(&CssTokenView::Colon));
    assert!(!is_parse_error(&CssTokenView::Ident("a".to_string())));
}

#[test]
fn parse_error_tokens_refuse_the_source() {
    let nodes = vec![
        CssNode::Token(CssTokenView::Ident("a".to_string())),
        CssNode::Block {
            kind: BlockKind::CurlyBracket,
            children: vec![CssNode::Token(CssTokenView::BadUrl("x".to_string()))],
        },
    ];
    let mut tokens = Vec::new();
    assert!(collect_tokens(&nodes, &mut tokens).is_err());
    assert!(matches!(css_token_stream(&nodes), Err(CssSourceError::InvalidToken(_))));
}

#[test]
fn parse_errors_name_the_place_and_quote_the_trimmed_source() {
    assert_eq!(
        format_parse_error("unexpected token", 0, 5, "  a { color: red }  "),
        "unexpected token at line 1, column 5 near `a { color: red }`"
    );
    assert_eq!(format_parse_error("bad", 2, 1, " \n\t "), "bad at line 3, column 1");
    let long = "x".repeat(90);
    assert_eq!(truncate_source(&long), format!("{}...", "x".repeat(80)));
    assert_eq!(truncate_source("short"), "short");
}
