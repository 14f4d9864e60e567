//! CSS token metadata shared with Lynx style bindings, and the binary token
//! stream handed to the host style engine.

use vstd::prelude::*;
use vstd::utf8::encode_utf8;

verus! {

/// CSS token type id used by the host-side tokenizer ABI.
pub type TokenType = u8;

pub const EOF_TOKEN: u8 = 0;
pub const IDENT_TOKEN: u8 = 1;
pub const FUNCTION_TOKEN: u8 = 2;
pub const AT_KEYWORD_TOKEN: u8 = 3;
pub const HASH_TOKEN: u8 = 4;
pub const STRING_TOKEN: u8 = 5;
pub const BAD_STRING_TOKEN: u8 = 6;
pub const URL_TOKEN: u8 = 7;
pub const BAD_URL_TOKEN: u8 = 8;
pub const DELIM_TOKEN: u8 = 9;
pub const NUMBER_TOKEN: u8 = 10;
pub const PERCENTAGE_TOKEN: u8 = 11;
pub const DIMENSION_TOKEN: u8 = 12;
pub const WHITESPACE_TOKEN: u8 = 13;
pub const CDO_TOKEN: u8 = 14;
pub const CDC_TOKEN: u8 = 15;
pub const COLON_TOKEN: u8 = 16;
pub const SEMICOLON_TOKEN: u8 = 17;
pub const COMMA_TOKEN: u8 = 18;
pub const LEFT_SQUARE_BRACKET_TOKEN: u8 = 19;
pub const RIGHT_SQUARE_BRACKET_TOKEN: u8 = 20;
pub const LEFT_PARENTHESES_TOKEN: u8 = 21;
pub const RIGHT_PARENTHESES_TOKEN: u8 = 22;
pub const LEFT_CURLY_BRACKET_TOKEN: u8 = 23;
pub const RIGHT_CURLY_BRACKET_TOKEN: u8 = 24;
pub const COMMENT_TOKEN: u8 = 25;

/// CSS token type enum mirroring the numeric tokenizer ABI.
#[derive(Clone, Copy, Debug, PartialEq, Eq, Hash)]
pub enum CSSTokenType {
    Eof,
    Ident,
    Function,
    AtKeyword,
    Hash,
    String,
    BadString,
    Url,
    BadUrl,
    Delim,
    Number,
    Percentage,
    Dimension,
    Whitespace,
    Cdo,
    Cdc,
    Colon,
    Semicolon,
    Comma,
    LeftSquareBracket,
    RightSquareBracket,
    LeftParentheses,
    RightParentheses,
    LeftCurlyBracket,
    RightCurlyBracket,
    Comment,
}

impl CSSTokenType {
    /// The ABI id of each token type: its position in the CSS token order.
    pub open spec fn abi_id(self) -> u8 {
        match self {
            CSSTokenType::Eof => 0,
            CSSTokenType::Ident => 1,
            CSSTokenType::Function => 2,
            CSSTokenType::AtKeyword => 3,
            CSSTokenType::Hash => 4,
            CSSTokenType::String => 5,
            CSSTokenType::BadString => 6,
            CSSTokenType::Url => 7,
            CSSTokenType::BadUrl => 8,
            CSSTokenType::Delim => 9,
            CSSTokenType::Number => 10,
            CSSTokenType::Percentage => 11,
            CSSTokenType::Dimension => 12,
            CSSTokenType::Whitespace => 13,
            CSSTokenType::Cdo => 14,
            CSSTokenType::Cdc => 15,
            CSSTokenType::Colon => 16,
            CSSTokenType::Semicolon => 17,
            CSSTokenType::Comma => 18,
            CSSTokenType::LeftSquareBracket => 19,
            CSSTokenType::RightSquareBracket => 20,
            CSSTokenType::LeftParentheses => 21,
            CSSTokenType::RightParentheses => 22,
            CSSTokenType::LeftCurlyBracket => 23,
            CSSTokenType::RightCurlyBracket => 24,
            CSSTokenType::Comment => 25,
        }
    }

    /// Returns the ABI token id.
    pub fn as_u8(self) -> (id: u8)
        ensures
            id == self.abi_id(),
            id <= COMMENT_TOKEN,
    {
        match self {
            CSSTokenType::Eof => EOF_TOKEN,
            CSSTokenType::Ident => IDENT_TOKEN,
            CSSTokenType::Function => FUNCTION_TOKEN,
            CSSTokenType::AtKeyword => AT_KEYWORD_TOKEN,
            CSSTokenType::Hash => HASH_TOKEN,
            CSSTokenType::String => STRING_TOKEN,
            CSSTokenType::BadString => BAD_STRING_TOKEN,
            CSSTokenType::Url => URL_TOKEN,
            CSSTokenType::BadUrl => BAD_URL_TOKEN,
            CSSTokenType::Delim => DELIM_TOKEN,
            CSSTokenType::Number => NUMBER_TOKEN,
            CSSTokenType::Percentage => PERCENTAGE_TOKEN,
            CSSTokenType::Dimension => DIMENSION_TOKEN,
            CSSTokenType::Whitespace => WHITESPACE_TOKEN,
            CSSTokenType::Cdo => CDO_TOKEN,
            CSSTokenType::Cdc => CDC_TOKEN,
            CSSTokenType::Colon => COLON_TOKEN,
            CSSTokenType::Semicolon => SEMICOLON_TOKEN,
            CSSTokenType::Comma => COMMA_TOKEN,
            CSSTokenType::LeftSquareBracket => LEFT_SQUARE_BRACKET_TOKEN,
            CSSTokenType::RightSquareBracket => RIGHT_SQUARE_BRACKET_TOKEN,
            CSSTokenType::LeftParentheses => LEFT_PARENTHESES_TOKEN,
            CSSTokenType::RightParentheses => RIGHT_PARENTHESES_TOKEN,
            CSSTokenType::LeftCurlyBracket => LEFT_CURLY_BRACKET_TOKEN,
            CSSTokenType::RightCurlyBracket => RIGHT_CURLY_BRACKET_TOKEN,
            CSSTokenType::Comment => COMMENT_TOKEN,
        }
    }

    /// Maps an ABI token id back to its token type, `None` for ids past
    /// the end of the CSS token order.
    pub fn from_u8(id: u8) -> (ty: Option<CSSTokenType>)
        ensures
            ty is None <==> id > COMMENT_TOKEN,
            ty matches Some(t) ==> t.abi_id() == id,
    {
        match id {
            0 => Some(CSSTokenType::Eof),
            1 => Some(CSSTokenType::Ident),
            2 => Some(CSSTokenType::Function),
            3 => Some(CSSTokenType::AtKeyword),
            4 => Some(CSSTokenType::Hash),
            5 => Some(CSSTokenType::String),
            6 => Some(CSSTokenType::BadString),
            7 => Some(CSSTokenType::Url),
            8 => Some(CSSTokenType::BadUrl),
            9 => Some(CSSTokenType::Delim),
            10 => Some(CSSTokenType::Number),
            11 => Some(CSSTokenType::Percentage),
            12 => Some(CSSTokenType::Dimension),
            13 => Some(CSSTokenType::Whitespace),
            14 => Some(CSSTokenType::Cdo),
            15 => Some(CSSTokenType::Cdc),
            16 => Some(CSSTokenType::Colon),
            17 => Some(CSSTokenType::Semicolon),
            18 => Some(CSSTokenType::Comma),
            19 => Some(CSSTokenType::LeftSquareBracket),
            20 => Some(CSSTokenType::RightSquareBracket),
            21 => Some(CSSTokenType::LeftParentheses),
            22 => Some(CSSTokenType::RightParentheses),
            23 => Some(CSSTokenType::LeftCurlyBracket),
            24 => Some(CSSTokenType::RightCurlyBracket),
            25 => Some(CSSTokenType::Comment),
            _ => None,
        }
    }
}

/// The ABI id of a token type and the token type of an id undo each other.
pub proof fn lemma_token_type_id_roundtrip(t: CSSTokenType)
    ensures
        t.abi_id() <= COMMENT_TOKEN,
        forall|u: CSSTokenType| u.abi_id() == t.abi_id() ==> u == t,
{
}

/// One CSS token.
#[derive(Clone, Debug, PartialEq, Eq, Hash)]
pub struct Token {
    /// Token kind, one of the `*_TOKEN` constants in this module.
    pub token_type: TokenType,
    /// Token payload, if the token carries source text.
    pub value: String,
}

impl Token {
    /// Creates a CSS token with a token type and source payload.
    pub fn new(token_type: TokenType, value: &str) -> (t: Token)
        ensures
            t.token_type == token_type,
            t.value@ == value@,
    {
        Token { token_type, value: value.to_owned() }
    }

    /// Creates a CSS token from a token type enum and source payload.
    pub fn of_type(token_type: CSSTokenType, value: &str) -> (t: Token)
        ensures
            t.token_type == token_type.abi_id(),
            t.value@ == value@,
    {
        Token::new(token_type.as_u8(), value)
    }
}


/// Leading bytes of every CSS token stream.
pub const CSS_TOKEN_STREAM_MAGIC: [u8; 4] = [0x4c, 0x43, 0x53, 0x53];
/// Token stream format version.
pub const CSS_TOKEN_STREAM_VERSION: u8 = 1;
/// Byte length of the stream header.
pub const CSS_TOKEN_STREAM_HEADER_LEN: usize = 16;
/// Byte length of one token record.
pub const CSS_TOKEN_STREAM_RECORD_LEN: usize = 12;

/// The magic bytes as a sequence.
pub open spec fn stream_magic() -> Seq<u8> {
    seq![0x4cu8, 0x43u8, 0x53u8, 0x53u8]
}

/// Little-endian bytes of a 32-bit value.
pub open spec fn le32(n: nat) -> Seq<u8> {
    seq![
        (n % 256) as u8,
        ((n / 256) % 256) as u8,
        ((n / 65536) % 256) as u8,
        ((n / 16777216) % 256) as u8,
    ]
}

/// The value read back from four little-endian bytes.
pub open spec fn read_le32(b: Seq<u8>, at: int) -> nat {
    (b[at] as nat) + 256 * (b[at + 1] as nat) + 65536 * (b[at + 2] as nat) + 16777216 * (
    b[at + 3] as nat)
}

/// The UTF-8 bytes that a token contributes to the payload area.
pub open spec fn token_payload(t: Token) -> Seq<u8> {
    encode_utf8(t.value@)
}

/// The payload area: the UTF-8 bytes of every token value, in order.
pub open spec fn stream_payload(ts: Seq<Token>) -> Seq<u8>
    decreases ts.len(),
{
    if ts.len() == 0 {
        seq![]
    } else {
        stream_payload(ts.drop_last()) + token_payload(ts.last())
    }
}

/// One token record: type, a reserved byte, two reserved bytes, the payload
/// offset and the payload length.
pub open spec fn token_record(ty: u8, offset: nat, len: nat) -> Seq<u8> {
    seq![ty, 0u8, 0u8, 0u8] + le32(offset) + le32(len)
}

/// The record area: one record per token, in order.
pub open spec fn stream_records(ts: Seq<Token>) -> Seq<u8>
    decreases ts.len(),
{
    if ts.len() == 0 {
        seq![]
    } else {
        stream_records(ts.drop_last()) + token_record(
            ts.last().token_type,
            stream_payload(ts.drop_last()).len(),
            token_payload(ts.last()).len(),
        )
    }
}

/// The stream header for a token count and a payload length.
pub open spec fn stream_header(count: nat, payload_len: nat) -> Seq<u8> {
    stream_magic() + seq![
        CSS_TOKEN_STREAM_VERSION,
        CSS_TOKEN_STREAM_HEADER_LEN as u8,
        CSS_TOKEN_STREAM_RECORD_LEN as u8,
        0u8,
    ] + le32(count) + le32(payload_len)
}

/// The complete encoding of a token sequence.
pub open spec fn encoded_stream(ts: Seq<Token>) -> Seq<u8> {
    stream_header(ts.len(), stream_payload(ts).len()) + stream_records(ts) + stream_payload(ts)
}

/// Why a token sequence cannot be encoded.
#[derive(Clone, Copy, Debug, PartialEq, Eq)]
pub enum TokenStreamError {
    /// More tokens than a 32-bit count can hold.
    TooManyTokens,
    /// The payload area outgrows a 32-bit offset.
    PayloadTooLarge,
    /// One token value outgrows a 32-bit length.
    TokenPayloadTooLarge,
}

/// The first failing check met while walking the tokens in order.
pub open spec fn scan_error(ts: Seq<Token>) -> Option<TokenStreamError>
    decreases ts.len(),
{
    if ts.len() == 0 {
        None
    } else if scan_error(ts.drop_last()) is Some {
        scan_error(ts.drop_last())
    } else if stream_payload(ts.drop_last()).len() > u32::MAX {
        Some(TokenStreamError::PayloadTooLarge)
    } else if token_payload(ts.last()).len() > u32::MAX {
        Some(TokenStreamError::TokenPayloadTooLarge)
    } else {
        None
    }
}

/// The error that encoding reports for a token sequence, if any.
pub open spec fn encode_error(ts: Seq<Token>) -> Option<TokenStreamError> {
    if ts.len() > u32::MAX {
        Some(TokenStreamError::TooManyTokens)
    } else if scan_error(ts) is Some {
        scan_error(ts)
    } else if stream_payload(ts).len() > u32::MAX {
        Some(TokenStreamError::PayloadTooLarge)
    } else {
        None
    }
}

impl TokenStreamError {
    /// A human-readable description of the error.
    pub fn message(&self) -> (m: &'static str)
        ensures
            *self == TokenStreamError::TooManyTokens ==> m@ == "CSS token stream contains too many tokens"@,
            *self == TokenStreamError::PayloadTooLarge ==> m@ == "CSS token stream payload is too large"@,
            *self == TokenStreamError::TokenPayloadTooLarge ==> m@
                == "CSS token stream token payload is too large"@,
    {
        match self {
            TokenStreamError::TooManyTokens => "CSS token stream contains too many tokens",
            TokenStreamError::PayloadTooLarge => "CSS token stream payload is too large",
            TokenStreamError::TokenPayloadTooLarge => "CSS token stream token payload is too large",
        }
    }
}

fn push_le32(out: &mut Vec<u8>, n: u32)
    ensures
        final(out)@ == old(out)@ + le32(n as nat),
{
    out.push((n % 256) as u8);
    out.push(((n / 256) % 256) as u8);
    out.push(((n / 65536) % 256) as u8);
    out.push(((n / 16777216) % 256) as u8);
    assert(final(out)@ =~= old(out)@ + le32(n as nat));
}

fn append_bytes(out: &mut Vec<u8>, bytes: &[u8])
    ensures
        final(out)@ == old(out)@ + bytes@,
{
    let ghost start = out@;
    let mut i: usize = 0;
    while i < bytes.len()
        invariant
            i <= bytes@.len(),
            out@ == start + bytes@.take(i as int),
        decreases bytes@.len() - i,
    {
        out.push(bytes[i]);
        i = i + 1;
        assert(out@ =~= start + bytes@.take(i as int));
    }
    assert(bytes@.take(i as int) =~= bytes@);
}

proof fn lemma_take_step(ts: Seq<Token>, i: int)
    requires
        0 <= i < ts.len(),
    ensures
        ts.take(i + 1).drop_last() == ts.take(i),
        ts.take(i + 1).last() == ts[i],
{
    assert(ts.take(i + 1).drop_last() =~= ts.take(i));
}

/// Encodes tokens into the binary token stream consumed by the host style
/// engine: a header, one record per token, then the UTF-8 payload.
pub fn encode_token_stream(tokens: &[Token]) -> (r: Result<Vec<u8>, TokenStreamError>)
    ensures
        match r {
            Ok(bytes) => encode_error(tokens@) is None && bytes@ == encoded_stream(tokens@),
            Err(e) => encode_error(tokens@) == Some(e),
        },
{
    if tokens.len() > u32::MAX as usize {
        return Err(TokenStreamError::TooManyTokens);
    }
    let token_count = tokens.len() as u32;
    let mut records: Vec<u8> = Vec::new();
    let mut payload: Vec<u8> = Vec::new();
    let mut i: usize = 0;
    while i < tokens.len()
        invariant
            i <= tokens@.len(),
            tokens@.len() <= u32::MAX,
            scan_error(tokens@.take(i as int)) is None,
            records@ == stream_records(tokens@.take(i as int)),
            payload@ == stream_payload(tokens@.take(i as int)),
        decreases tokens@.len() - i,
    {
        proof {
            lemma_take_step(tokens@, i as int);
        }
        if payload.len() > u32::MAX as usize {
            proof {
                lemma_scan_error_sticks(tokens@, i as int + 1);
            }
            return Err(TokenStreamError::PayloadTooLarge);
        }
        let payload_offset = payload.len() as u32;
        let value_bytes = tokens[i].value.as_str().as_bytes();
        if value_bytes.len() > u32::MAX as usize {
            proof {
                lemma_scan_error_sticks(tokens@, i as int + 1);
            }
            return Err(TokenStreamError::TokenPayloadTooLarge);
        }
        let payload_len = value_bytes.len() as u32;
        records.push(tokens[i].token_type);
        records.push(0);
        records.push(0);
        records.push(0);
        push_le32(&mut records, payload_offset);
        push_le32(&mut records, payload_len);
        append_bytes(&mut payload, value_bytes);
        i = i + 1;
        proof {
            assert(records@ =~= stream_records(tokens@.take(i as int)));
        }
    }
    proof {
        assert(tokens@.take(i as int) =~= tokens@);
    }
    if payload.len() > u32::MAX as usize {
        return Err(TokenStreamError::PayloadTooLarge);
    }
    let payload_total = payload.len() as u32;
    let mut bytes: Vec<u8> = Vec::new();
    bytes.push(0x4c);
    bytes.push(0x43);
    bytes.push(0x53);
    bytes.push(0x53);
    bytes.push(CSS_TOKEN_STREAM_VERSION);
    bytes.push(CSS_TOKEN_STREAM_HEADER_LEN as u8);
    bytes.push(CSS_TOKEN_STREAM_RECORD_LEN as u8);
    bytes.push(0);
    push_le32(&mut bytes, token_count);
    push_le32(&mut bytes, payload_total);
    proof {
        assert(bytes@ =~= stream_header(tokens@.len(), stream_payload(tokens@).len()));
    }
    append_bytes(&mut bytes, records.as_slice());
    append_bytes(&mut bytes, payload.as_slice());
    Ok(bytes)
}

/// Once the walk over a prefix has found an error, every longer prefix
/// reports that same error.
proof fn lemma_scan_error_prefix(ts: Seq<Token>, n: int, m: int)
    requires
        0 <= n <= m <= ts.len(),
        scan_error(ts.take(n)) is Some,
    ensures
        scan_error(ts.take(m)) == scan_error(ts.take(n)),
    decreases m - n,
{
    if m > n {
        lemma_scan_error_prefix(ts, n, m - 1);
        assert(ts.take(m).drop_last() =~= ts.take(m - 1));
    }
}

proof fn lemma_scan_error_sticks(ts: Seq<Token>, n: int)
    requires
        0 < n <= ts.len(),
        scan_error(ts.take(n - 1)) is None,
        stream_payload(ts.take(n - 1)).len() > u32::MAX || token_payload(ts[n - 1]).len()
            > u32::MAX,
    ensures
        encode_error(ts) == (if ts.len() > u32::MAX {
            Some(TokenStreamError::TooManyTokens)
        } else if stream_payload(ts.take(n - 1)).len() > u32::MAX {
            Some(TokenStreamError::PayloadTooLarge)
        } else {
            Some(TokenStreamError::TokenPayloadTooLarge)
        }),
{
    lemma_take_step(ts, n - 1);
    lemma_scan_error_prefix(ts, n, ts.len() as int);
    assert(ts.take(ts.len() as int) =~= ts);
}

/// Four little-endian bytes read back give the value they were written from.
pub proof fn lemma_le32_roundtrip(n: nat)
    requires
        n <= u32::MAX,
    ensures
        le32(n).len() == 4,
        read_le32(le32(n), 0) == n,
{
    let m = n as u32;
    assert((m % 256) + 256 * ((m / 256) % 256) + 65536 * ((m / 65536) % 256) + 16777216 * ((m
        / 16777216) % 256) == m) by (bit_vector);
}

/// Header fields that every token stream starts with.
pub open spec fn header_valid(b: Seq<u8>) -> bool {
    &&& b.len() >= CSS_TOKEN_STREAM_HEADER_LEN
    &&& b.take(4) == stream_magic()
    &&& b[4] == CSS_TOKEN_STREAM_VERSION
    &&& b[5] == CSS_TOKEN_STREAM_HEADER_LEN as u8
    &&& b[6] == CSS_TOKEN_STREAM_RECORD_LEN as u8
}

/// Token count recorded in a header.
pub open spec fn stream_count(b: Seq<u8>) -> nat {
    read_le32(b, 8)
}

/// Payload length recorded in a header.
pub open spec fn stream_payload_len(b: Seq<u8>) -> nat {
    read_le32(b, 12)
}

/// Start of the payload area.
pub open spec fn payload_start(b: Seq<u8>) -> int {
    16 + 12 * stream_count(b) as int
}

/// Token type of record `i`.
pub open spec fn record_type(b: Seq<u8>, i: int) -> u8 {
    b[16 + 12 * i]
}

/// Payload offset of record `i`.
pub open spec fn record_offset(b: Seq<u8>, i: int) -> nat {
    read_le32(b, 16 + 12 * i + 4)
}

/// Payload length of record `i`.
pub open spec fn record_len(b: Seq<u8>, i: int) -> nat {
    read_le32(b, 16 + 12 * i + 8)
}

/// A stream whose header, record area and payload area agree.
pub open spec fn stream_well_formed(b: Seq<u8>) -> bool {
    &&& header_valid(b)
    &&& b.len() == 16 + 12 * stream_count(b) + stream_payload_len(b)
    &&& forall|i: int|
        0 <= i < stream_count(b) ==> #[trigger] record_offset(b, i) + record_len(b, i)
            <= stream_payload_len(b)
}

/// The tokens of a well-formed stream: each record's type with its payload
/// bytes.
pub open spec fn stream_entries(b: Seq<u8>) -> Seq<(u8, Seq<u8>)> {
    Seq::new(
        stream_count(b),
        |i: int|
            (
                record_type(b, i),
                b.subrange(
                    payload_start(b) + record_offset(b, i),
                    payload_start(b) + record_offset(b, i) + record_len(b, i),
                ),
            ),
    )
}

/// What a token contributes to the entries of its stream.
pub open spec fn token_entry(t: Token) -> (u8, Seq<u8>) {
    (t.token_type, token_payload(t))
}

/// A CSS token stream in the host ABI format.
#[derive(Clone, Debug)]
pub struct CSSTokenStream {
    bytes: Vec<u8>,
}

impl View for CSSTokenStream {
    type V = Seq<u8>;

    closed spec fn view(&self) -> Seq<u8> {
        self.bytes@
    }
}

fn read_u32_at(b: &[u8], at: usize) -> (r: u32)
    requires
        at + 4 <= b@.len(),
    ensures
        r == read_le32(b@, at as int),
{
    (b[at] as u32) + 256 * (b[at + 1] as u32) + 65536 * (b[at + 2] as u32) + 16777216 * (b[at
        + 3] as u32)
}

impl CSSTokenStream {
    /// Wraps encoded stream bytes.
    pub fn from_bytes(bytes: Vec<u8>) -> (s: CSSTokenStream)
        ensures
            s@ == bytes@,
    {
        CSSTokenStream { bytes }
    }

    /// Encodes tokens into a stream.
    pub fn from_tokens(tokens: &[Token]) -> (r: Result<CSSTokenStream, TokenStreamError>)
        ensures
            match r {
                Ok(s) => encode_error(tokens@) is None && s@ == encoded_stream(tokens@),
                Err(e) => encode_error(tokens@) == Some(e),
            },
    {
        match encode_token_stream(tokens) {
            Ok(bytes) => Ok(CSSTokenStream { bytes }),
            Err(e) => Err(e),
        }
    }

    /// The raw stream bytes.
    pub fn as_bytes(&self) -> (b: &[u8])
        ensures
            b@ == self@,
    {
        self.bytes.as_slice()
    }

    /// Number of stream bytes.
    pub fn len(&self) -> (n: usize)
        ensures
            n == self@.len(),
    {
        self.bytes.len()
    }

    /// True when the stream holds no bytes at all.
    pub fn is_empty(&self) -> (e: bool)
        ensures
            e == (self@.len() == 0),
    {
        self.bytes.len() == 0
    }

    /// True when the stream starts with a header of this format.
    pub fn has_valid_header(&self) -> (v: bool)
        ensures
            v == header_valid(self@),
    {
        if self.bytes.len() < CSS_TOKEN_STREAM_HEADER_LEN {
            return false;
        }
        let ok = self.bytes[0] == 0x4c && self.bytes[1] == 0x43 && self.bytes[2] == 0x53
            && self.bytes[3] == 0x53 && self.bytes[4] == CSS_TOKEN_STREAM_VERSION
            && self.bytes[5] == CSS_TOKEN_STREAM_HEADER_LEN as u8 && self.bytes[6]
            == CSS_TOKEN_STREAM_RECORD_LEN as u8;
        proof {
            if ok {
                assert(self@.take(4) =~= stream_magic());
            } else if self@.take(4) == stream_magic() {
                assert(self@.take(4)[0] == self@[0]);
                assert(self@.take(4)[1] == self@[1]);
                assert(self@.take(4)[2] == self@[2]);
                assert(self@.take(4)[3] == self@[3]);
            }
        }
        ok
    }

    /// The token count recorded in the header, when the header is valid.
    pub fn token_count(&self) -> (c: Option<u32>)
        ensures
            c is Some <==> header_valid(self@),
            c matches Some(n) ==> n == stream_count(self@),
    {
        if self.has_valid_header() {
            Some(read_u32_at(self.bytes.as_slice(), 8))
        } else {
            None
        }
    }

    /// The payload length recorded in the header, when the header is valid.
    pub fn payload_len(&self) -> (c: Option<u32>)
        ensures
            c is Some <==> header_valid(self@),
            c matches Some(n) ==> n == stream_payload_len(self@),
    {
        if self.has_valid_header() {
            Some(read_u32_at(self.bytes.as_slice(), 12))
        } else {
            None
        }
    }

    /// Decodes every record into its token type and payload bytes, or
    /// `None` when the header, the record area and the payload area do not
    /// agree.
    pub fn decode_entries(&self) -> (r: Option<Vec<(u8, Vec<u8>)>>)
        ensures
            r is Some <==> stream_well_formed(self@),
            r matches Some(es) ==> es@.len() == stream_count(self@) && forall|i: int|
                0 <= i < es@.len() ==> (#[trigger] es@[i]).0 == stream_entries(self@)[i].0
                    && es@[i].1@ == stream_entries(self@)[i].1,
    {
        if !self.has_valid_header() {
            return None;
        }
        let b = self.bytes.as_slice();
        let count = read_u32_at(b, 8) as u64;
        let plen = read_u32_at(b, 12) as u64;
        if b.len() as u64 != 16 + 12 * count + plen {
            proof {
                assert(b@ == self@);
                assert(b@.len() != 16 + 12 * stream_count(b@) + stream_payload_len(b@));
                assert(!stream_well_formed(self@));
            }
            return None;
        }
        let pstart = (16 + 12 * count) as usize;
        let mut out: Vec<(u8, Vec<u8>)> = Vec::new();
        let mut i: u64 = 0;
        while i < count
            invariant
                b@ == self@,
                header_valid(b@),
                count == stream_count(b@),
                plen == stream_payload_len(b@),
                b@.len() == 16 + 12 * count + plen,
                pstart == payload_start(b@),
                i <= count,
                out@.len() == i,
                forall|j: int|
                    0 <= j < i ==> #[trigger] record_offset(b@, j) + record_len(b@, j) <= plen,
                forall|j: int|
                    0 <= j < i ==> (#[trigger] out@[j]).0 == stream_entries(b@)[j].0
                        && out@[j].1@ == stream_entries(b@)[j].1,
            decreases count - i,
        {
            let at = (16 + 12 * i) as usize;
            let ty = b[at];
            let off = read_u32_at(b, at + 4) as u64;
            let len = read_u32_at(b, at + 8) as u64;
            if off + len > plen {
                proof {
                    assert(record_offset(b@, i as int) + record_len(b@, i as int) > plen);
                }
                return None;
            }
            let start = pstart + off as usize;
            let end = start + len as usize;
            let mut piece: Vec<u8> = Vec::new();
            let mut k = start;
            while k < end
                invariant
                    start <= k <= end,
                    end <= b@.len(),
                    piece@ == b@.subrange(start as int, k as int),
                decreases end - k,
            {
                piece.push(b[k]);
                k = k + 1;
                proof {
                    assert(piece@ =~= b@.subrange(start as int, k as int));
                }
            }
            out.push((ty, piece));
            i = i + 1;
        }
        Some(out)
    }
}

proof fn lemma_read_le32_at(b: Seq<u8>, at: int, x: nat)
    requires
        0 <= at,
        at + 4 <= b.len(),
        x <= u32::MAX,
        b[at] == le32(x)[0],
        b[at + 1] == le32(x)[1],
        b[at + 2] == le32(x)[2],
        b[at + 3] == le32(x)[3],
    ensures
        read_le32(b, at) == x,
{
    lemma_le32_roundtrip(x);
}

proof fn lemma_records_len(ts: Seq<Token>)
    ensures
        stream_records(ts).len() == 12 * ts.len(),
    decreases ts.len(),
{
    if ts.len() > 0 {
        lemma_records_len(ts.drop_last());
    }
}

proof fn lemma_payload_prefix(ts: Seq<Token>, k: int)
    requires
        0 <= k <= ts.len(),
    ensures
        stream_payload(ts.take(k)).len() <= stream_payload(ts).len(),
        stream_payload(ts).subrange(0, stream_payload(ts.take(k)).len() as int) == stream_payload(
            ts.take(k),
        ),
    decreases ts.len(),
{
    if k == ts.len() {
        assert(ts.take(k) =~= ts);
        assert(stream_payload(ts).subrange(0, stream_payload(ts).len() as int) =~= stream_payload(
            ts,
        ));
    } else {
        let d = ts.drop_last();
        assert(d.take(k) =~= ts.take(k));
        lemma_payload_prefix(d, k);
        let p = stream_payload(ts.take(k));
        assert(stream_payload(ts).subrange(0, p.len() as int) =~= stream_payload(d).subrange(
            0,
            p.len() as int,
        ));
    }
}

proof fn lemma_record_at(ts: Seq<Token>, i: int)
    requires
        0 <= i < ts.len(),
    ensures
        stream_records(ts).subrange(12 * i, 12 * i + 12) == token_record(
            ts[i].token_type,
            stream_payload(ts.take(i)).len(),
            token_payload(ts[i]).len(),
        ),
    decreases ts.len(),
{
    let d = ts.drop_last();
    lemma_records_len(d);
    if i == ts.len() - 1 {
        assert(ts.take(i) =~= d);
        assert(stream_records(ts).subrange(12 * i, 12 * i + 12) =~= token_record(
            ts[i].token_type,
            stream_payload(ts.take(i)).len(),
            token_payload(ts[i]).len(),
        ));
    } else {
        lemma_record_at(d, i);
        assert(d.take(i) =~= ts.take(i));
        assert(stream_records(ts).subrange(12 * i, 12 * i + 12) =~= stream_records(d).subrange(
            12 * i,
            12 * i + 12,
        ));
    }
}

proof fn lemma_payload_at(ts: Seq<Token>, i: int)
    requires
        0 <= i < ts.len(),
    ensures
        stream_payload(ts.take(i)).len() + token_payload(ts[i]).len() <= stream_payload(ts).len(),
        stream_payload(ts).subrange(
            stream_payload(ts.take(i)).len() as int,
            (stream_payload(ts.take(i)).len() + token_payload(ts[i]).len()) as int,
        ) == token_payload(ts[i]),
    decreases ts.len(),
{
    let d = ts.drop_last();
    let off = stream_payload(ts.take(i)).len() as int;
    let len = token_payload(ts[i]).len() as int;
    if i == ts.len() - 1 {
        assert(ts.take(i) =~= d);
        assert(stream_payload(ts).subrange(off, off + len) =~= token_payload(ts[i]));
    } else {
        lemma_payload_at(d, i);
        assert(d.take(i) =~= ts.take(i));
        assert(stream_payload(ts).subrange(off, off + len) =~= stream_payload(d).subrange(
            off,
            off + len,
        ));
    }
}

proof fn lemma_encoded_layout(ts: Seq<Token>)
    ensures
        encoded_stream(ts).len() == 16 + 12 * ts.len() + stream_payload(ts).len(),
        forall|j: int|
            0 <= j < 12 * ts.len() ==> #[trigger] encoded_stream(ts)[16 + j] == stream_records(
                ts,
            )[j],
        forall|j: int|
            0 <= j < stream_payload(ts).len() ==> #[trigger] encoded_stream(ts)[16 + 12 * ts.len()
                + j] == stream_payload(ts)[j],
{
    lemma_records_len(ts);
    let h = stream_header(ts.len(), stream_payload(ts).len());
    assert(h.len() == 16);
}

proof fn lemma_encoded_record(ts: Seq<Token>, i: int)
    requires
        encode_error(ts) is None,
        0 <= i < ts.len(),
    ensures
        record_type(encoded_stream(ts), i) == ts[i].token_type,
        record_offset(encoded_stream(ts), i) == stream_payload(ts.take(i)).len(),
        record_len(encoded_stream(ts), i) == token_payload(ts[i]).len(),
{
    let b = encoded_stream(ts);
    let r = stream_records(ts);
    lemma_encoded_layout(ts);
    lemma_records_len(ts);
    lemma_record_at(ts, i);
    lemma_payload_at(ts, i);
    lemma_payload_prefix(ts, i);
    let rec = r.subrange(12 * i, 12 * i + 12);
    assert(forall|k: int| 0 <= k < 12 ==> b[16 + 12 * i + k] == #[trigger] rec[k]) by {
        assert forall|k: int| 0 <= k < 12 implies b[16 + 12 * i + k] == #[trigger] rec[k] by {
            assert(b[16 + (12 * i + k)] == r[12 * i + k]);
        }
    }
    assert(rec[0] == b[16 + 12 * i + 0]);
    assert(rec[4] == b[16 + 12 * i + 4]);
    assert(rec[5] == b[16 + 12 * i + 5]);
    assert(rec[6] == b[16 + 12 * i + 6]);
    assert(rec[7] == b[16 + 12 * i + 7]);
    assert(rec[8] == b[16 + 12 * i + 8]);
    assert(rec[9] == b[16 + 12 * i + 9]);
    assert(rec[10] == b[16 + 12 * i + 10]);
    assert(rec[11] == b[16 + 12 * i + 11]);
    lemma_read_le32_at(b, 16 + 12 * i + 4, stream_payload(ts.take(i)).len());
    lemma_read_le32_at(b, 16 + 12 * i + 8, token_payload(ts[i]).len());
}

proof fn lemma_encoded_header(ts: Seq<Token>)
    requires
        encode_error(ts) is None,
    ensures
        header_valid(encoded_stream(ts)),
        stream_count(encoded_stream(ts)) == ts.len(),
        stream_payload_len(encoded_stream(ts)) == stream_payload(ts).len(),
        encoded_stream(ts).len() == 16 + 12 * ts.len() + stream_payload(ts).len(),
{
    let b = encoded_stream(ts);
    lemma_encoded_layout(ts);
    lemma_read_le32_at(b, 8, ts.len());
    lemma_read_le32_at(b, 12, stream_payload(ts).len());
    assert(b.take(4) =~= stream_magic());
}

/// Decoding an encoded token stream gives back every token's type and
/// payload bytes, in order.
pub proof fn lemma_token_stream_roundtrip(ts: Seq<Token>)
    requires
        encode_error(ts) is None,
    ensures
        stream_well_formed(encoded_stream(ts)),
        stream_count(encoded_stream(ts)) == ts.len(),
        stream_entries(encoded_stream(ts)) == ts.map_values(|t: Token| token_entry(t)),
{
    let n = ts.len();
    let p = stream_payload(ts);
    let b = encoded_stream(ts);
    lemma_encoded_header(ts);
    lemma_encoded_layout(ts);
    assert forall|i: int| 0 <= i < stream_count(b) implies #[trigger] record_offset(b, i)
        + record_len(b, i) <= stream_payload_len(b) by {
        lemma_encoded_record(ts, i);
        lemma_payload_at(ts, i);
    }
    assert forall|i: int| 0 <= i < n implies #[trigger] stream_entries(b)[i] == token_entry(
        ts[i],
    ) by {
        lemma_encoded_record(ts, i);
        lemma_payload_at(ts, i);
        let off = stream_payload(ts.take(i)).len() as int;
        let len = token_payload(ts[i]).len() as int;
        assert(b.subrange(16 + 12 * n + off, 16 + 12 * n + off + len) =~= p.subrange(
            off,
            off + len,
        ));
    }
    assert(stream_entries(b) =~= ts.map_values(|t: Token| token_entry(t)));
}
} // verus!
