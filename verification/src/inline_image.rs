//! Inline images: the MIME type of an image file and its `data:` URL.
//!
//! Reading the file is left to the caller: [`inline_image_mime_type`]
//! checks the inputs before the read, [`inline_image_data_url`] encodes
//! the bytes that were read.

use vstd::prelude::*;
use vstd::string::{StrSliceExecFns, StringExecFns};

verus! {

/// The 64 characters of standard base64, by value.
pub open spec fn b64_table() -> Seq<char> {
    seq![
        'A', 'B', 'C', 'D', 'E', 'F', 'G', 'H', 'I', 'J', 'K', 'L', 'M', 'N', 'O', 'P', 'Q', 'R',
        'S', 'T', 'U', 'V', 'W', 'X', 'Y', 'Z', 'a', 'b', 'c', 'd', 'e', 'f', 'g', 'h', 'i', 'j',
        'k', 'l', 'm', 'n', 'o', 'p', 'q', 'r', 's', 't', 'u', 'v', 'w', 'x', 'y', 'z', '0', '1',
        '2', '3', '4', '5', '6', '7', '8', '9', '+', '/',
    ]
}

/// The base64 character of a 6-bit value.
pub open spec fn b64(v: int) -> char {
    b64_table()[v]
}

/// Standard base64 with `=` padding: every 3 bytes become 4 characters;
/// a final 1 or 2 bytes become 2 or 3 characters and padding.
pub open spec fn base64(s: Seq<u8>) -> Seq<char>
    decreases s.len(),
{
    if s.len() == 0 {
        Seq::empty()
    } else if s.len() == 1 {
        let a = s[0] as int;
        seq![b64(a / 4), b64((a % 4) * 16), '=', '=']
    } else if s.len() == 2 {
        let a = s[0] as int;
        let b = s[1] as int;
        seq![b64(a / 4), b64((a % 4) * 16 + b / 16), b64((b % 16) * 4), '=']
    } else {
        let a = s[0] as int;
        let b = s[1] as int;
        let c = s[2] as int;
        seq![b64(a / 4), b64((a % 4) * 16 + b / 16), b64((b % 16) * 4 + c / 64), b64(c % 64)]
            + base64(s.skip(3))
    }
}

fn push_b64(out: &mut String, v: u8)
    requires
        v < 64,
    ensures
        final(out)@ == old(out)@.push(b64(v as int)),
{
    let table = "ABCDEFGHIJKLMNOPQRSTUVWXYZabcdefghijklmnopqrstuvwxyz0123456789+/";
    proof {
        reveal_strlit("ABCDEFGHIJKLMNOPQRSTUVWXYZabcdefghijklmnopqrstuvwxyz0123456789+/");
        assert(table@ =~= b64_table());
        assert(vstd::string::is_ascii(table)) by {
            assert(forall|i: int| 0 <= i < 64 ==> (#[trigger] b64_table()[i]) as u32 <= 127);
        }
    }
    let v = v as usize;
    let c = table.substring_ascii(v, v + 1);
    out.append(c);
    proof {
        assert(c@ =~= seq![b64(v as int)]);
    }
}

fn push_pad(out: &mut String)
    ensures
        final(out)@ == old(out)@.push('='),
{
    proof {
        reveal_strlit("=");
    }
    out.append("=");
}

proof fn lemma_base64_chunks(s: Seq<u8>, k: int)
    requires
        0 <= k,
        3 * k <= s.len(),
    ensures
        base64(s) == base64_full(s.take(3 * k)) + base64(s.skip(3 * k)),
    decreases k,
{
    if k == 0 {
        assert(s.take(0) =~= Seq::<u8>::empty());
        assert(s.skip(0) =~= s);
    } else {
        lemma_base64_chunks(s, k - 1);
        let t = s.skip(3 * (k - 1));
        assert(t.skip(3) =~= s.skip(3 * k));
        assert(s.take(3 * k) =~= s.take(3 * (k - 1)) + t.take(3));
        lemma_base64_full_append(s.take(3 * (k - 1)), t.take(3));
        assert(t.len() >= 3);
        lemma_chunk(t.take(3));
        assert(base64(t) =~= base64_full(t.take(3)) + base64(s.skip(3 * k)));
    }
}

proof fn lemma_chunk(t: Seq<u8>)
    requires
        t.len() == 3,
    ensures
        base64_full(t) == seq![
            b64(t[0] as int / 4),
            b64((t[0] as int % 4) * 16 + t[1] as int / 16),
            b64((t[1] as int % 16) * 4 + t[2] as int / 64),
            b64(t[2] as int % 64),
        ],
{
    assert(t.skip(3) =~= Seq::<u8>::empty());
    assert(base64_full(t.skip(3)) =~= Seq::<char>::empty());
}

/// The base64 text of whole 3-byte chunks.
pub open spec fn base64_full(s: Seq<u8>) -> Seq<char>
    decreases s.len(),
{
    if s.len() < 3 {
        Seq::empty()
    } else {
        let a = s[0] as int;
        let b = s[1] as int;
        let c = s[2] as int;
        seq![b64(a / 4), b64((a % 4) * 16 + b / 16), b64((b % 16) * 4 + c / 64), b64(c % 64)]
            + base64_full(s.skip(3))
    }
}

proof fn lemma_base64_full_append(s: Seq<u8>, t: Seq<u8>)
    requires
        s.len() % 3 == 0,
        t.len() == 3,
    ensures
        base64_full(s + t) == base64_full(s) + base64_full(t),
    decreases s.len(),
{
    if s.len() == 0 {
        assert(s + t =~= t);
        assert(t.skip(3) =~= Seq::<u8>::empty());
    } else {
        lemma_base64_full_append(s.skip(3), t);
        assert((s + t).skip(3) =~= s.skip(3) + t);
        assert((s + t)[0] == s[0] && (s + t)[1] == s[1] && (s + t)[2] == s[2]);
    }
}

/// Encodes bytes as standard base64 with `=` padding.
pub fn encode_base64(bytes: &[u8]) -> (encoded: String)
    ensures
        encoded@ == base64(bytes@),
{
    let mut encoded = String::new();
    let n = bytes.len();
    let full = n / 3;
    let mut k: usize = 0;
    while k < full
        invariant
            n == bytes@.len(),
            full == n / 3,
            k <= full,
            encoded@ == base64_full(bytes@.take(3 * k)),
        decreases full - k,
    {
        let i = 3 * k;
        let a = bytes[i];
        let b = bytes[i + 1];
        let c = bytes[i + 2];
        push_b64(&mut encoded, a / 4);
        push_b64(&mut encoded, (a % 4) * 16 + b / 16);
        push_b64(&mut encoded, (b % 16) * 4 + c / 64);
        push_b64(&mut encoded, c % 64);
        proof {
            let s = bytes@;
            let t = s.skip(3 * k).take(3);
            assert(s.take(3 * (k + 1)) =~= s.take(3 * k) + t);
            lemma_base64_full_append(s.take(3 * k), t);
            assert(t[0] == a && t[1] == b && t[2] == c);
            lemma_chunk(t);
        }
        k = k + 1;
    }
    let rest = n - 3 * full;
    proof {
        lemma_base64_chunks(bytes@, full as int);
    }
    if rest == 1 {
        let a = bytes[3 * full];
        push_b64(&mut encoded, a / 4);
        push_b64(&mut encoded, (a % 4) * 16);
        push_pad(&mut encoded);
        push_pad(&mut encoded);
    } else if rest == 2 {
        let a = bytes[3 * full];
        let b = bytes[3 * full + 1];
        push_b64(&mut encoded, a / 4);
        push_b64(&mut encoded, (a % 4) * 16 + b / 16);
        push_b64(&mut encoded, (b % 16) * 4);
        push_pad(&mut encoded);
    }
    proof {
        let tail = bytes@.skip(3 * full);
        assert(tail.len() == rest);
        if rest == 0 {
            assert(tail =~= Seq::<u8>::empty());
        }
    }
    encoded
}


/// The extension of a path, as `std::path::Path::extension` finds it.
pub uninterp spec fn path_extension_of(path: Seq<char>) -> Option<Seq<char>>;

/// Calls `std::path::Path::extension` on the path and reads the extension
/// as text. The extension is named by [`path_extension_of`], a function of
/// the path alone; an extension that is not valid UTF-8 (impossible for a
/// path made from a `&str`) reads as none.
#[verifier::external_body]
fn path_extension(path: &str) -> (r: Option<String>)
    ensures
        match r {
            Some(e) => path_extension_of(path@) == Some(e@),
            None => path_extension_of(path@) is None,
        },
{
    std::path::Path::new(path).extension().and_then(|e| e.to_str()).map(|e| e.to_owned())
}

/// ASCII upper-case letters become lower-case; other characters stay.
pub open spec fn ascii_lower(c: char) -> char {
    if 'A' <= c && c <= 'Z' {
        ((c as u32) + 32) as char
    } else {
        c
    }
}

/// The text with its ASCII letters in lower case.
pub open spec fn ascii_lowercase(s: Seq<char>) -> Seq<char> {
    s.map_values(|c: char| ascii_lower(c))
}

/// True when the text, with its ASCII letters in lower case, is `lit`.
fn lowercase_is(text: &str, lit: &str) -> (r: bool)
    ensures
        r == (ascii_lowercase(text@) == lit@),
{
    let n = text.unicode_len();
    let m = lit.unicode_len();
    if n != m {
        proof {
            assert(ascii_lowercase(text@).len() == n);
        }
        return false;
    }
    let mut i: usize = 0;
    while i < n
        invariant
            n == text@.len(),
            m == lit@.len(),
            n == m,
            i <= n,
            forall|t: int| 0 <= t < i ==> ascii_lower(#[trigger] text@[t]) == lit@[t],
        decreases n - i,
    {
        let c = text.get_char(i);
        let d = lit.get_char(i);
        let lower = if 'A' <= c && c <= 'Z' {
            ((c as u32) + 32) as u8 as char
        } else {
            c
        };
        proof {
            if 'A' <= c && c <= 'Z' {
                assert(((c as u32) + 32) < 256);
            }
        }
        if lower != d {
            proof {
                assert(ascii_lowercase(text@)[i as int] != lit@[i as int]);
            }
            return false;
        }
        i = i + 1;
    }
    proof {
        assert(ascii_lowercase(text@) =~= lit@);
    }
    true
}

/// The image MIME type for a file extension, ASCII case ignored.
pub open spec fn mime_for_extension(ext: Seq<char>) -> Option<Seq<char>> {
    let e = ascii_lowercase(ext);
    if e == "apng"@ {
        Some("image/apng"@)
    } else if e == "avif"@ {
        Some("image/avif"@)
    } else if e == "bmp"@ {
        Some("image/bmp"@)
    } else if e == "gif"@ {
        Some("image/gif"@)
    } else if e == "ico"@ {
        Some("image/x-icon"@)
    } else if e == "jpeg"@ || e == "jpg"@ {
        Some("image/jpeg"@)
    } else if e == "png"@ {
        Some("image/png"@)
    } else if e == "svg"@ || e == "svgz"@ {
        Some("image/svg+xml"@)
    } else if e == "webp"@ {
        Some("image/webp"@)
    } else {
        None
    }
}

/// The image types known by extension, ASCII case ignored: each listed
/// extension gives its MIME type, and no other extension gives one.
pub proof fn lemma_image_extensions(ext: Seq<char>)
    ensures
        ascii_lowercase(ext) == "apng"@ ==> mime_for_extension(ext) == Some("image/apng"@),
        ascii_lowercase(ext) == "avif"@ ==> mime_for_extension(ext) == Some("image/avif"@),
        ascii_lowercase(ext) == "bmp"@ ==> mime_for_extension(ext) == Some("image/bmp"@),
        ascii_lowercase(ext) == "gif"@ ==> mime_for_extension(ext) == Some("image/gif"@),
        ascii_lowercase(ext) == "ico"@ ==> mime_for_extension(ext) == Some("image/x-icon"@),
        ascii_lowercase(ext) == "jpeg"@ ==> mime_for_extension(ext) == Some("image/jpeg"@),
        ascii_lowercase(ext) == "jpg"@ ==> mime_for_extension(ext) == Some("image/jpeg"@),
        ascii_lowercase(ext) == "png"@ ==> mime_for_extension(ext) == Some("image/png"@),
        ascii_lowercase(ext) == "svg"@ ==> mime_for_extension(ext) == Some("image/svg+xml"@),
        ascii_lowercase(ext) == "svgz"@ ==> mime_for_extension(ext) == Some("image/svg+xml"@),
        ascii_lowercase(ext) == "webp"@ ==> mime_for_extension(ext) == Some("image/webp"@),
        mime_for_extension(ext) is Some <==> (ascii_lowercase(ext) == "apng"@ || ascii_lowercase(ext) == "avif"@ || ascii_lowercase(ext) == "bmp"@ || ascii_lowercase(ext) == "gif"@ || ascii_lowercase(ext) == "ico"@ || ascii_lowercase(ext) == "jpeg"@ || ascii_lowercase(ext) == "jpg"@ || ascii_lowercase(ext) == "png"@ || ascii_lowercase(ext) == "svg"@ || ascii_lowercase(ext) == "svgz"@ || ascii_lowercase(ext) == "webp"@),
{
    reveal_strlit("apng");
    reveal_strlit("avif");
    reveal_strlit("bmp");
    reveal_strlit("gif");
    reveal_strlit("ico");
    reveal_strlit("jpeg");
    reveal_strlit("jpg");
    reveal_strlit("png");
    reveal_strlit("svg");
    reveal_strlit("svgz");
    reveal_strlit("webp");
    assert("apng"@ != "avif"@) by { assert("apng"@[1] != "avif"@[1]); }
    assert("apng"@ != "bmp"@) by { assert("apng"@.len() != "bmp"@.len()); }
    assert("apng"@ != "gif"@) by { assert("apng"@.len() != "gif"@.len()); }
    assert("apng"@ != "ico"@) by { assert("apng"@.len() != "ico"@.len()); }
    assert("apng"@ != "jpeg"@) by { assert("apng"@[0] != "jpeg"@[0]); }
    assert("apng"@ != "jpg"@) by { assert("apng"@.len() != "jpg"@.len()); }
    assert("apng"@ != "png"@) by { assert("apng"@.len() != "png"@.len()); }
    assert("apng"@ != "svg"@) by { assert("apng"@.len() != "svg"@.len()); }
    assert("apng"@ != "svgz"@) by { assert("apng"@[0] != "svgz"@[0]); }
    assert("apng"@ != "webp"@) by { assert("apng"@[0] != "webp"@[0]); }
    assert("avif"@ != "bmp"@) by { assert("avif"@.len() != "bmp"@.len()); }
    assert("avif"@ != "gif"@) by { assert("avif"@.len() != "gif"@.len()); }
    assert("avif"@ != "ico"@) by { assert("avif"@.len() != "ico"@.len()); }
    assert("avif"@ != "jpeg"@) by { assert("avif"@[0] != "jpeg"@[0]); }
    assert("avif"@ != "jpg"@) by { assert("avif"@.len() != "jpg"@.len()); }
    assert("avif"@ != "png"@) by { assert("avif"@.len() != "png"@.len()); }
    assert("avif"@ != "svg"@) by { assert("avif"@.len() != "svg"@.len()); }
    assert("avif"@ != "svgz"@) by { assert("avif"@[0] != "svgz"@[0]); }
    assert("avif"@ != "webp"@) by { assert("avif"@[0] != "webp"@[0]); }
    assert("bmp"@ != "gif"@) by { assert("bmp"@[0] != "gif"@[0]); }
    assert("bmp"@ != "ico"@) by { assert("bmp"@[0] != "ico"@[0]); }
    assert("bmp"@ != "jpeg"@) by { assert("bmp"@.len() != "jpeg"@.len()); }
    assert("bmp"@ != "jpg"@) by { assert("bmp"@[0] != "jpg"@[0]); }
    assert("bmp"@ != "png"@) by { assert("bmp"@[0] != "png"@[0]); }
    assert("bmp"@ != "svg"@) by { assert("bmp"@[0] != "svg"@[0]); }
    assert("bmp"@ != "svgz"@) by { assert("bmp"@.len() != "svgz"@.len()); }
    assert("bmp"@ != "webp"@) by { assert("bmp"@.len() != "webp"@.len()); }
    assert("gif"@ != "ico"@) by { assert("gif"@[0] != "ico"@[0]); }
    assert("gif"@ != "jpeg"@) by { assert("gif"@.len() != "jpeg"@.len()); }
    assert("gif"@ != "jpg"@) by { assert("gif"@[0] != "jpg"@[0]); }
    assert("gif"@ != "png"@) by { assert("gif"@[0] != "png"@[0]); }
    assert("gif"@ != "svg"@) by { assert("gif"@[0] != "svg"@[0]); }
    assert("gif"@ != "svgz"@) by { assert("gif"@.len() != "svgz"@.len()); }
    assert("gif"@ != "webp"@) by { assert("gif"@.len() != "webp"@.len()); }
    assert("ico"@ != "jpeg"@) by { assert("ico"@.len() != "jpeg"@.len()); }
    assert("ico"@ != "jpg"@) by { assert("ico"@[0] != "jpg"@[0]); }
    assert("ico"@ != "png"@) by { assert("ico"@[0] != "png"@[0]); }
    assert("ico"@ != "svg"@) by { assert("ico"@[0] != "svg"@[0]); }
    assert("ico"@ != "svgz"@) by { assert("ico"@.len() != "svgz"@.len()); }
    assert("ico"@ != "webp"@) by { assert("ico"@.len() != "webp"@.len()); }
    assert("jpeg"@ != "jpg"@) by { assert("jpeg"@.len() != "jpg"@.len()); }
    assert("jpeg"@ != "png"@) by { assert("jpeg"@.len() != "png"@.len()); }
    assert("jpeg"@ != "svg"@) by { assert("jpeg"@.len() != "svg"@.len()); }
    assert("jpeg"@ != "svgz"@) by { assert("jpeg"@[0] != "svgz"@[0]); }
    assert("jpeg"@ != "webp"@) by { assert("jpeg"@[0] != "webp"@[0]); }
    assert("jpg"@ != "png"@) by { assert("jpg"@[0] != "png"@[0]); }
    assert("jpg"@ != "svg"@) by { assert("jpg"@[0] != "svg"@[0]); }
    assert("jpg"@ != "svgz"@) by { assert("jpg"@.len() != "svgz"@.len()); }
    assert("jpg"@ != "webp"@) by { assert("jpg"@.len() != "webp"@.len()); }
    assert("png"@ != "svg"@) by { assert("png"@[0] != "svg"@[0]); }
    assert("png"@ != "svgz"@) by { assert("png"@.len() != "svgz"@.len()); }
    assert("png"@ != "webp"@) by { assert("png"@.len() != "webp"@.len()); }
    assert("svg"@ != "svgz"@) by { assert("svg"@.len() != "svgz"@.len()); }
    assert("svg"@ != "webp"@) by { assert("svg"@.len() != "webp"@.len()); }
    assert("svgz"@ != "webp"@) by { assert("svgz"@[0] != "webp"@[0]); }
}

/// The MIME type of an extension does not depend on the case of its ASCII
/// letters.
pub proof fn lemma_extension_case_ignored(ext: Seq<char>)
    ensures
        mime_for_extension(ext) == mime_for_extension(ascii_lowercase(ext)),
{
    assert forall|i: int| 0 <= i < ext.len() implies ascii_lower(ascii_lower(#[trigger] ext[i])) == ascii_lower(
        ext[i],
    ) by {
        let c = ext[i];
        if 'A' <= c && c <= 'Z' {
            assert('a' <= ascii_lower(c) && ascii_lower(c) <= 'z');
        }
    }
    assert(ascii_lowercase(ascii_lowercase(ext)) =~= ascii_lowercase(ext));
}

/// The image MIME type of a path, from its extension.
pub open spec fn mime_for_path(path: Seq<char>) -> Option<Seq<char>> {
    match path_extension_of(path) {
        Some(ext) => mime_for_extension(ext),
        None => None,
    }
}

/// The image MIME type of a file extension, ASCII case ignored.
pub fn mime_type_for_extension(ext: &str) -> (r: Option<String>)
    ensures
        match r {
            Some(m) => mime_for_extension(ext@) == Some(m@),
            None => mime_for_extension(ext@) is None,
        },
{
    let mime = if lowercase_is(ext, "apng") {
        "image/apng"
    } else if lowercase_is(ext, "avif") {
        "image/avif"
    } else if lowercase_is(ext, "bmp") {
        "image/bmp"
    } else if lowercase_is(ext, "gif") {
        "image/gif"
    } else if lowercase_is(ext, "ico") {
        "image/x-icon"
    } else if lowercase_is(ext, "jpeg") || lowercase_is(ext, "jpg") {
        "image/jpeg"
    } else if lowercase_is(ext, "png") {
        "image/png"
    } else if lowercase_is(ext, "svg") || lowercase_is(ext, "svgz") {
        "image/svg+xml"
    } else if lowercase_is(ext, "webp") {
        "image/webp"
    } else {
        return None;
    };
    Some(mime.to_owned())
}

/// Infers an image MIME type from the extension of a path.
pub fn infer_image_mime_type(path: &str) -> (r: Option<String>)
    ensures
        match r {
            Some(m) => mime_for_path(path@) == Some(m@),
            None => mime_for_path(path@) is None,
        },
{
    match path_extension(path) {
        Some(ext) => mime_type_for_extension(ext.as_str()),
        None => None,
    }
}

/// Why an inline image was refused.
#[derive(Debug, Clone, Copy, PartialEq, Eq, Structural)]
pub enum InlineImageError {
    /// The path is empty.
    EmptyPath,
    /// The MIME type given is empty.
    EmptyMimeType,
    /// No MIME type was given and none follows from the extension.
    UnknownMimeType,
}

impl InlineImageError {
    /// The message reported for the error.
    pub fn message(self) -> (s: &'static str)
        ensures
            self == InlineImageError::EmptyPath ==> s@ == "inline image path cannot be empty"@,
            self == InlineImageError::EmptyMimeType ==> s@
                == "inline image MIME type cannot be empty"@,
            self == InlineImageError::UnknownMimeType ==> s@
                == "could not infer image MIME type from file extension; pass it explicitly as the second argument"@,
    {
        match self {
            InlineImageError::EmptyPath => "inline image path cannot be empty",
            InlineImageError::EmptyMimeType => "inline image MIME type cannot be empty",
            InlineImageError::UnknownMimeType => "could not infer image MIME type from file extension; pass it explicitly as the second argument",
        }
    }
}

/// Checks an inline image request before the file is read: the path must
/// not be empty; a MIME type given must not be empty, and one not given
/// must follow from the extension. Returns the MIME type to use.
pub fn inline_image_mime_type(path: &str, mime_type: Option<&str>) -> (r: Result<
    String,
    InlineImageError,
>)
    ensures
        path@.len() == 0 ==> r == Err::<String, InlineImageError>(InlineImageError::EmptyPath),
        path@.len() > 0 ==> match mime_type {
            Some(m) => if m@.len() == 0 {
                r == Err::<String, InlineImageError>(InlineImageError::EmptyMimeType)
            } else {
                r matches Ok(s) && s@ == m@
            },
            None => match mime_for_path(path@) {
                Some(inferred) => r matches Ok(s) && s@ == inferred,
                None => r == Err::<String, InlineImageError>(InlineImageError::UnknownMimeType),
            },
        },
{
    if path.unicode_len() == 0 {
        return Err(InlineImageError::EmptyPath);
    }
    match mime_type {
        Some(m) => {
            if m.unicode_len() == 0 {
                Err(InlineImageError::EmptyMimeType)
            } else {
                Ok(m.to_owned())
            }
        },
        None => match infer_image_mime_type(path) {
            Some(s) => Ok(s),
            None => Err(InlineImageError::UnknownMimeType),
        },
    }
}

/// The `data:` URL of an image: `data:`, the MIME type, `;base64,` and
/// the base64 text of the bytes.
pub fn inline_image_data_url(mime_type: &str, bytes: &[u8]) -> (url: String)
    ensures
        url@ == "data:"@ + mime_type@ + ";base64,"@ + base64(bytes@),
{
    let url = String::from_str("data:");
    let url = url.concat(mime_type);
    let url = url.concat(";base64,");
    let encoded = encode_base64(bytes);
    url.concat(encoded.as_str())
}

} // verus!
