use lynx_yew::inline_image::{
    encode_base64, infer_image_mime_type, inline_image_data_url, inline_image_mime_type,
    InlineImageError,
};

fn inline_image(path: &str, mime_type: Option<&str>, bytes: &[u8]) -> Result<String, InlineImageError> {
    let mime = inline_image_mime_type(path, mime_type)?;
    Ok(inline_image_data_url(&mime, bytes))
}

#[test]
fn inlines_image_with_inferred_mime_type() {
    let svg = b"<svg xmlns=\"http://www.w3.org/2000/svg\" width=\"1\" height=\"1\"/>\n";
    assert_eq!(
        inline_image("tests/inline_image_macro/square.svg", None, svg).unwrap(),
        "data:image/svg+xml;base64,PHN2ZyB4bWxucz0iaHR0cDovL3d3dy53My5vcmcvMjAwMC9zdmciIHdpZHRoPSIxIiBoZWlnaHQ9IjEiLz4K",
    );
}

#[test]
fn inlines_image_with_explicit_mime_type() {
    assert_eq!(
        inline_image("tests/inline_image_macro/raw.image", Some("image/custom"), b"image-bytes\n").unwrap(),
        "data:image/custom;base64,aW1hZ2UtYnl0ZXMK"
    );
}

#[test]
fn base64_pads_short_tails() {
    assert_eq!(encode_base64(b""), "");
    assert_eq!(encode_base64(b"f"), "Zg==");
    assert_eq!(encode_base64(b"fo"), "Zm8=");
    assert_eq!(encode_base64(b"foo"), "Zm9v");
    assert_eq!(encode_base64(b"foob"), "Zm9vYg==");
    assert_eq!(encode_base64(&[0xff, 0xef, 0xbe]), "/+++");
}

#[test]
fn mime_types_follow_extensions() {
    assert_eq!(infer_image_mime_type("a/b.PNG").as_deref(), Some("image/png"));
    assert_eq!(infer_image_mime_type("x.jpg").as_deref(), Some("image/jpeg"));
    assert_eq!(infer_image_mime_type("x.Jpeg").as_deref(), Some("image/jpeg"));
    assert_eq!(infer_image_mime_type("x.svgz").as_deref(), Some("image/svg+xml"));
    assert_eq!(infer_image_mime_type("x.ico").as_deref(), Some("image/x-icon"));
    assert_eq!(infer_image_mime_type("x.txt"), None);
    assert_eq!(infer_image_mime_type("noext"), None);
    assert_eq!(infer_image_mime_type(".png"), None);
}

#[test]
fn inline_image_errors() {
    assert_eq!(inline_image_mime_type("", None), Err(InlineImageError::EmptyPath));
    assert_eq!(inline_image_mime_type("a.png", Some("")), Err(InlineImageError::EmptyMimeType));
    assert_eq!(inline_image_mime_type("a.bin", None), Err(InlineImageError::UnknownMimeType));
    assert_eq!(InlineImageError::EmptyPath.message(), "inline image path cannot be empty");
}
