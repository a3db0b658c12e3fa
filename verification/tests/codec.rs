use bottom::decode_byte;
use bottom::decode_string_long;
use bottom::encode_byte;
use bottom::encode_string;
use bottom::TranslationError;

fn decode_string(input: &str) -> Result<String, TranslationError> {
    decode_string_long(input, false)
}

#[test]
fn test_string_encode() {
    assert_eq!(
        encode_string("Test"),
        "💖✨✨✨,,,,👉👈💖💖,👉👈💖💖✨🥺👉👈💖💖✨🥺,👉👈"
    );
}

#[test]
fn test_byte_encode() {
    assert_eq!(encode_byte(b'h'), "💖💖,,,,👉👈",);
}

#[test]
fn test_char_decode() {
    assert_eq!(decode_byte("💖💖,,,,").unwrap(), b'h',);
}

#[test]
fn test_string_decode() {
    // Test that we haven't killed backwards-compat
    assert_eq!(
        decode_string("💖✨✨✨,,,,\u{200B}💖💖,\u{200B}💖💖✨🥺\u{200B}💖💖✨🥺,\u{200B}")
            .unwrap(),
        "Test"
    );
    assert_eq!(
        decode_string("💖✨✨✨,,,,👉👈💖💖,👉👈💖💖✨🥺👉👈💖💖✨🥺,👉👈").unwrap(),
        "Test"
    );
}

#[test]
fn test_unicode_string_encode() {
    assert_eq!(
        encode_string("🥺"),
        "🫂✨✨✨✨👉👈💖💖💖🥺,,,,👉👈💖💖💖✨🥺👉👈💖💖💖✨✨✨🥺,👉👈"
    );
    assert_eq!(
        encode_string("がんばれ"),
        "🫂✨✨🥺,,👉👈💖💖✨✨🥺,,,,👉👈💖💖✨✨✨✨👉👈🫂✨✨🥺,,👉👈\
            💖💖✨✨✨👉👈💖💖✨✨✨✨🥺,,👉👈🫂✨✨🥺,,👉👈💖💖✨✨🥺,,,,👉👈\
            💖💖💖✨✨🥺,👉👈🫂✨✨🥺,,👉👈💖💖✨✨✨👉👈💖💖✨✨✨✨👉👈"
    );
}

#[test]
fn test_unicode_string_decode() {
    assert_eq!(
        decode_string("🫂✨✨✨✨👉👈💖💖💖🥺,,,,👉👈💖💖💖✨🥺👉👈💖💖💖✨✨✨🥺,👉👈")
            .unwrap(),
        "🥺",
    );
    assert_eq!(
        decode_string(
            "🫂✨✨🥺,,👉👈💖💖✨✨🥺,,,,👉👈💖💖✨✨✨✨👉👈🫂✨✨🥺,,👉👈\
            💖💖✨✨✨👉👈💖💖✨✨✨✨🥺,,👉👈🫂✨✨🥺,,👉👈💖💖✨✨🥺,,,,👉👈\
            💖💖💖✨✨🥺,👉👈🫂✨✨🥺,,👉👈💖💖✨✨✨👉👈💖💖✨✨✨✨👉👈"
        )
        .unwrap(),
        "がんばれ",
    );
}

#[test]
fn test_long_names() {
    assert_eq!(
        decode_string_long(":sparkling_heart::sparkles::sparkles::pleading_face:,:point_right::point_left::sparkling_heart::sparkling_heart::sparkles:,:point_right::point_left::sparkling_heart::sparkling_heart::sparkles::point_right::point_left::sparkling_heart::sparkling_heart:,,,:point_right::point_left:", true)
            .unwrap(),
        "Long",
    );
}
