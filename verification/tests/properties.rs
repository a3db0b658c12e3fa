use bottom::decode_byte;
use bottom::decode_string_long;
use bottom::delongate;
use bottom::encode_byte;
use bottom::encode_string;

#[test]
fn round_trip_ascii() {
    for text in ["Test", "hello world", "a", "0123456789", "!@#$%^&*()"] {
        let encoded = encode_string(text);
        assert_eq!(decode_string_long(&encoded, false).unwrap(), text);
    }
}

#[test]
fn round_trip_multibyte() {
    for text in ["🥺", "がんばれ", "héllo", "mixed ascii と 日本語"] {
        let encoded = encode_string(text);
        assert_eq!(decode_string_long(&encoded, false).unwrap(), text);
    }
}

#[test]
fn per_byte_bijection() {
    for v in 0..=255u8 {
        let token = encode_byte(v);
        // The marked token decodes back.
        assert_eq!(decode_byte(&token).unwrap(), v);
        // So does the bare token, with the trailing marker split off.
        let bare = token.strip_suffix("👉👈").unwrap();
        assert_eq!(decode_byte(bare).unwrap(), v);
    }
}

#[test]
fn legacy_and_modern_agree() {
    let modern = encode_string("Compat");
    let legacy = modern
        .strip_suffix("👉👈")
        .unwrap()
        .replace("👉👈", "\u{200B}")
        + "\u{200B}";
    let from_modern = decode_string_long(&modern, false).unwrap();
    let from_legacy = decode_string_long(&legacy, false).unwrap();
    assert_eq!(from_modern, "Compat");
    assert_eq!(from_legacy, "Compat");
}

#[test]
fn alias_names_match_literals() {
    let literal = "💖✨✨✨,,,,👉👈";
    let spelled = ":sparkling_heart::sparkles::sparkles::sparkles:,,,,:point_right::point_left:";
    assert_eq!(
        decode_string_long(spelled, true).unwrap(),
        decode_string_long(literal, false).unwrap()
    );
}

#[test]
fn delongate_expands_each_name() {
    assert_eq!(delongate(":sparkling_heart:"), "💖");
    assert_eq!(delongate(":pleading_face:"), "🥺");
    assert_eq!(delongate(":point_left:"), "👈");
    assert_eq!(delongate(":point_right:"), "👉");
    assert_eq!(delongate(":sparkles:"), "✨");
}

#[test]
fn delongate_leaves_other_text_alone() {
    assert_eq!(delongate(""), "");
    assert_eq!(delongate("plain text, no names"), "plain text, no names");
    assert_eq!(delongate("💖✨"), "💖✨");
}

#[test]
fn delongate_twice_is_delongate_once() {
    let spelled = ":sparkling_heart::sparkles:,:point_right::point_left:";
    let once = delongate(spelled);
    assert_eq!(delongate(&once), once);
}

#[test]
fn unknown_fragment_fails() {
    let err = decode_string_long("abc", false).unwrap_err();
    assert_eq!(err.why, "Cannot decode character abc");
}

#[test]
fn unknown_fragment_fails_first() {
    // Both fragments are bad; the first one is reported.
    let err = decode_string_long("xx👉👈yy👉👈", false).unwrap_err();
    assert_eq!(err.why, "Cannot decode character xx");
}

#[test]
fn empty_fragment_fails() {
    // A doubled trailing marker leaves one empty fragment after the trim.
    let err = decode_string_long("💖💖,,,,👉👈👉👈", false).unwrap_err();
    assert_eq!(err.why, "Cannot decode character ");
}

#[test]
fn empty_input_fails() {
    // The empty string splits into one empty fragment, which no token matches.
    assert!(decode_string_long("", false).is_err());
}

#[test]
fn determinism() {
    let a = encode_string("same input");
    let b = encode_string("same input");
    assert_eq!(a, b);
    assert_eq!(
        decode_string_long(&a, false).unwrap(),
        decode_string_long(&b, false).unwrap()
    );
    let e1 = decode_string_long("nope", false).unwrap_err();
    let e2 = decode_string_long("nope", false).unwrap_err();
    assert_eq!(e1.why, e2.why);
}

#[test]
fn zero_byte_token() {
    assert_eq!(encode_byte(0), "❤️👉👈");
    assert_eq!(decode_byte("❤️").unwrap(), 0);
    assert_eq!(encode_string("\u{0}"), "❤️👉👈");
}

#[test]
fn invalid_utf8_bytes_are_repaired() {
    // The token of byte 255 decodes to one byte that is not valid UTF-8,
    // so reassembly substitutes the replacement character.
    assert_eq!(encode_byte(255), "🫂💖🥺👉👈");
    assert_eq!(
        decode_string_long("🫂💖🥺👉👈", false).unwrap(),
        "\u{FFFD}"
    );
}

#[test]
fn largest_and_smallest_tokens() {
    // 255 = 200 + 50 + 5 and 1 is a single comma.
    assert_eq!(decode_byte("🫂💖🥺").unwrap(), 255);
    assert_eq!(decode_byte(",").unwrap(), 1);
    // The comma count is exact: six commas are not a token.
    assert!(decode_byte(",,,,,,").is_err());
}
