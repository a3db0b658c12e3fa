//! The fixed bijection between byte values and tokens.
//!
//! A token is the canonical greedy decomposition of a byte value over the
//! symbol values 200, 50, 10, 5 and 1; the zero byte has the two-character
//! heart token of its own.  The forward direction appends the modern
//! two-character marker; the reverse direction accepts a token with or
//! without that marker.

use vstd::prelude::*;

verus! {

/// Error carried out of decoding when a fragment matches no token.
#[derive(Debug)]
pub struct TranslationError {
    pub why: String,
}

/// The canonical counting token for a value: symbols for 200, 50, 10, 5
/// and 1, greedily, largest first.
pub open spec fn token_chars(v: nat) -> Seq<char>
    decreases v,
{
    if v >= 200 {
        seq!['\u{1FAC2}'] + token_chars((v - 200) as nat)
    } else if v >= 50 {
        seq!['\u{1F496}'] + token_chars((v - 50) as nat)
    } else if v >= 10 {
        seq!['\u{2728}'] + token_chars((v - 10) as nat)
    } else if v >= 5 {
        seq!['\u{1F97A}'] + token_chars((v - 5) as nat)
    } else if v >= 1 {
        seq![','] + token_chars((v - 1) as nat)
    } else {
        Seq::empty()
    }
}

/// The token of a byte value: the heart pair for zero, the counting
/// token otherwise.
pub open spec fn byte_token(v: u8) -> Seq<char> {
    if v == 0 {
        seq!['\u{2764}', '\u{FE0F}']
    } else {
        token_chars(v as nat)
    }
}

/// The modern two-character marker that follows every encoded token.
pub open spec fn modern_delim() -> Seq<char> {
    seq!['\u{1F449}', '\u{1F448}']
}

/// The legacy single-character separator (a zero-width space).
pub open spec fn legacy_delim() -> Seq<char> {
    seq!['\u{200B}']
}

/// A fragment is recognized for a byte value when it equals the byte's
/// token, bare or followed by the modern marker.
pub open spec fn token_matches(t: Seq<char>, v: u8) -> bool {
    t == byte_token(v) || t == byte_token(v) + modern_delim()
}

/// The message carried by the error for an unrecognized fragment.
pub open spec fn cannot_decode_message(fragment: Seq<char>) -> Seq<char> {
    "Cannot decode character "@ + fragment
}

/// True of the five counting symbols and of nothing else.
pub open spec fn is_token_char(c: char) -> bool {
    c == '\u{1FAC2}' || c == '\u{1F496}' || c == '\u{2728}' || c == '\u{1F97A}' || c == ','
}

/// The value a counting symbol stands for.
pub open spec fn token_char_value(c: char) -> nat {
    if c == '\u{1FAC2}' {
        200
    } else if c == '\u{1F496}' {
        50
    } else if c == '\u{2728}' {
        10
    } else if c == '\u{1F97A}' {
        5
    } else if c == ',' {
        1
    } else {
        0
    }
}

/// The sum of the symbol values of a character sequence.
pub open spec fn chars_value(t: Seq<char>) -> nat
    decreases t.len(),
{
    if t.len() == 0 {
        0
    } else {
        token_char_value(t[0]) + chars_value(t.drop_first())
    }
}

/// A counting token sums back to its value and holds counting symbols only.
proof fn lemma_token_chars_value(v: nat)
    ensures
        chars_value(token_chars(v)) == v,
        forall|i: int| 0 <= i < token_chars(v).len() ==> is_token_char(#[trigger] token_chars(v)[i]),
    decreases v,
{
    if v >= 200 {
        lemma_token_chars_value((v - 200) as nat);
        lemma_token_chars_step(v, '\u{1FAC2}', 200);
    } else if v >= 50 {
        lemma_token_chars_value((v - 50) as nat);
        lemma_token_chars_step(v, '\u{1F496}', 50);
    } else if v >= 10 {
        lemma_token_chars_value((v - 10) as nat);
        lemma_token_chars_step(v, '\u{2728}', 10);
    } else if v >= 5 {
        lemma_token_chars_value((v - 5) as nat);
        lemma_token_chars_step(v, '\u{1F97A}', 5);
    } else if v >= 1 {
        lemma_token_chars_value((v - 1) as nat);
        lemma_token_chars_step(v, ',', 1);
    }
}

/// One greedy step: prepending a symbol adds its value and keeps the
/// all-symbols property.
proof fn lemma_token_chars_step(v: nat, c: char, val: nat)
    requires
        val <= v,
        token_chars(v) == seq![c] + token_chars((v - val) as nat),
        token_char_value(c) == val,
        is_token_char(c),
        chars_value(token_chars((v - val) as nat)) == v - val,
        forall|i: int|
            0 <= i < token_chars((v - val) as nat).len() ==> is_token_char(
                #[trigger] token_chars((v - val) as nat)[i],
            ),
    ensures
        chars_value(token_chars(v)) == v,
        forall|i: int| 0 <= i < token_chars(v).len() ==> is_token_char(#[trigger] token_chars(v)[i]),
{
    let rest = token_chars((v - val) as nat);
    assert((seq![c] + rest).drop_first() =~= rest);
    assert(chars_value(token_chars(v)) == val + chars_value(rest));
    assert forall|i: int| 0 <= i < token_chars(v).len() implies is_token_char(
        #[trigger] token_chars(v)[i],
    ) by {
        if i > 0 {
            assert(token_chars(v)[i] == rest[i - 1]);
        }
    }
}

/// The shape every byte token has: nonempty, and made of counting symbols
/// unless it is the heart token of the zero byte.
pub proof fn lemma_byte_token_shape(v: u8)
    ensures
        byte_token(v).len() > 0,
        v != 0 ==> forall|i: int|
            0 <= i < byte_token(v).len() ==> is_token_char(#[trigger] byte_token(v)[i]),
        v != 0 ==> chars_value(byte_token(v)) == v,
{
    if v != 0 {
        lemma_token_chars_value(v as nat);
        if token_chars(v as nat).len() == 0 {
            assert(chars_value(token_chars(v as nat)) == 0);
        }
    }
}

/// No character of a byte token is part of either delimiter.
pub proof fn lemma_byte_token_no_delim(v: u8)
    ensures
        forall|i: int|
            0 <= i < byte_token(v).len() ==> byte_token(v)[i] != '\u{1F449}'
                && byte_token(v)[i] != '\u{1F448}' && byte_token(v)[i] != '\u{200B}',
{
    lemma_byte_token_shape(v);
}

/// At most one byte value is recognized for any fragment: the per-byte
/// mapping is a bijection, with or without the trailing marker.
pub proof fn lemma_token_unique(t: Seq<char>, v: u8, w: u8)
    requires
        token_matches(t, v),
        token_matches(t, w),
    ensures
        v == w,
{
    lemma_byte_token_shape(v);
    lemma_byte_token_shape(w);
    if t == byte_token(v) && t == byte_token(w) {
        lemma_bare_token_unique(v, w);
    } else if t == byte_token(v) + modern_delim() && t == byte_token(w) + modern_delim() {
        let a = byte_token(v);
        let b = byte_token(w);
        assert((a + modern_delim()).len() == a.len() + 2);
        assert((b + modern_delim()).len() == b.len() + 2);
        assert(a.len() == b.len());
        assert(a =~= b) by {
            assert(forall|i: int| 0 <= i < a.len() ==> a[i] == (a + modern_delim())[i]);
            assert(forall|i: int| 0 <= i < b.len() ==> b[i] == (b + modern_delim())[i]);
        }
        lemma_bare_token_unique(v, w);
    } else if t == byte_token(v) && t == byte_token(w) + modern_delim() {
        lemma_bare_never_marked(v, w);
    } else {
        lemma_bare_never_marked(w, v);
    }
}

/// Equal bare tokens come from equal byte values.
proof fn lemma_bare_token_unique(v: u8, w: u8)
    requires
        byte_token(v) == byte_token(w),
    ensures
        v == w,
{
    lemma_byte_token_shape(v);
    lemma_byte_token_shape(w);
    if v == 0 && w != 0 {
        assert(is_token_char(byte_token(w)[0]));
        assert(byte_token(v)[0] == '\u{2764}');
    } else if v != 0 && w == 0 {
        assert(is_token_char(byte_token(v)[0]));
        assert(byte_token(w)[0] == '\u{2764}');
    }
}

/// A bare token never equals a token followed by the marker: the marker's
/// closing character occurs in no token.
proof fn lemma_bare_never_marked(v: u8, w: u8)
    ensures
        byte_token(v) != byte_token(w) + modern_delim(),
{
    lemma_byte_token_shape(v);
    lemma_byte_token_shape(w);
    let t = byte_token(w) + modern_delim();
    let last = t.len() - 1;
    assert(t[last] == '\u{1F448}');
    if byte_token(v) == t {
        if v == 0 {
            assert(byte_token(v)[last] == '\u{FE0F}');
        } else {
            assert(is_token_char(byte_token(v)[last]));
        }
    }
}

/// Decoding the encoding of a byte gives that byte back: the marked token
/// of `v` is recognized for `v` and for no other value.
pub proof fn lemma_byte_round_trip(v: u8, w: u8)
    requires
        token_matches(byte_token(v) + modern_delim(), w),
    ensures
        w == v,
{
    assert(token_matches(byte_token(v) + modern_delim(), v));
    lemma_token_unique(byte_token(v) + modern_delim(), v, w);
}

/// Appends the counting token of a value to a string.
fn push_token_chars(out: &mut String, rem: u8)
    ensures
        final(out)@ == old(out)@ + token_chars(rem as nat),
    decreases rem,
{
    let ghost start = out@;
    if rem >= 200 {
        out.append("\u{1FAC2}");
        proof {
            reveal_strlit("\u{1FAC2}");
            assert(out@ =~= start + seq!['\u{1FAC2}']);
        }
        push_token_chars(out, rem - 200);
        proof {
            assert(out@ =~= start + token_chars(rem as nat));
        }
    } else if rem >= 50 {
        out.append("\u{1F496}");
        proof {
            reveal_strlit("\u{1F496}");
            assert(out@ =~= start + seq!['\u{1F496}']);
        }
        push_token_chars(out, rem - 50);
        proof {
            assert(out@ =~= start + token_chars(rem as nat));
        }
    } else if rem >= 10 {
        out.append("\u{2728}");
        proof {
            reveal_strlit("\u{2728}");
            assert(out@ =~= start + seq!['\u{2728}']);
        }
        push_token_chars(out, rem - 10);
        proof {
            assert(out@ =~= start + token_chars(rem as nat));
        }
    } else if rem >= 5 {
        out.append("\u{1F97A}");
        proof {
            reveal_strlit("\u{1F97A}");
            assert(out@ =~= start + seq!['\u{1F97A}']);
        }
        push_token_chars(out, rem - 5);
        proof {
            assert(out@ =~= start + token_chars(rem as nat));
        }
    } else if rem >= 1 {
        out.append(",");
        proof {
            reveal_strlit(",");
            assert(out@ =~= start + seq![',']);
        }
        push_token_chars(out, rem - 1);
        proof {
            assert(out@ =~= start + token_chars(rem as nat));
        }
    } else {
        proof {
            assert(out@ =~= start + token_chars(rem as nat));
        }
    }
}

/// The bare token of a byte value, without the trailing marker.
fn token_string(value: u8) -> (r: String)
    ensures
        r@ == byte_token(value),
{
    let mut out = String::new();
    if value == 0 {
        out.append("\u{2764}\u{FE0F}");
        proof {
            reveal_strlit("\u{2764}\u{FE0F}");
            assert(out@ =~= byte_token(value));
        }
    } else {
        push_token_chars(&mut out, value);
        proof {
            assert(out@ =~= byte_token(value));
        }
    }
    out
}

/// The token of a byte value followed by the modern marker, exactly the
/// per-byte output of encoding.
pub fn encode_byte(value: u8) -> (r: String)
    ensures
        r@ == byte_token(value) + modern_delim(),
{
    let mut out = token_string(value);
    out.append("\u{1F449}\u{1F448}");
    proof {
        reveal_strlit("\u{1F449}\u{1F448}");
        assert(out@ =~= byte_token(value) + modern_delim());
    }
    out
}

/// Builds the error message for an unrecognized fragment.
fn decode_error_message(fragment: &str) -> (r: String)
    ensures
        r@ == cannot_decode_message(fragment@),
{
    let mut msg = String::from_str("Cannot decode character ");
    msg.append(fragment);
    msg
}

/// The exact reverse lookup: the byte whose token equals the fragment,
/// bare or followed by the modern marker, and an error carrying the
/// fragment when no byte's token does.
pub fn decode_byte(input: &str) -> (r: Result<u8, TranslationError>)
    ensures
        match r {
            Ok(v) => token_matches(input@, v),
            Err(e) => (forall|v: u8| !token_matches(input@, v)) && e.why@ == cannot_decode_message(
                input@,
            ),
        },
{
    let target = String::from_str(input);
    let mut i: usize = 0;
    while i < 256
        invariant
            i <= 256,
            target@ == input@,
            forall|v: u8| v < i ==> !token_matches(input@, v),
        decreases 256 - i,
    {
        let v = i as u8;
        let bare = token_string(v);
        let marked = encode_byte(v);
        if target == bare || target == marked {
            return Ok(v);
        }
        i = i + 1;
    }
    Err(TranslationError { why: decode_error_message(input) })
}

} // verus!
