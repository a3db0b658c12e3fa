//! String-level encoding and decoding.
//!
//! Encoding maps every byte of the input's UTF-8 representation to its
//! token, each followed by the modern marker.  Decoding detects which of
//! the two separator conventions the input uses, trims one trailing
//! separator, splits, decodes every fragment, and reassembles the bytes
//! as text, repairing invalid UTF-8 with replacement characters.

use vstd::prelude::*;
use vstd::utf8::decode_utf8;
use vstd::utf8::encode_utf8;
use vstd::utf8::valid_utf8;

use crate::text::spec_replace;
use crate::text::split_on;
use crate::text::trim_trailing;
use crate::text::replace_all;
use crate::text::split_exec;
use crate::text::trim_trailing_exec;
use crate::token::byte_token;
use crate::token::cannot_decode_message;
use crate::token::decode_byte;
use crate::token::encode_byte;
use crate::token::legacy_delim;
use crate::token::lemma_token_unique;
use crate::token::modern_delim;
use crate::token::token_matches;
use crate::token::TranslationError;

verus! {

/// The tokens of all bytes joined, each token followed by the separator,
/// the last included.
pub open spec fn encode_bytes_with(bs: Seq<u8>, d: Seq<char>) -> Seq<char>
    decreases bs.len(),
{
    if bs.len() == 0 {
        Seq::empty()
    } else {
        byte_token(bs[0]) + d + encode_bytes_with(bs.drop_first(), d)
    }
}

/// What encoding produces: the tokens of the bytes joined with the modern
/// marker.
pub open spec fn spec_encode(bs: Seq<u8>) -> Seq<char> {
    encode_bytes_with(bs, modern_delim())
}

/// Appending a byte appends its token and a separator.
pub proof fn lemma_encode_bytes_push(bs: Seq<u8>, b: u8, d: Seq<char>)
    ensures
        encode_bytes_with(bs.push(b), d) == encode_bytes_with(bs, d) + byte_token(b) + d,
    decreases bs.len(),
{
    if bs.len() == 0 {
        assert(bs.push(b).drop_first() =~= Seq::<u8>::empty());
        assert(bs.push(b)[0] == b);
        assert(encode_bytes_with(Seq::<u8>::empty(), d) == Seq::<char>::empty());
        assert(encode_bytes_with(bs.push(b), d) == byte_token(b) + d + Seq::<char>::empty());
        assert(encode_bytes_with(bs, d) == Seq::<char>::empty());
        assert(byte_token(b) + d + Seq::<char>::empty() =~= encode_bytes_with(bs, d) + byte_token(
            b,
        ) + d);
    } else {
        assert(bs.push(b).drop_first() =~= bs.drop_first().push(b));
        lemma_encode_bytes_push(bs.drop_first(), b, d);
        assert(encode_bytes_with(bs.push(b), d) =~= encode_bytes_with(bs, d) + byte_token(b) + d);
    }
}

/// Encodes the raw bytes of the input text: one token per byte, in order,
/// each followed by the modern marker.
pub fn encode_string(input: &str) -> (r: String)
    ensures
        r@ == spec_encode(encode_utf8(input@)),
{
    let bytes = input.as_bytes_vec();
    let mut out = String::new();
    let mut i: usize = 0;
    proof {
        assert(bytes@.take(0) =~= Seq::<u8>::empty());
    }
    while i < bytes.len()
        invariant
            i <= bytes@.len(),
            bytes@ == encode_utf8(input@),
            out@ == spec_encode(bytes@.take(i as int)),
        decreases bytes@.len() - i,
    {
        let t = encode_byte(bytes[i]);
        proof {
            lemma_encode_bytes_push(bytes@.take(i as int), bytes@[i as int], modern_delim());
            assert(bytes@.take(i as int).push(bytes@[i as int]) =~= bytes@.take(i as int + 1));
            assert(out@ + (byte_token(bytes@[i as int]) + modern_delim()) =~= spec_encode(
                bytes@.take(i as int + 1),
            ));
        }
        out.append(t.as_str());
        i = i + 1;
    }
    proof {
        assert(bytes@.take(bytes@.len() as int) =~= bytes@);
    }
    out
}

/// Alias expansion: each spelled-out name replaced by its literal symbol,
/// in this fixed order.
pub open spec fn spec_delongate(s: Seq<char>) -> Seq<char> {
    spec_replace(
        spec_replace(
            spec_replace(
                spec_replace(
                    spec_replace(s, ":sparkling_heart:"@, "\u{1F496}"@),
                    ":pleading_face:"@,
                    "\u{1F97A}"@,
                ),
                ":point_left:"@,
                "\u{1F448}"@,
            ),
            ":point_right:"@,
            "\u{1F449}"@,
        ),
        ":sparkles:"@,
        "\u{2728}"@,
    )
}

/// Expands the spelled-out symbol names into their literal characters,
/// by plain substring replacement, in a fixed order.
pub fn delongate(input: &str) -> (r: String)
    ensures
        r@ == spec_delongate(input@),
{
    proof {
        reveal_strlit(":sparkling_heart:");
        reveal_strlit(":pleading_face:");
        reveal_strlit(":point_left:");
        reveal_strlit(":point_right:");
        reveal_strlit(":sparkles:");
    }
    let a = replace_all(input, ":sparkling_heart:", "\u{1F496}");
    let b = replace_all(a.as_str(), ":pleading_face:", "\u{1F97A}");
    let c = replace_all(b.as_str(), ":point_left:", "\u{1F448}");
    let d = replace_all(c.as_str(), ":point_right:", "\u{1F449}");
    replace_all(d.as_str(), ":sparkles:", "\u{2728}")
}

/// The two characters that select a splitting rule: the legacy separator
/// and the opening character of the modern marker.
pub open spec fn is_separator_start(c: char) -> bool {
    c == '\u{200B}' || c == '\u{1F449}'
}

/// The first character of the input that selects a splitting rule.
pub open spec fn first_separator(s: Seq<char>) -> Option<char>
    decreases s.len(),
{
    if s.len() == 0 {
        None
    } else if is_separator_start(s[0]) {
        Some(s[0])
    } else {
        first_separator(s.drop_first())
    }
}

/// The separator decoding splits on: legacy when the legacy separator is
/// seen first, the modern marker otherwise.
pub open spec fn chosen_delim(s: Seq<char>) -> Seq<char> {
    if first_separator(s) == Some('\u{200B}') {
        legacy_delim()
    } else {
        modern_delim()
    }
}

/// Fail-fast decoding of the fragments: the bytes of all of them in order,
/// or the first fragment that no byte's token matches.
pub open spec fn decode_fragments(frs: Seq<Seq<char>>) -> Result<Seq<u8>, Seq<char>>
    decreases frs.len(),
{
    if frs.len() == 0 {
        Ok(Seq::empty())
    } else if exists|v: u8| token_matches(frs[0], v) {
        let v = choose|v: u8| token_matches(frs[0], v);
        match decode_fragments(frs.drop_first()) {
            Ok(rest) => Ok(seq![v] + rest),
            Err(e) => Err(e),
        }
    } else {
        Err(frs[0])
    }
}

/// What the lossy reconstruction makes of an invalid byte sequence.
pub uninterp spec fn utf8_replacement(bytes: Seq<u8>) -> Seq<char>;

/// Lossy text reconstruction: valid bytes decode exactly; invalid byte
/// sequences are repaired with replacement characters.
pub open spec fn lossy_decode(bytes: Seq<u8>) -> Seq<char> {
    if valid_utf8(bytes) {
        decode_utf8(bytes)
    } else {
        utf8_replacement(bytes)
    }
}

/// Relies on String::from_utf8_lossy: on valid UTF-8 it returns exactly the
/// decoded text, and otherwise its repair is a function of the bytes alone.
#[verifier::external_body]
fn utf8_lossy(bytes: &Vec<u8>) -> (r: String)
    ensures
        r@ == lossy_decode(bytes@),
        !valid_utf8(bytes@) ==> r@ == utf8_replacement(bytes@),
{
    String::from_utf8_lossy(bytes).into_owned()
}

/// The whole decode pipeline on already-expanded text: choose a separator,
/// trim one trailing instance, split, decode every fragment, reassemble.
pub open spec fn spec_decode(s: Seq<char>) -> Result<Seq<char>, Seq<char>> {
    let d = chosen_delim(s);
    match decode_fragments(split_on(trim_trailing(s, d), d)) {
        Ok(bytes) => Ok(lossy_decode(bytes)),
        Err(f) => Err(f),
    }
}

/// A separator-starting character at `i` with none earlier is the first.
proof fn lemma_first_separator_at(s: Seq<char>, i: int)
    requires
        0 <= i < s.len(),
        is_separator_start(s[i]),
        forall|j: int| 0 <= j < i ==> !is_separator_start(s[j]),
    ensures
        first_separator(s) == Some(s[i]),
    decreases i,
{
    if i > 0 {
        let s2 = s.drop_first();
        assert(forall|j: int| 0 <= j < i - 1 ==> s2[j] == s[j + 1]);
        lemma_first_separator_at(s2, i - 1);
    }
}

/// Without any separator-starting character there is no first one.
proof fn lemma_first_separator_none(s: Seq<char>)
    requires
        forall|j: int| 0 <= j < s.len() ==> !is_separator_start(s[j]),
    ensures
        first_separator(s) == None::<char>,
    decreases s.len(),
{
    if s.len() > 0 {
        let s2 = s.drop_first();
        assert(forall|j: int| 0 <= j < s2.len() ==> s2[j] == s[j + 1]);
        lemma_first_separator_none(s2);
    }
}

/// The first character of the input that selects a splitting rule, if any.
fn find_separator(s: &str, n: usize) -> (r: Option<char>)
    requires
        n == s@.len(),
    ensures
        r == first_separator(s@),
{
    let mut i: usize = 0;
    while i < n
        invariant
            i <= n,
            n == s@.len(),
            forall|j: int| 0 <= j < i ==> !is_separator_start(s@[j]),
        decreases n - i,
    {
        let c = s.get_char(i);
        if c == '\u{200B}' || c == '\u{1F449}' {
            proof {
                lemma_first_separator_at(s@, i as int);
            }
            return Some(c);
        }
        i = i + 1;
    }
    proof {
        lemma_first_separator_none(s@);
    }
    None
}

/// Decoding: optional alias expansion, separator detection accepting both
/// the legacy and the modern convention, one trailing separator trimmed,
/// a split into fragments, exact per-fragment decoding that fails on the
/// first unrecognized fragment, and lossy reassembly of the bytes as text.
pub fn decode_string_long(input: &str, do_delongate: bool) -> (r: Result<
    String,
    TranslationError,
>)
    ensures
        ({
            let t = if do_delongate {
                spec_delongate(input@)
            } else {
                input@
            };
            match spec_decode(t) {
                Ok(text) => r is Ok && r->Ok_0@ == text,
                Err(f) => r is Err && r->Err_0.why@ == cannot_decode_message(f),
            }
        }),
{
    let expanded = if do_delongate {
        delongate(input)
    } else {
        String::from_str(input)
    };
    let s = expanded.as_str();
    let ghost t = s@;
    let n = s.unicode_len();
    let sep = find_separator(s, n);
    let legacy = match sep {
        Some(c) => c == '\u{200B}',
        None => false,
    };
    let delim_str: &str = if legacy {
        "\u{200B}"
    } else {
        "\u{1F449}\u{1F448}"
    };
    proof {
        reveal_strlit("\u{200B}");
        reveal_strlit("\u{1F449}\u{1F448}");
        assert(delim_str@ =~= chosen_delim(t));
    }
    let trimmed = trim_trailing_exec(s, delim_str);
    let fragments = split_exec(trimmed.as_str(), delim_str);
    let ghost d = chosen_delim(t);
    let ghost frs = split_on(trim_trailing(t, d), d);
    let mut bytes: Vec<u8> = Vec::new();
    let mut k: usize = 0;
    proof {
        assert(frs.skip(0) =~= frs);
    }
    while k < fragments.len()
        invariant
            t == (if do_delongate {
                spec_delongate(input@)
            } else {
                input@
            }),
            d == chosen_delim(t),
            frs == split_on(trim_trailing(t, d), d),
            k <= fragments@.len(),
            fragments@.len() == frs.len(),
            forall|j: int| 0 <= j < frs.len() ==> fragments@[j]@ == frs[j],
            decode_fragments(frs) == (match decode_fragments(frs.skip(k as int)) {
                Ok(rest) => Ok::<Seq<u8>, Seq<char>>(bytes@ + rest),
                Err(e) => Err(e),
            }),
        decreases fragments@.len() - k,
    {
        let ghost sk = frs.skip(k as int);
        proof {
            assert(sk[0] == frs[k as int]);
            assert(sk.drop_first() =~= frs.skip(k as int + 1));
        }
        match decode_byte(fragments[k].as_str()) {
            Ok(b) => {
                proof {
                    assert(token_matches(frs[k as int], b));
                    let v = choose|v: u8| token_matches(sk[0], v);
                    lemma_token_unique(frs[k as int], v, b);
                    let rest_r = decode_fragments(frs.skip(k as int + 1));
                    if rest_r is Ok {
                        assert(decode_fragments(sk) == Ok::<Seq<u8>, Seq<char>>(
                            seq![b] + rest_r->Ok_0,
                        ));
                        assert(bytes@ + (seq![b] + rest_r->Ok_0) =~= bytes@.push(b)
                            + rest_r->Ok_0);
                    }
                }
                bytes.push(b);
            },
            Err(e) => {
                proof {
                    assert(fragments@[k as int]@ == frs[k as int]);
                    assert(forall|v: u8| !token_matches(sk[0], v));
                    assert(decode_fragments(sk) == Err::<Seq<u8>, Seq<char>>(frs[k as int]));
                    assert(decode_fragments(frs) == Err::<Seq<u8>, Seq<char>>(frs[k as int]));
                    assert(spec_decode(t) == Err::<Seq<char>, Seq<char>>(frs[k as int]));
                }
                return Err(e);
            },
        }
        k = k + 1;
    }
    proof {
        assert(frs.skip(frs.len() as int) =~= Seq::<Seq<char>>::empty());
        assert(decode_fragments(frs) == Ok::<Seq<u8>, Seq<char>>(bytes@ + Seq::<u8>::empty()));
        assert(bytes@ + Seq::<u8>::empty() =~= bytes@);
    }
    let text = utf8_lossy(&bytes);
    Ok(text)
}

} // verus!
