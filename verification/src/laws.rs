//! The laws the codec obeys, stated over the same spec functions its
//! executable contracts use and proved from them.

use vstd::prelude::*;
use vstd::utf8::encode_utf8;
use vstd::utf8::encode_utf8_decode_utf8;
use vstd::utf8::encode_utf8_valid_utf8;

use crate::alias::lemma_render_long_expands;
use crate::alias::name_char;
use crate::alias::render_long;
use crate::codec::chosen_delim;
use crate::codec::decode_fragments;
use crate::codec::encode_bytes_with;
use crate::codec::first_separator;
use crate::codec::is_separator_start;
use crate::codec::lossy_decode;
use crate::codec::spec_decode;
use crate::codec::spec_delongate;
use crate::codec::spec_encode;
use crate::text::first_match_at;
use crate::text::lemma_first_match_found;
use crate::text::lemma_first_match_none;
use crate::text::split_on;
use crate::text::trim_trailing;
use crate::token::byte_token;
use crate::token::legacy_delim;
use crate::token::lemma_byte_token_no_delim;
use crate::token::lemma_byte_token_shape;
use crate::token::lemma_token_unique;
use crate::token::modern_delim;
use crate::token::token_matches;

verus! {

/// The tokens of all bytes joined with the separator between them, with no
/// trailing separator: what trimming leaves of an encoding.
spec fn joined(bs: Seq<u8>, d: Seq<char>) -> Seq<char>
    decreases bs.len(),
{
    if bs.len() == 0 {
        Seq::empty()
    } else if bs.len() == 1 {
        byte_token(bs[0])
    } else {
        byte_token(bs[0]) + d + joined(bs.drop_first(), d)
    }
}

/// The fragments splitting an encoding yields: one bare token per byte.
spec fn token_frags(bs: Seq<u8>) -> Seq<Seq<char>>
    decreases bs.len(),
{
    if bs.len() == 0 {
        Seq::empty()
    } else {
        seq![byte_token(bs[0])] + token_frags(bs.drop_first())
    }
}

/// A nonempty encoding is the joined tokens followed by one separator.
proof fn lemma_encode_is_joined(bs: Seq<u8>, d: Seq<char>)
    requires
        bs.len() > 0,
    ensures
        encode_bytes_with(bs, d) == joined(bs, d) + d,
    decreases bs.len(),
{
    if bs.len() == 1 {
        assert(encode_bytes_with(bs.drop_first(), d) == Seq::<char>::empty());
        assert(byte_token(bs[0]) + d + Seq::<char>::empty() =~= joined(bs, d) + d);
    } else {
        lemma_encode_is_joined(bs.drop_first(), d);
        assert(byte_token(bs[0]) + d + (joined(bs.drop_first(), d) + d) =~= (byte_token(bs[0]) + d
            + joined(bs.drop_first(), d)) + d);
    }
}

/// A prefix without separator-starting characters does not affect which
/// separator is seen first.
proof fn lemma_first_separator_skip(x: Seq<char>, y: Seq<char>)
    requires
        forall|i: int| 0 <= i < x.len() ==> !is_separator_start(x[i]),
    ensures
        first_separator(x + y) == first_separator(y),
    decreases x.len(),
{
    if x.len() == 0 {
        assert(x + y =~= y);
    } else {
        assert((x + y)[0] == x[0]);
        assert((x + y).drop_first() =~= x.drop_first() + y);
        lemma_first_separator_skip(x.drop_first(), y);
    }
}

/// An encoding built with either separator is decoded with that separator:
/// detection finds the separator the encoder used.
proof fn lemma_chosen_delim_of_encoding(bs: Seq<u8>, d: Seq<char>)
    requires
        bs.len() > 0,
        d == legacy_delim() || d == modern_delim(),
    ensures
        chosen_delim(encode_bytes_with(bs, d)) == d,
{
    let enc = encode_bytes_with(bs, d);
    let bt = byte_token(bs[0]);
    let rest = encode_bytes_with(bs.drop_first(), d);
    lemma_byte_token_no_delim(bs[0]);
    assert(enc =~= bt + (d + rest));
    lemma_first_separator_skip(bt, d + rest);
    assert((d + rest)[0] == d[0]);
    assert(is_separator_start((d + rest)[0]));
    assert(first_separator(d + rest) == Some(d[0]));
    assert(first_separator(enc) == Some(d[0]));
}

/// Trimming one trailing separator off an encoding leaves the joined tokens.
proof fn lemma_trim_encoding(bs: Seq<u8>, d: Seq<char>)
    requires
        bs.len() > 0,
        d.len() > 0,
    ensures
        trim_trailing(encode_bytes_with(bs, d), d) == joined(bs, d),
{
    let enc = encode_bytes_with(bs, d);
    lemma_encode_is_joined(bs, d);
    assert(enc.skip(enc.len() - d.len()) =~= d);
    assert(enc.take(enc.len() - d.len()) =~= joined(bs, d));
}

/// Splitting the joined tokens on the separator gives back the tokens,
/// since no token holds a separator-starting character.
proof fn lemma_split_joined(bs: Seq<u8>, d: Seq<char>)
    requires
        bs.len() > 0,
        d.len() > 0,
        is_separator_start(d[0]),
    ensures
        split_on(joined(bs, d), d) == token_frags(bs),
    decreases bs.len(),
{
    let j = joined(bs, d);
    let bt = byte_token(bs[0]);
    lemma_byte_token_no_delim(bs[0]);
    lemma_byte_token_shape(bs[0]);
    if bs.len() == 1 {
        assert forall|k: int| 0 <= k && k + d.len() <= j.len() implies #[trigger] j.subrange(
            k,
            k + d.len() as int,
        ) != d by {
            assert(j.subrange(k, k + d.len() as int)[0] == bt[k]);
        }
        lemma_first_match_none(j, d);
        assert(split_on(j, d) == seq![j]);
        assert(bs.drop_first().len() == 0);
        assert(token_frags(bs.drop_first()) =~= Seq::<Seq<char>>::empty());
        assert(token_frags(bs) =~= seq![bt]);
    } else {
        let rest = joined(bs.drop_first(), d);
        assert(j == bt + d + rest);
        assert forall|k: int| 0 <= k < bt.len() implies #[trigger] j.subrange(
            k,
            k + d.len() as int,
        ) != d by {
            assert(j[k] == bt[k]);
            assert(j.subrange(k, k + d.len() as int)[0] == j[k]);
        }
        assert(j.subrange(bt.len() as int, bt.len() as int + d.len() as int) =~= d);
        lemma_first_match_found(j, d, bt.len() as int);
        assert(first_match_at(j, d) == bt.len());
        assert(j.take(bt.len() as int) =~= bt);
        assert(j.skip(bt.len() as int + d.len() as int) =~= rest);
        lemma_split_joined(bs.drop_first(), d);
        assert(split_on(j, d) == seq![bt] + token_frags(bs.drop_first()));
    }
}

/// Decoding the bare tokens of a byte sequence gives exactly those bytes.
proof fn lemma_decode_token_frags(bs: Seq<u8>)
    ensures
        decode_fragments(token_frags(bs)) == Ok::<Seq<u8>, Seq<char>>(bs),
    decreases bs.len(),
{
    if bs.len() == 0 {
        assert(token_frags(bs).len() == 0);
        assert(bs =~= Seq::<u8>::empty());
    } else {
        let frs = token_frags(bs);
        assert(frs[0] == byte_token(bs[0]));
        assert(token_matches(frs[0], bs[0]));
        let v = choose|v: u8| token_matches(frs[0], v);
        lemma_token_unique(frs[0], v, bs[0]);
        assert(frs.drop_first() =~= token_frags(bs.drop_first()));
        lemma_decode_token_frags(bs.drop_first());
        assert(seq![bs[0]] + bs.drop_first() =~= bs);
    }
}

/// Decoding an encoding made with either separator convention succeeds and
/// reassembles exactly the encoded bytes.
pub proof fn lemma_decode_encoded(bs: Seq<u8>, d: Seq<char>)
    requires
        bs.len() > 0,
        d == legacy_delim() || d == modern_delim(),
    ensures
        spec_decode(encode_bytes_with(bs, d)) == Ok::<Seq<char>, Seq<char>>(lossy_decode(bs)),
{
    let enc = encode_bytes_with(bs, d);
    lemma_chosen_delim_of_encoding(bs, d);
    lemma_trim_encoding(bs, d);
    lemma_split_joined(bs, d);
    lemma_decode_token_frags(bs);
}

/// Backward compatibility: the legacy and the modern joining of the same
/// nonempty byte sequence both decode, to the same text.
pub proof fn lemma_backward_compatible(bs: Seq<u8>)
    requires
        bs.len() > 0,
    ensures
        spec_decode(encode_bytes_with(bs, legacy_delim())) == Ok::<Seq<char>, Seq<char>>(
            lossy_decode(bs),
        ),
        spec_decode(spec_encode(bs)) == Ok::<Seq<char>, Seq<char>>(lossy_decode(bs)),
        spec_decode(encode_bytes_with(bs, legacy_delim())) == spec_decode(spec_encode(bs)),
{
    lemma_decode_encoded(bs, legacy_delim());
    lemma_decode_encoded(bs, modern_delim());
}

/// Round trip: encoding any nonempty text and decoding the result gives the
/// text back.  (The empty text encodes to the empty string, whose single
/// empty fragment decoding rejects.)
pub proof fn lemma_round_trip(s: Seq<char>)
    requires
        s.len() > 0,
    ensures
        spec_decode(spec_encode(encode_utf8(s))) == Ok::<Seq<char>, Seq<char>>(s),
{
    let bs = encode_utf8(s);
    assert(bs.len() > 0);
    lemma_decode_encoded(bs, modern_delim());
    encode_utf8_valid_utf8(s);
    encode_utf8_decode_utf8(s);
}

/// Any fragment of the split that no byte's token matches makes the whole
/// decoding fail.
proof fn lemma_decode_fragments_err(frs: Seq<Seq<char>>, k: int)
    requires
        0 <= k < frs.len(),
        forall|v: u8| !token_matches(frs[k], v),
    ensures
        decode_fragments(frs) is Err,
    decreases k,
{
    if k == 0 {
    } else if exists|v: u8| token_matches(frs[0], v) {
        assert(frs.drop_first()[k - 1] == frs[k]);
        lemma_decode_fragments_err(frs.drop_first(), k - 1);
    }
}

/// Failure on unknown fragments: decoding an input one of whose fragments
/// is absent from the reverse table fails, never silently succeeds.
pub proof fn lemma_unknown_fragment_fails(s: Seq<char>, k: int)
    requires
        ({
            let d = chosen_delim(s);
            let frs = split_on(trim_trailing(s, d), d);
            &&& 0 <= k < frs.len()
            &&& forall|v: u8| !token_matches(frs[k], v)
        }),
    ensures
        spec_decode(s) is Err,
{
    let d = chosen_delim(s);
    let frs = split_on(trim_trailing(s, d), d);
    lemma_decode_fragments_err(frs, k);
}

/// No character of an encoding is a character of a spelled-out name.
proof fn lemma_encoding_no_name_chars(bs: Seq<u8>, d: Seq<char>)
    requires
        d == legacy_delim() || d == modern_delim(),
    ensures
        forall|i: int|
            0 <= i < encode_bytes_with(bs, d).len() ==> !name_char(
                #[trigger] encode_bytes_with(bs, d)[i],
            ),
    decreases bs.len(),
{
    if bs.len() > 0 {
        lemma_byte_token_shape(bs[0]);
        lemma_encoding_no_name_chars(bs.drop_first(), d);
        let enc = encode_bytes_with(bs, d);
        let bt = byte_token(bs[0]);
        let rest = encode_bytes_with(bs.drop_first(), d);
        assert forall|i: int| 0 <= i < enc.len() implies !name_char(#[trigger] enc[i]) by {
            if i < bt.len() {
                assert(enc[i] == bt[i]);
            } else if i < bt.len() + d.len() {
                assert(enc[i] == d[i - bt.len()]);
            } else {
                assert(enc[i] == rest[i - bt.len() - d.len()]);
            }
        }
    }
}

/// Alias expansion correctness: the fully spelled-out form of an encoding
/// expands back to the encoding itself, so decoding the spelled-out form
/// with expansion on gives exactly what the literal encoding decodes to.
pub proof fn lemma_alias_expansion(bs: Seq<u8>)
    requires
        bs.len() > 0,
    ensures
        spec_delongate(render_long(spec_encode(bs))) == spec_encode(bs),
        spec_decode(spec_delongate(render_long(spec_encode(bs)))) == Ok::<Seq<char>, Seq<char>>(
            lossy_decode(bs),
        ),
{
    lemma_encoding_no_name_chars(bs, modern_delim());
    lemma_render_long_expands(spec_encode(bs));
    lemma_decode_encoded(bs, modern_delim());
}

/// Determinism: what encoding and decoding return is a function of the
/// input alone, so equal inputs give equal outputs and equal errors.
pub proof fn lemma_deterministic(s1: Seq<char>, s2: Seq<char>, t1: Seq<char>, t2: Seq<char>)
    requires
        s1 == s2,
        t1 == t2,
    ensures
        spec_encode(encode_utf8(s1)) == spec_encode(encode_utf8(s2)),
        spec_decode(t1) == spec_decode(t2),
{
}

} // verus!
