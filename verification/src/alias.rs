//! The law behind alias expansion: spelling symbols out as their bracketed
//! names and expanding again is the identity, so a spelled-out input
//! decodes exactly like the literal one.

use vstd::prelude::*;

use crate::codec::spec_delongate;
use crate::text::spec_replace;

verus! {

/// A character that can occur in a spelled-out symbol name.
pub open spec fn name_char(c: char) -> bool {
    c == ':' || c == '_' || ('a' <= c && c <= 'z')
}

/// The spelled-out form of one character at a given expansion stage: the
/// bracketed name of each symbol whose name has not been expanded yet, the
/// bare character for everything else.  Stage 1 spells all five names;
/// each expansion pass moves one stage further.
pub open spec fn spell_stage(c: char, k: int) -> Seq<char> {
    if c == '\u{1F496}' && k <= 1 {
        ":sparkling_heart:"@
    } else if c == '\u{1F97A}' && k <= 2 {
        ":pleading_face:"@
    } else if c == '\u{1F448}' && k <= 3 {
        ":point_left:"@
    } else if c == '\u{1F449}' && k <= 4 {
        ":point_right:"@
    } else if c == '\u{2728}' && k <= 5 {
        ":sparkles:"@
    } else {
        seq![c]
    }
}

/// A text rendered character by character through a block function.
pub open spec fn render_with(t: Seq<char>, f: spec_fn(char) -> Seq<char>) -> Seq<char>
    decreases t.len(),
{
    if t.len() == 0 {
        Seq::empty()
    } else {
        f(t[0]) + render_with(t.drop_first(), f)
    }
}

/// A text with every not-yet-expanded name spelled out, character by
/// character.
pub open spec fn render_stage(t: Seq<char>, k: int) -> Seq<char>
    decreases t.len(),
{
    if t.len() == 0 {
        Seq::empty()
    } else {
        spell_stage(t[0], k) + render_stage(t.drop_first(), k)
    }
}

/// The fully spelled-out form of a text: every symbol that has a bracketed
/// name written as that name.
pub open spec fn render_long(t: Seq<char>) -> Seq<char> {
    render_stage(t, 1)
}

/// A stage rendering is a rendering through any block function that agrees
/// with the stage's spelling on the characters present.
proof fn lemma_render_stage_is(t: Seq<char>, k: int, f: spec_fn(char) -> Seq<char>)
    requires
        forall|i: int| 0 <= i < t.len() ==> #[trigger] f(t[i]) == spell_stage(t[i], k),
    ensures
        render_stage(t, k) == render_with(t, f),
    decreases t.len(),
{
    if t.len() > 0 {
        let t2 = t.drop_first();
        assert(forall|i: int| 0 <= i < t2.len() ==> t2[i] == t[i + 1]);
        lemma_render_stage_is(t2, k, f);
    }
}

/// A block standing for one plain character.
spec fn literal_block(b: Seq<char>) -> bool {
    b.len() == 1 && !name_char(b[0])
}

/// A block that is some other bracketed name: colons only at its ends, and
/// differing from the pattern at some position inside itself.
spec fn name_block(b: Seq<char>, p: Seq<char>) -> bool {
    &&& b.len() >= 2
    &&& b[0] == ':'
    &&& b[b.len() - 1] == ':'
    &&& (forall|o: int| 1 <= o < b.len() - 1 ==> b[o] != ':')
    &&& (exists|i: int| 0 <= i < p.len() && i < b.len() && b[i] != p[i])
}

/// The shape every bracketed name has as a pattern.
spec fn pat_ok(p: Seq<char>) -> bool {
    p.len() >= 2 && p[0] == ':' && p[1] != ':' && name_char(p[1])
}

/// The rendered text to the right of a block starts with a colon or with a
/// character no name holds (or is empty).
spec fn head_ok(x: Seq<char>) -> bool {
    x.len() == 0 || x[0] == ':' || !name_char(x[0])
}

/// Replacement walks over a run of non-colon characters closed by one
/// colon without finding the pattern, since the pattern starts with a
/// colon and its second character is a name character.
proof fn lemma_replace_skip_colon_tail(b: Seq<char>, rest: Seq<char>, p: Seq<char>, r: Seq<char>)
    requires
        pat_ok(p),
        b.len() >= 1,
        b[b.len() - 1] == ':',
        forall|o: int| 0 <= o < b.len() - 1 ==> b[o] != ':',
        head_ok(rest),
    ensures
        spec_replace(b + rest, p, r) == b + spec_replace(rest, p, r),
    decreases b.len(),
{
    let s = b + rest;
    assert(s[0] == b[0]);
    if b.len() == 1 {
        if p.len() <= s.len() {
            assert(rest.len() >= 1);
            assert(s.take(p.len() as int)[1] == rest[0]);
            assert(rest[0] != p[1]);
            assert(s.take(p.len() as int) != p);
        }
        assert(s.skip(1) =~= rest);
        assert(seq![s[0]] + spec_replace(rest, p, r) =~= b + spec_replace(rest, p, r));
    } else {
        assert(b[0] != ':');
        if p.len() <= s.len() {
            assert(s.take(p.len() as int)[0] == b[0]);
            assert(s.take(p.len() as int) != p);
        }
        let b2 = b.drop_first();
        assert(s.skip(1) =~= b2 + rest);
        assert(b2[b2.len() - 1] == b[b.len() - 1]);
        assert(forall|o: int| 0 <= o < b2.len() - 1 ==> b2[o] == b[o + 1]);
        lemma_replace_skip_colon_tail(b2, rest, p, r);
        assert(seq![b[0]] + (b2 + spec_replace(rest, p, r)) =~= b + spec_replace(rest, p, r));
    }
}

/// Replacement leaves a whole literal or other-name block unchanged and
/// moves on past it.
proof fn lemma_replace_skip_block(b: Seq<char>, rest: Seq<char>, p: Seq<char>, r: Seq<char>)
    requires
        pat_ok(p),
        literal_block(b) || name_block(b, p),
        head_ok(rest),
    ensures
        spec_replace(b + rest, p, r) == b + spec_replace(rest, p, r),
{
    let s = b + rest;
    assert(s[0] == b[0]);
    if literal_block(b) {
        assert(b[0] != ':');
        if p.len() <= s.len() {
            assert(s.take(p.len() as int)[0] == b[0]);
            assert(s.take(p.len() as int) != p);
        }
        assert(s.skip(1) =~= rest);
        assert(seq![b[0]] + spec_replace(rest, p, r) =~= b + spec_replace(rest, p, r));
    } else {
        if p.len() <= s.len() {
            let i = choose|i: int| 0 <= i < p.len() && i < b.len() && b[i] != p[i];
            assert(s.take(p.len() as int)[i] == b[i]);
            assert(s.take(p.len() as int) != p);
        }
        let b2 = b.drop_first();
        assert(s.skip(1) =~= b2 + rest);
        assert(b2[b2.len() - 1] == b[b.len() - 1]);
        assert(forall|o: int| 0 <= o < b2.len() - 1 ==> b2[o] == b[o + 1]);
        lemma_replace_skip_colon_tail(b2, rest, p, r);
        assert(seq![b[0]] + (b2 + spec_replace(rest, p, r)) =~= b + spec_replace(rest, p, r));
    }
}

/// A rendered text starts acceptably for the block to its left.
proof fn lemma_render_head_ok(
    t: Seq<char>,
    f: spec_fn(char) -> Seq<char>,
    g: spec_fn(char) -> Seq<char>,
    p: Seq<char>,
    r: Seq<char>,
)
    requires
        pat_ok(p),
        forall|i: int|
            0 <= i < t.len() ==> ((#[trigger] f(t[i]) == p && g(t[i]) == r) || (f(t[i]) == g(t[i])
                && (literal_block(f(t[i])) || name_block(f(t[i]), p)))),
    ensures
        head_ok(render_with(t, f)),
{
    if t.len() > 0 {
        assert(f(t[0]).len() >= 1);
        assert(render_with(t, f)[0] == f(t[0])[0]);
    }
}

/// One replacement pass over a rendered text replaces exactly the blocks
/// spelling the pattern and nothing else.
proof fn lemma_replace_rendered(
    t: Seq<char>,
    f: spec_fn(char) -> Seq<char>,
    g: spec_fn(char) -> Seq<char>,
    p: Seq<char>,
    r: Seq<char>,
)
    requires
        pat_ok(p),
        forall|i: int|
            0 <= i < t.len() ==> ((#[trigger] f(t[i]) == p && g(t[i]) == r) || (f(t[i]) == g(t[i])
                && (literal_block(f(t[i])) || name_block(f(t[i]), p)))),
    ensures
        spec_replace(render_with(t, f), p, r) == render_with(t, g),
    decreases t.len(),
{
    if t.len() == 0 {
        assert(render_with(t, f) == Seq::<char>::empty());
        assert(render_with(t, g) == Seq::<char>::empty());
    } else {
        let c = t[0];
        let t2 = t.drop_first();
        assert(forall|i: int| 0 <= i < t2.len() ==> t2[i] == t[i + 1]);
        let rest = render_with(t2, f);
        lemma_render_head_ok(t2, f, g, p, r);
        lemma_replace_rendered(t2, f, g, p, r);
        if f(c) == p {
            assert((p + rest).take(p.len() as int) =~= p);
            assert((p + rest).skip(p.len() as int) =~= rest);
            assert((p + rest).len() > 0);
            assert(spec_replace(render_with(t, f), p, r) == r + spec_replace(rest, p, r));
        } else {
            lemma_replace_skip_block(f(c), rest, p, r);
        }
    }
}

/// Rendering through the identity block function is the identity.
proof fn lemma_render_id(t: Seq<char>, f: spec_fn(char) -> Seq<char>)
    requires
        forall|i: int| 0 <= i < t.len() ==> #[trigger] f(t[i]) == seq![t[i]],
    ensures
        render_with(t, f) == t,
    decreases t.len(),
{
    if t.len() == 0 {
        assert(render_with(t, f) =~= t);
    } else {
        let t2 = t.drop_first();
        assert(forall|i: int| 0 <= i < t2.len() ==> t2[i] == t[i + 1]);
        lemma_render_id(t2, f);
        assert(seq![t[0]] + t2 =~= t);
    }
}

/// The concrete shape of the five names: colons at the ends only, and each
/// pair differing inside the shorter one.
proof fn lemma_name_facts()
    ensures
        pat_ok(":sparkling_heart:"@),
        pat_ok(":pleading_face:"@),
        pat_ok(":point_left:"@),
        pat_ok(":point_right:"@),
        pat_ok(":sparkles:"@),
        name_block(":pleading_face:"@, ":sparkling_heart:"@),
        name_block(":point_left:"@, ":sparkling_heart:"@),
        name_block(":point_right:"@, ":sparkling_heart:"@),
        name_block(":sparkles:"@, ":sparkling_heart:"@),
        name_block(":point_left:"@, ":pleading_face:"@),
        name_block(":point_right:"@, ":pleading_face:"@),
        name_block(":sparkles:"@, ":pleading_face:"@),
        name_block(":point_right:"@, ":point_left:"@),
        name_block(":sparkles:"@, ":point_left:"@),
        name_block(":sparkles:"@, ":point_right:"@),
{
    reveal_strlit(":sparkling_heart:");
    reveal_strlit(":pleading_face:");
    reveal_strlit(":point_left:");
    reveal_strlit(":point_right:");
    reveal_strlit(":sparkles:");
    assert(":pleading_face:"@[1] != ":sparkling_heart:"@[1]);
    assert(":point_left:"@[1] != ":sparkling_heart:"@[1]);
    assert(":point_right:"@[1] != ":sparkling_heart:"@[1]);
    assert(":sparkles:"@[7] != ":sparkling_heart:"@[7]);
    assert(":point_left:"@[2] != ":pleading_face:"@[2]);
    assert(":point_right:"@[2] != ":pleading_face:"@[2]);
    assert(":sparkles:"@[1] != ":pleading_face:"@[1]);
    assert(":point_right:"@[7] != ":point_left:"@[7]);
    assert(":sparkles:"@[1] != ":point_left:"@[1]);
    assert(":sparkles:"@[1] != ":point_right:"@[1]);
}

/// Alias expansion correctness: for any text without name characters, the
/// fully spelled-out form expands back to exactly that text.  Every
/// encoding the codec produces is such a text.
pub proof fn lemma_render_long_expands(t: Seq<char>)
    requires
        forall|i: int| 0 <= i < t.len() ==> !name_char(t[i]),
    ensures
        spec_delongate(render_long(t)) == t,
{
    lemma_name_facts();
    reveal_strlit("\u{1F496}");
    reveal_strlit("\u{1F97A}");
    reveal_strlit("\u{1F448}");
    reveal_strlit("\u{1F449}");
    reveal_strlit("\u{2728}");
    assert("\u{1F496}"@ =~= seq!['\u{1F496}']);
    assert("\u{1F97A}"@ =~= seq!['\u{1F97A}']);
    assert("\u{1F448}"@ =~= seq!['\u{1F448}']);
    assert("\u{1F449}"@ =~= seq!['\u{1F449}']);
    assert("\u{2728}"@ =~= seq!['\u{2728}']);
    let f1 = |c: char| spell_stage(c, 1);
    let f2 = |c: char| spell_stage(c, 2);
    let f3 = |c: char| spell_stage(c, 3);
    let f4 = |c: char| spell_stage(c, 4);
    let f5 = |c: char| spell_stage(c, 5);
    let f6 = |c: char| spell_stage(c, 6);
    lemma_render_stage_is(t, 1, f1);
    lemma_render_stage_is(t, 2, f2);
    lemma_render_stage_is(t, 3, f3);
    lemma_render_stage_is(t, 4, f4);
    lemma_render_stage_is(t, 5, f5);
    lemma_render_stage_is(t, 6, f6);
    lemma_replace_rendered(t, f1, f2, ":sparkling_heart:"@, "\u{1F496}"@);
    lemma_replace_rendered(t, f2, f3, ":pleading_face:"@, "\u{1F97A}"@);
    lemma_replace_rendered(t, f3, f4, ":point_left:"@, "\u{1F448}"@);
    lemma_replace_rendered(t, f4, f5, ":point_right:"@, "\u{1F449}"@);
    lemma_replace_rendered(t, f5, f6, ":sparkles:"@, "\u{2728}"@);
    lemma_render_id(t, f6);
}

} // verus!
