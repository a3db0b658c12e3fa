//! Plain text machinery over character sequences: left-to-right substring
//! replacement, first-occurrence search, splitting on a separator, and
//! trimming one trailing separator.

use vstd::prelude::*;

verus! {

/// Replaces every occurrence of a nonempty pattern, left to right and
/// without rescanning replacement text.
pub open spec fn spec_replace(s: Seq<char>, pat: Seq<char>, rep: Seq<char>) -> Seq<char>
    decreases s.len(),
    when pat.len() > 0
{
    if s.len() == 0 {
        s
    } else if pat.len() <= s.len() && s.take(pat.len() as int) == pat {
        rep + spec_replace(s.skip(pat.len() as int), pat, rep)
    } else {
        seq![s[0]] + spec_replace(s.skip(1), pat, rep)
    }
}

/// The index of the first occurrence of `d` in `s`, or -1 when `s` holds
/// no occurrence.
pub open spec fn first_match_at(s: Seq<char>, d: Seq<char>) -> int
    decreases s.len(),
{
    if d.len() > s.len() {
        -1
    } else if s.take(d.len() as int) == d {
        0
    } else if s.len() == 0 {
        -1
    } else {
        let r = first_match_at(s.drop_first(), d);
        if r < 0 {
            -1
        } else {
            r + 1
        }
    }
}

/// What the first-occurrence index means: it is in bounds, an occurrence
/// starts there, and none starts earlier; -1 means no occurrence at all.
pub proof fn lemma_first_match_props(s: Seq<char>, d: Seq<char>)
    requires
        d.len() > 0,
    ensures
        ({
            let r = first_match_at(s, d);
            &&& r == -1 || (0 <= r && r + d.len() <= s.len())
            &&& r >= 0 ==> s.subrange(r, r + d.len() as int) == d
            &&& r >= 0 ==> forall|j: int|
                0 <= j < r ==> #[trigger] s.subrange(j, j + d.len() as int) != d
            &&& r == -1 ==> forall|j: int|
                0 <= j && j + d.len() <= s.len() ==> #[trigger] s.subrange(j, j + d.len() as int)
                    != d
        }),
    decreases s.len(),
{
    let r = first_match_at(s, d);
    if d.len() > s.len() {
    } else if s.take(d.len() as int) == d {
        assert(s.subrange(0, d.len() as int) =~= s.take(d.len() as int));
    } else {
        assert(s.subrange(0, d.len() as int) =~= s.take(d.len() as int));
        let s2 = s.drop_first();
        lemma_first_match_props(s2, d);
        let r2 = first_match_at(s2, d);
        assert(forall|j: int|
            0 <= j && j + d.len() <= s2.len() ==> #[trigger] s2.subrange(j, j + d.len() as int)
                =~= s.subrange(j + 1, j + 1 + d.len() as int));
        if r2 >= 0 {
            assert(s.subrange(r2 + 1, r2 + 1 + d.len() as int) == d);
            assert forall|j: int| 0 <= j < r2 + 1 implies #[trigger] s.subrange(j, j + d.len() as int)
                != d by {
                if j > 0 {
                    assert(s2.subrange(j - 1, j - 1 + d.len() as int) != d);
                    assert(s2.subrange(j - 1, j - 1 + d.len() as int) =~= s.subrange(
                        j,
                        j + d.len() as int,
                    ));
                }
            }
        } else {
            assert forall|j: int| 0 <= j && j + d.len() <= s.len() implies #[trigger] s.subrange(
                j,
                j + d.len() as int,
            ) != d by {
                if j > 0 {
                    assert(s2.subrange(j - 1, j - 1 + d.len() as int) != d);
                    assert(s2.subrange(j - 1, j - 1 + d.len() as int) =~= s.subrange(
                        j,
                        j + d.len() as int,
                    ));
                }
            }
        }
    }
}

/// Splits on every occurrence of a nonempty separator, in order; a string
/// with no occurrence is a single piece.
pub open spec fn split_on(s: Seq<char>, d: Seq<char>) -> Seq<Seq<char>>
    decreases s.len(),
    when d.len() > 0
    via split_on_decreases
{
    let r = first_match_at(s, d);
    if r < 0 {
        seq![s]
    } else {
        seq![s.take(r)] + split_on(s.skip(r + d.len() as int), d)
    }
}

#[via_fn]
proof fn split_on_decreases(s: Seq<char>, d: Seq<char>) {
    lemma_first_match_props(s, d);
}

/// Removes one trailing occurrence of `d`, and only a trailing one.
pub open spec fn trim_trailing(s: Seq<char>, d: Seq<char>) -> Seq<char> {
    if d.len() <= s.len() && s.skip(s.len() - d.len()) == d {
        s.take(s.len() - d.len())
    } else {
        s
    }
}

/// Whether an occurrence of the pattern starts at position `i`.
fn match_at(s: &str, pat: &String, i: usize, m: usize, n: usize) -> (r: bool)
    requires
        m == pat@.len(),
        n == s@.len(),
        i < n,
        1 <= m,
    ensures
        r == (i + m <= n && s@.subrange(i as int, i as int + m as int) == pat@),
{
    if m <= n - i {
        let piece = s.substring_char(i, i + m);
        let piece_string = String::from_str(piece);
        let eq = piece_string == *pat;
        proof {
            assert(piece@ == s@.subrange(i as int, i as int + m as int));
        }
        eq
    } else {
        false
    }
}

/// An occurrence at `i` with none earlier is the first occurrence.
pub(crate) proof fn lemma_first_match_found(s: Seq<char>, d: Seq<char>, i: int)
    requires
        d.len() > 0,
        0 <= i,
        i + d.len() <= s.len(),
        forall|j: int| 0 <= j < i ==> #[trigger] s.subrange(j, j + d.len() as int) != d,
        s.subrange(i, i + d.len() as int) == d,
    ensures
        first_match_at(s, d) == i,
    decreases i,
{
    if i == 0 {
        assert(s.take(d.len() as int) =~= s.subrange(i, i + d.len() as int));
    } else {
        assert(s.subrange(0, 0 + d.len() as int) != d);
        assert(s.take(d.len() as int) =~= s.subrange(0, 0 + d.len() as int));
        let s2 = s.drop_first();
        assert forall|j: int| 0 <= j < i - 1 implies #[trigger] s2.subrange(j, j + d.len() as int)
            != d by {
            assert(s2.subrange(j, j + d.len() as int) =~= s.subrange(j + 1, j + 1 + d.len() as int));
        }
        assert(s2.subrange(i - 1, i - 1 + d.len() as int) =~= s.subrange(i, i + d.len() as int));
        lemma_first_match_found(s2, d, i - 1);
    }
}

/// A string with no occurrence anywhere has no first occurrence.
pub(crate) proof fn lemma_first_match_none(s: Seq<char>, d: Seq<char>)
    requires
        d.len() > 0,
        forall|j: int|
            0 <= j && j + d.len() <= s.len() ==> #[trigger] s.subrange(j, j + d.len() as int)
                != d,
    ensures
        first_match_at(s, d) == -1,
    decreases s.len(),
{
    if d.len() > s.len() {
    } else {
        assert(s.subrange(0, 0 + d.len() as int) != d);
        assert(s.take(d.len() as int) =~= s.subrange(0, 0 + d.len() as int));
        let s2 = s.drop_first();
        assert forall|j: int| 0 <= j && j + d.len() <= s2.len() implies #[trigger] s2.subrange(
            j,
            j + d.len() as int,
        ) != d by {
            assert(s2.subrange(j, j + d.len() as int) =~= s.subrange(j + 1, j + 1 + d.len() as int));
        }
        lemma_first_match_none(s2, d);
    }
}

/// The position of the first occurrence of the separator, when there is one.
fn find_first(s: &str, d: &String, m: usize, n: usize) -> (r: Option<usize>)
    requires
        m == d@.len(),
        n == s@.len(),
        1 <= m,
    ensures
        match r {
            Some(i) => first_match_at(s@, d@) == i && i + m <= n,
            None => first_match_at(s@, d@) == -1,
        },
{
    if m > n {
        proof {
            lemma_first_match_none(s@, d@);
        }
        return None;
    }
    let mut i: usize = 0;
    while i <= n - m
        invariant
            n == s@.len(),
            m == d@.len(),
            1 <= m <= n,
            i <= n - m + 1,
            forall|j: int| 0 <= j < i ==> #[trigger] s@.subrange(j, j + m as int) != d@,
        decreases n - i,
    {
        if match_at(s, d, i, m, n) {
            proof {
                lemma_first_match_found(s@, d@, i as int);
            }
            return Some(i);
        }
        i = i + 1;
    }
    proof {
        lemma_first_match_none(s@, d@);
    }
    None
}

/// Splits the string on every occurrence of the separator, exactly as
/// `split_on` describes.
pub fn split_exec(s: &str, d: &str) -> (r: Vec<String>)
    requires
        d@.len() >= 1,
    ensures
        r@.len() == split_on(s@, d@).len(),
        forall|k: int| 0 <= k < r@.len() ==> r@[k]@ == split_on(s@, d@)[k],
{
    let m = d.unicode_len();
    let d_string = String::from_str(d);
    let mut rem = String::from_str(s);
    let mut out: Vec<String> = Vec::new();
    let ghost mut done: Seq<Seq<char>> = Seq::empty();
    loop
        invariant
            m == d@.len(),
            1 <= m,
            d_string@ == d@,
            split_on(s@, d@) == done + split_on(rem@, d@),
            out@.len() == done.len(),
            forall|k: int| 0 <= k < done.len() ==> out@[k]@ == done[k],
        decreases rem@.len(),
    {
        let n = rem.as_str().unicode_len();
        match find_first(rem.as_str(), &d_string, m, n) {
            Some(i) => {
                let head = rem.as_str().substring_char(0, i);
                let tail = rem.as_str().substring_char(i + m, n);
                proof {
                    assert(head@ =~= rem@.take(i as int));
                    assert(tail@ =~= rem@.skip(i as int + m as int));
                    assert(split_on(rem@, d@) == seq![rem@.take(i as int)] + split_on(
                        tail@,
                        d@,
                    ));
                    assert(done + (seq![rem@.take(i as int)] + split_on(tail@, d@)) =~= (done
                        + seq![rem@.take(i as int)]) + split_on(tail@, d@));
                }
                out.push(String::from_str(head));
                proof {
                    done = done + seq![rem@.take(i as int)];
                }
                rem = String::from_str(tail);
            },
            None => {
                proof {
                    assert(split_on(rem@, d@) == seq![rem@]);
                    assert(done + seq![rem@] =~= done.push(rem@));
                    done = done.push(rem@);
                }
                out.push(rem);
                return out;
            },
        }
    }
}

/// Removes one trailing occurrence of the separator, exactly as
/// `trim_trailing` describes.
pub fn trim_trailing_exec(s: &str, d: &str) -> (r: String)
    requires
        d@.len() >= 1,
    ensures
        r@ == trim_trailing(s@, d@),
{
    let n = s.unicode_len();
    let m = d.unicode_len();
    if m <= n {
        let end = s.substring_char(n - m, n);
        let end_string = String::from_str(end);
        let d_string = String::from_str(d);
        if end_string == d_string {
            proof {
                assert(s@.skip(n as int - m as int) =~= s@.subrange(n as int - m as int, n as int));
            }
            let trimmed = s.substring_char(0, n - m);
            proof {
                assert(trimmed@ =~= s@.take(n as int - m as int));
            }
            return String::from_str(trimmed);
        }
        proof {
            assert(s@.skip(n as int - m as int) =~= s@.subrange(n as int - m as int, n as int));
        }
    }
    String::from_str(s)
}

/// Replaces every occurrence of a nonempty pattern, left to right, exactly
/// as `spec_replace` describes.
pub fn replace_all(s: &str, pat: &str, rep: &str) -> (r: String)
    requires
        pat@.len() >= 1,
    ensures
        r@ == spec_replace(s@, pat@, rep@),
{
    let n = s.unicode_len();
    let m = pat.unicode_len();
    let pat_string = String::from_str(pat);
    let mut out = String::new();
    let mut i: usize = 0;
    proof {
        assert(s@.skip(0) =~= s@);
        assert(Seq::<char>::empty() + spec_replace(s@, pat@, rep@) =~= spec_replace(
            s@,
            pat@,
            rep@,
        ));
    }
    while i < n
        invariant
            i <= n,
            n == s@.len(),
            m == pat@.len(),
            1 <= m,
            pat_string@ == pat@,
            spec_replace(s@, pat@, rep@) == out@ + spec_replace(s@.skip(i as int), pat@, rep@),
        decreases n - i,
    {
        let ghost prev = out@;
        let ghost sk = s@.skip(i as int);
        if match_at(s, &pat_string, i, m, n) {
            proof {
                assert(sk.take(m as int) =~= s@.subrange(i as int, i as int + m as int));
                assert(sk.skip(m as int) =~= s@.skip(i as int + m as int));
                assert(spec_replace(sk, pat@, rep@) == rep@ + spec_replace(
                    s@.skip(i as int + m as int),
                    pat@,
                    rep@,
                ));
            }
            out.append(rep);
            proof {
                assert(prev + (rep@ + spec_replace(s@.skip(i as int + m as int), pat@, rep@)) =~= out@
                    + spec_replace(s@.skip(i as int + m as int), pat@, rep@));
            }
            i = i + m;
        } else {
            proof {
                if i + m <= n {
                    assert(sk.take(m as int) =~= s@.subrange(i as int, i as int + m as int));
                    assert(sk.take(m as int) != pat@);
                } else {
                    assert(m > sk.len());
                }
                assert(sk.skip(1) =~= s@.skip(i as int + 1));
                assert(spec_replace(sk, pat@, rep@) == seq![sk[0]] + spec_replace(
                    s@.skip(i as int + 1),
                    pat@,
                    rep@,
                ));
            }
            let one = s.substring_char(i, i + 1);
            out.append(one);
            proof {
                assert(one@ =~= seq![sk[0]]);
                assert(prev + (seq![sk[0]] + spec_replace(s@.skip(i as int + 1), pat@, rep@)) =~= out@
                    + spec_replace(s@.skip(i as int + 1), pat@, rep@));
            }
            i = i + 1;
        }
    }
    proof {
        assert(s@.skip(n as int) =~= Seq::<char>::empty());
        assert(spec_replace(Seq::<char>::empty(), pat@, rep@) =~= Seq::<char>::empty());
        assert(out@ + Seq::<char>::empty() =~= out@);
    }
    out
}

} // verus!
