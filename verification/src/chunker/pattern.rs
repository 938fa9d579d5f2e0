//! Substring search and splitting on sequences of characters.

use vstd::prelude::*;

verus! {

/// `pat` stands in `s` at position `i`.
pub open spec fn occurs_at(s: Seq<char>, pat: Seq<char>, i: int) -> bool {
    &&& 0 <= i
    &&& i + pat.len() <= s.len()
    &&& s.subrange(i, i + pat.len()) == pat
}

/// `pat` stands somewhere in `s`. The empty pattern stands in every sequence.
pub open spec fn occurs(s: Seq<char>, pat: Seq<char>) -> bool {
    exists|i: int| occurs_at(s, pat, i)
}

/// `i` is the leftmost position at which `pat` stands in `s`.
pub open spec fn is_first_occurrence(s: Seq<char>, pat: Seq<char>, i: int) -> bool {
    &&& occurs_at(s, pat, i)
    &&& forall|j: int| 0 <= j < i ==> !occurs_at(s, pat, j)
}

/// The leftmost position at which `pat` stands in `s`; meaningful where
/// `occurs(s, pat)`.
pub open spec fn first_occurrence(s: Seq<char>, pat: Seq<char>) -> int {
    choose|i: int| is_first_occurrence(s, pat, i)
}

/// The part of `s` in front of the leftmost `pat`, or all of `s` where `pat`
/// does not occur.
pub open spec fn cut_before(s: Seq<char>, pat: Seq<char>) -> Seq<char> {
    if occurs(s, pat) {
        s.take(first_occurrence(s, pat))
    } else {
        s
    }
}

/// The pieces that remain of `s` when every `pat` is taken out, matching from
/// the left and never overlapping. A sequence without `pat` is its own single
/// piece. The empty pattern matches before and behind every character, so it
/// yields an empty piece, one piece per character, and an empty piece again.
pub open spec fn split_on(s: Seq<char>, pat: Seq<char>) -> Seq<Seq<char>>
    decreases s.len(),
    via split_on_decreases
{
    if pat.len() == 0 {
        seq![Seq::<char>::empty()] + Seq::new(s.len(), |i: int| seq![s[i]]) + seq![
            Seq::<char>::empty(),
        ]
    } else if occurs(s, pat) {
        seq![s.take(first_occurrence(s, pat))] + split_on(
            s.skip(first_occurrence(s, pat) + pat.len()),
            pat,
        )
    } else {
        seq![s]
    }
}

#[via_fn]
proof fn split_on_decreases(s: Seq<char>, pat: Seq<char>) {
    if pat.len() != 0 && occurs(s, pat) {
        lemma_first_occurrence(s, pat);
    }
}

/// The concatenation of the pieces of `parts`, in order.
pub open spec fn concat(parts: Seq<Seq<char>>) -> Seq<char>
    decreases parts.len(),
{
    if parts.len() == 0 {
        Seq::empty()
    } else {
        concat(parts.drop_last()) + parts.last()
    }
}

/// The subsequences of `s` that the index pairs of `ranges` delimit.
pub open spec fn pieces(s: Seq<char>, ranges: Seq<(usize, usize)>) -> Seq<Seq<char>> {
    Seq::new(ranges.len(), |i: int| s.subrange(ranges[i].0 as int, ranges[i].1 as int))
}

/// Every pair of `ranges` delimits a subsequence of a sequence of length `n`.
pub open spec fn ranges_within(ranges: Seq<(usize, usize)>, n: int) -> bool {
    forall|i: int| 0 <= i < ranges.len() ==> (#[trigger] ranges[i]).0 <= ranges[i].1 <= n
}

proof fn lemma_least_occurrence(s: Seq<char>, pat: Seq<char>, lo: int, w: int) -> (i: int)
    requires
        0 <= lo <= w,
        occurs_at(s, pat, w),
        forall|j: int| 0 <= j < lo ==> !occurs_at(s, pat, j),
    ensures
        is_first_occurrence(s, pat, i),
    decreases w - lo,
{
    if occurs_at(s, pat, lo) {
        lo
    } else {
        lemma_least_occurrence(s, pat, lo + 1, w)
    }
}

/// Where `pat` occurs in `s`, it has a leftmost occurrence, and
/// `first_occurrence` is its position.
pub proof fn lemma_first_occurrence(s: Seq<char>, pat: Seq<char>)
    requires
        occurs(s, pat),
    ensures
        is_first_occurrence(s, pat, first_occurrence(s, pat)),
        0 <= first_occurrence(s, pat),
        first_occurrence(s, pat) + pat.len() <= s.len(),
{
    let w = choose|i: int| occurs_at(s, pat, i);
    let i = lemma_least_occurrence(s, pat, 0, w);
    assert(is_first_occurrence(s, pat, i));
}

/// A position that is leftmost is the one that `first_occurrence` names.
pub proof fn lemma_first_occurrence_is(s: Seq<char>, pat: Seq<char>, i: int)
    requires
        is_first_occurrence(s, pat, i),
    ensures
        occurs(s, pat),
        first_occurrence(s, pat) == i,
{
    let f = first_occurrence(s, pat);
    assert(is_first_occurrence(s, pat, f));
    if f < i {
        assert(!occurs_at(s, pat, f));
    } else if i < f {
        assert(!occurs_at(s, pat, i));
    }
}

/// Concatenation distributes over joining two lists of pieces.
pub proof fn lemma_concat_add(a: Seq<Seq<char>>, b: Seq<Seq<char>>)
    ensures
        concat(a + b) == concat(a) + concat(b),
    decreases b.len(),
{
    if b.len() == 0 {
        assert(a + b =~= a);
        assert(concat(b) =~= Seq::<char>::empty());
        assert(concat(a) + concat(b) =~= concat(a));
    } else {
        assert((a + b).drop_last() =~= a + b.drop_last());
        assert((a + b).last() == b.last());
        lemma_concat_add(a, b.drop_last());
        assert(concat(a + b) =~= concat(a) + concat(b));
    }
}

/// The concatenation of a single piece is that piece.
pub proof fn lemma_concat_one(a: Seq<char>)
    ensures
        concat(seq![a]) == a,
{
    assert(seq![a].drop_last() =~= Seq::<Seq<char>>::empty());
    assert(concat(seq![a].drop_last()) =~= Seq::<char>::empty());
    assert(concat(seq![a]) =~= a);
}

/// Tells whether `pat` stands in `hay` at position `at`, within `hay[..hi]`.
fn matches_at(hay: &Vec<char>, hi: usize, pat: &Vec<char>, at: usize) -> (b: bool)
    requires
        at + pat.len() <= hi <= hay.len(),
    ensures
        b == (hay@.subrange(at as int, at + pat.len()) == pat@),
{
    let m = pat.len();
    let mut j: usize = 0;
    while j < m
        invariant
            m == pat.len(),
            at + m <= hi <= hay.len(),
            j <= m,
            forall|t: int| 0 <= t < j ==> hay@[at + t] == pat@[t],
        decreases m - j,
    {
        if hay[at + j] != pat[j] {
            assert(hay@.subrange(at as int, at + m)[j as int] != pat@[j as int]);
            return false;
        }
        j += 1;
    }
    assert(hay@.subrange(at as int, at + m) =~= pat@);
    true
}

/// Finds the leftmost occurrence of `pat` inside the window `hay[lo..hi]` and
/// returns its position in `hay`.
pub fn find_first(hay: &Vec<char>, lo: usize, hi: usize, pat: &Vec<char>) -> (r: Option<usize>)
    requires
        lo <= hi <= hay.len(),
    ensures
        match r {
            Some(p) => lo <= p && p + pat.len() <= hi && is_first_occurrence(
                hay@.subrange(lo as int, hi as int),
                pat@,
                p - lo,
            ),
            None => !occurs(hay@.subrange(lo as int, hi as int), pat@),
        },
{
    let m = pat.len();
    let ghost w = hay@.subrange(lo as int, hi as int);
    if hi - lo < m {
        return None;
    }
    let last = hi - m;
    let mut i: usize = lo;
    while i <= last
        invariant
            m == pat.len(),
            lo <= hi <= hay.len(),
            last == hi - m,
            lo <= i <= last + 1,
            w == hay@.subrange(lo as int, hi as int),
            forall|j: int| 0 <= j < i - lo ==> !occurs_at(w, pat@, j),
        decreases last + 1 - i,
    {
        assert(w.subrange(i - lo, i - lo + m) =~= hay@.subrange(i as int, i + m));
        if matches_at(hay, hi, pat, i) {
            return Some(i);
        }
        assert(m > 0) by {
            if m == 0 {
                assert(hay@.subrange(i as int, i + m) =~= pat@);
            }
        }
        i += 1;
    }
    None
}

/// Splits `hay` on `pat` and returns the pieces as index pairs into `hay`.
pub fn split_ranges(hay: &Vec<char>, pat: &Vec<char>) -> (out: Vec<(usize, usize)>)
    ensures
        ranges_within(out@, hay.len() as int),
        pieces(hay@, out@) == split_on(hay@, pat@),
{
    let n = hay.len();
    let mut out: Vec<(usize, usize)> = Vec::new();
    if pat.len() == 0 {
        out.push((0, 0));
        let mut i: usize = 0;
        while i < n
            invariant
                n == hay.len(),
                i <= n,
                out.len() == i + 1,
                out@[0] == (0usize, 0usize),
                forall|t: int| 1 <= t <= i ==> out@[t] == ((t - 1) as usize, t as usize),
            decreases n - i,
        {
            out.push((i, i + 1));
            i += 1;
        }
        out.push((n, n));
        proof {
            let expected = seq![Seq::<char>::empty()] + Seq::new(
                hay@.len(),
                |i: int| seq![hay@[i]],
            ) + seq![Seq::<char>::empty()];
            assert(pieces(hay@, out@).len() == expected.len());
            assert forall|t: int| 0 <= t < expected.len() implies pieces(hay@, out@)[t]
                == expected[t] by {
                if 1 <= t <= n {
                    assert(hay@.subrange(t - 1, t) =~= seq![hay@[t - 1]]);
                } else {
                    assert(hay@.subrange(0, 0) =~= Seq::<char>::empty());
                    assert(hay@.subrange(n as int, n as int) =~= Seq::<char>::empty());
                }
            }
            assert(pieces(hay@, out@) =~= expected);
        }
        return out;
    }
    let mut pos: usize = 0;
    assert(hay@.subrange(0, n as int) =~= hay@);
    assert(pieces(hay@, out@) =~= Seq::<Seq<char>>::empty());
    loop
        invariant_except_break
            split_on(hay@, pat@) == pieces(hay@, out@) + split_on(
                hay@.subrange(pos as int, n as int),
                pat@,
            ),
        invariant
            n == hay.len(),
            pat.len() > 0,
            pos <= n,
            ranges_within(out@, n as int),
        ensures
            ranges_within(out@, n as int),
            pieces(hay@, out@) == split_on(hay@, pat@),
        decreases n - pos,
    {
        let ghost w = hay@.subrange(pos as int, n as int);
        let ghost before = out@;
        match find_first(hay, pos, n, pat) {
            Some(p) => {
                proof {
                    lemma_first_occurrence_is(w, pat@, p - pos);
                    assert(w.take(p - pos) =~= hay@.subrange(pos as int, p as int));
                    assert(w.skip(p - pos + pat.len()) =~= hay@.subrange(
                        p + pat.len(),
                        n as int,
                    ));
                }
                out.push((pos, p));
                proof {
                    assert(pieces(hay@, out@) =~= pieces(hay@, before) + seq![
                        hay@.subrange(pos as int, p as int),
                    ]);
                    assert(split_on(hay@, pat@) =~= pieces(hay@, out@) + split_on(
                        hay@.subrange(p + pat.len(), n as int),
                        pat@,
                    ));
                }
                pos = p + pat.len();
            },
            None => {
                out.push((pos, n));
                proof {
                    assert(pieces(hay@, out@) =~= pieces(hay@, before) + seq![w]);
                }
                break ;
            },
        }
    }
    out
}

} // verus!
