//! Cutting a text into groups of lines, and taking out of a text what stands
//! between a pair of tags.

pub mod laws;
pub mod pattern;

use crate::chunker::pattern::{
    concat, cut_before, find_first, occurs, occurs_at, pieces, ranges_within, split_on,
    split_ranges,
};
use crate::text::{push_range, to_chars};
use vstd::prelude::*;

verus! {

/// The separator of lines: a single line feed.
pub open spec fn line_break() -> Seq<char> {
    seq!['\n']
}

/// The lines of `text`: what stands between its line feeds. A text with `n`
/// line feeds has `n + 1` lines, the last of them empty where the text ends
/// in a line feed.
pub open spec fn lines(text: Seq<char>) -> Seq<Seq<char>> {
    split_on(text, line_break())
}

/// The lines `ls`, each followed by a line feed.
pub open spec fn join_lines(ls: Seq<Seq<char>>) -> Seq<char> {
    concat(ls.map_values(|l: Seq<char>| l + line_break()))
}

/// The quotient `a / b`, rounded up.
pub open spec fn ceil_div(a: int, b: int) -> int {
    (a + b - 1) / b
}

/// The index of the first line of chunk `j`, for `k` lines per chunk. The
/// first chunk takes one line more than the others: it ends with line `k`,
/// the second with line `2 * k`, and so on.
pub open spec fn chunk_start(j: int, k: int) -> int {
    if j <= 0 {
        0
    } else {
        j * k + 1
    }
}

/// One past the index of the last line of chunk `j`, among `n` lines.
pub open spec fn chunk_end(j: int, k: int, n: int) -> int {
    if chunk_start(j + 1, k) <= n {
        chunk_start(j + 1, k)
    } else {
        n
    }
}

/// The number of chunks that `n >= 2` lines give, for `k >= 1` lines per chunk.
pub open spec fn chunk_count(n: int, k: int) -> int {
    ceil_div(n - 1, k)
}

/// Chunk `j` of the lines `ls`, for `k` lines per chunk.
pub open spec fn chunk(ls: Seq<Seq<char>>, k: int, j: int) -> Seq<char> {
    join_lines(ls.subrange(chunk_start(j, k), chunk_end(j, k, ls.len() as int)))
}

/// The chunks of `text`, for `k` lines per chunk. A text without a line feed,
/// and any text where `k` is 0, is its own single chunk. Otherwise the lines
/// are grouped in order, each line followed by a line feed: lines `0..=k`,
/// then `k` lines at a time, and what is left at the end.
pub open spec fn chunks(text: Seq<char>, k: int) -> Seq<Seq<char>> {
    if k <= 0 || !text.contains('\n') {
        seq![text]
    } else {
        Seq::new(
            chunk_count(lines(text).len() as int, k) as nat,
            |j: int| chunk(lines(text), k, j),
        )
    }
}

/// The texts that the strings of `v` hold.
pub open spec fn texts(v: Seq<String>) -> Seq<Seq<char>> {
    Seq::new(v.len(), |i: int| v[i]@)
}

/// A line feed occurs as a pattern exactly where it is one of the characters.
pub proof fn lemma_occurs_line_break(text: Seq<char>)
    ensures
        occurs(text, line_break()) <==> text.contains('\n'),
{
    if occurs(text, line_break()) {
        let i = choose|i: int| occurs_at(text, line_break(), i);
        assert(text.subrange(i, i + 1)[0] == '\n');
        assert(text[i] == '\n');
    }
    if text.contains('\n') {
        let i = choose|i: int| 0 <= i < text.len() && text[i] == '\n';
        assert(text.subrange(i, i + 1) =~= line_break());
        assert(occurs_at(text, line_break(), i));
    }
}

/// Splitting gives one piece where the pattern does not occur, and more than
/// one where it does.
pub proof fn lemma_split_on_len(s: Seq<char>, pat: Seq<char>)
    ensures
        split_on(s, pat).len() >= 1,
        occurs(s, pat) <==> split_on(s, pat).len() >= 2,
        !occurs(s, pat) ==> split_on(s, pat) == seq![s],
    decreases s.len(),
{
    if pat.len() == 0 {
        assert(s.subrange(0, 0) =~= pat);
        assert(occurs_at(s, pat, 0));
    } else if occurs(s, pat) {
        pattern::lemma_first_occurrence(s, pat);
        lemma_split_on_len(s.skip(pattern::first_occurrence(s, pat) + pat.len()), pat);
    }
}

/// Appending a line to a list of lines appends it, and a line feed, to what
/// they join to.
proof fn lemma_join_lines_push(ls: Seq<Seq<char>>, l: Seq<char>)
    ensures
        join_lines(ls.push(l)) == join_lines(ls) + l + line_break(),
{
    let f = |l: Seq<char>| l + line_break();
    assert(ls.push(l).map_values(f).drop_last() =~= ls.map_values(f));
    assert(ls.push(l).map_values(f).last() == l + line_break());
    assert(join_lines(ls.push(l)) =~= join_lines(ls) + l + line_break());
}

/// What lines join to is at least as long as their number, and empty for none.
proof fn lemma_join_lines_len(ls: Seq<Seq<char>>)
    ensures
        join_lines(ls).len() >= ls.len(),
    decreases ls.len(),
{
    if ls.len() > 0 {
        lemma_join_lines_len(ls.drop_last());
        assert(ls.drop_last().push(ls.last()) =~= ls);
        lemma_join_lines_push(ls.drop_last(), ls.last());
    }
}

/// The number of chunks that are complete before line `id` is read.
spec fn flushed(id: int, k: int) -> int {
    if id <= 0 {
        0
    } else {
        (id - 1) / k
    }
}

proof fn lemma_flush_step(id: int, k: int)
    requires
        0 <= id,
        1 <= k,
    ensures
        id > 0 && id % k == 0 ==> flushed(id + 1, k) == flushed(id, k) + 1 && chunk_start(
            flushed(id, k) + 1,
            k,
        ) == id + 1,
        !(id > 0 && id % k == 0) ==> flushed(id + 1, k) == flushed(id, k),
        chunk_start(flushed(id, k), k) <= id,
        flushed(id, k) >= 0,
{
    if id > 0 {
        assert(id == k * (id / k) + id % k && 0 <= id % k < k && id - 1 == k * ((id - 1) / k) + (id
            - 1) % k && 0 <= (id - 1) % k < k) by (nonlinear_arith)
            requires
                id > 0,
                k >= 1,
        ;
        let q = id / k;
        let p = (id - 1) / k;
        assert(p >= 0 && q >= 0 && (id % k == 0 ==> q == p + 1) && (id % k != 0 ==> q == p) && p
            * k + 1 <= id && (id % k == 0 ==> q * k == id)) by (nonlinear_arith)
            requires
                id > 0,
                k >= 1,
                q == id / k,
                p == (id - 1) / k,
                id == k * q + id % k,
                0 <= id % k < k,
                id - 1 == k * p + (id - 1) % k,
                0 <= (id - 1) % k < k,
        ;
    }
}

proof fn lemma_chunk_total(n: int, k: int)
    requires
        2 <= n,
        1 <= k,
    ensures
        chunk_start(flushed(n, k), k) == n ==> chunk_count(n, k) == flushed(n, k),
        chunk_start(flushed(n, k), k) < n ==> chunk_count(n, k) == flushed(n, k) + 1
            && chunk_end(flushed(n, k), k, n) == n,
        forall|j: int| 0 <= j < flushed(n, k) ==> chunk_end(j, k, n) == #[trigger] chunk_start(
            j + 1,
            k,
        ),
{
    let m = n - 1;
    let q = m / k;
    let c = (m + k - 1) / k;
    assert(m == k * q + m % k && 0 <= m % k < k && m + k - 1 == k * c + (m + k - 1) % k && 0 <= (m
        + k - 1) % k < k) by (nonlinear_arith)
        requires
            m >= 1,
            k >= 1,
            q == m / k,
            c == (m + k - 1) / k,
    ;
    assert(q >= 0 && (m % k == 0 ==> c == q && q >= 1 && q * k + 1 == n) && (m % k != 0 ==> c == q
        + 1 && q * k + 1 < n) && (q + 1) * k + 1 > n) by (nonlinear_arith)
        requires
            m == n - 1,
            m >= 1,
            k >= 1,
            m == k * q + m % k,
            0 <= m % k < k,
            m + k - 1 == k * c + (m + k - 1) % k,
            0 <= (m + k - 1) % k < k,
    ;
    assert forall|j: int| 0 <= j < q implies chunk_end(j, k, n) == #[trigger] chunk_start(
        j + 1,
        k,
    ) by {
        assert((j + 1) * k + 1 <= n) by (nonlinear_arith)
            requires
                0 <= j < q,
                q * k + 1 <= n,
                k >= 1,
        ;
    }
}

/// Takes a text, divides it into chunks of `lines_per_chunk` lines (the first
/// chunk holds one line more) and returns the chunks in order. Every line of a
/// chunk ends in a line feed. A text without a line feed comes back as it is,
/// in one chunk, and so does any text where `lines_per_chunk` is 0.
pub fn divide_into_chunks(text: String, lines_per_chunk: usize) -> (res: Vec<String>)
    ensures
        texts(res@) == chunks(text@, lines_per_chunk as int),
        lines_per_chunk == 0 || !text@.contains('\n') ==> res@.len() == 1 && res@[0] == text,
{
    let mut res: Vec<String> = Vec::new();
    if lines_per_chunk == 0 {
        res.push(text);
        assert(texts(res@) =~= seq![text@]);
        return res;
    }
    let k = lines_per_chunk;
    let chars = to_chars(text.as_str());
    let mut line_feed: Vec<char> = Vec::new();
    line_feed.push('\n');
    assert(line_feed@ =~= line_break());
    let ranges = split_ranges(&chars, &line_feed);
    proof {
        lemma_split_on_len(text@, line_break());
        lemma_occurs_line_break(text@);
    }
    if ranges.len() <= 1 {
        res.push(text);
        assert(texts(res@) =~= seq![text@]);
        return res;
    }
    let n = ranges.len();
    let ghost ls = lines(text@);
    let mut temp = String::new();
    let mut id: usize = 0;
    while id < n
        invariant
            k == lines_per_chunk,
            1 <= k,
            n == ranges.len(),
            id <= n,
            chars@ == text@,
            ranges_within(ranges@, chars.len() as int),
            ls == pieces(chars@, ranges@),
            ls.len() == n,
            res.len() == flushed(id as int, k as int),
            forall|j: int| 0 <= j < res.len() ==> (#[trigger] res@[j])@ == join_lines(
                ls.subrange(chunk_start(j, k as int), chunk_start(j + 1, k as int)),
            ),
            chunk_start(res.len() as int, k as int) <= id,
            temp@ == join_lines(ls.subrange(chunk_start(res.len() as int, k as int), id as int)),
        decreases n - id,
    {
        let ghost start = chunk_start(res.len() as int, k as int);
        let (from, to) = ranges[id];
        push_range(&mut temp, &chars, from, to);
        temp.push('\n');
        proof {
            lemma_flush_step(id as int, k as int);
            lemma_join_lines_push(ls.subrange(start, id as int), ls[id as int]);
            assert(ls.subrange(start, id as int).push(ls[id as int]) =~= ls.subrange(
                start,
                id + 1,
            ));
            assert(temp@ =~= join_lines(ls.subrange(start, id + 1)));
        }
        if id > 0 && id % k == 0 {
            res.push(temp);
            temp = String::new();
            proof {
                assert(ls.subrange(id + 1, id + 1) =~= Seq::<Seq<char>>::empty());
                assert(join_lines(Seq::<Seq<char>>::empty()) =~= Seq::<char>::empty());
            }
        }
        id += 1;
    }
    proof {
        let q = res.len() as int;
        lemma_chunk_total(n as int, k as int);
        lemma_join_lines_len(ls.subrange(chunk_start(q, k as int), n as int));
        assert(ls.subrange(n as int, n as int) =~= Seq::<Seq<char>>::empty());
        assert(join_lines(Seq::<Seq<char>>::empty()) =~= Seq::<char>::empty());
    }
    if !temp.as_str().is_empty() {
        res.push(temp);
    }
    proof {
        assert(texts(res@).len() == chunk_count(n as int, k as int));
        assert forall|j: int| 0 <= j < res.len() implies texts(res@)[j] == chunk(
            ls,
            k as int,
            j,
        ) by {}
        assert(texts(res@) =~= chunks(text@, k as int));
    }
    res
}

/// What stands in `text` between the tags: the pieces behind each `open`, each
/// cut off in front of its first `close` where it holds one, joined in order.
/// Nothing where `open` does not occur.
pub open spec fn extracted(text: Seq<char>, open: Seq<char>, close: Seq<char>) -> Seq<char> {
    if !occurs(text, open) {
        Seq::empty()
    } else {
        concat(split_on(text, open).skip(1).map_values(|seg: Seq<char>| cut_before(seg, close)))
    }
}

/// The tag that opens the answer in a response.
pub open spec fn answer_open() -> Seq<char> {
    "<output>"@
}

/// The tag that closes the answer in a response.
pub open spec fn answer_close() -> Seq<char> {
    "</output>"@
}

/// Returns what `text` holds between `open_tag` and `close_tag`. Where the
/// pair occurs several times, the contents are joined in order with nothing
/// between them; an `open_tag` that no `close_tag` follows takes everything up
/// to the next `open_tag` or the end. Without any `open_tag` the result is
/// empty.
pub fn extract_between_tags(text: &str, open_tag: &str, close_tag: &str) -> (res: String)
    ensures
        res@ == extracted(text@, open_tag@, close_tag@),
        !occurs(text@, open_tag@) ==> res@.len() == 0,
{
    let chars = to_chars(text);
    let open = to_chars(open_tag);
    let close = to_chars(close_tag);
    let ranges = split_ranges(&chars, &open);
    proof {
        lemma_split_on_len(text@, open@);
    }
    let mut res = String::new();
    let n = ranges.len();
    if n <= 1 {
        return res;
    }
    let ghost segs = split_on(text@, open@);
    let ghost cut = |seg: Seq<char>| cut_before(seg, close@);
    let mut i: usize = 1;
    assert(segs.subrange(1, 1).map_values(cut) =~= Seq::<Seq<char>>::empty());
    while i < n
        invariant
            n == ranges.len(),
            1 <= i <= n,
            chars@ == text@,
            ranges_within(ranges@, chars.len() as int),
            segs == pieces(chars@, ranges@),
            segs.len() == n,
            cut == |seg: Seq<char>| cut_before(seg, close@),
            res@ == concat(segs.subrange(1, i as int).map_values(cut)),
        decreases n - i,
    {
        let (from, to) = ranges[i];
        let end = match find_first(&chars, from, to, &close) {
            Some(p) => p,
            None => to,
        };
        proof {
            let seg = segs[i as int];
            assert(seg == chars@.subrange(from as int, to as int));
            if end < to || occurs(seg, close@) {
                pattern::lemma_first_occurrence_is(seg, close@, end - from);
            }
            assert(cut_before(seg, close@) =~= chars@.subrange(from as int, end as int));
            assert(segs.subrange(1, i + 1).map_values(cut) =~= segs.subrange(
                1,
                i as int,
            ).map_values(cut).push(cut(seg)));
            assert(segs.subrange(1, i + 1).map_values(cut).drop_last() =~= segs.subrange(
                1,
                i as int,
            ).map_values(cut));
        }
        push_range(&mut res, &chars, from, end);
        i += 1;
    }
    assert(segs.skip(1) =~= segs.subrange(1, n as int));
    res
}

/// Takes a response and returns what it holds between `<output>` and
/// `</output>`: the translated text.
pub fn extract_translated_from_response(message: String) -> (res: String)
    ensures
        res@ == extracted(message@, answer_open(), answer_close()),
        !occurs(message@, answer_open()) ==> res@.len() == 0,
{
    extract_between_tags(message.as_str(), "<output>", "</output>")
}

} // verus!
