//! What holds of the chunks of every text.

use crate::chunker::pattern::{
    concat, first_occurrence, lemma_concat_add, lemma_concat_one, lemma_first_occurrence, occurs,
    split_on,
};
use crate::chunker::{
    ceil_div, chunk, chunk_count, chunk_end, chunk_start, chunks, join_lines,
    lemma_join_lines_len, lemma_occurs_line_break, lemma_split_on_len, line_break, lines,
};
use vstd::prelude::*;

verus! {

/// A text without a line feed is its own single chunk, whatever the number of
/// lines per chunk.
pub proof fn lemma_chunks_without_line_feed(text: Seq<char>, k: int)
    requires
        !text.contains('\n'),
    ensures
        chunks(text, k) == seq![text],
{
}

/// With 0 lines per chunk every text is its own single chunk, whatever line
/// feeds it holds.
pub proof fn lemma_chunks_for_zero(text: Seq<char>)
    ensures
        chunks(text, 0) == seq![text],
{
}

/// Every text has at least one chunk.
pub proof fn lemma_chunks_nonempty(text: Seq<char>, k: int)
    ensures
        chunks(text, k).len() >= 1,
{
    if k > 0 && text.contains('\n') {
        lemma_chunks_len(text, k);
    }
}

/// A text with a line feed has `n >= 2` lines, and for `k > 0` lines per chunk
/// it gives `ceil((n - 1) / k)` chunks, none of them empty.
pub proof fn lemma_chunks_len(text: Seq<char>, k: int)
    requires
        k > 0,
        text.contains('\n'),
    ensures
        lines(text).len() >= 2,
        chunks(text, k).len() == ceil_div(lines(text).len() - 1, k),
        chunks(text, k).len() >= 1,
        forall|j: int| 0 <= j < chunks(text, k).len() ==> (#[trigger] chunks(text, k)[j]).len() > 0,
{
    let ls = lines(text);
    let n = ls.len() as int;
    lemma_occurs_line_break(text);
    lemma_split_on_len(text, line_break());
    lemma_chunk_bounds(n, k);
    assert forall|j: int| 0 <= j < chunks(text, k).len() implies (#[trigger] chunks(
        text,
        k,
    )[j]).len() > 0 by {
        lemma_join_lines_len(ls.subrange(chunk_start(j, k), chunk_end(j, k, n)));
    }
}

/// Chunk `j` of `n >= 2` lines, for `j` below the number of chunks, starts
/// where chunk `j - 1` ends, holds at least one line, and the last chunk ends
/// with the last line.
pub proof fn lemma_chunk_bounds(n: int, k: int)
    requires
        2 <= n,
        1 <= k,
    ensures
        chunk_count(n, k) >= 1,
        chunk_end(chunk_count(n, k) - 1, k, n) == n,
        forall|j: int|
            0 <= j < chunk_count(n, k) ==> 0 <= #[trigger] chunk_start(j, k) < chunk_end(j, k, n)
                <= n,
        forall|j: int|
            0 <= j < chunk_count(n, k) - 1 ==> #[trigger] chunk_end(j, k, n) == chunk_start(
                j + 1,
                k,
            ),
{
    let c = chunk_count(n, k);
    lemma_ceil_div_is(n - 1, k, c);
    assert(c >= 1) by (nonlinear_arith)
        requires
            n - 1 <= c * k,
            n >= 2,
            k >= 1,
    ;
    assert forall|j: int| 0 <= j < c implies 0 <= #[trigger] chunk_start(j, k) < chunk_end(j, k, n)
        <= n by {
        assert(j * k + 1 < n && j * k + 1 < (j + 1) * k + 1 && j * k >= 0) by (nonlinear_arith)
            requires
                0 <= j <= c - 1,
                (c - 1) * k < n - 1,
                k >= 1,
        ;
    }
    assert forall|j: int| 0 <= j < c - 1 implies #[trigger] chunk_end(j, k, n) == chunk_start(
        j + 1,
        k,
    ) by {
        assert((j + 1) * k + 1 <= n) by (nonlinear_arith)
            requires
                0 <= j + 1 <= c - 1,
                (c - 1) * k < n - 1,
                k >= 1,
        ;
    }
}

/// Joining two lists of lines joins what each of them joins to.
pub proof fn lemma_join_lines_add(a: Seq<Seq<char>>, b: Seq<Seq<char>>)
    ensures
        join_lines(a + b) == join_lines(a) + join_lines(b),
{
    let f = |l: Seq<char>| l + line_break();
    assert((a + b).map_values(f) =~= a.map_values(f) + b.map_values(f));
    lemma_concat_add(a.map_values(f), b.map_values(f));
}

/// Splitting a text into lines and ending each line with a line feed gives
/// the text back, with one line feed more at its end.
pub proof fn lemma_join_lines_of_lines(text: Seq<char>)
    ensures
        join_lines(lines(text)) == text + line_break(),
    decreases text.len(),
{
    let f = |l: Seq<char>| l + line_break();
    let nl = line_break();
    if occurs(text, nl) {
        lemma_first_occurrence(text, nl);
        let i = first_occurrence(text, nl);
        let rest = text.skip(i + 1);
        lemma_join_lines_of_lines(rest);
        lemma_join_lines_add(seq![text.take(i)], split_on(rest, nl));
        assert(seq![text.take(i)].map_values(f) =~= seq![text.take(i) + nl]);
        lemma_concat_one(text.take(i) + nl);
        assert(text.subrange(i, i + 1) == nl);
        assert(text =~= text.take(i) + text.subrange(i, i + 1) + rest);
        assert(join_lines(lines(text)) =~= text + nl);
    } else {
        assert(lines(text) == seq![text]);
        assert(seq![text].map_values(f) =~= seq![text + nl]);
        lemma_concat_one(text + nl);
    }
}

/// The first `c` chunks of the lines `ls`, joined, are the lines in front of
/// the end of chunk `c - 1`, each ended with a line feed.
proof fn lemma_concat_chunks(ls: Seq<Seq<char>>, k: int, c: int)
    requires
        2 <= ls.len(),
        1 <= k,
        1 <= c <= chunk_count(ls.len() as int, k),
    ensures
        concat(Seq::new(c as nat, |j: int| chunk(ls, k, j))) == join_lines(
            ls.subrange(0, chunk_end(c - 1, k, ls.len() as int)),
        ),
    decreases c,
{
    let n = ls.len() as int;
    let all = Seq::new(c as nat, |j: int| chunk(ls, k, j));
    lemma_chunk_bounds(n, k);
    assert(all.drop_last() =~= Seq::new((c - 1) as nat, |j: int| chunk(ls, k, j)));
    assert(all.last() == chunk(ls, k, c - 1));
    assert(chunk_start(c - 1, k) < chunk_end(c - 1, k, n));
    if c == 1 {
        assert(concat(all.drop_last()) =~= Seq::<char>::empty());
        assert(concat(all) =~= chunk(ls, k, 0));
    } else {
        lemma_concat_chunks(ls, k, c - 1);
        assert(chunk_end(c - 2, k, n) == chunk_start(c - 1, k));
        lemma_join_lines_add(
            ls.subrange(0, chunk_start(c - 1, k)),
            ls.subrange(chunk_start(c - 1, k), chunk_end(c - 1, k, n)),
        );
        assert(ls.subrange(0, chunk_start(c - 1, k)) + ls.subrange(
            chunk_start(c - 1, k),
            chunk_end(c - 1, k, n),
        ) =~= ls.subrange(0, chunk_end(c - 1, k, n)));
    }
}

/// The chunks of a text, joined in order, give the text back: unchanged where
/// it is a single chunk, and otherwise with a line feed behind its last line.
/// Nothing is dropped and nothing occurs twice.
pub proof fn lemma_chunks_concat(text: Seq<char>, k: int)
    ensures
        concat(chunks(text, k)) == if k <= 0 || !text.contains('\n') {
            text
        } else {
            text + line_break()
        },
{
    if k <= 0 || !text.contains('\n') {
        lemma_concat_one(text);
    } else {
        let ls = lines(text);
        let n = ls.len() as int;
        lemma_chunks_len(text, k);
        lemma_chunk_bounds(n, k);
        lemma_concat_chunks(ls, k, chunk_count(n, k));
        assert(ls.subrange(0, n) =~= ls);
        lemma_join_lines_of_lines(text);
    }
}

/// For `n` lines and `k > 0` lines per chunk, the number of chunks is
/// `ceil(n / (k + 1))` exactly where groups of `k + 1` lines, one fewer than
/// there are chunks, leave a line over.
pub proof fn lemma_chunks_len_by_first_chunk(text: Seq<char>, k: int)
    requires
        k > 0,
    ensures
        chunks(text, k).len() == ceil_div(lines(text).len() as int, k + 1) <==> lines(text).len()
            > (chunks(text, k).len() - 1) * (k + 1),
{
    let n = lines(text).len() as int;
    let c = chunks(text, k).len() as int;
    lemma_occurs_line_break(text);
    lemma_split_on_len(text, line_break());
    if text.contains('\n') {
        lemma_chunks_len(text, k);
        lemma_ceil_div_is(n - 1, k, c);
        lemma_ceil_div_is(n, k + 1, c);
        assert(n <= c * (k + 1)) by (nonlinear_arith)
            requires
                n - 1 <= c * k,
                c >= 1,
                k > 0,
        ;
    } else {
        assert(n == 1 && c == 1);
        lemma_ceil_div_is(n, k + 1, c);
        assert((c - 1) * (k + 1) == 0 && c * (k + 1) == k + 1) by (nonlinear_arith)
            requires
                c == 1,
        ;
    }
}

/// `c` is `ceil(a / b)` exactly where `(c - 1) * b < a <= c * b`.
proof fn lemma_ceil_div_is(a: int, b: int, c: int)
    requires
        b > 0,
    ensures
        c == ceil_div(a, b) <==> (c - 1) * b < a <= c * b,
{
    let q = (a + b - 1) / b;
    assert(a + b - 1 == b * q + (a + b - 1) % b && 0 <= (a + b - 1) % b < b) by (nonlinear_arith)
        requires
            q == (a + b - 1) / b,
            b > 0,
    ;
    assert((q - 1) * b < a <= q * b) by (nonlinear_arith)
        requires
            a + b - 1 == b * q + (a + b - 1) % b,
            0 <= (a + b - 1) % b < b,
            b > 0,
    ;
    if (c - 1) * b < a <= c * b {
        assert(c == q) by (nonlinear_arith)
            requires
                (c - 1) * b < a <= c * b,
                (q - 1) * b < a <= q * b,
                b > 0,
        ;
    }
}

/// For a text of `n` lines and `k > 0` lines per chunk, where `n` is at most
/// `2 * k + 1`, the number of chunks is `ceil(n / (k + 1))`.
pub proof fn lemma_chunks_len_short_text(text: Seq<char>, k: int)
    requires
        k > 0,
        lines(text).len() <= 2 * k + 1,
    ensures
        chunks(text, k).len() == ceil_div(lines(text).len() as int, k + 1),
{
    let n = lines(text).len() as int;
    let c = chunks(text, k).len() as int;
    lemma_chunks_len_by_first_chunk(text, k);
    lemma_occurs_line_break(text);
    lemma_split_on_len(text, line_break());
    if text.contains('\n') {
        lemma_chunks_len(text, k);
        lemma_ceil_div_is(n - 1, k, c);
        assert(n > (c - 1) * (k + 1)) by (nonlinear_arith)
            requires
                (c - 1) * k < n - 1 <= c * k,
                n <= 2 * k + 1,
                k > 0,
                c >= 1,
        ;
    } else {
        assert(n == 1 && c == 1);
        assert((c - 1) * (k + 1) == 0) by (nonlinear_arith)
            requires
                c == 1,
        ;
    }
}

/// The number of line feeds in `text`.
pub open spec fn line_feeds(text: Seq<char>) -> nat
    decreases text.len(),
{
    if text.len() == 0 {
        0
    } else {
        line_feeds(text.drop_last()) + if text.last() == '\n' {
            1nat
        } else {
            0nat
        }
    }
}

proof fn lemma_line_feeds_add(a: Seq<char>, b: Seq<char>)
    ensures
        line_feeds(a + b) == line_feeds(a) + line_feeds(b),
    decreases b.len(),
{
    if b.len() == 0 {
        assert(a + b =~= a);
    } else {
        assert((a + b).drop_last() =~= a + b.drop_last());
        lemma_line_feeds_add(a, b.drop_last());
    }
}

proof fn lemma_line_feeds_none(a: Seq<char>)
    requires
        !a.contains('\n'),
    ensures
        line_feeds(a) == 0,
    decreases a.len(),
{
    if a.len() > 0 {
        assert(a[a.len() - 1] != '\n');
        assert forall|i: int| 0 <= i < a.drop_last().len() implies a.drop_last()[i] != '\n' by {
            assert(a[i] != '\n');
        }
        lemma_line_feeds_none(a.drop_last());
    }
}

/// A text has one line more than it has line feeds.
pub proof fn lemma_lines_len(text: Seq<char>)
    ensures
        lines(text).len() == line_feeds(text) + 1,
    decreases text.len(),
{
    let nl = line_break();
    lemma_occurs_line_break(text);
    if occurs(text, nl) {
        lemma_first_occurrence(text, nl);
        let i = first_occurrence(text, nl);
        let head = text.take(i);
        let rest = text.skip(i + 1);
        lemma_lines_len(rest);
        assert(text.subrange(i, i + 1) == nl);
        assert(text =~= head + nl + rest);
        lemma_line_feeds_add(head + nl, rest);
        lemma_line_feeds_add(head, nl);
        assert(line_feeds(nl) == 1) by {
            assert(nl.drop_last() =~= Seq::<char>::empty());
            assert(line_feeds(nl.drop_last()) == 0);
        }
        assert(!head.contains('\n')) by {
            if head.contains('\n') {
                let j = choose|j: int| 0 <= j < head.len() && head[j] == '\n';
                assert(text.subrange(j, j + 1) =~= nl);
                assert(crate::chunker::pattern::occurs_at(text, nl, j));
            }
        }
        lemma_line_feeds_none(head);
    } else {
        lemma_line_feeds_none(text);
    }
}

} // verus!
