use vstd::prelude::*;

use crate::text::{
    concat_all, free_of, lemma_split_concat_wf, lemma_split_lines_append, lemma_split_lines_len,
    lemma_split_lines_step, lemma_split_lines_tail, lemma_split_lines_wf, split_lines, wf_lines,
};

verus! {

/// The newline byte.
pub const NEWLINE: u8 = 10u8;

/// Lines of a byte buffer; each keeps its newline when it has one.
pub open spec fn byte_lines(bytes: Seq<u8>) -> Seq<Seq<u8>> {
    split_lines(bytes, NEWLINE)
}

/// Counts the lines of `bytes`: every newline ends a line, and bytes after
/// the last newline form one more line.
pub fn count_lines_bytes(bytes: &[u8]) -> (n: usize)
    ensures
        n == byte_lines(bytes@).len(),
{
    if bytes.len() == 0 {
        return 0;
    }
    let mut count: usize = 0;
    let mut start: usize = 0;
    let mut i: usize = 0;
    while i < bytes.len()
        invariant
            start <= i <= bytes@.len(),
            start == 0 || bytes@[start - 1] == NEWLINE,
            free_of(bytes@, NEWLINE, start as int, i as int),
            count == byte_lines(bytes@.take(start as int)).len(),
            count <= start,
        decreases bytes@.len() - i,
    {
        if bytes[i] == NEWLINE {
            proof {
                lemma_split_lines_step(bytes@, NEWLINE, start as int, i as int);
            }
            count = count + 1;
            start = i + 1;
        }
        i = i + 1;
    }
    proof {
        lemma_split_lines_tail(bytes@, NEWLINE, start as int);
    }
    if start < bytes.len() {
        count + 1
    } else {
        count
    }
}

} // verus!

verus! {

/// The carriage-return byte.
pub const CARRIAGE_RETURN: u8 = 13u8;

/// A closed range of 1-based line numbers.
#[derive(Clone, Copy, Debug, PartialEq, Eq)]
pub struct LineRange {
    pub start: usize,
    pub end: usize,
}

/// The lines of `ls` whose 1-based number `n` satisfies `start <= n <= end`.
pub open spec fn lines_in_range(ls: Seq<Seq<u8>>, start: nat, end: nat) -> Seq<Seq<u8>>
    decreases ls.len(),
{
    if ls.len() == 0 {
        seq![]
    } else {
        let rest = lines_in_range(ls.drop_last(), start, end);
        if start <= ls.len() <= end {
            rest.push(ls.last())
        } else {
            rest
        }
    }
}

proof fn lemma_lines_in_range_past_end(a: Seq<Seq<u8>>, b: Seq<Seq<u8>>, start: nat, end: nat)
    requires
        a.len() >= end,
    ensures
        lines_in_range(a + b, start, end) == lines_in_range(a, start, end),
    decreases b.len(),
{
    if b.len() == 0 {
        assert(a + b =~= a);
    } else {
        assert((a + b).drop_last() =~= a + b.drop_last());
        lemma_lines_in_range_past_end(a, b.drop_last(), start, end);
    }
}

/// Appends `bytes[lo..hi]` to `out`.
fn append_range(out: &mut Vec<u8>, bytes: &[u8], lo: usize, hi: usize)
    requires
        lo <= hi <= bytes@.len(),
    ensures
        final(out)@ == old(out)@ + bytes@.subrange(lo as int, hi as int),
{
    let mut k = lo;
    while k < hi
        invariant
            lo <= k <= hi <= bytes@.len(),
            out@ == old(out)@ + bytes@.subrange(lo as int, k as int),
        decreases hi - k,
    {
        out.push(bytes[k]);
        assert(bytes@.subrange(lo as int, k + 1) =~= bytes@.subrange(lo as int, k as int).push(
            bytes@[k as int],
        ));
        k = k + 1;
    }
}

/// Keeps the lines of `bytes` whose 1-based number lies in `range`, with
/// their newlines.
pub fn slice_bytes_by_line_range(bytes: &[u8], range: LineRange) -> (out: Vec<u8>)
    requires
        bytes@.len() < usize::MAX,
    ensures
        out@ == concat_all(lines_in_range(byte_lines(bytes@), range.start as nat, range.end as nat)),
{
    let mut out: Vec<u8> = Vec::new();
    if bytes.len() == 0 {
        return out;
    }
    let mut line_no: usize = 1;
    let mut start: usize = 0;
    let mut i: usize = 0;
    while i < bytes.len()
        invariant
            bytes@.len() < usize::MAX,
            start <= i <= bytes@.len(),
            start == 0 || bytes@[start - 1] == NEWLINE,
            free_of(bytes@, NEWLINE, start as int, i as int),
            line_no == byte_lines(bytes@.take(start as int)).len() + 1,
            out@ == concat_all(
                lines_in_range(
                    byte_lines(bytes@.take(start as int)),
                    range.start as nat,
                    range.end as nat,
                ),
            ),
        decreases bytes@.len() - i,
    {
        proof {
            lemma_split_lines_len(bytes@.take(start as int), NEWLINE);
        }
        if bytes[i] == NEWLINE {
            let line_end = i + 1;
            proof {
                lemma_split_lines_step(bytes@, NEWLINE, start as int, i as int);
            }
            let ghost old_lines = byte_lines(bytes@.take(start as int));
            let ghost line = bytes@.subrange(start as int, line_end as int);
            let ghost new_lines = byte_lines(bytes@.take(line_end as int));
            assert(new_lines.drop_last() =~= old_lines);
            assert(new_lines.last() == line);
            let ghost kept = lines_in_range(old_lines, range.start as nat, range.end as nat);
            if line_no >= range.start && line_no <= range.end {
                append_range(&mut out, bytes, start, line_end);
                assert(kept.push(line).drop_last() =~= kept);
                assert(concat_all(kept.push(line)) == concat_all(kept) + line);
            }
            line_no = line_no + 1;
            start = line_end;
            if line_no > range.end {
                proof {
                    let p = bytes@.take(line_end as int);
                    let q = bytes@.skip(line_end as int);
                    assert(bytes@ =~= p + q);
                    assert(p.last() == NEWLINE);
                    lemma_split_lines_append(p, q, NEWLINE);
                    lemma_lines_in_range_past_end(
                        byte_lines(p),
                        byte_lines(q),
                        range.start as nat,
                        range.end as nat,
                    );
                }
                return out;
            }
        }
        i = i + 1;
    }
    proof {
        lemma_split_lines_tail(bytes@, NEWLINE, start as int);
    }
    if start < bytes.len() && line_no >= range.start && line_no <= range.end {
        let ghost old_lines = byte_lines(bytes@.take(start as int));
        let ghost kept = lines_in_range(old_lines, range.start as nat, range.end as nat);
        let ghost line = bytes@.skip(start as int);
        append_range(&mut out, bytes, start, bytes.len());
        assert(bytes@.subrange(start as int, bytes@.len() as int) =~= line);
        assert(old_lines.push(line).drop_last() =~= old_lines);
        assert(kept.push(line).drop_last() =~= kept);
        assert(concat_all(kept.push(line)) == concat_all(kept) + line);
    } else if start < bytes.len() {
        let ghost old_lines = byte_lines(bytes@.take(start as int));
        let ghost line = bytes@.skip(start as int);
        assert(old_lines.push(line).drop_last() =~= old_lines);
    }
    out
}

/// A line is blank when nothing but an optional carriage return precedes its
/// newline (or the end of the input).
pub open spec fn is_blank_line(l: Seq<u8>) -> bool {
    let c = if l.len() > 0 && l.last() == NEWLINE {
        l.drop_last()
    } else {
        l
    };
    c.len() == 0 || (c.len() == 1 && c[0] == CARRIAGE_RETURN)
}

/// Kept lines and current run of consecutive blank lines after squeezing
/// `ls`: a blank line is kept only while the run it belongs to has at most
/// `limit` lines so far; every other line is kept.
pub open spec fn squeeze_state(ls: Seq<Seq<u8>>, limit: nat) -> (Seq<Seq<u8>>, nat)
    decreases ls.len(),
{
    if ls.len() == 0 {
        (seq![], 0)
    } else {
        let (kept, run) = squeeze_state(ls.drop_last(), limit);
        let l = ls.last();
        if is_blank_line(l) {
            if run + 1 <= limit {
                (kept.push(l), run + 1)
            } else {
                (kept, run + 1)
            }
        } else {
            (kept.push(l), 0)
        }
    }
}

/// The lines of `ls` that squeezing keeps, in order.
pub open spec fn squeezed_lines(ls: Seq<Seq<u8>>, limit: nat) -> Seq<Seq<u8>> {
    squeeze_state(ls, limit).0
}

/// Drops every blank line that follows `limit` or more consecutive blank
/// lines.
pub fn squeeze_blank_lines_bytes(bytes: &[u8], limit: usize) -> (out: Vec<u8>)
    ensures
        out@ == concat_all(squeezed_lines(byte_lines(bytes@), limit as nat)),
{
    let mut out: Vec<u8> = Vec::new();
    if bytes.len() == 0 {
        return out;
    }
    let mut blank_count: usize = 0;
    let mut start: usize = 0;
    let mut i: usize = 0;
    while i < bytes.len()
        invariant
            start <= i <= bytes@.len(),
            start == 0 || bytes@[start - 1] == NEWLINE,
            free_of(bytes@, NEWLINE, start as int, i as int),
            blank_count <= start,
            out@ == concat_all(squeeze_state(byte_lines(bytes@.take(start as int)), limit as nat).0),
            blank_count == squeeze_state(byte_lines(bytes@.take(start as int)), limit as nat).1,
        decreases bytes@.len() - i,
    {
        if bytes[i] == NEWLINE {
            proof {
                lemma_split_lines_step(bytes@, NEWLINE, start as int, i as int);
            }
            let ghost line = bytes@.subrange(start as int, i + 1);
            let ghost lines = byte_lines(bytes@.take(i + 1));
            assert(lines.drop_last() =~= byte_lines(bytes@.take(start as int)));
            assert(line.drop_last() =~= bytes@.subrange(start as int, i as int));
            let mut content_end = i;
            if content_end > start && bytes[content_end - 1] == CARRIAGE_RETURN {
                content_end = content_end - 1;
            }
            let is_blank = content_end == start;
            assert(is_blank == is_blank_line(line)) by {
                if i - start == 1 {
                    assert(line.drop_last()[0] == bytes@[start as int]);
                }
            }
            let ghost kept = squeeze_state(byte_lines(bytes@.take(start as int)), limit as nat).0;
            assert(kept.push(line).drop_last() =~= kept);
            if is_blank {
                blank_count = blank_count + 1;
                if blank_count <= limit {
                    append_range(&mut out, bytes, start, i + 1);
                }
            } else {
                blank_count = 0;
                append_range(&mut out, bytes, start, i + 1);
            }
            start = i + 1;
        }
        i = i + 1;
    }
    proof {
        lemma_split_lines_tail(bytes@, NEWLINE, start as int);
    }
    if start < bytes.len() {
        let ghost line = bytes@.skip(start as int);
        assert(line.last() != NEWLINE) by {
            assert(line.last() == bytes@[bytes@.len() - 1]);
        }
        let mut content_end = bytes.len();
        if content_end > start && bytes[content_end - 1] == CARRIAGE_RETURN {
            content_end = content_end - 1;
        }
        let is_blank = content_end == start;
        assert(is_blank == is_blank_line(line)) by {
            if bytes@.len() - start == 1 {
                assert(line[0] == bytes@[start as int]);
            }
        }
        assert(bytes@.subrange(start as int, bytes@.len() as int) =~= line);
        let ghost old_lines = byte_lines(bytes@.take(start as int));
        assert(old_lines.push(line).drop_last() =~= old_lines);
        let ghost kept = squeeze_state(old_lines, limit as nat).0;
        assert(kept.push(line).drop_last() =~= kept);
        if is_blank {
            blank_count = blank_count + 1;
            if blank_count <= limit {
                append_range(&mut out, bytes, start, bytes.len());
            }
        } else {
            append_range(&mut out, bytes, start, bytes.len());
        }
    }
    out
}

} // verus!

verus! {

/// Every piece of `xs` is a complete line: non-empty, ending with its only
/// newline.
pub open spec fn all_closed(xs: Seq<Seq<u8>>) -> bool {
    forall|i: int|
        0 <= i < xs.len() ==> #[trigger] xs[i].len() > 0 && free_of(xs[i], NEWLINE, 0, xs[i].len() - 1)
            && xs[i].last() == NEWLINE
}

proof fn lemma_wf_parts(ls: Seq<Seq<u8>>)
    requires
        wf_lines(ls, NEWLINE),
        ls.len() > 0,
    ensures
        all_closed(ls.drop_last()),
        ls.last().len() > 0,
        free_of(ls.last(), NEWLINE, 0, ls.last().len() - 1),
{
    assert(ls[ls.len() - 1] == ls.last());
    assert forall|i: int| 0 <= i < ls.drop_last().len() implies #[trigger] ls.drop_last()[i].len()
        > 0 && free_of(ls.drop_last()[i], NEWLINE, 0, ls.drop_last()[i].len() - 1)
        && ls.drop_last()[i].last() == NEWLINE by {
        assert(ls.drop_last()[i] == ls[i]);
    }
}

proof fn lemma_closed_push_wf(xs: Seq<Seq<u8>>, l: Seq<u8>)
    requires
        all_closed(xs),
        l.len() > 0,
        free_of(l, NEWLINE, 0, l.len() - 1),
    ensures
        wf_lines(xs.push(l), NEWLINE),
        all_closed(xs) ==> wf_lines(xs, NEWLINE),
{
    let ys = xs.push(l);
    assert forall|i: int| 0 <= i < ys.len() implies #[trigger] ys[i].len() > 0 && free_of(
        ys[i],
        NEWLINE,
        0,
        ys[i].len() - 1,
    ) by {
        if i < xs.len() {
            assert(ys[i] == xs[i]);
        }
    }
    assert forall|i: int| 0 <= i < ys.len() - 1 implies #[trigger] ys[i].last() == NEWLINE by {
        assert(ys[i] == xs[i]);
    }
    assert forall|i: int| 0 <= i < xs.len() - 1 implies #[trigger] xs[i].last() == NEWLINE by {
        assert(xs[i].last() == NEWLINE);
    }
}

proof fn lemma_lines_in_range_closed(xs: Seq<Seq<u8>>, start: nat, end: nat)
    requires
        all_closed(xs),
    ensures
        all_closed(lines_in_range(xs, start, end)),
    decreases xs.len(),
{
    if xs.len() > 0 {
        let init = xs.drop_last();
        assert(all_closed(init)) by {
            assert forall|i: int| 0 <= i < init.len() implies #[trigger] init[i].len() > 0
                && free_of(init[i], NEWLINE, 0, init[i].len() - 1) && init[i].last() == NEWLINE by {
                assert(init[i] == xs[i]);
            }
        }
        lemma_lines_in_range_closed(init, start, end);
        let r = lines_in_range(init, start, end);
        assert(xs[xs.len() - 1] == xs.last());
        assert forall|i: int| 0 <= i < r.len() + 1 implies #[trigger] r.push(xs.last())[i].len() > 0
            && free_of(r.push(xs.last())[i], NEWLINE, 0, r.push(xs.last())[i].len() - 1)
            && r.push(xs.last())[i].last() == NEWLINE by {
            if i < r.len() {
                assert(r.push(xs.last())[i] == r[i]);
            }
        }
    }
}

/// The selected lines of well-formed lines are well formed.
proof fn lemma_lines_in_range_wf(ls: Seq<Seq<u8>>, start: nat, end: nat)
    requires
        wf_lines(ls, NEWLINE),
    ensures
        wf_lines(lines_in_range(ls, start, end), NEWLINE),
{
    if ls.len() == 0 {
        assert(wf_lines(lines_in_range(ls, start, end), NEWLINE));
    } else {
        lemma_wf_parts(ls);
        let init = ls.drop_last();
        lemma_lines_in_range_closed(init, start, end);
        lemma_closed_push_wf(lines_in_range(init, start, end), ls.last());
    }
}

/// The lines numbered `start ..= end` (1-based) of `ls`, as a subrange.
pub open spec fn range_lines(ls: Seq<Seq<u8>>, start: nat, end: nat) -> Seq<Seq<u8>> {
    let lo: int = if start >= 1 {
        start - 1
    } else {
        0
    };
    let hi: int = if end < ls.len() {
        end as int
    } else {
        ls.len() as int
    };
    if lo < hi {
        ls.subrange(lo, hi)
    } else {
        seq![]
    }
}

proof fn lemma_lines_in_range_subrange(ls: Seq<Seq<u8>>, start: nat, end: nat)
    ensures
        lines_in_range(ls, start, end) == range_lines(ls, start, end),
    decreases ls.len(),
{
    if ls.len() > 0 {
        lemma_lines_in_range_subrange(ls.drop_last(), start, end);
        let n = ls.len() as int;
        let lo: int = if start >= 1 {
            start - 1
        } else {
            0
        };
        if start <= n <= end && lo < n - 1 {
            assert(ls.subrange(lo, n) =~= ls.drop_last().subrange(lo, n - 1).push(ls.last()));
        } else if start <= n <= end {
            assert(ls.subrange(lo, n) =~= seq![ls.last()]);
            assert(range_lines(ls.drop_last(), start, end) =~= Seq::<Seq<u8>>::empty());
            assert(Seq::<Seq<u8>>::empty().push(ls.last()) =~= seq![ls.last()]);
        } else if n <= end {
            assert(range_lines(ls, start, end) =~= Seq::<Seq<u8>>::empty());
        } else {
            let hi: int = if end < n - 1 {
                end as int
            } else {
                n - 1
            };
            assert(hi == end);
            if lo < hi {
                assert(ls.subrange(lo, hi) =~= ls.drop_last().subrange(lo, hi));
            }
        }
    }
}

/// The lines of the part that a line range selects are exactly the lines of
/// the input numbered `start ..= end`: no line is cut, merged or reordered.
pub proof fn law_line_range_selects_lines(bytes: Seq<u8>, start: nat, end: nat)
    ensures
        byte_lines(concat_all(lines_in_range(byte_lines(bytes), start, end))) == range_lines(
            byte_lines(bytes),
            start,
            end,
        ),
        lines_in_range(byte_lines(bytes), start, end) == range_lines(byte_lines(bytes), start, end),
{
    lemma_split_lines_wf(bytes, NEWLINE);
    lemma_lines_in_range_wf(byte_lines(bytes), start, end);
    lemma_split_concat_wf(lines_in_range(byte_lines(bytes), start, end), NEWLINE);
    lemma_lines_in_range_subrange(byte_lines(bytes), start, end);
}

/// Number of consecutive blank lines of `ls` that end at line `j`.
pub open spec fn blank_run_at(ls: Seq<Seq<u8>>, j: int) -> nat
    decreases j,
{
    if 0 <= j < ls.len() && is_blank_line(ls[j]) {
        if j == 0 {
            1
        } else {
            1 + blank_run_at(ls, j - 1)
        }
    } else {
        0
    }
}

proof fn lemma_blank_run_push(xs: Seq<Seq<u8>>, l: Seq<u8>, j: int)
    requires
        0 <= j < xs.len(),
    ensures
        blank_run_at(xs.push(l), j) == blank_run_at(xs, j),
    decreases j,
{
    assert(xs.push(l)[j] == xs[j]);
    if j > 0 {
        lemma_blank_run_push(xs, l, j - 1);
    }
}

/// Length of the run of blank lines at the end of `xs`.
pub open spec fn trailing_blanks(xs: Seq<Seq<u8>>) -> nat {
    if xs.len() == 0 {
        0
    } else {
        blank_run_at(xs, xs.len() - 1)
    }
}

proof fn lemma_squeeze_runs(ls: Seq<Seq<u8>>, limit: nat)
    ensures
        ({
            let (kept, run) = squeeze_state(ls, limit);
            &&& forall|j: int| 0 <= j < kept.len() ==> #[trigger] blank_run_at(kept, j) <= limit
            &&& trailing_blanks(kept) == if run < limit {
                run
            } else {
                limit
            }
        }),
    decreases ls.len(),
{
    if ls.len() > 0 {
        lemma_squeeze_runs(ls.drop_last(), limit);
        let (kept, run) = squeeze_state(ls.drop_last(), limit);
        let l = ls.last();
        if is_blank_line(l) && run + 1 > limit {
        } else {
            let ys = kept.push(l);
            assert forall|j: int| 0 <= j < kept.len() implies #[trigger] blank_run_at(ys, j)
                == blank_run_at(kept, j) by {
                lemma_blank_run_push(kept, l, j);
            }
            assert(ys[kept.len() as int] == l);
            if kept.len() > 0 {
                lemma_blank_run_push(kept, l, kept.len() - 1);
            }
            assert forall|j: int| 0 <= j < ys.len() implies #[trigger] blank_run_at(ys, j)
                <= limit by {
                if j < kept.len() {
                    assert(blank_run_at(ys, j) == blank_run_at(kept, j));
                }
            }
        }
    }
}

proof fn lemma_squeeze_closed(ls: Seq<Seq<u8>>, limit: nat)
    requires
        all_closed(ls),
    ensures
        all_closed(squeezed_lines(ls, limit)),
    decreases ls.len(),
{
    if ls.len() > 0 {
        let init = ls.drop_last();
        assert(all_closed(init)) by {
            assert forall|i: int| 0 <= i < init.len() implies #[trigger] init[i].len() > 0
                && free_of(init[i], NEWLINE, 0, init[i].len() - 1) && init[i].last() == NEWLINE by {
                assert(init[i] == ls[i]);
            }
        }
        lemma_squeeze_closed(init, limit);
        let r = squeezed_lines(init, limit);
        assert(ls[ls.len() - 1] == ls.last());
        assert forall|i: int| 0 <= i < r.len() + 1 implies #[trigger] r.push(ls.last())[i].len() > 0
            && free_of(r.push(ls.last())[i], NEWLINE, 0, r.push(ls.last())[i].len() - 1)
            && r.push(ls.last())[i].last() == NEWLINE by {
            if i < r.len() {
                assert(r.push(ls.last())[i] == r[i]);
            }
        }
    }
}

/// Squeezing yields whole lines of the input, and no run of consecutive
/// blank lines in its output is longer than `limit`.
pub proof fn law_squeeze_bounds_blank_runs(bytes: Seq<u8>, limit: nat)
    ensures
        byte_lines(concat_all(squeezed_lines(byte_lines(bytes), limit))) == squeezed_lines(
            byte_lines(bytes),
            limit,
        ),
        forall|j: int|
            0 <= j < squeezed_lines(byte_lines(bytes), limit).len() ==> #[trigger] blank_run_at(
                squeezed_lines(byte_lines(bytes), limit),
                j,
            ) <= limit,
{
    let ls = byte_lines(bytes);
    lemma_split_lines_wf(bytes, NEWLINE);
    lemma_squeeze_runs(ls, limit);
    if ls.len() > 0 {
        lemma_wf_parts(ls);
        let init = ls.drop_last();
        lemma_squeeze_closed(init, limit);
        let r = squeezed_lines(init, limit);
        lemma_closed_push_wf(r, ls.last());
        assert(wf_lines(squeezed_lines(ls, limit), NEWLINE));
    } else {
        assert(wf_lines(squeezed_lines(ls, limit), NEWLINE));
    }
    lemma_split_concat_wf(squeezed_lines(ls, limit), NEWLINE);
}

} // verus!

verus! {

proof fn lemma_squeeze_len(ls: Seq<Seq<u8>>, limit: nat)
    ensures
        concat_all(squeezed_lines(ls, limit)).len() <= concat_all(ls).len(),
    decreases ls.len(),
{
    if ls.len() > 0 {
        lemma_squeeze_len(ls.drop_last(), limit);
        let kept = squeezed_lines(ls.drop_last(), limit);
        assert(kept.push(ls.last()).drop_last() =~= kept);
    }
}

proof fn lemma_take_wf(ls: Seq<Seq<u8>>, k: int)
    requires
        wf_lines(ls, NEWLINE),
        0 <= k <= ls.len(),
    ensures
        wf_lines(ls.take(k), NEWLINE),
{
    let t = ls.take(k);
    assert forall|i: int| 0 <= i < t.len() implies #[trigger] t[i].len() > 0 && free_of(
        t[i],
        NEWLINE,
        0,
        t[i].len() - 1,
    ) by {
        assert(t[i] == ls[i]);
    }
    assert forall|i: int| 0 <= i < t.len() - 1 implies #[trigger] t[i].last() == NEWLINE by {
        assert(t[i] == ls[i]);
    }
}

/// The lines numbered `start ..` hold no more bytes than the whole input
/// minus one byte for each line before them.
proof fn lemma_range_len(ls: Seq<Seq<u8>>, start: nat, end: nat)
    requires
        wf_lines(ls, NEWLINE),
        start >= 1,
        range_lines(ls, start, end).len() > 0,
    ensures
        concat_all(range_lines(ls, start, end)).len() + (start - 1) <= concat_all(ls).len(),
{
    let lo = start - 1;
    let hi: int = if end < ls.len() {
        end as int
    } else {
        ls.len() as int
    };
    let a = ls.take(lo);
    let b = ls.subrange(lo, hi);
    let c = ls.skip(hi);
    assert(ls =~= a + b + c);
    crate::text::lemma_concat_all_append(a + b, c);
    crate::text::lemma_concat_all_append(a, b);
    lemma_take_wf(ls, lo);
    crate::text::lemma_concat_len_wf(a, NEWLINE);
}

/// The bytes kept for output: the selected lines, then squeezed.
pub open spec fn prepared_bytes(
    bytes: Seq<u8>,
    line_range: Option<LineRange>,
    squeeze_blank: bool,
    squeeze_limit: nat,
) -> Seq<u8> {
    let selected = match line_range {
        Some(r) => concat_all(lines_in_range(byte_lines(bytes), r.start as nat, r.end as nat)),
        None => bytes,
    };
    if squeeze_blank {
        concat_all(squeezed_lines(byte_lines(selected), squeeze_limit))
    } else {
        selected
    }
}

/// Number of the first line shown.
pub open spec fn first_line_number(line_range: Option<LineRange>) -> nat {
    match line_range {
        Some(r) => r.start as nat,
        None => 1,
    }
}

/// Selects the lines of `line_range` (when given), then squeezes blank
/// lines (when asked to).
pub fn prepare_bytes(
    bytes: Vec<u8>,
    line_range: Option<LineRange>,
    squeeze_blank: bool,
    squeeze_limit: usize,
) -> (r: Vec<u8>)
    requires
        bytes@.len() < usize::MAX,
    ensures
        r@ == prepared_bytes(bytes@, line_range, squeeze_blank, squeeze_limit as nat),
        first_line_number(line_range) + r@.len() <= usize::MAX,
{
    proof {
        lemma_split_lines_wf(bytes@, NEWLINE);
        crate::text::lemma_concat_split_lines(bytes@, NEWLINE);
    }
    let selected = match line_range {
        Some(range) => {
            let s = slice_bytes_by_line_range(&bytes, range);
            proof {
                law_line_range_selects_lines(bytes@, range.start as nat, range.end as nat);
                let ls = byte_lines(bytes@);
                if range.start >= 1 && range_lines(ls, range.start as nat, range.end as nat).len()
                    > 0 {
                    lemma_range_len(ls, range.start as nat, range.end as nat);
                } else if range.start == 0 {
                    let hi: int = if range.end < ls.len() {
                        range.end as int
                    } else {
                        ls.len() as int
                    };
                    if 0 < hi {
                        lemma_range_len_from_zero(ls, hi);
                    }
                }
            }
            s
        },
        None => bytes,
    };
    if squeeze_blank {
        let r = squeeze_blank_lines_bytes(&selected, squeeze_limit);
        proof {
            crate::text::lemma_concat_split_lines(selected@, NEWLINE);
            lemma_squeeze_len(byte_lines(selected@), squeeze_limit as nat);
        }
        r
    } else {
        selected
    }
}

proof fn lemma_range_len_from_zero(ls: Seq<Seq<u8>>, hi: int)
    requires
        0 < hi <= ls.len(),
    ensures
        concat_all(ls.subrange(0, hi)).len() <= concat_all(ls).len(),
{
    assert(ls =~= ls.subrange(0, hi) + ls.skip(hi));
    crate::text::lemma_concat_all_append(ls.subrange(0, hi), ls.skip(hi));
}

} // verus!

verus! {

/// The lines of `ls` that are not blank, in order.
pub open spec fn nonblank_lines(ls: Seq<Seq<u8>>) -> Seq<Seq<u8>>
    decreases ls.len(),
{
    if ls.len() == 0 {
        seq![]
    } else if is_blank_line(ls.last()) {
        nonblank_lines(ls.drop_last())
    } else {
        nonblank_lines(ls.drop_last()).push(ls.last())
    }
}

proof fn lemma_squeeze_keeps_nonblank(ls: Seq<Seq<u8>>, limit: nat)
    ensures
        nonblank_lines(squeezed_lines(ls, limit)) == nonblank_lines(ls),
    decreases ls.len(),
{
    if ls.len() > 0 {
        lemma_squeeze_keeps_nonblank(ls.drop_last(), limit);
        let kept = squeezed_lines(ls.drop_last(), limit);
        assert(kept.push(ls.last()).drop_last() =~= kept);
    }
}

/// Squeezing what was squeezed changes nothing; the blank run after it is
/// the earlier run, capped at `limit`.
proof fn lemma_squeeze_twice(ls: Seq<Seq<u8>>, limit: nat)
    ensures
        squeeze_state(squeezed_lines(ls, limit), limit) == (
            squeezed_lines(ls, limit),
            if squeeze_state(ls, limit).1 <= limit {
                squeeze_state(ls, limit).1
            } else {
                limit
            },
        ),
    decreases ls.len(),
{
    if ls.len() > 0 {
        lemma_squeeze_twice(ls.drop_last(), limit);
        let kept = squeezed_lines(ls.drop_last(), limit);
        assert(kept.push(ls.last()).drop_last() =~= kept);
    }
}

/// Squeezing blank lines keeps every line that is not blank, in order, and
/// squeezing its output again gives that output back.
pub proof fn law_squeeze_keeps_text_and_settles(bytes: Seq<u8>, limit: nat)
    ensures
        nonblank_lines(squeezed_lines(byte_lines(bytes), limit)) == nonblank_lines(
            byte_lines(bytes),
        ),
        concat_all(
            squeezed_lines(byte_lines(concat_all(squeezed_lines(byte_lines(bytes), limit))), limit),
        ) == concat_all(squeezed_lines(byte_lines(bytes), limit)),
{
    let ls = byte_lines(bytes);
    lemma_squeeze_keeps_nonblank(ls, limit);
    law_squeeze_bounds_blank_runs(bytes, limit);
    lemma_squeeze_twice(ls, limit);
}

} // verus!

verus! {

/// The lines of `ls` that stay when at most `limit` consecutive blank lines
/// are shown: a line that is not blank always stays, and a blank line stays
/// exactly when it is among the first `limit` lines of its run of blank
/// lines.
pub open spec fn lines_within_limit(ls: Seq<Seq<u8>>, limit: nat) -> Seq<Seq<u8>>
    decreases ls.len(),
{
    if ls.len() == 0 {
        seq![]
    } else {
        let rest = lines_within_limit(ls.drop_last(), limit);
        if !is_blank_line(ls.last()) || blank_run_at(ls, ls.len() - 1) <= limit {
            rest.push(ls.last())
        } else {
            rest
        }
    }
}

proof fn lemma_blank_run_prefix(ls: Seq<Seq<u8>>, k: int, j: int)
    requires
        0 <= j < k <= ls.len(),
    ensures
        blank_run_at(ls.take(k), j) == blank_run_at(ls, j),
    decreases j,
{
    assert(ls.take(k)[j] == ls[j]);
    if j > 0 {
        lemma_blank_run_prefix(ls, k, j - 1);
    }
}

/// Squeezing keeps exactly the lines within the limit, and its running
/// count is the run of blank lines at the end.
proof fn lemma_squeeze_within_limit(ls: Seq<Seq<u8>>, limit: nat)
    ensures
        squeeze_state(ls, limit).0 == lines_within_limit(ls, limit),
        squeeze_state(ls, limit).1 == (if ls.len() == 0 {
            0
        } else {
            blank_run_at(ls, ls.len() - 1)
        }),
    decreases ls.len(),
{
    if ls.len() > 0 {
        let init = ls.drop_last();
        lemma_squeeze_within_limit(init, limit);
        assert(init =~= ls.take(ls.len() - 1));
        if init.len() > 0 {
            lemma_blank_run_prefix(ls, ls.len() - 1, init.len() - 1);
        }
        assert(ls[ls.len() - 1] == ls.last());
    }
}

/// With squeezing on, the prepared bytes are the selected lines of which a
/// blank line stays exactly when it is among the first `squeeze_limit` of
/// its run (a run of `k` blank lines keeps `min(k, squeeze_limit)` of
/// them); every other line stays, in order. So a selection whose runs are
/// no longer than the limit is left as it is.
pub proof fn law_squeeze_keeps_limit_blank_lines(
    bytes: Seq<u8>,
    line_range: Option<LineRange>,
    squeeze_limit: nat,
)
    ensures
        ({
            let selected = prepared_bytes(bytes, line_range, false, squeeze_limit);
            let shown = prepared_bytes(bytes, line_range, true, squeeze_limit);
            &&& shown == concat_all(lines_within_limit(byte_lines(selected), squeeze_limit))
            &&& byte_lines(shown) == lines_within_limit(byte_lines(selected), squeeze_limit)
            &&& (forall|j: int|
                0 <= j < byte_lines(selected).len() ==> #[trigger] blank_run_at(
                    byte_lines(selected),
                    j,
                ) <= squeeze_limit) ==> shown == selected
        }),
{
    let selected = prepared_bytes(bytes, line_range, false, squeeze_limit);
    let ls = byte_lines(selected);
    lemma_squeeze_within_limit(ls, squeeze_limit);
    law_squeeze_bounds_blank_runs(selected, squeeze_limit);
    if forall|j: int| 0 <= j < ls.len() ==> #[trigger] blank_run_at(ls, j) <= squeeze_limit {
        lemma_within_limit_identity(ls, squeeze_limit);
        crate::text::lemma_concat_split_lines(selected, NEWLINE);
    }
}

proof fn lemma_within_limit_identity(ls: Seq<Seq<u8>>, limit: nat)
    requires
        forall|j: int| 0 <= j < ls.len() ==> #[trigger] blank_run_at(ls, j) <= limit,
    ensures
        lines_within_limit(ls, limit) == ls,
    decreases ls.len(),
{
    if ls.len() > 0 {
        let init = ls.drop_last();
        assert(init =~= ls.take(ls.len() - 1));
        assert forall|j: int| 0 <= j < init.len() implies #[trigger] blank_run_at(init, j)
            <= limit by {
            lemma_blank_run_prefix(ls, ls.len() - 1, j);
        }
        lemma_within_limit_identity(init, limit);
        assert(blank_run_at(ls, ls.len() - 1) <= limit);
        assert(init.push(ls.last()) =~= ls);
    }
}

} // verus!
