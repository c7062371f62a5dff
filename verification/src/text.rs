use vstd::prelude::*;

verus! {

/// Number of occurrences of `x` in `s`.
pub open spec fn count_of<A>(s: Seq<A>, x: A) -> nat
    decreases s.len(),
{
    if s.len() == 0 {
        0
    } else {
        count_of(s.drop_last(), x) + if s.last() == x {
            1nat
        } else {
            0nat
        }
    }
}

/// Occurrences in a concatenation add up.
pub proof fn lemma_count_of_append<A>(a: Seq<A>, b: Seq<A>, x: A)
    ensures
        count_of(a + b, x) == count_of(a, x) + count_of(b, x),
    decreases b.len(),
{
    if b.len() > 0 {
        lemma_count_of_append(a, b.drop_last(), x);
        assert((a + b).drop_last() =~= a + b.drop_last());
    } else {
        assert(a + b =~= a);
    }
}

/// Length of the first line of `s`: the position just past the first `sep`,
/// or the whole of `s` when it holds no `sep`.
pub open spec fn first_line_end<A>(s: Seq<A>, sep: A) -> int
    decreases s.len(),
{
    if s.len() == 0 {
        0
    } else if s[0] == sep {
        1
    } else {
        1 + first_line_end(s.drop_first(), sep)
    }
}

/// The lines of `s`, each one with its terminating `sep` where it has one.
/// Bytes after the last `sep` form a final line without terminator; an empty
/// input has no lines at all.
pub open spec fn split_lines<A>(s: Seq<A>, sep: A) -> Seq<Seq<A>>
    decreases s.len(),
{
    if s.len() == 0 {
        seq![]
    } else {
        let k = first_line_end(s, sep);
        if 0 < k <= s.len() {
            seq![s.take(k)] + split_lines(s.skip(k), sep)
        } else {
            seq![s]
        }
    }
}

/// Concatenation of all the pieces of `ls`, in order.
pub open spec fn concat_all<A>(ls: Seq<Seq<A>>) -> Seq<A>
    decreases ls.len(),
{
    if ls.len() == 0 {
        seq![]
    } else {
        concat_all(ls.drop_last()) + ls.last()
    }
}

/// `s` holds no `sep` at positions `lo .. hi`.
pub open spec fn free_of<A>(s: Seq<A>, sep: A, lo: int, hi: int) -> bool {
    forall|j: int| lo <= j < hi ==> s[j] != sep
}

pub proof fn lemma_first_line_end_props<A>(s: Seq<A>, sep: A)
    ensures
        0 <= first_line_end(s, sep) <= s.len(),
        s.len() > 0 ==> first_line_end(s, sep) >= 1,
        free_of(s, sep, 0, first_line_end(s, sep) - 1),
        first_line_end(s, sep) >= 1 ==> (s[first_line_end(s, sep) - 1] == sep
            || first_line_end(s, sep) == s.len()),
    decreases s.len(),
{
    if s.len() > 0 && s[0] != sep {
        let t = s.drop_first();
        lemma_first_line_end_props(t, sep);
        let k = first_line_end(t, sep);
        assert forall|j: int| 0 <= j < k implies s[j] != sep by {
            if j > 0 {
                assert(s[j] == t[j - 1]);
            }
        }
        if k >= 1 {
            assert(s[k] == t[k - 1]);
        }
    }
}

pub proof fn lemma_first_line_end_unique<A>(s: Seq<A>, sep: A, k: int)
    requires
        0 < k <= s.len(),
        free_of(s, sep, 0, k - 1),
        s[k - 1] == sep || k == s.len(),
    ensures
        first_line_end(s, sep) == k,
    decreases s.len(),
{
    if s[0] != sep {
        let t = s.drop_first();
        assert(first_line_end(s, sep) == 1 + first_line_end(t, sep));
        if k == 1 {
            assert(t.len() == 0);
        } else {
            assert forall|j: int| 0 <= j < k - 2 implies t[j] != sep by {
                assert(t[j] == s[j + 1]);
            }
            assert(t[k - 2] == s[k - 1]);
            lemma_first_line_end_unique(t, sep, k - 1);
        }
    } else {
        if k > 1 {
            assert(s[0] != sep);
        }
    }
}

/// A piece with no separator except possibly its final element is a single line.
pub proof fn lemma_split_single_line<A>(l: Seq<A>, sep: A)
    requires
        l.len() > 0,
        free_of(l, sep, 0, l.len() - 1),
    ensures
        split_lines(l, sep) == seq![l],
{
    lemma_first_line_end_unique(l, sep, l.len() as int);
    assert(l.take(l.len() as int) == l);
    assert(l.skip(l.len() as int) =~= Seq::<A>::empty());
    assert(split_lines(l.skip(l.len() as int), sep) =~= Seq::<Seq<A>>::empty());
    assert(seq![l] + Seq::<Seq<A>>::empty() =~= seq![l]);
}

/// Splitting distributes over concatenation at a line boundary.
pub proof fn lemma_split_lines_append<A>(p: Seq<A>, q: Seq<A>, sep: A)
    requires
        p.len() == 0 || p.last() == sep,
    ensures
        split_lines(p + q, sep) == split_lines(p, sep) + split_lines(q, sep),
    decreases p.len(),
{
    if p.len() == 0 {
        assert(p + q =~= q);
        assert(split_lines(p, sep) =~= Seq::<Seq<A>>::empty());
        assert(Seq::<Seq<A>>::empty() + split_lines(q, sep) =~= split_lines(q, sep));
    } else {
        lemma_first_line_end_props(p, sep);
        let k = first_line_end(p, sep);
        let s = p + q;
        assert(p[k - 1] == sep) by {
            if k == p.len() {
                assert(p[k - 1] == p.last());
            }
        }
        assert forall|j: int| 0 <= j < k - 1 implies s[j] != sep by {
            assert(s[j] == p[j]);
        }
        lemma_first_line_end_unique(s, sep, k);
        assert(s.take(k) =~= p.take(k));
        assert(s.skip(k) =~= p.skip(k) + q);
        let r = p.skip(k);
        if r.len() > 0 {
            assert(r.last() == p.last());
        }
        lemma_split_lines_append(r, q, sep);
        assert(split_lines(s, sep) == seq![p.take(k)] + split_lines(r + q, sep));
        assert(split_lines(p, sep) == seq![p.take(k)] + split_lines(r, sep));
        assert(seq![p.take(k)] + (split_lines(r, sep) + split_lines(q, sep)) =~= (seq![p.take(k)]
            + split_lines(r, sep)) + split_lines(q, sep));
    }
}

/// A loop that has seen a separator at `i` has completed one more line.
pub proof fn lemma_split_lines_step<A>(s: Seq<A>, sep: A, start: int, i: int)
    requires
        0 <= start <= i < s.len(),
        start == 0 || s[start - 1] == sep,
        free_of(s, sep, start, i),
        s[i] == sep,
    ensures
        split_lines(s.take(i + 1), sep) == split_lines(s.take(start), sep).push(
            s.subrange(start, i + 1),
        ),
{
    let p = s.take(start);
    let l = s.subrange(start, i + 1);
    assert(s.take(i + 1) =~= p + l);
    if start > 0 {
        assert(p.last() == s[start - 1]);
    }
    assert forall|j: int| 0 <= j < l.len() - 1 implies l[j] != sep by {
        assert(l[j] == s[start + j]);
    }
    lemma_split_single_line(l, sep);
    lemma_split_lines_append(p, l, sep);
    assert(split_lines(p, sep) + seq![l] =~= split_lines(p, sep).push(l));
}

/// The lines of `s` are the completed lines before `start`, then the rest.
pub proof fn lemma_split_lines_tail<A>(s: Seq<A>, sep: A, start: int)
    requires
        0 <= start <= s.len(),
        start == 0 || s[start - 1] == sep,
        free_of(s, sep, start, s.len() as int),
    ensures
        start < s.len() ==> split_lines(s, sep) == split_lines(s.take(start), sep).push(
            s.skip(start),
        ),
        start == s.len() ==> split_lines(s, sep) == split_lines(s.take(start), sep),
{
    if start == s.len() {
        assert(s.take(start) =~= s);
    } else {
        let p = s.take(start);
        let l = s.skip(start);
        assert(s =~= p + l);
        if start > 0 {
            assert(p.last() == s[start - 1]);
        }
        assert forall|j: int| 0 <= j < l.len() - 1 implies l[j] != sep by {
            assert(l[j] == s[start + j]);
        }
        lemma_split_single_line(l, sep);
        lemma_split_lines_append(p, l, sep);
        assert(split_lines(p, sep) + seq![l] =~= split_lines(p, sep).push(l));
    }
}

/// There are never more lines than elements.
pub proof fn lemma_split_lines_len<A>(s: Seq<A>, sep: A)
    ensures
        split_lines(s, sep).len() <= s.len(),
    decreases s.len(),
{
    if s.len() > 0 {
        lemma_first_line_end_props(s, sep);
        lemma_split_lines_len(s.skip(first_line_end(s, sep)), sep);
    }
}

pub proof fn lemma_concat_all_append<A>(a: Seq<Seq<A>>, b: Seq<Seq<A>>)
    ensures
        concat_all(a + b) == concat_all(a) + concat_all(b),
    decreases b.len(),
{
    if b.len() == 0 {
        assert(a + b =~= a);
        assert(concat_all(a) + Seq::<A>::empty() =~= concat_all(a));
    } else {
        lemma_concat_all_append(a, b.drop_last());
        assert((a + b).drop_last() =~= a + b.drop_last());
        assert((a + b).last() == b.last());
        assert(concat_all(a) + concat_all(b.drop_last()) + b.last() =~= concat_all(a) + (
        concat_all(b.drop_last()) + b.last()));
    }
}

/// Joining the lines of `s` gives `s` back.
pub proof fn lemma_concat_split_lines<A>(s: Seq<A>, sep: A)
    ensures
        concat_all(split_lines(s, sep)) == s,
    decreases s.len(),
{
    if s.len() > 0 {
        lemma_first_line_end_props(s, sep);
        let k = first_line_end(s, sep);
        lemma_concat_split_lines(s.skip(k), sep);
        lemma_concat_all_append(seq![s.take(k)], split_lines(s.skip(k), sep));
        let one = seq![s.take(k)];
        assert(one.drop_last() =~= Seq::<Seq<A>>::empty());
        assert(concat_all(one.drop_last()) =~= Seq::<A>::empty());
        assert(concat_all(one) == concat_all(one.drop_last()) + one.last());
        assert(Seq::<A>::empty() + s.take(k) =~= s.take(k));
        assert(s.take(k) + s.skip(k) =~= s);
    }
}

} // verus!

verus! {

/// `ls` could be the lines of some sequence: no line is empty, a separator
/// occurs only as the last element of a line, and every line but the last
/// ends with one.
pub open spec fn wf_lines<A>(ls: Seq<Seq<A>>, sep: A) -> bool {
    &&& forall|i: int|
        0 <= i < ls.len() ==> #[trigger] ls[i].len() > 0 && free_of(ls[i], sep, 0, ls[i].len() - 1)
    &&& forall|i: int| 0 <= i < ls.len() - 1 ==> #[trigger] ls[i].last() == sep
}

/// The lines of any sequence are well formed.
pub proof fn lemma_split_lines_wf<A>(s: Seq<A>, sep: A)
    ensures
        wf_lines(split_lines(s, sep), sep),
    decreases s.len(),
{
    if s.len() > 0 {
        lemma_first_line_end_props(s, sep);
        let k = first_line_end(s, sep);
        let rest = s.skip(k);
        lemma_split_lines_wf(rest, sep);
        let ls = split_lines(s, sep);
        let tail = split_lines(rest, sep);
        assert(ls == seq![s.take(k)] + tail);
        assert forall|i: int| 0 <= i < ls.len() implies #[trigger] ls[i].len() > 0 && free_of(
            ls[i],
            sep,
            0,
            ls[i].len() - 1,
        ) by {
            if i > 0 {
                assert(ls[i] == tail[i - 1]);
            }
        }
        assert forall|i: int| 0 <= i < ls.len() - 1 implies #[trigger] ls[i].last() == sep by {
            if i > 0 {
                assert(ls[i] == tail[i - 1]);
            } else {
                assert(tail.len() > 0);
                if k == s.len() {
                    assert(rest.len() == 0);
                }
            }
        }
    }
}

/// Well-formed lines are split back into themselves once joined.
pub proof fn lemma_split_concat_wf<A>(ls: Seq<Seq<A>>, sep: A)
    requires
        wf_lines(ls, sep),
    ensures
        split_lines(concat_all(ls), sep) == ls,
    decreases ls.len(),
{
    if ls.len() == 0 {
        assert(split_lines(concat_all(ls), sep) =~= ls);
    } else {
        let init = ls.drop_last();
        let l = ls.last();
        assert(wf_lines(init, sep)) by {
            assert forall|i: int| 0 <= i < init.len() implies #[trigger] init[i].len() > 0
                && free_of(init[i], sep, 0, init[i].len() - 1) by {
                assert(init[i] == ls[i]);
            }
            assert forall|i: int| 0 <= i < init.len() - 1 implies #[trigger] init[i].last() == sep by {
                assert(init[i] == ls[i]);
            }
        }
        lemma_split_concat_wf(init, sep);
        let p = concat_all(init);
        if init.len() > 0 {
            lemma_concat_ends_with(init);
            assert(init.last() == ls[init.len() - 1]);
        }
        assert(ls[ls.len() - 1] == l);
        lemma_split_single_line(l, sep);
        lemma_split_lines_append(p, l, sep);
        assert(init + seq![l] =~= ls);
    }
}

/// A join of non-empty pieces ends with the last piece's last element.
pub proof fn lemma_concat_ends_with<A>(ls: Seq<Seq<A>>)
    requires
        ls.len() > 0,
        ls.last().len() > 0,
    ensures
        concat_all(ls).len() > 0,
        concat_all(ls).last() == ls.last().last(),
{
}

/// The length of a join is at least the number of its non-empty pieces.
pub proof fn lemma_concat_len_wf<A>(ls: Seq<Seq<A>>, sep: A)
    requires
        wf_lines(ls, sep),
    ensures
        concat_all(ls).len() >= ls.len(),
    decreases ls.len(),
{
    if ls.len() > 0 {
        let init = ls.drop_last();
        assert(wf_lines(init, sep)) by {
            assert forall|i: int| 0 <= i < init.len() implies #[trigger] init[i].len() > 0
                && free_of(init[i], sep, 0, init[i].len() - 1) by {
                assert(init[i] == ls[i]);
            }
            assert forall|i: int| 0 <= i < init.len() - 1 implies #[trigger] init[i].last() == sep by {
                assert(init[i] == ls[i]);
            }
        }
        lemma_concat_len_wf(init, sep);
        assert(ls[ls.len() - 1].len() > 0);
    }
}

} // verus!
