//! The one-dimensional heart of the move engine.
//!
//! A move treats every row or column of the grid as an independent line,
//! read starting from the edge the tiles slide toward.  The meaning of a
//! move on one line is given by `slide_spec`: drop the empty cells, merge
//! equal adjacent tiles pairwise from the edge (each tile merges at most
//! once), and pad with empty cells.  `slide_line` is the verified
//! implementation: it walks each tile, nearest the edge first, to the
//! farthest cell it may occupy, tracking which cells already received a
//! merge so that no cell absorbs two.

use vstd::prelude::*;
use vstd::pervasive::VecAdditionalExecFns;

verus! {

/// Every tile value can be doubled without overflowing.
pub open spec fn all_bounded(s: Seq<usize>) -> bool {
    forall|k: int| 0 <= k < s.len() ==> 2 * (#[trigger] s[k]) <= usize::MAX
}

/// No cell of the line is empty.
pub open spec fn all_nonzero(s: Seq<usize>) -> bool {
    forall|k: int| 0 <= k < s.len() ==> (#[trigger] s[k]) != 0
}

/// The occupied cells of a line, in order.
pub open spec fn compact(s: Seq<usize>) -> Seq<usize>
    decreases s.len(),
{
    if s.len() == 0 {
        Seq::empty()
    } else if s.last() == 0 {
        compact(s.drop_last())
    } else {
        compact(s.drop_last()).push(s.last())
    }
}

/// Merge equal adjacent tiles of a gap-free line pairwise, starting from
/// the edge: the first two tiles merge if equal, and the rest of the line
/// is merged the same way.  A merged tile takes no further part.
pub open spec fn merge_pairs(c: Seq<usize>) -> Seq<usize>
    decreases c.len(),
{
    if c.len() <= 1 {
        c
    } else if c[0] == c[1] {
        seq![(c[0] + c[1]) as usize] + merge_pairs(c.skip(2))
    } else {
        seq![c[0]] + merge_pairs(c.skip(1))
    }
}

/// How many input tiles each output tile of `merge_pairs` absorbed:
/// 2 for a merged pair, 1 for a tile that kept its value.
pub open spec fn msizes(c: Seq<usize>) -> Seq<int>
    decreases c.len(),
{
    if c.len() == 0 {
        Seq::empty()
    } else if c.len() == 1 {
        seq![1int]
    } else if c[0] == c[1] {
        seq![2int] + msizes(c.skip(2))
    } else {
        seq![1int] + msizes(c.skip(1))
    }
}

/// The score a gap-free line earns when merged: the value of each merged
/// result tile, summed.
pub open spec fn gained_of(c: Seq<usize>) -> int
    decreases c.len(),
{
    if c.len() <= 1 {
        0
    } else if c[0] == c[1] {
        c[0] + c[1] + gained_of(c.skip(2))
    } else {
        gained_of(c.skip(1))
    }
}

/// The sum of all tile values of a line.
pub open spec fn sum_seq(s: Seq<usize>) -> int
    decreases s.len(),
{
    if s.len() == 0 {
        0
    } else {
        s[0] + sum_seq(s.skip(1))
    }
}

/// The sum of a sequence of integers.
pub open spec fn sum_ints(s: Seq<int>) -> int
    decreases s.len(),
{
    if s.len() == 0 {
        0
    } else {
        s[0] + sum_ints(s.skip(1))
    }
}

/// What one move does to a line that is read starting from the edge the
/// tiles slide toward: compact, merge pairwise, pad with empty cells.
pub open spec fn slide_spec(s: Seq<usize>) -> Seq<usize> {
    let m = merge_pairs(compact(s));
    m + Seq::new((s.len() - m.len()) as nat, |i: int| 0usize)
}

/// The score one move earns on a line.
pub open spec fn line_gain(s: Seq<usize>) -> int {
    gained_of(compact(s))
}

/// Where the `j`-th output tile's input group starts within the gap-free
/// input line.
pub open spec fn group_start(c: Seq<usize>, j: int) -> int {
    sum_ints(msizes(c).take(j))
}

pub proof fn lemma_sum_concat(a: Seq<usize>, b: Seq<usize>)
    ensures
        sum_seq(a + b) == sum_seq(a) + sum_seq(b),
    decreases a.len(),
{
    if a.len() == 0 {
        assert(a + b =~= b);
    } else {
        assert((a + b).skip(1) =~= a.skip(1) + b);
        lemma_sum_concat(a.skip(1), b);
    }
}

pub proof fn lemma_sum_push(a: Seq<usize>, v: usize)
    ensures
        sum_seq(a.push(v)) == sum_seq(a) + v,
{
    assert(a.push(v) =~= a + seq![v]);
    lemma_sum_concat(a, seq![v]);
    assert(sum_seq(seq![v]) == v + sum_seq(seq![v].skip(1)));
    assert(seq![v].skip(1) =~= Seq::<usize>::empty());
}

pub proof fn lemma_sum_nonneg(s: Seq<usize>)
    ensures
        sum_seq(s) >= 0,
    decreases s.len(),
{
    if s.len() > 0 {
        lemma_sum_nonneg(s.skip(1));
    }
}

pub proof fn lemma_sum_take(s: Seq<usize>, j: int)
    requires
        0 <= j <= s.len(),
    ensures
        sum_seq(s.take(j)) <= sum_seq(s),
{
    assert(s =~= s.take(j) + s.skip(j));
    lemma_sum_concat(s.take(j), s.skip(j));
    lemma_sum_nonneg(s.skip(j));
}

/// Properties of `compact`: it keeps at most as many cells, they are all
/// occupied, they stay small enough to double if the line's cells were,
/// and the total value is kept.
pub proof fn lemma_compact_props(s: Seq<usize>)
    ensures
        compact(s).len() <= s.len(),
        all_nonzero(compact(s)),
        all_bounded(s) ==> all_bounded(compact(s)),
        sum_seq(compact(s)) == sum_seq(s),
    decreases s.len(),
{
    if s.len() == 0 {
    } else {
        lemma_compact_props(s.drop_last());
        assert(s =~= s.drop_last().push(s.last()));
        lemma_sum_push(s.drop_last(), s.last());
        if s.last() == 0 {
        } else {
            lemma_sum_push(compact(s.drop_last()), s.last());
            assert(all_bounded(s) ==> all_bounded(s.drop_last())) by {
                if all_bounded(s) {
                    assert(forall|k: int|
                        0 <= k < s.drop_last().len() ==> s.drop_last()[k] == s[k]);
                }
            }
        }
    }
}

/// A line with no empty cell compacts to itself.
pub proof fn lemma_compact_all_nonzero(s: Seq<usize>)
    requires
        all_nonzero(s),
    ensures
        compact(s) == s,
    decreases s.len(),
{
    if s.len() == 0 {
        assert(compact(s) =~= s);
    } else {
        assert(all_nonzero(s.drop_last()));
        lemma_compact_all_nonzero(s.drop_last());
        assert(compact(s) =~= s);
    }
}

/// Appending an empty cell leaves `compact` unchanged; appending an
/// occupied one appends its value.
pub proof fn lemma_compact_push(s: Seq<usize>, v: usize)
    ensures
        v == 0 ==> compact(s.push(v)) == compact(s),
        v != 0 ==> compact(s.push(v)) == compact(s).push(v),
{
    assert(s.push(v).drop_last() =~= s);
    assert(s.push(v).last() == v);
}

/// Trailing empty cells do not change `compact`.
pub proof fn lemma_compact_pad(m: Seq<usize>, n: nat)
    requires
        all_nonzero(m),
    ensures
        compact(m + Seq::new(n, |i: int| 0usize)) == m,
    decreases n,
{
    if n == 0 {
        assert(m + Seq::new(0, |i: int| 0usize) =~= m);
        lemma_compact_all_nonzero(m);
    } else {
        let p = m + Seq::new(n, |i: int| 0usize);
        assert(p.last() == 0);
        assert(p.drop_last() =~= m + Seq::new((n - 1) as nat, |i: int| 0usize));
        lemma_compact_pad(m, (n - 1) as nat);
    }
}

/// The first output tile of `merge_pairs`, by cases on the first group.
pub proof fn lemma_merge_first(c: Seq<usize>)
    requires
        c.len() > 0,
    ensures
        msizes(c).len() > 0,
        merge_pairs(c).len() > 0,
        msizes(c)[0] == 1 || msizes(c)[0] == 2,
        msizes(c)[0] == 1 ==> merge_pairs(c)[0] == c[0],
        msizes(c)[0] == 2 ==> c.len() >= 2 && c[0] == c[1] && merge_pairs(c)[0] == (c[0]
            + c[1]) as usize,
{
}

/// Shape of `merge_pairs`' output: one output tile per group, groups of
/// size one or two covering the whole line, every output tile occupied,
/// unmerged tiles still small enough to double, and no two adjacent
/// unmerged tiles equal (the nearer one would have absorbed the other).
pub proof fn lemma_merge_props(c: Seq<usize>)
    requires
        all_nonzero(c),
        all_bounded(c),
    ensures
        merge_pairs(c).len() == msizes(c).len(),
        merge_pairs(c).len() <= c.len(),
        c.len() <= 2 * merge_pairs(c).len(),
        all_nonzero(merge_pairs(c)),
        sum_ints(msizes(c)) == c.len(),
        forall|k: int|
            0 <= k < msizes(c).len() ==> (#[trigger] msizes(c)[k]) == 1 || msizes(c)[k] == 2,
        forall|k: int|
            0 <= k < msizes(c).len() && (#[trigger] msizes(c)[k]) == 1 ==> 2 * merge_pairs(c)[k]
                <= usize::MAX,
        forall|k: int|
            0 <= k && k + 1 < msizes(c).len() && (#[trigger] msizes(c)[k]) == 1 && (
            #[trigger] msizes(c)[k + 1]) == 1 ==> merge_pairs(c)[k] != merge_pairs(c)[k + 1],
    decreases c.len(),
{
    if c.len() <= 1 {
        if c.len() == 1 {
            assert(msizes(c) =~= seq![1int]);
            assert(sum_ints(seq![1int]) == 1 + sum_ints(seq![1int].skip(1)));
            assert(seq![1int].skip(1) =~= Seq::<int>::empty());
        }
    } else if c[0] == c[1] {
        let rest = c.skip(2);
        assert(all_nonzero(rest));
        assert(all_bounded(rest));
        lemma_merge_props(rest);
        let m = merge_pairs(c);
        let sz = msizes(c);
        assert(m == seq![(c[0] + c[1]) as usize] + merge_pairs(rest));
        assert(sz == seq![2int] + msizes(rest));
        assert(sz.skip(1) =~= msizes(rest));
        assert(sum_ints(sz) == 2 + sum_ints(msizes(rest)));
        assert(forall|k: int| 1 <= k < sz.len() ==> sz[k] == msizes(rest)[k - 1]);
        assert(forall|k: int| 1 <= k < m.len() ==> m[k] == merge_pairs(rest)[k - 1]);
        assert(c[0] + c[1] <= usize::MAX);
        assert(m[0] != 0);
        if rest.len() > 0 {
            lemma_merge_first(rest);
        }
    } else {
        let rest = c.skip(1);
        assert(all_nonzero(rest));
        assert(all_bounded(rest));
        lemma_merge_props(rest);
        let m = merge_pairs(c);
        let sz = msizes(c);
        assert(m == seq![c[0]] + merge_pairs(rest));
        assert(sz == seq![1int] + msizes(rest));
        assert(sz.skip(1) =~= msizes(rest));
        assert(sum_ints(sz) == 1 + sum_ints(msizes(rest)));
        assert(forall|k: int| 1 <= k < sz.len() ==> sz[k] == msizes(rest)[k - 1]);
        assert(forall|k: int| 1 <= k < m.len() ==> m[k] == merge_pairs(rest)[k - 1]);
        lemma_merge_first(rest);
        assert(rest[0] == c[1]);
    }
}

/// Merging keeps the total value of a gap-free line: each merge doubles
/// one tile and empties its equal partner.
pub proof fn lemma_merge_sum(c: Seq<usize>)
    requires
        all_bounded(c),
    ensures
        sum_seq(merge_pairs(c)) == sum_seq(c),
    decreases c.len(),
{
    if c.len() <= 1 {
    } else if c[0] == c[1] {
        let rest = c.skip(2);
        assert(all_bounded(rest));
        lemma_merge_sum(rest);
        let x = (c[0] + c[1]) as usize;
        assert(merge_pairs(c) == seq![x] + merge_pairs(rest));
        assert((seq![x] + merge_pairs(rest)).skip(1) =~= merge_pairs(rest));
        assert(sum_seq(merge_pairs(c)) == x + sum_seq(merge_pairs(rest)));
        assert(c.skip(1).skip(1) =~= rest);
        assert(sum_seq(c.skip(1)) == c[1] + sum_seq(rest));
    } else {
        let rest = c.skip(1);
        assert(all_bounded(rest));
        lemma_merge_sum(rest);
        assert(merge_pairs(c) == seq![c[0]] + merge_pairs(rest));
        assert((seq![c[0]] + merge_pairs(rest)).skip(1) =~= merge_pairs(rest));
    }
}

/// The score of a line is non-negative and never exceeds its total value.
pub proof fn lemma_gain_bounds(c: Seq<usize>)
    ensures
        0 <= gained_of(c),
        gained_of(c) <= sum_seq(c),
    decreases c.len(),
{
    if c.len() <= 1 {
        lemma_sum_nonneg(c);
    } else if c[0] == c[1] {
        let rest = c.skip(2);
        lemma_gain_bounds(rest);
        assert(c.skip(1).skip(1) =~= rest);
        assert(sum_seq(c.skip(1)) == c[1] + sum_seq(rest));
    } else {
        lemma_gain_bounds(c.skip(1));
    }
}

/// A gap-free line that merging leaves at the same length earned nothing.
pub proof fn lemma_gain_zero(c: Seq<usize>)
    requires
        all_nonzero(c),
        all_bounded(c),
        merge_pairs(c).len() == c.len(),
    ensures
        gained_of(c) == 0,
    decreases c.len(),
{
    if c.len() <= 1 {
    } else if c[0] == c[1] {
        let rest = c.skip(2);
        assert(all_nonzero(rest));
        assert(all_bounded(rest));
        lemma_merge_props(rest);
        assert(merge_pairs(c).len() == 1 + merge_pairs(rest).len());
        assert(false);
    } else {
        let rest = c.skip(1);
        assert(all_nonzero(rest));
        assert(all_bounded(rest));
        assert(merge_pairs(c).len() == 1 + merge_pairs(rest).len());
        lemma_gain_zero(rest);
    }
}

/// How `merge_pairs`, `msizes` and `gained_of` change when one occupied
/// tile arrives at the far end of a gap-free line: it is absorbed by the
/// last output tile if that tile is unmerged and equal, and starts a new
/// group otherwise.
pub proof fn lemma_merge_append(c: Seq<usize>, v: usize)
    requires
        all_nonzero(c),
        all_bounded(c),
        v != 0,
        2 * v <= usize::MAX,
    ensures
        ({
            let m = merge_pairs(c);
            let sz = msizes(c);
            if m.len() > 0 && sz.last() == 1 && m.last() == v {
                merge_pairs(c.push(v)) == m.update(m.len() - 1, (v + v) as usize) && msizes(
                    c.push(v),
                ) == sz.update(sz.len() - 1, 2int) && gained_of(c.push(v)) == gained_of(c) + v + v
            } else {
                merge_pairs(c.push(v)) == m.push(v) && msizes(c.push(v)) == sz.push(1int)
                    && gained_of(c.push(v)) == gained_of(c)
            }
        }),
    decreases c.len(),
{
    lemma_merge_props(c);
    let d = c.push(v);
    let m = merge_pairs(c);
    let sz = msizes(c);
    if c.len() == 0 {
        assert(d.len() == 1);
        assert(merge_pairs(d) == d);
        assert(d =~= m.push(v));
        assert(msizes(d) =~= sz.push(1int));
    } else if c.len() == 1 {
        assert(d.len() == 2);
        assert(d[0] == c[0] && d[1] == v);
        if c[0] == v {
            assert(d.skip(2) =~= Seq::<usize>::empty());
            assert(merge_pairs(Seq::<usize>::empty()) == Seq::<usize>::empty());
            assert(msizes(Seq::<usize>::empty()) == Seq::<int>::empty());
            assert(gained_of(Seq::<usize>::empty()) == 0);
            assert(merge_pairs(d) == seq![(d[0] + d[1]) as usize] + merge_pairs(d.skip(2)));
            assert(merge_pairs(d) =~= m.update(0, (v + v) as usize));
            assert(msizes(d) =~= sz.update(0, 2int));
            assert(gained_of(d) == d[0] + d[1] + gained_of(d.skip(2)));
        } else {
            assert(d.skip(1) =~= seq![v]);
            assert(merge_pairs(seq![v]) == seq![v]);
            assert(msizes(seq![v]) == seq![1int]);
            assert(gained_of(seq![v]) == 0);
            assert(merge_pairs(d) =~= m.push(v));
            assert(msizes(d) =~= sz.push(1int));
            assert(gained_of(d) == gained_of(d.skip(1)));
        }
    } else {
        assert(d[0] == c[0] && d[1] == c[1]);
        if c[0] == c[1] {
            let rest = c.skip(2);
            assert(all_nonzero(rest) && all_bounded(rest));
            assert(d.skip(2) =~= rest.push(v));
            lemma_merge_append(rest, v);
            lemma_merge_props(rest);
            let mr = merge_pairs(rest);
            let szr = msizes(rest);
            assert(m == seq![(c[0] + c[1]) as usize] + mr);
            assert(sz == seq![2int] + szr);
            assert(merge_pairs(d) == seq![(d[0] + d[1]) as usize] + merge_pairs(rest.push(v)));
            assert(msizes(d) == seq![2int] + msizes(rest.push(v)));
            assert(gained_of(d) == d[0] + d[1] + gained_of(rest.push(v)));
            assert(gained_of(c) == c[0] + c[1] + gained_of(rest));
            if mr.len() > 0 && szr.last() == 1 && mr.last() == v {
                assert(m.len() == 1 + mr.len() && sz.len() == 1 + szr.len());
                assert(sz.last() == szr.last() && m.last() == mr.last());
                assert(merge_pairs(d) =~= m.update(m.len() - 1, (v + v) as usize));
                assert(msizes(d) =~= sz.update(sz.len() - 1, 2int));
            } else {
                assert(m.len() > 0);
                if mr.len() == 0 {
                    assert(sz.last() == 2int);
                } else {
                    assert(sz.last() == szr.last() && m.last() == mr.last());
                }
                assert(!(sz.last() == 1 && m.last() == v));
                assert(merge_pairs(d) =~= m.push(v));
                assert(msizes(d) =~= sz.push(1int));
            }
        } else {
            let rest = c.skip(1);
            assert(all_nonzero(rest) && all_bounded(rest));
            assert(d.skip(1) =~= rest.push(v));
            lemma_merge_append(rest, v);
            lemma_merge_props(rest);
            lemma_merge_first(rest);
            let mr = merge_pairs(rest);
            let szr = msizes(rest);
            assert(m == seq![c[0]] + mr);
            assert(sz == seq![1int] + szr);
            assert(merge_pairs(d) == seq![d[0]] + merge_pairs(rest.push(v)));
            assert(msizes(d) == seq![1int] + msizes(rest.push(v)));
            assert(gained_of(d) == gained_of(rest.push(v)));
            assert(gained_of(c) == gained_of(rest));
            assert(mr.len() > 0 && szr.len() > 0);
            assert(sz.last() == szr.last() && m.last() == mr.last());
            if szr.last() == 1 && mr.last() == v {
                assert(merge_pairs(d) =~= m.update(m.len() - 1, (v + v) as usize));
                assert(msizes(d) =~= sz.update(sz.len() - 1, 2int));
            } else {
                assert(merge_pairs(d) =~= m.push(v));
                assert(msizes(d) =~= sz.push(1int));
            }
        }
    }
}

/// The `j`-th output tile of `merge_pairs` comes from the group of one or
/// two consecutive input tiles starting at `group_start`: either it is
/// that one tile unchanged, or the sum of two equal ones.
pub open spec fn group_claim(c: Seq<usize>, j: int) -> bool {
    let st = group_start(c, j);
    let g = msizes(c)[j];
    &&& 0 <= st
    &&& st + g <= c.len()
    &&& (g == 1 ==> merge_pairs(c)[j] == c[st])
    &&& (g == 2 ==> c[st] == c[st + 1] && merge_pairs(c)[j] == (c[st] + c[st + 1]) as usize)
}

/// No tile results from combining more than two starting tiles in one
/// move: every output tile of `merge_pairs` covers a group of one or two
/// consecutive input tiles — its own value, or the sum of two equal ones.
/// Together with `lemma_merge_props` (group sizes are 1 or 2 and add up
/// to the whole line) this pins each output tile to its origins.
pub proof fn lemma_merge_provenance(c: Seq<usize>)
    requires
        all_nonzero(c),
        all_bounded(c),
    ensures
        forall|j: int| 0 <= j < merge_pairs(c).len() ==> #[trigger] group_claim(c, j),
    decreases c.len(),
{
    lemma_merge_props(c);
    if c.len() <= 1 {
        if c.len() == 1 {
            assert(msizes(c) == seq![1int]);
            assert(merge_pairs(c) == c);
            assert(msizes(c).take(0) =~= Seq::<int>::empty());
            assert(sum_ints(Seq::<int>::empty()) == 0);
            assert(group_start(c, 0) == 0);
            assert(msizes(c)[0] == 1);
            assert(merge_pairs(c)[0] == c[0]);
            assert(group_claim(c, 0));
        }
    } else {
        let first_sz: int = if c[0] == c[1] {
            2
        } else {
            1
        };
        let rest = c.skip(first_sz);
        assert(all_nonzero(rest) && all_bounded(rest));
        lemma_merge_provenance(rest);
        lemma_merge_props(rest);
        let m = merge_pairs(c);
        let sz = msizes(c);
        let hd: Seq<int> = if c[0] == c[1] {
            seq![2int]
        } else {
            seq![1int]
        };
        assert(sz == hd + msizes(rest));
        assert(msizes(c).take(0) =~= Seq::<int>::empty());
        assert(group_start(c, 0) == 0);
        assert forall|j: int| 0 <= j < m.len() implies #[trigger] group_claim(c, j) by {
            if j == 0 {
                assert(group_start(c, 0) == 0);
                assert(msizes(c)[0] == first_sz);
            } else {
                assert(sz.take(j) =~= hd + msizes(rest).take(j - 1));
                assert((hd + msizes(rest).take(j - 1)).skip(1) =~= msizes(rest).take(j - 1));
                assert(sum_ints(sz.take(j)) == first_sz + sum_ints(msizes(rest).take(j - 1)));
                assert(group_start(c, j) == first_sz + group_start(rest, j - 1));
                assert(m[j] == merge_pairs(rest)[j - 1]);
                assert(sz[j] == msizes(rest)[j - 1]);
                assert(group_claim(rest, j - 1));
                let st_r = group_start(rest, j - 1);
                let g_r = msizes(rest)[j - 1];
                assert(0 <= st_r && st_r + g_r <= rest.len());
                assert(forall|x: int| 0 <= x < rest.len() ==> rest[x] == c[x + first_sz]);
                if g_r == 1 {
                    assert(merge_pairs(rest)[j - 1] == rest[st_r]);
                    assert(rest[st_r] == c[st_r + first_sz]);
                } else {
                    assert(rest[st_r] == rest[st_r + 1] && merge_pairs(rest)[j - 1] == (rest[st_r]
                        + rest[st_r + 1]) as usize);
                    assert(rest[st_r] == c[st_r + first_sz]);
                    assert(rest[st_r + 1] == c[st_r + 1 + first_sz]);
                }
            }
        }
    }
}

/// The sum of a run of empty cells is zero.
pub proof fn lemma_sum_zeros(n: nat)
    ensures
        sum_seq(Seq::new(n, |i: int| 0usize)) == 0,
    decreases n,
{
    if n > 0 {
        assert(Seq::new(n, |i: int| 0usize).skip(1) =~= Seq::new(
            (n - 1) as nat,
            |i: int| 0usize,
        ));
        lemma_sum_zeros((n - 1) as nat);
    }
}

/// A slid line has as many cells as the line it came from.
pub proof fn lemma_slide_len(s: Seq<usize>)
    ensures
        slide_spec(s).len() == s.len(),
{
    lemma_compact_props(s);
    if all_nonzero(compact(s)) && all_bounded(compact(s)) {
        lemma_merge_props(compact(s));
    } else {
        lemma_merge_len_le(compact(s));
    }
}

/// `merge_pairs` never lengthens a line (no boundedness needed).
pub proof fn lemma_merge_len_le(c: Seq<usize>)
    ensures
        merge_pairs(c).len() <= c.len(),
    decreases c.len(),
{
    if c.len() <= 1 {
    } else if c[0] == c[1] {
        lemma_merge_len_le(c.skip(2));
    } else {
        lemma_merge_len_le(c.skip(1));
    }
}

/// Value conservation: a move never changes the total value on a line,
/// because each merge doubles one tile and empties its partner.
pub proof fn lemma_slide_keeps_sum(s: Seq<usize>)
    requires
        all_bounded(s),
    ensures
        sum_seq(slide_spec(s)) == sum_seq(s),
{
    let c = compact(s);
    let m = merge_pairs(c);
    lemma_compact_props(s);
    lemma_merge_sum(c);
    lemma_merge_len_le(c);
    lemma_sum_concat(m, Seq::new((s.len() - m.len()) as nat, |i: int| 0usize));
    lemma_sum_zeros((s.len() - m.len()) as nat);
}

/// Monotonic compaction: after a move, every occupied cell of a line
/// comes before every empty one.
pub proof fn lemma_slide_compacted(s: Seq<usize>)
    requires
        all_bounded(s),
    ensures
        forall|i: int, j: int|
            0 <= i <= j < slide_spec(s).len() && (#[trigger] slide_spec(s)[i]) == 0 ==> (
            #[trigger] slide_spec(s)[j]) == 0,
{
    let c = compact(s);
    lemma_compact_props(s);
    lemma_merge_props(c);
}

/// A line that a move leaves unchanged earned no score.
pub proof fn lemma_fixed_line_gain(s: Seq<usize>)
    requires
        all_bounded(s),
        slide_spec(s) == s,
    ensures
        line_gain(s) == 0,
{
    let c = compact(s);
    let m = merge_pairs(c);
    lemma_compact_props(s);
    lemma_merge_props(c);
    lemma_compact_pad(m, (s.len() - m.len()) as nat);
    assert(compact(slide_spec(s)) == m);
    assert(c == m);
    lemma_gain_zero(c);
}

/// The shape of a line while it is being processed: positions below `s`
/// hold the settled tiles, positions from `s` up to `pos` are empty,
/// merge marks exist only below `s`, and no two adjacent unmerged settled
/// tiles are equal (the nearer one would already have absorbed the other).
pub open spec fn target_shape(l: Seq<usize>, mg: Seq<bool>, pos: int, s: int) -> bool {
    &&& 0 <= s <= pos < l.len()
    &&& mg.len() == l.len()
    &&& forall|k: int| 0 <= k < s ==> (#[trigger] l[k]) != 0
    &&& forall|k: int| s <= k < pos ==> (#[trigger] l[k]) == 0
    &&& forall|k: int| s <= k < mg.len() ==> !(#[trigger] mg[k])
    &&& forall|k: int|
        #![trigger mg[k]]
        0 <= k && k + 1 < s && !mg[k] && !mg[k + 1] ==> l[k] != l[k + 1]
}

/// Where the tile at `pos` ends up: on the settled prefix's last tile when
/// that tile is equal and not yet merged, else just past the prefix.
pub open spec fn target_spec(l: Seq<usize>, mg: Seq<bool>, pos: int, s: int) -> int {
    if s > 0 && l[s - 1] == l[pos] && !mg[s - 1] {
        s - 1
    } else {
        s
    }
}

/// Position of the cell the tile at `pos` is merged with or moved to:
/// walk from `pos` toward the edge while the next cell is free or holds an
/// equal tile that has not yet received a merge.
fn get_target(line: &Vec<usize>, merged: &Vec<bool>, pos: usize, Ghost(s): Ghost<int>) -> (t:
    usize)
    requires
        target_shape(line@, merged@, pos as int, s),
        line@[pos as int] != 0,
    ensures
        t == target_spec(line@, merged@, pos as int, s),
{
    let v = line[pos];
    let mut t = pos;
    while t > 0 && (line[t - 1] == 0 || (line[t - 1] == v && !merged[t - 1]))
        invariant
            target_shape(line@, merged@, pos as int, s),
            v == line@[pos as int],
            v != 0,
            t <= pos,
            s <= t || (t == s - 1 && s > 0 && line@[s - 1] == v && !merged@[s - 1]),
        decreases t,
    {
        proof {
            if t == s - 1 {
                // the walk cannot pass a tile it may merge with
                assert(line@[s - 2] != 0);
                assert(!merged@[s - 2] ==> line@[s - 2] != line@[s - 1]);
                assert(false);
            }
            if line@[t - 1] == 0 {
                assert(t - 1 >= s);
            } else {
                assert(!(s <= t - 1 < pos));
                assert(t - 1 == s - 1);
            }
        }
        t = t - 1;
    }
    proof {
        if s <= t {
            if t > s {
                assert(line@[t - 1] == 0);
                assert(false);
            }
        }
    }
    t
}

/// The state of `slide_line` after its first `j` cells were processed:
/// the settled merged prefix of the cells read so far, then empty cells up
/// to `j`, then the untouched rest; a merge mark exactly on each tile that
/// resulted from a merge; the score gathered so far.
pub open spec fn slide_inv(l: Seq<usize>, out: Seq<usize>, mg: Seq<bool>, gained: int, j: int) -> bool {
    let c = compact(l.take(j));
    let m = merge_pairs(c);
    let sz = msizes(c);
    &&& out.len() == l.len()
    &&& mg.len() == l.len()
    &&& 0 <= j <= l.len()
    &&& m.len() <= j
    &&& forall|k: int| 0 <= k < m.len() ==> (#[trigger] out[k]) == m[k]
    &&& forall|k: int| m.len() <= k < j ==> (#[trigger] out[k]) == 0
    &&& forall|k: int| j <= k < l.len() ==> (#[trigger] out[k]) == l[k]
    &&& forall|k: int| 0 <= k < m.len() ==> ((#[trigger] mg[k]) <==> sz[k] == 2)
    &&& forall|k: int| m.len() <= k < mg.len() ==> !(#[trigger] mg[k])
    &&& gained == gained_of(c)
}

/// Slide one line whose cells are ordered starting from the edge the move
/// points toward.  Each occupied tile, taken nearest-the-edge first, walks
/// to its farthest legal cell; a cell that received a merge takes no more.
/// The result is exactly `slide_spec` of the line, and the returned score
/// is the value of every merged tile, summed.
pub fn slide_line(line: &Vec<usize>) -> (res: (Vec<usize>, usize))
    requires
        all_bounded(line@),
        sum_seq(line@) <= usize::MAX,
    ensures
        res.0@ == slide_spec(line@),
        res.1 == line_gain(line@),
{
    let ghost l = line@;
    let n = line.len();
    let mut out: Vec<usize> = Vec::new();
    let mut i: usize = 0;
    while i < n
        invariant
            n == l.len(),
            line@ == l,
            i <= n,
            out@.len() == i,
            forall|k: int| 0 <= k < i ==> (#[trigger] out@[k]) == l[k],
        decreases n - i,
    {
        out.push(line[i]);
        i = i + 1;
    }
    let mut merged: Vec<bool> = Vec::new();
    let mut i: usize = 0;
    while i < n
        invariant
            i <= n,
            merged@.len() == i,
            forall|k: int| 0 <= k < i ==> !(#[trigger] merged@[k]),
        decreases n - i,
    {
        merged.push(false);
        i = i + 1;
    }
    let mut gained: usize = 0;
    proof {
        assert(l.take(0) =~= Seq::<usize>::empty());
        assert(compact(l.take(0)) == Seq::<usize>::empty());
        assert(merge_pairs(Seq::<usize>::empty()) == Seq::<usize>::empty());
        assert(gained_of(Seq::<usize>::empty()) == 0);
        assert(slide_inv(l, out@, merged@, 0, 0));
    }
    let mut j: usize = 0;
    while j < n
        invariant
            n == l.len(),
            line@ == l,
            all_bounded(l),
            sum_seq(l) <= usize::MAX,
            j <= n,
            slide_inv(l, out@, merged@, gained as int, j as int),
        decreases n - j,
    {
        let ghost c = compact(l.take(j as int));
        let ghost m = merge_pairs(c);
        let ghost sz = msizes(c);
        proof {
            assert(l.take(j as int + 1) =~= l.take(j as int).push(l[j as int]));
            assert(all_bounded(l.take(j as int))) by {
                assert(forall|k: int|
                    0 <= k < j ==> (#[trigger] l.take(j as int)[k]) == l[k]);
            }
            lemma_compact_props(l.take(j as int));
            lemma_merge_props(c);
        }
        let v = out[j];
        if v != 0 {
            proof {
                assert(v == l[j as int]);
                assert(2 * v <= usize::MAX);
                assert(target_shape(out@, merged@, j as int, m.len() as int)) by {
                    assert(forall|k: int| 0 <= k < m.len() ==> (#[trigger] out@[k]) != 0);
                    assert(forall|k: int|
                        0 <= k && k + 1 < m.len() && !(#[trigger] merged@[k]) && !(
                        #[trigger] merged@[k + 1]) ==> out@[k] != out@[k + 1]) by {
                        assert(forall|k: int|
                            0 <= k < m.len() && !(#[trigger] merged@[k]) ==> sz[k] == 1);
                    }
                }
                lemma_merge_append(c, v);
                lemma_compact_push(l.take(j as int), v);
                assert(compact(l.take(j as int + 1)) == c.push(v));
            }
            let ghost s_len = m.len() as int;
            let t = get_target(&out, &merged, j, Ghost(s_len));
            if t != j {
                let vt = out[t];
                if vt == v {
                    // merge with the settled prefix's last tile
                    proof {
                        assert(t == s_len - 1);
                        assert(sz.last() == 1 && m.last() == v);
                        assert(gained_of(c.push(v)) == gained + v + v);
                        lemma_gain_bounds(c.push(v));
                        lemma_compact_props(l.take(j as int + 1));
                        lemma_sum_take(l, j as int + 1);
                        assert(gained + v + v <= usize::MAX);
                    }
                    out.set(t, v + v);
                    out.set(j, 0);
                    merged.set(t, true);
                    gained = gained + (v + v);
                    proof {
                        let c1 = c.push(v);
                        assert(merge_pairs(c1) == m.update(s_len - 1, (v + v) as usize));
                        assert(msizes(c1) == sz.update(s_len - 1, 2int));
                        assert(slide_inv(l, out@, merged@, gained as int, j as int + 1));
                    }
                } else {
                    // glide into the first free cell
                    proof {
                        assert(t == s_len);
                        assert(s_len < j);
                        assert(!(m.len() > 0 && sz.last() == 1 && m.last() == v));
                    }
                    out.set(t, v);
                    out.set(j, 0);
                    proof {
                        let c1 = c.push(v);
                        assert(merge_pairs(c1) == m.push(v));
                        assert(msizes(c1) == sz.push(1int));
                        assert(slide_inv(l, out@, merged@, gained as int, j as int + 1));
                    }
                }
            } else {
                // the tile is already settled
                proof {
                    assert(s_len == j);
                    assert(!(m.len() > 0 && sz.last() == 1 && m.last() == v));
                    let c1 = c.push(v);
                    assert(merge_pairs(c1) == m.push(v));
                    assert(msizes(c1) == sz.push(1int));
                    assert(slide_inv(l, out@, merged@, gained as int, j as int + 1));
                }
            }
        } else {
            proof {
                lemma_compact_push(l.take(j as int), 0);
                assert(compact(l.take(j as int + 1)) == c);
                assert(slide_inv(l, out@, merged@, gained as int, j as int + 1));
            }
        }
        j = j + 1;
    }
    proof {
        assert(l.take(n as int) =~= l);
        let c = compact(l);
        let m = merge_pairs(c);
        lemma_compact_props(l);
        lemma_merge_props(c);
        assert(out@ =~= slide_spec(l));
    }
    (out, gained)
}

} // verus!
