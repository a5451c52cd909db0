//! Cluster labeling and the cluster census.
//!
//! Open sites carry positive labels; `clustering` repeatedly propagates the
//! maximum label among adjacent open sites until a full scan changes nothing,
//! so that connected open sites end up sharing one label. `count_clusters`
//! then counts, per distinct label, how many sites carry it.

use vstd::prelude::*;
use vstd::pervasive::VecAdditionalExecFns;
use crate::grid::{adjacent, valid_grid, get_neigbors, lemma_adjacent_symmetric};

verus! {

/// Site `i` has no open neighbor with a larger label than its own.
pub open spec fn site_settled(s: Seq<u32>, rows: int, cols: int, i: int) -> bool {
    forall|j: int| #[trigger] adjacent(i, j, rows, cols) && s[i] > 0 && s[j] > 0 ==> s[j] <= s[i]
}

/// A lattice is stable when no open site has an open neighbor with a larger
/// label: one full propagation scan would change nothing.
pub open spec fn stable(s: Seq<u32>, rows: int, cols: int) -> bool {
    forall|i: int| 0 <= i < s.len() ==> #[trigger] site_settled(s, rows, cols, i)
}

/// `p` is a path of open, pairwise 4-adjacent sites of `s`.
pub open spec fn is_open_path(s: Seq<u32>, rows: int, cols: int, p: Seq<int>) -> bool {
    &&& p.len() >= 1
    &&& forall|k: int| 0 <= k < p.len() ==> 0 <= #[trigger] p[k] < s.len() && s[p[k]] > 0
    &&& forall|k: int| 0 <= k < p.len() - 1 ==> adjacent(#[trigger] p[k], p[k + 1], rows, cols)
}

/// In a stable lattice, adjacent open sites carry equal labels.
pub proof fn lemma_stable_adjacent_equal(s: Seq<u32>, rows: int, cols: int, i: int, j: int)
    requires
        cols >= 1,
        s.len() == rows * cols,
        stable(s, rows, cols),
        adjacent(i, j, rows, cols),
        s[i] > 0,
        s[j] > 0,
    ensures
        s[i] == s[j],
{
    lemma_adjacent_symmetric(i, j, rows, cols);
    assert(site_settled(s, rows, cols, i));
    assert(site_settled(s, rows, cols, j));
}

/// Once the labeler has converged, any two open sites connected by a path
/// of 4-adjacent open sites carry the same label.
pub proof fn lemma_connected_same_label(s: Seq<u32>, rows: int, cols: int, p: Seq<int>)
    requires
        cols >= 1,
        s.len() == rows * cols,
        stable(s, rows, cols),
        is_open_path(s, rows, cols, p),
    ensures
        s[p[0]] == s[p[p.len() - 1]],
    decreases p.len(),
{
    if p.len() >= 2 {
        lemma_stable_adjacent_equal(s, rows, cols, p[0], p[1]);
        let q = p.subrange(1, p.len() as int);
        assert(is_open_path(s, rows, cols, q));
        lemma_connected_same_label(s, rows, cols, q);
        assert(q[0] == p[1]);
        assert(q[q.len() - 1] == p[p.len() - 1]);
    }
}

/// Open sites `a` and `b` are joined by a path of 4-adjacent open sites.
#[verifier::opaque]
pub open spec fn connected(s: Seq<u32>, rows: int, cols: int, a: int, b: int) -> bool {
    exists|p: Seq<int>|
        #[trigger] is_open_path(s, rows, cols, p) && p[0] == a && p[p.len() - 1] == b
}

/// Every open site is connected to itself.
pub proof fn lemma_connected_refl(s: Seq<u32>, rows: int, cols: int, a: int)
    requires
        0 <= a < s.len(),
        s[a] > 0,
    ensures
        connected(s, rows, cols, a, a),
{
    reveal(connected);
    let p: Seq<int> = seq![a];
    assert(is_open_path(s, rows, cols, p));
}

/// A connection extends backwards across one adjacency.
pub proof fn lemma_connected_prepend(s: Seq<u32>, rows: int, cols: int, c: int, a: int, b: int)
    requires
        connected(s, rows, cols, a, b),
        adjacent(c, a, rows, cols),
        0 <= c < s.len(),
        s[c] > 0,
    ensures
        connected(s, rows, cols, c, b),
{
    reveal(connected);
    let p = choose|p: Seq<int>|
        #[trigger] is_open_path(s, rows, cols, p) && p[0] == a && p[p.len() - 1] == b;
    let q = seq![c] + p;
    assert(q[0] == c);
    assert(q.len() == p.len() + 1);
    assert forall|k: int| 0 <= k < q.len() implies 0 <= #[trigger] q[k] < s.len() && s[q[k]]
        > 0 by {
        if k >= 1 {
            assert(q[k] == p[k - 1]);
        }
    }
    assert forall|k: int| 0 <= k < q.len() - 1 implies adjacent(
        #[trigger] q[k],
        q[k + 1],
        rows,
        cols,
    ) by {
        if k == 0 {
            assert(q[1] == p[0]);
        } else {
            assert(q[k] == p[k - 1]);
            assert(q[k + 1] == p[k]);
        }
    }
    assert(is_open_path(s, rows, cols, q));
    assert(q[q.len() - 1] == p[p.len() - 1]);
}

/// Connectivity depends only on which sites are open, not on their labels.
pub proof fn lemma_connected_same_pattern(
    s: Seq<u32>,
    t: Seq<u32>,
    rows: int,
    cols: int,
    a: int,
    b: int,
)
    requires
        s.len() == t.len(),
        forall|k: int| 0 <= k < s.len() ==> ((s[k] == 0) <==> (t[k] == 0)),
        connected(s, rows, cols, a, b),
    ensures
        connected(t, rows, cols, a, b),
{
    reveal(connected);
    let p = choose|p: Seq<int>|
        #[trigger] is_open_path(s, rows, cols, p) && p[0] == a && p[p.len() - 1] == b;
    assert forall|k: int| 0 <= k < p.len() implies 0 <= #[trigger] p[k] < t.len() && t[p[k]]
        > 0 by {
        assert(s[p[k]] > 0);
    }
    assert(is_open_path(t, rows, cols, p));
}

/// Once the labeler has converged, an open site's label is the shared label
/// of its whole cluster, and at least the prior label of every open site
/// that cluster could reach before relabeling.
pub proof fn lemma_label_dominates_component(
    s: Seq<u32>,
    t: Seq<u32>,
    rows: int,
    cols: int,
    a: int,
    b: int,
)
    requires
        cols >= 1,
        s.len() == rows * cols,
        t.len() == s.len(),
        stable(t, rows, cols),
        forall|k: int| 0 <= k < s.len() ==> ((s[k] == 0) <==> (t[k] == 0)),
        forall|k: int| 0 <= k < s.len() ==> t[k] >= s[k],
        connected(s, rows, cols, a, b),
    ensures
        t[a] == t[b],
        t[a] >= s[b],
{
    reveal(connected);
    lemma_connected_same_pattern(s, t, rows, cols, a, b);
    let p = choose|p: Seq<int>|
        #[trigger] is_open_path(t, rows, cols, p) && p[0] == a && p[p.len() - 1] == b;
    lemma_connected_same_label(t, rows, cols, p);
}

/// The number of open (nonzero) sites of `s`.
pub open spec fn open_count(s: Seq<u32>) -> int
    decreases s.len(),
{
    if s.len() == 0 {
        0
    } else {
        open_count(s.drop_last()) + if s.last() > 0 {
            1int
        } else {
            0int
        }
    }
}

/// The number of sites of `s` carrying exactly label `lab`.
pub open spec fn count_label(s: Seq<u32>, lab: u32) -> int
    decreases s.len(),
{
    if s.len() == 0 {
        0
    } else {
        count_label(s.drop_last(), lab) + if s.last() == lab {
            1int
        } else {
            0int
        }
    }
}

/// The sum of all labels of `s`.
pub open spec fn label_sum(s: Seq<u32>) -> int
    decreases s.len(),
{
    if s.len() == 0 {
        0
    } else {
        label_sum(s.drop_last()) + s.last()
    }
}

/// The sum of the per-label counts of a census.
pub open spec fn sum_counts(c: Seq<(u32, u32)>) -> int
    decreases c.len(),
{
    if c.len() == 0 {
        0
    } else {
        sum_counts(c.drop_last()) + c.last().1
    }
}

/// Some site of `s` carries label `lab`.
pub open spec fn lattice_has_label(s: Seq<u32>, lab: u32) -> bool {
    exists|k: int| 0 <= k < s.len() && s[k] == lab
}

/// Some census entry is for label `lab`.
pub open spec fn census_has_label(c: Seq<(u32, u32)>, lab: u32) -> bool {
    exists|t: int| 0 <= t < c.len() && c[t].0 == lab
}

proof fn lemma_label_sum_update(s: Seq<u32>, i: int, v: u32)
    requires
        0 <= i < s.len(),
    ensures
        label_sum(s.update(i, v)) == label_sum(s) - s[i] + v,
    decreases s.len(),
{
    if i == s.len() - 1 {
        assert(s.update(i, v).drop_last() =~= s.drop_last());
    } else {
        assert(s.update(i, v).drop_last() =~= s.drop_last().update(i, v));
        lemma_label_sum_update(s.drop_last(), i, v);
    }
}

proof fn lemma_label_sum_le(s: Seq<u32>)
    ensures
        label_sum(s) <= s.len() * (u32::MAX as int),
    decreases s.len(),
{
    if s.len() > 0 {
        lemma_label_sum_le(s.drop_last());
    }
}

proof fn lemma_sum_counts_update(c: Seq<(u32, u32)>, t: int, p: (u32, u32))
    requires
        0 <= t < c.len(),
    ensures
        sum_counts(c.update(t, p)) == sum_counts(c) - c[t].1 + p.1,
    decreases c.len(),
{
    if t == c.len() - 1 {
        assert(c.update(t, p).drop_last() =~= c.drop_last());
    } else {
        assert(c.update(t, p).drop_last() =~= c.drop_last().update(t, p));
        lemma_sum_counts_update(c.drop_last(), t, p);
    }
}

proof fn lemma_take_step_count(s: Seq<u32>, k: int, lab: u32)
    requires
        0 <= k < s.len(),
    ensures
        count_label(s.take(k + 1), lab) == count_label(s.take(k), lab) + if s[k] == lab {
            1int
        } else {
            0int
        },
{
    assert(s.take(k + 1).drop_last() =~= s.take(k));
    assert(s.take(k + 1).last() == s[k]);
}

proof fn lemma_take_step_open(s: Seq<u32>, k: int)
    requires
        0 <= k < s.len(),
    ensures
        open_count(s.take(k + 1)) == open_count(s.take(k)) + if s[k] > 0 {
            1int
        } else {
            0int
        },
{
    assert(s.take(k + 1).drop_last() =~= s.take(k));
    assert(s.take(k + 1).last() == s[k]);
}

/// A label that occurs nowhere in `s` has count zero.
proof fn lemma_count_label_absent(s: Seq<u32>, lab: u32)
    requires
        forall|k: int| 0 <= k < s.len() ==> s[k] != lab,
    ensures
        count_label(s, lab) == 0,
    decreases s.len(),
{
    if s.len() > 0 {
        lemma_count_label_absent(s.drop_last(), lab);
    }
}

proof fn lemma_count_label_le(s: Seq<u32>, lab: u32)
    ensures
        0 <= count_label(s, lab) <= s.len(),
    decreases s.len(),
{
    if s.len() > 0 {
        lemma_count_label_le(s.drop_last(), lab);
    }
}

pub proof fn lemma_open_count_le(s: Seq<u32>)
    ensures
        0 <= open_count(s) <= s.len(),
    decreases s.len(),
{
    if s.len() > 0 {
        lemma_open_count_le(s.drop_last());
    }
}

/// A lattice whose open count equals its length is fully open.
pub proof fn lemma_open_count_full(s: Seq<u32>)
    requires
        open_count(s) == s.len(),
    ensures
        forall|k: int| 0 <= k < s.len() ==> s[k] > 0,
    decreases s.len(),
{
    if s.len() > 0 {
        lemma_open_count_le(s.drop_last());
        lemma_open_count_full(s.drop_last());
        assert forall|k: int| 0 <= k < s.len() implies s[k] > 0 by {
            if k < s.len() - 1 {
                assert(s.drop_last()[k] == s[k]);
            }
        }
    }
}

/// Opening a single blocked site raises the open count by one.
pub proof fn lemma_open_count_open_site(s: Seq<u32>, i: int, v: u32)
    requires
        0 <= i < s.len(),
        s[i] == 0,
        v > 0,
    ensures
        open_count(s.update(i, v)) == open_count(s) + 1,
    decreases s.len(),
{
    if i == s.len() - 1 {
        assert(s.update(i, v).drop_last() =~= s.drop_last());
    } else {
        assert(s.update(i, v).drop_last() =~= s.drop_last().update(i, v));
        lemma_open_count_open_site(s.drop_last(), i, v);
    }
}

/// Two lattices that agree on which sites are open have the same open count.
pub proof fn lemma_open_count_same_pattern(s: Seq<u32>, t: Seq<u32>)
    requires
        s.len() == t.len(),
        forall|k: int| 0 <= k < s.len() ==> ((s[k] == 0) <==> (t[k] == 0)),
    ensures
        open_count(s) == open_count(t),
    decreases s.len(),
{
    if s.len() > 0 {
        assert forall|k: int|
            0 <= k < s.drop_last().len() implies ((s.drop_last()[k] == 0) <==> (t.drop_last()[k]
            == 0)) by {
            assert(s.drop_last()[k] == s[k]);
            assert(t.drop_last()[k] == t[k]);
        }
        lemma_open_count_same_pattern(s.drop_last(), t.drop_last());
    }
}

/// Repeatedly scan every site and replace each open site's label with any
/// larger label found among its open neighbors, until a full scan changes
/// nothing. The lattice afterwards is stable; which sites are open never
/// changes, labels never shrink, and every remaining label already stood on
/// some open site of the same connected component. Running the scan on an
/// already stable lattice changes nothing at all.
#[verifier::rlimit(100)]
pub fn clustering(arr: &mut Vec<u32>, rows: usize, cols: usize)
    requires
        valid_grid(rows as int, cols as int),
        old(arr)@.len() == rows * cols,
    ensures
        final(arr)@.len() == old(arr)@.len(),
        stable(final(arr)@, rows as int, cols as int),
        forall|k: int|
            0 <= k < old(arr)@.len() ==> ((final(arr)@[k] == 0) <==> (old(arr)@[k] == 0)),
        forall|k: int| 0 <= k < old(arr)@.len() ==> final(arr)@[k] >= old(arr)@[k],
        forall|k: int|
            0 <= k < old(arr)@.len() ==> (final(arr)@[k] == 0 || old(arr)@.contains(
                final(arr)@[k],
            )),
        forall|a: int|
            0 <= a < old(arr)@.len() && (#[trigger] final(arr)@[a]) > 0 ==> exists|b: int|
                0 <= b < old(arr)@.len() && #[trigger] connected(
                    old(arr)@,
                    rows as int,
                    cols as int,
                    a,
                    b,
                ) && old(arr)@[b] == final(arr)@[a],
        stable(old(arr)@, rows as int, cols as int) ==> final(arr)@ == old(arr)@,
{
    let len = rows * cols;
    let ghost s0 = arr@;
    let ghost mut orig: Seq<int> = Seq::new(len as nat, |k: int| k);
    proof {
        assert forall|k: int|
            0 <= k < len && arr@[k] != 0 implies connected(
            s0,
            rows as int,
            cols as int,
            k,
            #[trigger] orig[k],
        ) && s0[orig[k]] == arr@[k] by {
            lemma_connected_refl(s0, rows as int, cols as int, k);
        }
    }
    loop
        invariant
            arr@.len() == len,
            len == rows * cols,
            s0.len() == len,
            valid_grid(rows as int, cols as int),
            forall|k: int| 0 <= k < len ==> ((arr@[k] == 0) <==> (s0[k] == 0)),
            forall|k: int| 0 <= k < len ==> arr@[k] >= s0[k],
            forall|k: int| 0 <= k < len ==> (arr@[k] == 0 || s0.contains(arr@[k])),
            orig.len() == len,
            forall|k: int| 0 <= k < len ==> 0 <= #[trigger] orig[k] < len,
            forall|k: int|
                0 <= k < len && arr@[k] != 0 ==> connected(
                    s0,
                    rows as int,
                    cols as int,
                    k,
                    #[trigger] orig[k],
                ) && s0[orig[k]] == arr@[k],
            stable(s0, rows as int, cols as int) ==> arr@ == s0,
        ensures
            arr@.len() == len,
            stable(arr@, rows as int, cols as int),
            forall|k: int| 0 <= k < len ==> ((arr@[k] == 0) <==> (s0[k] == 0)),
            forall|k: int| 0 <= k < len ==> arr@[k] >= s0[k],
            forall|k: int| 0 <= k < len ==> (arr@[k] == 0 || s0.contains(arr@[k])),
            orig.len() == len,
            forall|k: int| 0 <= k < len ==> 0 <= #[trigger] orig[k] < len,
            forall|k: int|
                0 <= k < len && arr@[k] != 0 ==> connected(
                    s0,
                    rows as int,
                    cols as int,
                    k,
                    #[trigger] orig[k],
                ) && s0[orig[k]] == arr@[k],
            stable(s0, rows as int, cols as int) ==> arr@ == s0,
        decreases (len as int) * (u32::MAX as int) - label_sum(arr@),
    {
        let ghost prev = arr@;
        let mut changed = false;
        let mut i: usize = 0;
        while i < len
            invariant
                arr@.len() == len,
                len == rows * cols,
                s0.len() == len,
                valid_grid(rows as int, cols as int),
                i <= len,
                forall|k: int| 0 <= k < len ==> ((arr@[k] == 0) <==> (s0[k] == 0)),
                forall|k: int| 0 <= k < len ==> arr@[k] >= s0[k],
                forall|k: int| 0 <= k < len ==> (arr@[k] == 0 || s0.contains(arr@[k])),
                orig.len() == len,
                forall|k: int| 0 <= k < len ==> 0 <= #[trigger] orig[k] < len,
                forall|k: int|
                    0 <= k < len && arr@[k] != 0 ==> connected(
                        s0,
                        rows as int,
                        cols as int,
                        k,
                        #[trigger] orig[k],
                    ) && s0[orig[k]] == arr@[k],
                forall|k: int| 0 <= k < len ==> arr@[k] >= prev[k],
                !changed ==> arr@ == prev,
                !changed ==> forall|k: int|
                    0 <= k < i ==> site_settled(arr@, rows as int, cols as int, k),
                changed ==> label_sum(arr@) >= label_sum(prev) + 1,
                stable(prev, rows as int, cols as int) ==> !changed,
            decreases len - i,
        {
            if arr[i] > 0 {
                let (up, down, left, right) = get_neigbors(i, rows, cols);
                if let Some(n) = left {
                    if arr[n] > arr[i] {
                        proof {
                            if stable(prev, rows as int, cols as int) {
                                lemma_stable_adjacent_equal(
                                    prev,
                                    rows as int,
                                    cols as int,
                                    i as int,
                                    n as int,
                                );
                            }
                            lemma_label_sum_update(arr@, i as int, arr@[n as int]);
                            lemma_connected_prepend(
                                s0,
                                rows as int,
                                cols as int,
                                i as int,
                                n as int,
                                orig[n as int],
                            );
                            orig = orig.update(i as int, orig[n as int]);
                        }
                        let v = arr[n];
                        arr.set(i, v);
                        changed = true;
                    }
                }
                if let Some(n) = right {
                    if arr[n] > arr[i] {
                        proof {
                            if stable(prev, rows as int, cols as int) {
                                lemma_stable_adjacent_equal(
                                    prev,
                                    rows as int,
                                    cols as int,
                                    i as int,
                                    n as int,
                                );
                            }
                            lemma_label_sum_update(arr@, i as int, arr@[n as int]);
                            lemma_connected_prepend(
                                s0,
                                rows as int,
                                cols as int,
                                i as int,
                                n as int,
                                orig[n as int],
                            );
                            orig = orig.update(i as int, orig[n as int]);
                        }
                        let v = arr[n];
                        arr.set(i, v);
                        changed = true;
                    }
                }
                if let Some(n) = down {
                    if arr[n] > arr[i] {
                        proof {
                            if stable(prev, rows as int, cols as int) {
                                lemma_stable_adjacent_equal(
                                    prev,
                                    rows as int,
                                    cols as int,
                                    i as int,
                                    n as int,
                                );
                            }
                            lemma_label_sum_update(arr@, i as int, arr@[n as int]);
                            lemma_connected_prepend(
                                s0,
                                rows as int,
                                cols as int,
                                i as int,
                                n as int,
                                orig[n as int],
                            );
                            orig = orig.update(i as int, orig[n as int]);
                        }
                        let v = arr[n];
                        arr.set(i, v);
                        changed = true;
                    }
                }
                if let Some(n) = up {
                    if arr[n] > arr[i] {
                        proof {
                            if stable(prev, rows as int, cols as int) {
                                lemma_stable_adjacent_equal(
                                    prev,
                                    rows as int,
                                    cols as int,
                                    i as int,
                                    n as int,
                                );
                            }
                            lemma_label_sum_update(arr@, i as int, arr@[n as int]);
                            lemma_connected_prepend(
                                s0,
                                rows as int,
                                cols as int,
                                i as int,
                                n as int,
                                orig[n as int],
                            );
                            orig = orig.update(i as int, orig[n as int]);
                        }
                        let v = arr[n];
                        arr.set(i, v);
                        changed = true;
                    }
                }
            }
            proof {
                if !changed {
                    assert forall|j: int|
                        #[trigger] adjacent(i as int, j, rows as int, cols as int) && arr@[i as int]
                            > 0 && arr@[j] > 0 implies arr@[j] <= arr@[i as int] by {}
                    assert(site_settled(arr@, rows as int, cols as int, i as int));
                }
            }
            i += 1;
        }
        if !changed {
            break;
        }
        proof {
            lemma_label_sum_le(arr@);
        }
    }
    proof {
        assert forall|a: int| 0 <= a < len && (#[trigger] arr@[a]) > 0 implies exists|b: int|
            0 <= b < len && #[trigger] connected(s0, rows as int, cols as int, a, b) && s0[b]
                == arr@[a] by {
            assert(connected(s0, rows as int, cols as int, a, orig[a]));
            assert(s0[orig[a]] == arr@[a]);
        }
    }
}

/// Whether census `c` is exactly the per-label count of lattice `s`: one
/// entry per distinct positive label of `s`, each with its positive count,
/// and the counts sum to the number of open sites.
pub open spec fn is_census(s: Seq<u32>, c: Seq<(u32, u32)>) -> bool {
    &&& forall|t: int| 0 <= t < c.len() ==> (#[trigger] c[t]).0 > 0
    &&& forall|t: int| 0 <= t < c.len() ==> (#[trigger] c[t]).1 > 0
    &&& forall|t: int| 0 <= t < c.len() ==> (#[trigger] c[t]).1 == count_label(s, c[t].0)
    &&& forall|t1: int, t2: int|
        0 <= t1 < t2 < c.len() ==> (#[trigger] c[t1]).0 != (#[trigger] c[t2]).0
    &&& forall|lab: u32|
        lab > 0 ==> (#[trigger] census_has_label(c, lab) <==> lattice_has_label(s, lab))
    &&& sum_counts(c) == open_count(s)
}

fn find_label(census: &Vec<(u32, u32)>, lab: u32) -> (r: Option<usize>)
    ensures
        match r {
            Some(idx) => idx < census@.len() && census@[idx as int].0 == lab,
            None => forall|t: int| 0 <= t < census@.len() ==> (#[trigger] census@[t]).0 != lab,
        },
{
    let mut t: usize = 0;
    while t < census.len()
        invariant
            t <= census@.len(),
            forall|u: int| 0 <= u < t ==> (#[trigger] census@[u]).0 != lab,
        decreases census@.len() - t,
    {
        if census[t].0 == lab {
            return Some(t);
        }
        t += 1;
    }
    None
}

/// Count, per distinct positive label, how many sites of `arr` carry it.
/// Blocked (zero) sites are excluded; the counts sum to exactly the number
/// of open sites, and no label appears with count zero.
pub fn count_clusters(arr: &Vec<u32>) -> (census: Vec<(u32, u32)>)
    requires
        arr@.len() <= u32::MAX,
    ensures
        is_census(arr@, census@),
{
    let mut census: Vec<(u32, u32)> = Vec::new();
    let n = arr.len();
    let mut k: usize = 0;
    while k < n
        invariant
            n == arr@.len(),
            n <= u32::MAX,
            k <= n,
            forall|t: int| 0 <= t < census@.len() ==> (#[trigger] census@[t]).0 > 0,
            forall|t: int| 0 <= t < census@.len() ==> (#[trigger] census@[t]).1 > 0,
            forall|t: int|
                0 <= t < census@.len() ==> (#[trigger] census@[t]).1 == count_label(
                    arr@.take(k as int),
                    census@[t].0,
                ),
            forall|t1: int, t2: int|
                0 <= t1 < t2 < census@.len() ==> (#[trigger] census@[t1]).0 != (
                #[trigger] census@[t2]).0,
            forall|lab: u32|
                lab > 0 ==> (#[trigger] census_has_label(census@, lab) <==> lattice_has_label(
                    arr@.take(k as int),
                    lab,
                )),
            sum_counts(census@) == open_count(arr@.take(k as int)),
        decreases n - k,
    {
        let lab = arr[k];
        proof {
            lemma_take_step_open(arr@, k as int);
            if lab > 0 {
                lemma_take_step_count(arr@, k as int, lab);
            }
            assert forall|l2: u32| l2 != lab implies count_label(
                arr@.take(k + 1),
                l2,
            ) == count_label(arr@.take(k as int), l2) by {
                lemma_take_step_count(arr@, k as int, l2);
            }
        }
        if lab > 0 {
            match find_label(&census, lab) {
                Some(idx) => {
                    let c = census[idx].1;
                    let ghost cen0 = census@;
                    proof {
                        lemma_count_label_le(arr@.take(k as int), lab);
                        lemma_sum_counts_update(census@, idx as int, (lab, (c + 1) as u32));
                    }
                    census.set(idx, (lab, c + 1));
                    proof {
                        assert forall|lab2: u32| lab2 > 0 implies (#[trigger] census_has_label(
                            census@,
                            lab2,
                        ) <==> lattice_has_label(arr@.take(k + 1), lab2)) by {
                            lemma_census_update_same_labels(
                                cen0,
                                idx as int,
                                (lab, (c + 1) as u32),
                                lab2,
                            );
                            lemma_lattice_take_step_has_label(arr@, k as int, lab2);
                            if lab2 == lab {
                                assert(cen0[idx as int].0 == lab);
                                assert(census_has_label(cen0, lab));
                            }
                        }
                    }
                },
                None => {
                    proof {
                        assert(!census_has_label(census@, lab)) by {
                            if census_has_label(census@, lab) {
                                let t = choose|t: int|
                                    0 <= t < census@.len() && census@[t].0 == lab;
                                assert(census@[t].0 != lab);
                            }
                        }
                        let sk = arr@.take(k as int);
                        assert forall|j: int| 0 <= j < sk.len() implies sk[j] != lab by {
                            if sk[j] == lab {
                                assert(lattice_has_label(sk, lab));
                            }
                        }
                        lemma_count_label_absent(sk, lab);
                        assert(census@.push((lab, 1u32)).drop_last() =~= census@);
                    }
                    census.push((lab, 1));
                    proof {
                        assert forall|lab2: u32| lab2 > 0 implies (#[trigger] census_has_label(
                            census@,
                            lab2,
                        ) <==> lattice_has_label(arr@.take(k + 1), lab2)) by {
                            lemma_census_push_has_label(census@.drop_last(), (lab, 1u32), lab2);
                            lemma_lattice_take_step_has_label(arr@, k as int, lab2);
                        }
                    }
                },
            }
        } else {
            proof {
                assert forall|lab2: u32| lab2 > 0 implies (#[trigger] census_has_label(
                    census@,
                    lab2,
                ) <==> lattice_has_label(arr@.take(k + 1), lab2)) by {
                    lemma_lattice_take_step_has_label(arr@, k as int, lab2);
                }
            }
        }
        k += 1;
    }
    proof {
        assert(arr@.take(n as int) =~= arr@);
    }
    census
}

/// Updating a census entry's count leaves its label set unchanged.
proof fn lemma_census_update_same_labels(c: Seq<(u32, u32)>, idx: int, p: (u32, u32), lab2: u32)
    requires
        0 <= idx < c.len(),
        c[idx].0 == p.0,
    ensures
        census_has_label(c.update(idx, p), lab2) <==> census_has_label(c, lab2),
{
    let u = c.update(idx, p);
    if census_has_label(c, lab2) {
        let t = choose|t: int| 0 <= t < c.len() && c[t].0 == lab2;
        if t == idx {
            assert(u[idx].0 == lab2);
        } else {
            assert(u[t].0 == lab2);
        }
    }
    if census_has_label(u, lab2) {
        let t = choose|t: int| 0 <= t < u.len() && u[t].0 == lab2;
        if t == idx {
            assert(c[idx].0 == lab2);
        } else {
            assert(c[t].0 == lab2);
        }
    }
}

proof fn lemma_census_push_has_label(c: Seq<(u32, u32)>, p: (u32, u32), lab2: u32)
    ensures
        census_has_label(c.push(p), lab2) <==> (census_has_label(c, lab2) || p.0 == lab2),
{
    if census_has_label(c, lab2) {
        let t = choose|t: int| 0 <= t < c.len() && c[t].0 == lab2;
        assert(c.push(p)[t].0 == lab2);
    }
    if p.0 == lab2 {
        assert(c.push(p)[c.len() as int].0 == lab2);
    }
    if census_has_label(c.push(p), lab2) {
        let t = choose|t: int| 0 <= t < c.push(p).len() && c.push(p)[t].0 == lab2;
        if t < c.len() {
            assert(c[t].0 == lab2);
        }
    }
}

proof fn lemma_lattice_take_step_has_label(s: Seq<u32>, k: int, lab2: u32)
    requires
        0 <= k < s.len(),
    ensures
        lattice_has_label(s.take(k + 1), lab2) <==> (lattice_has_label(s.take(k), lab2) || s[k]
            == lab2),
{
    if lattice_has_label(s.take(k), lab2) {
        let j = choose|j: int| 0 <= j < s.take(k).len() && s.take(k)[j] == lab2;
        assert(s.take(k + 1)[j] == lab2);
    }
    if s[k] == lab2 {
        assert(s.take(k + 1)[k] == lab2);
    }
    if lattice_has_label(s.take(k + 1), lab2) {
        let sk1 = s.take(k + 1);
        let j = choose|j: int| 0 <= j < sk1.len() && sk1[j] == lab2;
        if j < k {
            assert(s.take(k)[j] == lab2);
        }
    }
}

} // verus!
