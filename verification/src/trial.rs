//! The Monte Carlo trial driver and its aggregator.
//!
//! One trial opens blocked sites one at a time in uniformly random order,
//! relabels the lattice after each opening, and stops as soon as some
//! cluster spans the lattice; the aggregator runs a number of independent
//! trials and reports every per-trial opening count together with their sum.

use vstd::prelude::*;
use vstd::pervasive::VecAdditionalExecFns;
use crate::clusters::{
    clustering,
    stable,
    open_count,
    lemma_open_count_open_site,
    lemma_open_count_same_pattern,
    lemma_open_count_full,
};
use crate::grid::valid_grid;
use crate::rng::random_below;
use crate::spanning::{
    check_percolation,
    percolates,
    percolates_label,
    lemma_full_lattice_percolates,
    lemma_blocked_no_percolation,
};

verus! {

/// The outcome of one trial: the final lattice, the number of sites open
/// when percolation was first detected, and the spanning cluster's label.
#[derive(Debug)]
pub struct Trial {
    pub lattice: Vec<u32>,
    pub opened: usize,
    pub label: u32,
}

/// The sum of the per-trial opening counts.
pub open spec fn sum_opened(s: Seq<usize>) -> int
    decreases s.len(),
{
    if s.len() == 0 {
        0
    } else {
        sum_opened(s.drop_last()) + s.last()
    }
}

/// `lat` arose from `prev` by opening exactly the blocked site `site`:
/// every other site kept its open/blocked state.
pub open spec fn opening_step(prev: Seq<u32>, site: int, lat: Seq<u32>, rows: int, cols: int) -> bool {
    &&& prev.len() == lat.len()
    &&& 0 <= site < prev.len()
    &&& prev[site] == 0
    &&& lat[site] > 0
    &&& forall|k: int| 0 <= k < prev.len() && k != site ==> ((prev[k] == 0) <==> (lat[k] == 0))
}

/// The trial stopped at the first spanning configuration: `lat` arose by a
/// single opening from a stable lattice with `opened - 1` open sites that
/// did not yet percolate.
#[verifier::opaque]
pub open spec fn first_spanning(lat: Seq<u32>, opened: int, rows: int, cols: int) -> bool {
    exists|prev: Seq<u32>, site: int|
        #[trigger] opening_step(prev, site, lat, rows, cols) && prev.len() == rows * cols
            && stable(prev, rows, cols) && !percolates(prev, rows, cols) && open_count(prev)
            == opened - 1
}

/// Some complete trial on a `rows` x `cols` grid can stop with exactly
/// `opened` sites open: a stable, spanning lattice with that many open
/// sites exists whose last opening was the first to make it span.
#[verifier::opaque]
pub open spec fn achievable_opening_count(opened: int, rows: int, cols: int) -> bool {
    exists|lat: Seq<u32>|
        lat.len() == rows * cols && #[trigger] stable(lat, rows, cols) && percolates(
            lat,
            rows,
            cols,
        ) && open_count(lat) == opened && first_spanning(lat, opened, rows, cols)
}

/// Run one trial: starting from an all-blocked lattice, repeatedly open a
/// uniformly random blocked site with the next opening number as its label,
/// relabel, and stop at the first spanning cluster. The result's lattice is
/// stable, has exactly `opened` open sites, and contains the reported
/// spanning label; a trial always terminates with at least one site open,
/// because a fully opened lattice percolates.
pub fn run_trial(rng: &mut rand::rngs::SmallRng, rows: usize, cols: usize) -> (t: Trial)
    requires
        valid_grid(rows as int, cols as int),
    ensures
        t.lattice@.len() == rows * cols,
        1 <= t.opened <= rows * cols,
        open_count(t.lattice@) == t.opened,
        stable(t.lattice@, rows as int, cols as int),
        percolates_label(t.lattice@, rows as int, cols as int, t.label),
        first_spanning(t.lattice@, t.opened as int, rows as int, cols as int),
        forall|k: int| 0 <= k < t.lattice@.len() ==> t.lattice@[k] <= t.opened,
{
    let len = rows * cols;
    let mut arr: Vec<u32> = Vec::new();
    let mut z: usize = 0;
    while z < len
        invariant
            arr@.len() == z,
            z <= len,
            forall|k: int| 0 <= k < z ==> arr@[k] == 0,
        decreases len - z,
    {
        arr.push(0);
        z += 1;
    }
    let mut blocked: Vec<usize> = Vec::new();
    let mut b: usize = 0;
    while b < len
        invariant
            blocked@.len() == b,
            b <= len,
            forall|k: int| 0 <= k < b ==> blocked@[k] == k,
        decreases len - b,
    {
        blocked.push(b);
        b += 1;
    }
    proof {
        assert forall|i: int|
            0 <= i < arr@.len() implies #[trigger] crate::clusters::site_settled(
            arr@,
            rows as int,
            cols as int,
            i,
        ) by {}
        lemma_blocked_no_percolation(arr@, rows as int, cols as int);
        lemma_open_count_zero(arr@);
        assert forall|st: int|
            0 <= st < len && arr@[st] == 0 implies blocked@.contains(st as usize) by {
            assert(blocked@[st] == st as usize);
        }
    }
    let mut j: usize = 0;
    while j < len
        invariant
            valid_grid(rows as int, cols as int),
            len == rows * cols,
            arr@.len() == len,
            j <= len,
            open_count(arr@) == j,
            forall|k: int| 0 <= k < len ==> arr@[k] <= j,
            blocked@.len() == len - j,
            forall|t: int|
                0 <= t < blocked@.len() ==> (#[trigger] blocked@[t]) < len
                    && arr@[blocked@[t] as int] == 0,
            forall|st: int| 0 <= st < len && arr@[st] == 0 ==> blocked@.contains(st as usize),
            forall|t1: int, t2: int|
                0 <= t1 < t2 < blocked@.len() ==> blocked@[t1] != blocked@[t2],
            !percolates(arr@, rows as int, cols as int),
            stable(arr@, rows as int, cols as int),
        decreases len - j,
    {
        let ghost a_head = arr@;
        let idx = random_below(rng, blocked.len());
        let site = blocked[idx];
        let ghost bl0 = blocked@;
        blocked.swap_remove(idx);
        let ghost a0 = arr@;
        proof {
            lemma_open_count_open_site(arr@, site as int, (j + 1) as u32);
        }
        arr.set(site, (j + 1) as u32);
        j += 1;
        proof {
            assert forall|t: int|
                0 <= t < blocked@.len() implies (#[trigger] blocked@[t]) < len
                    && arr@[blocked@[t] as int] == 0 by {
                if t == idx {
                    assert(blocked@[t] == bl0.last());
                    assert(bl0[bl0.len() - 1] == bl0.last());
                } else {
                    assert(blocked@[t] == bl0[t]);
                }
            }
            assert forall|st: int|
                0 <= st < len && arr@[st] == 0 implies blocked@.contains(st as usize) by {
                assert(a0[st] == 0);
                assert(bl0.contains(st as usize));
                let w = choose|w: int| 0 <= w < bl0.len() && bl0[w] == st as usize;
                assert(w != idx);
                if w < bl0.len() - 1 {
                    assert(blocked@[w] == bl0[w]);
                } else {
                    assert(blocked@[idx as int] == bl0.last());
                }
            }
            assert forall|t1: int, t2: int|
                0 <= t1 < t2 < blocked@.len() implies blocked@[t1] != blocked@[t2] by {
                if t1 == idx {
                    assert(blocked@[t1] == bl0[bl0.len() - 1]);
                    assert(blocked@[t2] == bl0[t2]);
                } else if t2 == idx {
                    assert(blocked@[t2] == bl0[bl0.len() - 1]);
                    assert(blocked@[t1] == bl0[t1]);
                } else {
                    assert(blocked@[t1] == bl0[t1]);
                    assert(blocked@[t2] == bl0[t2]);
                }
            }
        }
        let ghost a1 = arr@;
        clustering(&mut arr, rows, cols);
        proof {
            lemma_open_count_same_pattern(arr@, a1);
            assert forall|k: int| 0 <= k < len implies arr@[k] <= j by {
                if arr@[k] != 0 {
                    assert(a1.contains(arr@[k]));
                    let m = choose|m: int| 0 <= m < a1.len() && a1[m] == arr@[k];
                }
            }
        }
        let (perc, lab) = check_percolation(&arr, rows, cols);
        if perc {
            proof {
                assert forall|k: int|
                    0 <= k < a_head.len() && k != site implies ((a_head[k] == 0) <==> (arr@[k]
                    == 0)) by {
                    assert(a1[k] == a_head[k]);
                }
                assert(opening_step(a_head, site as int, arr@, rows as int, cols as int));
                reveal(first_spanning);
                assert(first_spanning(arr@, j as int, rows as int, cols as int));
            }
            return Trial { lattice: arr, opened: j, label: lab };
        }
    }
    proof {
        lemma_open_count_full(arr@);
        lemma_full_lattice_percolates(arr@, rows as int, cols as int);
    }
    // not reachable: a fully opened lattice always percolates
    Trial { lattice: arr, opened: j, label: 0 }
}

proof fn lemma_open_count_zero(s: Seq<u32>)
    requires
        forall|k: int| 0 <= k < s.len() ==> s[k] == 0,
    ensures
        open_count(s) == 0,
    decreases s.len(),
{
    if s.len() > 0 {
        lemma_open_count_zero(s.drop_last());
    }
}

/// Why a simulation configuration is rejected before any trial starts.
#[derive(Clone, Copy, Debug, PartialEq, Eq, Structural)]
pub enum ConfigError {
    /// The grid has no rows.
    ZeroRows,
    /// The grid has no columns.
    ZeroCols,
    /// The grid has more sites than a `u32` opening label can number.
    TooManySites,
    /// No trials were requested.
    ZeroIterations,
    /// More trials were requested than the opening-count sum can carry.
    TooManyIterations,
}

/// The aggregate outcome of a batch of trials: every trial's opening count,
/// their exact sum, and the last trial's full outcome for rendering.
#[derive(Debug)]
pub struct Simulation {
    pub opened_counts: Vec<usize>,
    pub total_opened: u64,
    pub last: Trial,
}

proof fn lemma_trial_is_achievable(lat: Seq<u32>, opened: int, label: u32, rows: int, cols: int)
    requires
        lat.len() == rows * cols,
        stable(lat, rows, cols),
        percolates_label(lat, rows, cols, label),
        open_count(lat) == opened,
        first_spanning(lat, opened, rows, cols),
    ensures
        achievable_opening_count(opened, rows, cols),
{
    reveal(achievable_opening_count);
    assert(percolates(lat, rows, cols));
}

/// Run `iters` independent trials and collect each trial's opening count.
/// The configuration is validated first and rejected with the matching
/// error; on success the reported sum equals the sum of the per-trial
/// counts exactly, so the mean threshold is `total_opened / (iters * rows
/// * cols)`.
pub fn run_trials(rng: &mut rand::rngs::SmallRng, rows: usize, cols: usize, iters: usize) -> (r:
    Result<Simulation, ConfigError>)
    ensures
        r is Ok <==> (1 <= rows && 1 <= cols && rows * cols <= u32::MAX && 1 <= iters && iters
            <= u32::MAX),
        rows == 0 ==> r == Err::<Simulation, ConfigError>(ConfigError::ZeroRows),
        rows >= 1 && cols == 0 ==> r == Err::<Simulation, ConfigError>(ConfigError::ZeroCols),
        rows >= 1 && cols >= 1 && rows * cols > u32::MAX ==> r == Err::<Simulation, ConfigError>(
            ConfigError::TooManySites,
        ),
        valid_grid(rows as int, cols as int) && iters == 0 ==> r == Err::<Simulation, ConfigError>(
            ConfigError::ZeroIterations,
        ),
        valid_grid(rows as int, cols as int) && iters > u32::MAX ==> r == Err::<
            Simulation,
            ConfigError,
        >(ConfigError::TooManyIterations),
        r matches Ok(sim) ==> {
            &&& sim.opened_counts@.len() == iters
            &&& forall|k: int|
                0 <= k < iters ==> 1 <= #[trigger] sim.opened_counts@[k] <= rows * cols
            &&& sim.total_opened == sum_opened(sim.opened_counts@)
            &&& sim.last.lattice@.len() == rows * cols
            &&& open_count(sim.last.lattice@) == sim.last.opened
            &&& stable(sim.last.lattice@, rows as int, cols as int)
            &&& percolates_label(sim.last.lattice@, rows as int, cols as int, sim.last.label)
            &&& first_spanning(sim.last.lattice@, sim.last.opened as int, rows as int, cols as int)
            &&& forall|k: int|
                0 <= k < iters ==> achievable_opening_count(
                    #[trigger] sim.opened_counts@[k] as int,
                    rows as int,
                    cols as int,
                )
            &&& sim.opened_counts@[iters - 1] == sim.last.opened
        },
{
    if rows == 0 {
        return Err(ConfigError::ZeroRows);
    }
    if cols == 0 {
        return Err(ConfigError::ZeroCols);
    }
    let len = match rows.checked_mul(cols) {
        Some(l) => l,
        None => {
            return Err(ConfigError::TooManySites);
        },
    };
    if len > u32::MAX as usize {
        return Err(ConfigError::TooManySites);
    }
    if iters == 0 {
        return Err(ConfigError::ZeroIterations);
    }
    if iters > u32::MAX as usize {
        return Err(ConfigError::TooManyIterations);
    }
    let t0 = run_trial(rng, rows, cols);
    let mut counts: Vec<usize> = Vec::new();
    let mut total: u64 = t0.opened as u64;
    counts.push(t0.opened);
    proof {
        assert(sum_opened(Seq::<usize>::empty()) == 0);
        assert(counts@.drop_last() =~= Seq::<usize>::empty());
        assert(counts@.last() == t0.opened);
        assert(sum_opened(counts@) == t0.opened);
        lemma_trial_is_achievable(t0.lattice@, t0.opened as int, t0.label, rows as int, cols as int);
    }
    let mut last = t0;
    let mut it: usize = 1;
    while it < iters
        invariant
            valid_grid(rows as int, cols as int),
            len == rows * cols,
            iters <= u32::MAX,
            1 <= it <= iters,
            counts@.len() == it,
            forall|k: int| 0 <= k < it ==> 1 <= #[trigger] counts@[k] <= len,
            total == sum_opened(counts@),
            total <= (it as int) * (len as int),
            last.lattice@.len() == len,
            open_count(last.lattice@) == last.opened,
            stable(last.lattice@, rows as int, cols as int),
            percolates_label(last.lattice@, rows as int, cols as int, last.label),
            first_spanning(last.lattice@, last.opened as int, rows as int, cols as int),
            forall|k: int|
                0 <= k < it ==> achievable_opening_count(
                    #[trigger] counts@[k] as int,
                    rows as int,
                    cols as int,
                ),
            counts@[it - 1] == last.opened,
        decreases iters - it,
    {
        let t = run_trial(rng, rows, cols);
        proof {
            lemma_trial_is_achievable(t.lattice@, t.opened as int, t.label, rows as int, cols as int);
            assert(counts@.push(t.opened).drop_last() =~= counts@);
            assert((it as int) * (len as int) + (len as int) == (it as int + 1) * (len as int))
                by (nonlinear_arith);
            assert((it as int + 1) * (len as int) <= 0xffff_ffff * 0xffff_ffff)
                by (nonlinear_arith)
                requires
                    it as int + 1 <= 0xffff_ffff,
                    0 <= len as int <= 0xffff_ffff,
            ;
        }
        total = total + t.opened as u64;
        counts.push(t.opened);
        last = t;
        it += 1;
    }
    proof {
        assert((it as int) * (len as int) >= 0) by (nonlinear_arith)
            requires
                it as int >= 0,
                len as int >= 0,
        ;
    }
    Ok(Simulation { opened_counts: counts, total_opened: total, last })
}

} // verus!
