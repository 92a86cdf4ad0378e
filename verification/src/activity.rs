//! Rolling activity statistics and the decision to replace a seed.

use std::collections::VecDeque;

use vstd::prelude::*;

use crate::life::Life;

verus! {

broadcast use vstd::std_specs::vecdeque::axiom_spec_len;

/// A seed that has gone quiet is replaced only after this many generations.
pub const MIN_GENERATIONS_BEFORE_QUIET_RESEED: u64 = 270;

/// A seed is always replaced after this many generations.
pub const MAX_GENERATIONS_PER_SEED: u64 = 1_800;

/// Number of most recent generations the monitor remembers.
pub const ACTIVITY_WINDOW_GENERATIONS: usize = 90;

/// Changed cells per thousand board cells per generation that still count
/// as quiet.
pub const QUIET_ACTIVITY_PERMILLE: usize = 4;

/// The model of a monitor: the remembered change counts, oldest first, and
/// their running total.
pub struct Activity {
    pub changes: Seq<usize>,
    pub total_changes: usize,
}

pub open spec fn sat_add(a: usize, b: usize) -> usize {
    if a + b > usize::MAX {
        usize::MAX
    } else {
        (a + b) as usize
    }
}

pub open spec fn sat_sub(a: usize, b: usize) -> usize {
    if a < b {
        0
    } else {
        (a - b) as usize
    }
}

pub open spec fn sat_mul(a: usize, b: usize) -> usize {
    if a * b > usize::MAX {
        usize::MAX
    } else {
        (a * b) as usize
    }
}

/// Sum of the entries.
pub open spec fn sum(s: Seq<usize>) -> int
    decreases s.len(),
{
    if s.len() == 0 {
        0
    } else {
        sum(s.drop_last()) + s.last()
    }
}

/// Removing the first entry removes it from the sum.
pub proof fn lemma_sum_drop_first(s: Seq<usize>)
    requires
        s.len() > 0,
    ensures
        sum(s) == s[0] + sum(s.drop_first()),
    decreases s.len(),
{
    if s.len() > 1 {
        lemma_sum_drop_first(s.drop_last());
        assert(s.drop_last().drop_first() =~= s.drop_first().drop_last());
        assert(s.drop_first().last() == s.last());
        assert(s.drop_last()[0] == s[0]);
        assert(sum(s) == sum(s.drop_last()) + s.last());
        assert(sum(s.drop_first()) == sum(s.drop_first().drop_last()) + s.drop_first().last());
    } else {
        assert(sum(s) == sum(s.drop_last()) + s.last());
        assert(sum(s.drop_first()) == 0);
        assert(s.drop_first().len() == 0);
        assert(s.drop_last().len() == 0);
    }
}

/// Recording never lets the window grow past
/// `ACTIVITY_WINDOW_GENERATIONS` entries, and it keeps the most recent
/// counts in order, the new one last.
pub proof fn lemma_window_bounded(activity: Activity, change_count: usize)
    requires
        activity.changes.len() <= ACTIVITY_WINDOW_GENERATIONS,
    ensures
        activity.recorded(change_count).changes.len() <= ACTIVITY_WINDOW_GENERATIONS,
        activity.recorded(change_count).changes.last() == change_count,
        activity.recorded(change_count).changes.len() == if activity.changes.len()
            < ACTIVITY_WINDOW_GENERATIONS {
            activity.changes.len() + 1
        } else {
            ACTIVITY_WINDOW_GENERATIONS as nat
        },
{
}

/// As long as no sum exceeds `usize::MAX`, the running total is the sum of
/// the remembered counts.
pub proof fn lemma_total_is_window_sum(activity: Activity, change_count: usize)
    requires
        activity.total_changes == sum(activity.changes),
        sum(activity.changes) + change_count <= usize::MAX,
    ensures
        activity.recorded(change_count).total_changes == sum(
            activity.recorded(change_count).changes,
        ),
{
    let pushed = activity.changes.push(change_count);
    assert(pushed.drop_last() =~= activity.changes);
    if pushed.len() > ACTIVITY_WINDOW_GENERATIONS {
        lemma_sum_drop_first(pushed);
        lemma_sum_nonnegative(pushed.drop_first());
    }
}

pub proof fn lemma_sum_nonnegative(s: Seq<usize>)
    ensures
        sum(s) >= 0,
    decreases s.len(),
{
    if s.len() > 0 {
        lemma_sum_nonnegative(s.drop_last());
    }
}

/// A window that is quiet for a board stays quiet for any larger board:
/// the allowance grows with the board size.
pub proof fn lemma_quiet_grows_with_board(activity: Activity, small: usize, large: usize)
    requires
        small <= large,
        activity.quiet(small),
    ensures
        activity.quiet(large),
{
    let n = activity.changes.len() as usize;
    assert(small * QUIET_ACTIVITY_PERMILLE <= large * QUIET_ACTIVITY_PERMILLE) by (nonlinear_arith)
        requires
            small <= large,
    ;
    let a = sat_mul(small, QUIET_ACTIVITY_PERMILLE);
    let c = sat_mul(large, QUIET_ACTIVITY_PERMILLE);
    assert(a <= c);
    assert(a * n <= c * n) by (nonlinear_arith)
        requires
            a <= c,
            n >= 0,
    ;
    assert(sat_mul(a, n) <= sat_mul(c, n));
    vstd::arithmetic::div_mod::lemma_div_is_ordered(sat_mul(a, n) as int, sat_mul(c, n) as int, 1000);
}

/// Multiplication that stops at `usize::MAX`.
fn saturating_mul(a: usize, b: usize) -> (product: usize)
    ensures
        product == sat_mul(a, b),
{
    match a.checked_mul(b) {
        Some(product) => product,
        None => usize::MAX,
    }
}

impl Activity {
    /// The window after one more generation with `change_count` changes.
    pub open spec fn recorded(self, change_count: usize) -> Activity {
        let pushed = self.changes.push(change_count);
        let total = sat_add(self.total_changes, change_count);
        if pushed.len() > ACTIVITY_WINDOW_GENERATIONS {
            Activity { changes: pushed.drop_first(), total_changes: sat_sub(total, pushed[0]) }
        } else {
            Activity { changes: pushed, total_changes: total }
        }
    }

    /// A full window whose total stays within the permitted share of a
    /// board of `board_size` cells.
    pub open spec fn quiet(self, board_size: usize) -> bool {
        &&& self.changes.len() >= ACTIVITY_WINDOW_GENERATIONS
        &&& self.total_changes <= sat_mul(
            sat_mul(board_size, QUIET_ACTIVITY_PERMILLE),
            self.changes.len() as usize,
        ) / 1000
    }
}

/// Rolling generation-to-generation change data used to decide when a field
/// has become visually quiet.
#[derive(Debug)]
pub struct ActivityMonitor {
    changes: VecDeque<usize>,
    total_changes: usize,
}

impl View for ActivityMonitor {
    type V = Activity;

    closed spec fn view(&self) -> Activity {
        Activity { changes: self.changes@, total_changes: self.total_changes }
    }
}

impl Default for ActivityMonitor {
    fn default() -> (monitor: Self)
        ensures
            monitor@.changes == Seq::<usize>::empty(),
            monitor@.total_changes == 0,
    {
        ActivityMonitor { changes: VecDeque::new(), total_changes: 0 }
    }
}

impl ActivityMonitor {
    /// Adds one generation's number of births and deaths to the rolling window.
    pub fn record(&mut self, change_count: usize)
        ensures
            final(self)@ == old(self)@.recorded(change_count),
    {
        self.changes.push_back(change_count);
        self.total_changes = self.total_changes.saturating_add(change_count);
        if self.changes.len() > ACTIVITY_WINDOW_GENERATIONS {
            let oldest = self.changes.pop_front().unwrap_or(0);
            self.total_changes = self.total_changes.saturating_sub(oldest);
        }
    }

    /// Removes history after a manual or automatic re-seed.
    pub fn clear(&mut self)
        ensures
            final(self)@.changes == Seq::<usize>::empty(),
            final(self)@.total_changes == 0,
    {
        self.changes.clear();
        self.total_changes = 0;
    }

    /// Returns true once the full window averages no more than 0.4% changed
    /// cells per generation. The absolute allowance grows with the actual
    /// visible board size, so a larger screen has a proportionally larger
    /// activity budget.
    pub fn is_quiet(&self, board_size: usize) -> (quiet: bool)
        ensures
            quiet == self@.quiet(board_size),
    {
        if self.changes.len() < ACTIVITY_WINDOW_GENERATIONS {
            return false;
        }
        let permitted_changes = saturating_mul(
            saturating_mul(board_size, QUIET_ACTIVITY_PERMILLE),
            self.changes.len(),
        ) / 1_000;
        self.total_changes <= permitted_changes
    }
}

/// Whether the current seed should be replaced: the board died out, the seed
/// ran its full course, or it went quiet after its minimum run.
pub open spec fn reseed_due(life: crate::life::Board, activity: Activity) -> bool {
    ||| life.population() == 0
    ||| life.generation >= MAX_GENERATIONS_PER_SEED
    ||| (life.generation >= MIN_GENERATIONS_BEFORE_QUIET_RESEED && activity.quiet(
        life.cell_count() as usize,
    ))
}

/// When no product overflows, a window is quiet exactly when it is full
/// and its total, times a thousand, is at most four times the board size
/// times the window length: at most 0.4% of the cells change per
/// generation on average.
pub proof fn lemma_quiet_is_average_bound(activity: Activity, board_size: usize)
    requires
        activity.changes.len() <= usize::MAX,
        board_size * QUIET_ACTIVITY_PERMILLE * activity.changes.len() <= usize::MAX,
    ensures
        activity.quiet(board_size) <==> (activity.changes.len() >= 90 && 1000
            * activity.total_changes <= 4 * board_size * activity.changes.len()),
{
    let n = activity.changes.len();
    let t = activity.total_changes as int;
    if n >= 90 {
        assert(board_size * 4 <= board_size * 4 * n) by (nonlinear_arith)
            requires
                n >= 1,
                board_size >= 0,
        ;
        let a = sat_mul(board_size, QUIET_ACTIVITY_PERMILLE);
        assert(a == board_size * 4);
        let p = sat_mul(a, n as usize);
        assert(p == board_size * 4 * n);
        assert(4 * board_size * n == board_size * 4 * n) by (nonlinear_arith);
        vstd::arithmetic::div_mod::lemma_fundamental_div_mod(p as int, 1000);
        let q = p as int / 1000;
        let r = p as int % 1000;
        assert(t <= q <==> 1000 * t <= p) by (nonlinear_arith)
            requires
                p == 1000 * q + r,
                0 <= r < 1000,
        ;
    }
}

/// A seed is replaced exactly when the board has died out, when it has run
/// 1,800 generations, or when it has run 270 generations and its window is
/// quiet for the board's number of cells, its width times its height.
pub proof fn lemma_reseed_conditions(life: crate::life::Board, activity: Activity)
    requires
        life.wf(),
    ensures
        reseed_due(life, activity) <==> (life.population() == 0 || life.generation >= 1800 || (
        life.generation >= 270 && activity.quiet((life.width * life.height) as usize))),
{
}

/// Decides when the current seed should be replaced.
pub fn should_reseed(life: &Life, activity: &ActivityMonitor) -> (reseed: bool)
    requires
        life@.wf(),
    ensures
        reseed == reseed_due(life@, activity@),
{
    life.alive_count() == 0 || life.generation() >= MAX_GENERATIONS_PER_SEED || (
    life.generation() >= MIN_GENERATIONS_BEFORE_QUIET_RESEED && activity.is_quiet(
        life.width() * life.height(),
    ))
}

} // verus!
