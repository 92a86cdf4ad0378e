//! The decisions the display takes each frame, between reading the clock
//! and drawing: how the simulation advances and when it starts afresh.

use vstd::prelude::*;

use crate::activity::{reseed_due, should_reseed, Activity, ActivityMonitor};
use crate::life::{reseeded, state_after, step, Board, Life, Rng};

verus! {

/// A monitor with no history.
pub open spec fn no_activity() -> Activity {
    Activity { changes: Seq::empty(), total_changes: 0 }
}

/// The board and monitor after `generations` generations, each one's
/// changes recorded in turn.
pub open spec fn run(board: Board, activity: Activity, generations: nat) -> (Board, Activity)
    decreases generations,
{
    if generations == 0 {
        (board, activity)
    } else {
        let before = run(board, activity, (generations - 1) as nat);
        let next = step(before.0);
        (next, before.1.recorded(next.last_change_count))
    }
}

pub proof fn lemma_run_keeps_wf(board: Board, activity: Activity, generations: nat)
    requires
        board.wf(),
    ensures
        run(board, activity, generations).0.wf(),
        run(board, activity, generations).0.width == board.width,
        run(board, activity, generations).0.height == board.height,
        run(board, activity, generations).0.alive.len() == board.alive.len(),
    decreases generations,
{
    if generations > 0 {
        lemma_run_keeps_wf(board, activity, (generations - 1) as nat);
        let b = run(board, activity, (generations - 1) as nat).0;
        let next = step(b);
        assert forall|i: int| 0 <= i < next.alive.len() implies (#[trigger] next.alive[i] <==> next.age[i] > 0) by {
            crate::life::lemma_index_split(i, b.width as int, b.height as int);
        }
    }
}

/// Running generations advances the generation count by one each
/// (saturating), records every generation's change count in the window,
/// the latest one last, and grows the window by one per generation up to
/// `ACTIVITY_WINDOW_GENERATIONS`.
pub proof fn lemma_run_records_every_generation(board: Board, activity: Activity, generations: nat)
    requires
        activity.changes.len() <= crate::activity::ACTIVITY_WINDOW_GENERATIONS,
    ensures
        run(board, activity, generations).0.generation == if board.generation + generations
            > u64::MAX {
            u64::MAX as int
        } else {
            board.generation + generations
        },
        run(board, activity, generations).1.changes.len() == if activity.changes.len() + generations
            > crate::activity::ACTIVITY_WINDOW_GENERATIONS {
            crate::activity::ACTIVITY_WINDOW_GENERATIONS as int
        } else {
            (activity.changes.len() + generations) as int
        },
        generations > 0 ==> run(board, activity, generations).1.changes.last() == run(
            board,
            activity,
            generations,
        ).0.last_change_count,
        generations > 0 ==> run(board, activity, generations).0.last_change_count == step(
            run(board, activity, (generations - 1) as nat).0,
        ).last_change_count,
    decreases generations,
{
    if generations > 0 {
        lemma_run_records_every_generation(board, activity, (generations - 1) as nat);
        let before = run(board, activity, (generations - 1) as nat);
        let next = step(before.0);
        crate::activity::lemma_window_bounded(before.1, next.last_change_count);
    }
}

/// Replaces the seed: the board is seeded afresh from the generator and
/// the activity history is forgotten.
pub fn reseed(life: &mut Life, activity: &mut ActivityMonitor, rng: &mut Rng, threshold: u32)
    requires
        old(life)@.wf(),
    ensures
        final(life)@.wf(),
        final(life)@ == reseeded(old(life)@, old(rng)@, threshold),
        final(rng)@ == state_after(old(rng)@, old(life)@.alive.len()),
        final(activity)@ == no_activity(),
{
    life.seed_random(rng, threshold);
    activity.clear();
}

/// One frame of the simulation: runs the `generations` generations that
/// are due, recording each one's changes, then replaces the seed if it is
/// due. Returns whether the cells may have changed, so that they need
/// classifying again.
pub fn advance(
    life: &mut Life,
    activity: &mut ActivityMonitor,
    rng: &mut Rng,
    threshold: u32,
    generations: usize,
) -> (changed: bool)
    requires
        old(life)@.wf(),
    ensures
        final(life)@.wf(),
        ({
            let ran = run(old(life)@, old(activity)@, generations as nat);
            if reseed_due(ran.0, ran.1) {
                &&& final(life)@ == reseeded(ran.0, old(rng)@, threshold)
                &&& final(activity)@ == no_activity()
                &&& final(rng)@ == state_after(old(rng)@, ran.0.alive.len())
            } else {
                &&& final(life)@ == ran.0
                &&& final(activity)@ == ran.1
                &&& final(rng)@ == old(rng)@
            }
        }),
        changed == (generations > 0 || reseed_due(
            run(old(life)@, old(activity)@, generations as nat).0,
            run(old(life)@, old(activity)@, generations as nat).1,
        )),
{
    let ghost start_life = life@;
    let ghost start_activity = activity@;
    let mut done: usize = 0;
    while done < generations
        invariant
            start_life.wf(),
            done <= generations,
            (life@, activity@) == run(start_life, start_activity, done as nat),
            life@.wf(),
            rng@ == old(rng)@,
        decreases generations - done,
    {
        life.tick();
        activity.record(life.last_change_count());
        done += 1;
        proof {
            lemma_run_keeps_wf(start_life, start_activity, done as nat);
        }
    }
    let mut changed = generations > 0;
    if should_reseed(life, activity) {
        reseed(life, activity, rng, threshold);
        changed = true;
    }
    changed
}

} // verus!
