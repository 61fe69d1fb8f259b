//! The displacement experiments: which of them moves the watched groups, and
//! by how much.
//!
//! An experiment is chosen by number. Some never displace, some always do, and
//! some displace when a uniform draw reaches a threshold. A draw is a whole
//! number below [`DRAW_SCALE`]; a threshold is given on the same scale, so a
//! threshold `t` is reached by `DRAW_SCALE - t` of the `DRAW_SCALE` draws.
use rand::Rng;
use vstd::prelude::*;
use vstd::set_lib::{lemma_int_range, set_int_range};

verus! {

/// The number of possible draws: draws are made in millionths.
pub const DRAW_SCALE: u32 = 1_000_000;

/// How an experiment decides whether the watched groups are displaced.
#[derive(PartialEq, Eq, Debug, Clone, Copy, Structural)]
pub enum Trigger {
    /// The voter's order stands.
    Never,
    /// The watched groups move down by `amount` places on every paper.
    Always { amount: u32 },
    /// The watched groups move down by `amount` places on the papers whose
    /// draw is at least `threshold`.
    OnDraw { threshold: u32, amount: u32 },
}

/// The rule of each experiment. Numbers without an experiment never displace.
pub open spec fn trigger_of(experiment_num: usize) -> Trigger {
    if experiment_num == 2 {
        Trigger::Always { amount: 1 }
    } else if experiment_num == 3 {
        Trigger::Always { amount: 2 }
    } else if experiment_num == 4 {
        Trigger::Always { amount: 3 }
    } else if experiment_num == 5 {
        Trigger::Always { amount: 4 }
    } else if experiment_num == 6 {
        Trigger::Always { amount: 500 }
    } else if experiment_num == 7 {
        Trigger::OnDraw { threshold: 900_000, amount: 1 }
    } else if experiment_num == 8 {
        Trigger::OnDraw { threshold: 755_500, amount: 1 }
    } else if experiment_num == 9 {
        Trigger::OnDraw { threshold: 660_000, amount: 1 }
    } else if experiment_num == 10 {
        Trigger::OnDraw { threshold: 499_999, amount: 1 }
    } else if experiment_num == 11 {
        Trigger::OnDraw { threshold: 330_000, amount: 1 }
    } else if experiment_num == 12 {
        Trigger::OnDraw { threshold: 250_000, amount: 1 }
    } else if experiment_num == 13 {
        Trigger::OnDraw { threshold: 100_000, amount: 1 }
    } else {
        Trigger::Never
    }
}

/// What a trigger decides for a draw: by how many places the watched groups
/// move, or `None` where they stay.
pub open spec fn decide(trigger: Trigger, draw: u32) -> Option<u32> {
    match trigger {
        Trigger::Never => None,
        Trigger::Always { amount } => Some(amount),
        Trigger::OnDraw { threshold, amount } => if draw >= threshold {
            Some(amount)
        } else {
            None
        },
    }
}

/// The displacement that an experiment applies to a paper with the given draw.
pub open spec fn displacement_of(experiment_num: usize, draw: u32) -> Option<u32> {
    decide(trigger_of(experiment_num), draw)
}

/// Whether the experiment's outcome depends on the draw.
pub open spec fn needs_draw(experiment_num: usize) -> bool {
    trigger_of(experiment_num) is OnDraw
}

/// The rule of the experiment with the given number.
pub fn experiment_trigger(experiment_num: usize) -> (trigger: Trigger)
    ensures
        trigger == trigger_of(experiment_num),
{
    match experiment_num {
        2 => Trigger::Always { amount: 1 },
        3 => Trigger::Always { amount: 2 },
        4 => Trigger::Always { amount: 3 },
        5 => Trigger::Always { amount: 4 },
        6 => Trigger::Always { amount: 500 },
        7 => Trigger::OnDraw { threshold: 900_000, amount: 1 },
        8 => Trigger::OnDraw { threshold: 755_500, amount: 1 },
        9 => Trigger::OnDraw { threshold: 660_000, amount: 1 },
        10 => Trigger::OnDraw { threshold: 499_999, amount: 1 },
        11 => Trigger::OnDraw { threshold: 330_000, amount: 1 },
        12 => Trigger::OnDraw { threshold: 250_000, amount: 1 },
        13 => Trigger::OnDraw { threshold: 100_000, amount: 1 },
        _ => Trigger::Never,
    }
}

/// Applies a trigger to a draw.
pub fn trigger_decision(trigger: Trigger, draw: u32) -> (displacement: Option<u32>)
    ensures
        displacement == decide(trigger, draw),
{
    match trigger {
        Trigger::Never => None,
        Trigger::Always { amount } => Some(amount),
        Trigger::OnDraw { threshold, amount } => {
            if draw >= threshold {
                Some(amount)
            } else {
                None
            }
        },
    }
}

/// The displacement that the experiment applies to a paper with this draw.
pub fn displacement(experiment_num: usize, draw: u32) -> (displacement: Option<u32>)
    ensures
        displacement == displacement_of(experiment_num, draw),
{
    trigger_decision(experiment_trigger(experiment_num), draw)
}

/// `rand::Rng::gen_range` over `0..bound` on `rand::thread_rng()`: a number of
/// the range, which is not empty. Which number is a matter of chance, so
/// nothing more is said of it.
#[verifier::external_body]
fn random_below(bound: u32) -> (draw: u32)
    requires
        bound > 0,
    ensures
        draw < bound,
{
    rand::thread_rng().gen_range(0..bound)
}

/// The draw for one paper under the experiment: taken from the thread's random
/// generator where the experiment depends on one, and 0 where it does not.
pub fn draw_for(experiment_num: usize) -> (draw: u32)
    ensures
        draw < DRAW_SCALE,
        !needs_draw(experiment_num) ==> draw == 0,
{
    match experiment_trigger(experiment_num) {
        Trigger::OnDraw { .. } => random_below(DRAW_SCALE),
        _ => 0,
    }
}

/// The draws on which a trigger displaces.
pub open spec fn displacing_draws(trigger: Trigger) -> Set<int> {
    Set::new(|d: int| 0 <= d < DRAW_SCALE && decide(trigger, d as u32) is Some)
}

/// Of the `DRAW_SCALE` equally likely draws, exactly `DRAW_SCALE - threshold`
/// displace under a trigger with that threshold: with uniform draws the share
/// of displaced papers tends to one minus the threshold.
pub proof fn lemma_displacing_share(threshold: u32, amount: u32)
    requires
        threshold <= DRAW_SCALE,
    ensures
        displacing_draws(Trigger::OnDraw { threshold, amount }).finite(),
        displacing_draws(Trigger::OnDraw { threshold, amount }).len() == DRAW_SCALE - threshold,
{
    let trigger = Trigger::OnDraw { threshold, amount };
    assert(displacing_draws(trigger) =~= set_int_range(threshold as int, DRAW_SCALE as int));
    lemma_int_range(threshold as int, DRAW_SCALE as int);
}

/// An experiment without a threshold displaces on every draw or on none.
pub proof fn lemma_fixed_experiments_ignore_draw(experiment_num: usize, d1: u32, d2: u32)
    requires
        !needs_draw(experiment_num),
    ensures
        displacement_of(experiment_num, d1) == displacement_of(experiment_num, d2),
{
}

} // verus!
