use crate::mask::{is_on, lemma_mask8_clear, lemma_mask8_is_on, line, mask8, pick8};
use crate::order::{
    channel_at, lemma_channel_at_rank, lemma_levels_ascend, lemma_rank_bounds,
    lemma_rank_of_channel_at, rank,
};
use vstd::math::min;
use crate::pwm::PwmStep;
use vstd::prelude::*;

verus! {

/// The time at which step `k` begins, counted from the start of the cycle: step 0 begins at 0,
/// step `k` begins when the channel of rank `k - 1` has had its level, and the cycle ends
/// at 255.
pub open spec fn step_start(levels: Seq<u8>, k: int) -> int {
    if k <= 0 {
        0
    } else if k <= 8 {
        levels[channel_at(levels, k - 1)] as int
    } else {
        255
    }
}

/// The word sent for step `k`: it drives the channels of rank `k` and above.
pub open spec fn step_mask(levels: Seq<u8>, k: int) -> u32 {
    mask8(
        rank(levels, 0) >= k,
        rank(levels, 1) >= k,
        rank(levels, 2) >= k,
        rank(levels, 3) >= k,
        rank(levels, 4) >= k,
        rank(levels, 5) >= k,
        rank(levels, 6) >= k,
        rank(levels, 7) >= k,
    )
}

/// Step `k` of the cycle for `levels`.
pub open spec fn step_of(levels: Seq<u8>, k: int) -> PwmStep {
    PwmStep {
        length: (step_start(levels, k + 1) - step_start(levels, k)) as u8,
        data: step_mask(levels, k),
    }
}

/// The nine steps of the cycle for `levels`.
pub open spec fn schedule(levels: Seq<u8>) -> Seq<PwmStep> {
    Seq::new(9, |k: int| step_of(levels, k))
}

/// The time that `steps` take together.
pub open spec fn total_length(steps: Seq<PwmStep>) -> int
    decreases steps.len(),
{
    if steps.len() == 0 {
        0
    } else {
        total_length(steps.drop_last()) + steps.last().length
    }
}

/// The time for which `steps` drive channel `c`.
pub open spec fn on_time(steps: Seq<PwmStep>, c: int) -> int
    decreases steps.len(),
{
    if steps.len() == 0 {
        0
    } else {
        on_time(steps.drop_last(), c) + if is_on(steps.last().data, c) {
            steps.last().length as int
        } else {
            0
        }
    }
}

/// Every channel has the level `v`.
pub open spec fn all_at(levels: Seq<u8>, v: u8) -> bool {
    forall|c: int| 0 <= c < 8 ==> levels[c] == v
}

/// `steps` reproduce `levels`: there are nine of them, they fill the cycle of 255 time units,
/// and they drive each channel for as long as its level says.
pub open spec fn realizes(levels: Seq<u8>, steps: Seq<PwmStep>) -> bool {
    &&& steps.len() == 9
    &&& total_length(steps) == 255
    &&& forall|c: int| 0 <= c < 8 ==> on_time(steps, c) == levels[c]
}

/// No step begins before the one ahead of it, and all begin within the cycle.
pub proof fn lemma_step_start_ascends(levels: Seq<u8>, j: int, k: int)
    requires
        j <= k,
    ensures
        0 <= step_start(levels, j) <= step_start(levels, k) <= 255,
{
    if 1 <= j && k <= 8 {
        lemma_levels_ascend(levels, j - 1, k - 1);
    }
}

/// The first `n` steps of the cycle end where step `n` begins.
proof fn lemma_prefix_length(levels: Seq<u8>, n: int)
    requires
        0 <= n <= 9,
    ensures
        total_length(schedule(levels).take(n)) == step_start(levels, n),
    decreases n,
{
    if n > 0 {
        lemma_prefix_length(levels, n - 1);
        lemma_step_start_ascends(levels, n - 1, n);
        let s = schedule(levels).take(n);
        assert(s.drop_last() =~= schedule(levels).take(n - 1));
        assert(s.last() == step_of(levels, n - 1));
    }
}

/// Step `k` drives channel `c` if and only if `k` is at most the rank of `c`: each channel is
/// on from the start of the cycle, switches off once, and stays off to the end.
pub proof fn lemma_schedule_switching(levels: Seq<u8>, c: int, k: int)
    requires
        0 <= c < 8,
        0 <= k < 9,
    ensures
        is_on(schedule(levels)[k].data, c) <==> k <= rank(levels, c),
{
    lemma_mask8_is_on(
        c,
        rank(levels, 0) >= k,
        rank(levels, 1) >= k,
        rank(levels, 2) >= k,
        rank(levels, 3) >= k,
        rank(levels, 4) >= k,
        rank(levels, 5) >= k,
        rank(levels, 6) >= k,
        rank(levels, 7) >= k,
    );
    assert(schedule(levels)[k].data == step_mask(levels, k));
    assert(pick8(
        c,
        rank(levels, 0) >= k,
        rank(levels, 1) >= k,
        rank(levels, 2) >= k,
        rank(levels, 3) >= k,
        rank(levels, 4) >= k,
        rank(levels, 5) >= k,
        rank(levels, 6) >= k,
        rank(levels, 7) >= k,
    ) == (rank(levels, c) >= k)) by {
        if c == 0 {
        } else if c == 1 {
        } else if c == 2 {
        } else if c == 3 {
        } else if c == 4 {
        } else if c == 5 {
        } else if c == 6 {
        } else {
        }
    }
}

/// Of the first `n` steps, those that drive channel `c` end where step `n` begins, or where
/// the channel switches off if that comes first.
proof fn lemma_prefix_on_time(levels: Seq<u8>, c: int, n: int)
    requires
        0 <= c < 8,
        0 <= n <= 9,
    ensures
        on_time(schedule(levels).take(n), c) == step_start(levels, min(n, rank(levels, c) + 1)),
    decreases n,
{
    if n > 0 {
        lemma_prefix_on_time(levels, c, n - 1);
        lemma_step_start_ascends(levels, n - 1, n);
        lemma_schedule_switching(levels, c, n - 1);
        let s = schedule(levels).take(n);
        assert(s.drop_last() =~= schedule(levels).take(n - 1));
        assert(s.last() == step_of(levels, n - 1));
    }
}

/// The steps of a cycle take 255 time units together.
pub proof fn lemma_schedule_fills_cycle(levels: Seq<u8>)
    ensures
        total_length(schedule(levels)) == 255,
{
    lemma_prefix_length(levels, 9);
    assert(schedule(levels).take(9) =~= schedule(levels));
}

/// The steps of a cycle drive each channel for as many time units as its level.
pub proof fn lemma_schedule_on_time(levels: Seq<u8>, c: int)
    requires
        0 <= c < 8,
    ensures
        on_time(schedule(levels), c) == levels[c],
{
    lemma_prefix_on_time(levels, c, 9);
    lemma_rank_bounds(levels, c);
    lemma_channel_at_rank(levels, c);
    assert(schedule(levels).take(9) =~= schedule(levels));
}

/// The cycle for `levels` reproduces them.
pub proof fn lemma_schedule_realizes(levels: Seq<u8>)
    ensures
        realizes(levels, schedule(levels)),
{
    lemma_schedule_fills_cycle(levels);
    assert forall|c: int| 0 <= c < 8 implies on_time(schedule(levels), c) == levels[c] by {
        lemma_schedule_on_time(levels, c);
    }
}

/// A step that takes time drives exactly the channels whose level lies above the time at
/// which it begins: at every moment `t` of the cycle channel `c` is on if and only if
/// `t < levels[c]`, whatever the order among channels of equal level.
pub proof fn lemma_schedule_instant(levels: Seq<u8>, c: int, k: int)
    requires
        0 <= c < 8,
        0 <= k < 9,
        schedule(levels)[k].length > 0,
    ensures
        is_on(schedule(levels)[k].data, c) <==> step_start(levels, k) < levels[c],
{
    lemma_schedule_switching(levels, c, k);
    lemma_step_start_ascends(levels, k, k + 1);
    lemma_rank_bounds(levels, c);
    lemma_channel_at_rank(levels, c);
    let r = rank(levels, c);
    if k <= r {
        lemma_levels_ascend(levels, k, r);
    } else {
        lemma_levels_ascend(levels, r, k - 1);
    }
}

/// Every level above 0 has its step: for a channel `c` with such a level, the result is a step
/// that takes time and ends when `levels[c]` time units of the cycle have passed.
pub proof fn lemma_live_step_for_level(levels: Seq<u8>, c: int) -> (k: int)
    requires
        0 <= c < 8,
        levels[c] > 0,
    ensures
        0 <= k < 8,
        schedule(levels)[k].length > 0,
        step_start(levels, k + 1) == levels[c],
{
    lemma_rank_bounds(levels, c);
    lemma_channel_at_rank(levels, c);
    lemma_first_step_ending_with(levels, rank(levels, c))
}

/// The first of the steps that end together with step `r`: it is the one that takes the time.
proof fn lemma_first_step_ending_with(levels: Seq<u8>, r: int) -> (k: int)
    requires
        0 <= r < 8,
        step_start(levels, r + 1) > 0,
    ensures
        0 <= k <= r,
        schedule(levels)[k].length > 0,
        step_start(levels, k + 1) == step_start(levels, r + 1),
    decreases r,
{
    lemma_step_start_ascends(levels, r, r + 1);
    if step_start(levels, r) < step_start(levels, r + 1) {
        r
    } else {
        lemma_first_step_ending_with(levels, r - 1)
    }
}

/// A step that takes time ends later than every step before it: no two steps that take time
/// end at the same moment. With `lemma_live_step_for_level` this makes the steps that take
/// time, the last one aside, as many as there are different levels above 0.
pub proof fn lemma_live_steps_end_apart(levels: Seq<u8>, j: int, k: int)
    requires
        0 <= j < k < 9,
        schedule(levels)[k].length > 0,
    ensures
        step_start(levels, j + 1) < step_start(levels, k + 1),
{
    lemma_step_start_ascends(levels, j + 1, k);
    lemma_step_start_ascends(levels, k, k + 1);
}

/// Switching off the channel of rank `k` turns the word of step `k` into that of step `k + 1`.
pub proof fn lemma_clear_next(levels: Seq<u8>, k: int)
    requires
        0 <= k < 8,
    ensures
        step_mask(levels, k) & !line(channel_at(levels, k)) == step_mask(levels, k + 1),
{
    let c = channel_at(levels, k);
    let r = Seq::new(8, |a: int| rank(levels, a));
    assert(0 <= c < 8 && r[c] == k) by {
        lemma_rank_of_channel_at(levels, k);
    }
    assert forall|a: int| 0 <= a < 8 && a != c implies r[a] != k by {
        lemma_channel_at_rank(levels, a);
    }
    lemma_clear_rank(r, k, c);
    assert(step_mask(levels, k) == mask8(
        r[0] >= k,
        r[1] >= k,
        r[2] >= k,
        r[3] >= k,
        r[4] >= k,
        r[5] >= k,
        r[6] >= k,
        r[7] >= k,
    ));
    assert(step_mask(levels, k + 1) == mask8(
        r[0] >= k + 1,
        r[1] >= k + 1,
        r[2] >= k + 1,
        r[3] >= k + 1,
        r[4] >= k + 1,
        r[5] >= k + 1,
        r[6] >= k + 1,
        r[7] >= k + 1,
    ));
}

/// Of the channels whose number in `r` is at least `k`, all but the one numbered `k` have a
/// number of at least `k + 1`.
proof fn lemma_clear_rank(r: Seq<int>, k: int, c: int)
    requires
        r.len() == 8,
        0 <= c < 8,
        r[c] == k,
        forall|a: int| 0 <= a < 8 && a != c ==> r[a] != k,
    ensures
        mask8(r[0] >= k, r[1] >= k, r[2] >= k, r[3] >= k, r[4] >= k, r[5] >= k, r[6] >= k, r[7] >= k)
            & !line(c) == mask8(
            r[0] >= k + 1,
            r[1] >= k + 1,
            r[2] >= k + 1,
            r[3] >= k + 1,
            r[4] >= k + 1,
            r[5] >= k + 1,
            r[6] >= k + 1,
            r[7] >= k + 1,
        ),
{
    lemma_mask8_clear(
        c,
        r[0] >= k,
        r[1] >= k,
        r[2] >= k,
        r[3] >= k,
        r[4] >= k,
        r[5] >= k,
        r[6] >= k,
        r[7] >= k,
        r[0] >= k + 1,
        r[1] >= k + 1,
        r[2] >= k + 1,
        r[3] >= k + 1,
        r[4] >= k + 1,
        r[5] >= k + 1,
        r[6] >= k + 1,
        r[7] >= k + 1,
    );
}

/// The first step drives every line.
pub proof fn lemma_first_mask(levels: Seq<u8>)
    ensures
        step_mask(levels, 0) == 0xFF,
{
    lemma_rank_bounds(levels, 0);
    lemma_rank_bounds(levels, 1);
    lemma_rank_bounds(levels, 2);
    lemma_rank_bounds(levels, 3);
    lemma_rank_bounds(levels, 4);
    lemma_rank_bounds(levels, 5);
    lemma_rank_bounds(levels, 6);
    lemma_rank_bounds(levels, 7);
}

/// The last step drives no line.
pub proof fn lemma_last_mask(levels: Seq<u8>)
    ensures
        step_mask(levels, 8) == 0,
{
    lemma_rank_bounds(levels, 0);
    lemma_rank_bounds(levels, 1);
    lemma_rank_bounds(levels, 2);
    lemma_rank_bounds(levels, 3);
    lemma_rank_bounds(levels, 4);
    lemma_rank_bounds(levels, 5);
    lemma_rank_bounds(levels, 6);
    lemma_rank_bounds(levels, 7);
}

/// With every level at 0 only the last step takes time: it drives no line for the whole
/// cycle.
pub proof fn lemma_schedule_all_off(levels: Seq<u8>)
    requires
        all_at(levels, 0),
    ensures
        forall|k: int| 0 <= k < 8 ==> (#[trigger] schedule(levels)[k]).length == 0,
        schedule(levels)[8] == (PwmStep { length: 255, data: 0 }),
{
    lemma_last_mask(levels);
}

/// With every level at 255 only the first step takes time: it drives every line for the
/// whole cycle.
pub proof fn lemma_schedule_all_full(levels: Seq<u8>)
    requires
        all_at(levels, 255),
    ensures
        schedule(levels)[0] == (PwmStep { length: 255, data: 0xFF }),
        forall|k: int| 1 <= k < 9 ==> (#[trigger] schedule(levels)[k]).length == 0,
        schedule(levels)[8].data == 0,
{
    lemma_first_mask(levels);
    lemma_last_mask(levels);
}

} // verus!
