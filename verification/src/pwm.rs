use crate::mask::is_on;
use crate::order::{channel_at, rank, sorted_channels};
use crate::schedule::{
    lemma_clear_next, lemma_first_mask, lemma_last_mask, lemma_schedule_all_full,
    lemma_schedule_all_off, lemma_schedule_realizes, lemma_schedule_switching,
    lemma_step_start_ascends, all_at, on_time, realizes, schedule, step_mask, step_of,
    step_start, total_length,
};
use vstd::prelude::*;

verus! {

/// One interval of the output cycle: the lines in `data` are driven for `length` time units.
/// A step of length 0 takes no time and is never sent.
#[derive(Debug, Clone, Copy, PartialEq, Eq, Structural)]
pub struct PwmStep {
    pub length: u8,
    pub data: u32,
}

/// The eight target levels together with the nine steps that reproduce them.
#[derive(Debug, Clone, Copy, PartialEq, Eq)]
pub struct PwmData {
    pub pwm_levels: [u8; 8],
    pub pwm_steps: [PwmStep; 9],
}

/// The steps of a bank that is switched off: eight empty steps, then one that drives no line
/// for the whole cycle.
pub open spec fn idle_steps() -> Seq<PwmStep> {
    Seq::new(9, |k: int| PwmStep { length: if k == 8 { 255u8 } else { 0u8 }, data: 0 })
}

impl PwmData {
    /// The steps reproduce the levels.
    pub open spec fn in_step(&self) -> bool {
        realizes(self.pwm_levels@, self.pwm_steps@)
    }

    /// All levels zero, and the steps of a bank that is switched off.
    pub fn new() -> (r: Self)
        ensures
            r.pwm_levels@ == Seq::new(8, |c: int| 0u8),
            r.pwm_steps@ == idle_steps(),
            r.in_step(),
    {
        let skip = PwmStep { length: 0, data: 0 };
        let mut steps = [skip; 9];
        steps[8] = PwmStep { length: 255, data: 0 };
        let r = Self { pwm_levels: [0; 8], pwm_steps: steps };
        proof {
            assert(r.pwm_levels@ =~= Seq::new(8, |c: int| 0u8));
            assert(r.pwm_steps@ =~= idle_steps());
            lemma_idle_steps_realize(r.pwm_levels@);
        }
        r
    }

    /// Recomputes all nine steps from the levels, which stay as they are.
    ///
    /// The steps take 255 time units together and drive each channel for as many of them as
    /// its level. Every channel is on in step 0, switches off once, after the step of its
    /// rank, and is off in the last step.
    pub fn reflect(&mut self)
        ensures
            final(self).pwm_levels == old(self).pwm_levels,
            final(self).pwm_steps@ == schedule(old(self).pwm_levels@),
            final(self).in_step(),
            total_length(final(self).pwm_steps@) == 255,
            forall|c: int|
                0 <= c < 8 ==> on_time(final(self).pwm_steps@, c) == old(self).pwm_levels[c],
            forall|c: int, k: int|
                0 <= c < 8 && 0 <= k < 9 ==> (#[trigger] is_on(final(self).pwm_steps[k].data, c)
                    <==> k <= rank(old(self).pwm_levels@, c)),
            all_at(old(self).pwm_levels@, 0) ==> final(self).pwm_steps[8] == (PwmStep {
                length: 255,
                data: 0,
            }),
            all_at(old(self).pwm_levels@, 0) ==> (forall|k: int|
                0 <= k < 8 ==> (#[trigger] final(self).pwm_steps[k]).length == 0),
            all_at(old(self).pwm_levels@, 255) ==> final(self).pwm_steps[0] == (PwmStep {
                length: 255,
                data: 0xFF,
            }),
            all_at(old(self).pwm_levels@, 255) ==> (forall|k: int|
                1 <= k < 9 ==> (#[trigger] final(self).pwm_steps[k]).length == 0),
    {
        let indices = sorted_channels(&self.pwm_levels);

        let mut data: u32 = 0b11111111;
        let mut prev_level: u8 = 0;
        let ghost levels = self.pwm_levels@;
        proof {
            lemma_first_mask(levels);
        }

        let mut i: usize = 0;
        while i < 8
            invariant
                0 <= i <= 8,
                self.pwm_levels@ == levels,
                self.pwm_levels == old(self).pwm_levels,
                forall|k: int| 0 <= k < 8 ==> indices[k] < 8,
                forall|k: int| 0 <= k < 8 ==> indices[k] as int == channel_at(levels, k),
                forall|k: int| 0 <= k < 8 ==> rank(levels, indices[k] as int) == k,
                forall|k: int| 0 <= k < i ==> self.pwm_steps[k] == step_of(levels, k),
                data == step_mask(levels, i as int),
                prev_level == step_start(levels, i as int),
            decreases 8 - i,
        {
            let cur_index = indices[i];
            let cur_level = self.pwm_levels[cur_index];
            proof {
                lemma_step_start_ascends(levels, i as int, i + 1);
                lemma_clear_next(levels, i as int);
            }

            self.pwm_steps[i].length = cur_level - prev_level;
            self.pwm_steps[i].data = data;

            data &= !(1 << cur_index);  // turn off the pin

            prev_level = cur_level;
            i += 1;
        }

        proof {
            lemma_step_start_ascends(levels, 8, 9);
            lemma_last_mask(levels);
        }
        // period after all pins are set low
        self.pwm_steps[8] = PwmStep { length: 255 - prev_level, data: 0 };
        proof {
            assert(self.pwm_steps@ =~= schedule(levels));
            lemma_schedule_realizes(levels);
            assert forall|c: int, k: int| 0 <= c < 8 && 0 <= k < 9 implies (#[trigger] is_on(
                self.pwm_steps[k].data,
                c,
            ) <==> k <= rank(levels, c)) by {
                lemma_schedule_switching(levels, c, k);
            }
            if all_at(levels, 0) {
                lemma_schedule_all_off(levels);
            }
            if all_at(levels, 255) {
                lemma_schedule_all_full(levels);
            }
        }
    }

    /// Takes new levels and recomputes the steps from them: levels and steps change together.
    pub fn update_levels(&mut self, levels: [u8; 8])
        ensures
            final(self).pwm_levels == levels,
            final(self).pwm_steps@ == schedule(levels@),
            final(self).in_step(),
    {
        self.pwm_levels = levels;
        self.reflect();
    }

    /// A copy of the steps, for a reader that is not to hold on to the record.
    pub fn read_snapshot(&self) -> (steps: [PwmStep; 9])
        ensures
            steps == self.pwm_steps,
    {
        self.pwm_steps
    }
}

/// Reflecting a second time, with the levels untouched in between, changes nothing: `once`
/// stands for the record after one call of `reflect` on `start`, `twice` for the record after
/// a further call.
pub proof fn lemma_reflect_twice(start: PwmData, once: PwmData, twice: PwmData)
    requires
        once.pwm_levels == start.pwm_levels,
        once.pwm_steps@ == schedule(start.pwm_levels@),
        twice.pwm_levels == once.pwm_levels,
        twice.pwm_steps@ == schedule(once.pwm_levels@),
    ensures
        twice == once,
{
    assert(twice.pwm_steps =~= once.pwm_steps);
}

/// The steps of a bank that is switched off reproduce levels that are all zero.
proof fn lemma_idle_steps_realize(levels: Seq<u8>)
    requires
        levels.len() == 8,
        forall|c: int| 0 <= c < 8 ==> levels[c] == 0,
    ensures
        realizes(levels, idle_steps()),
{
    reveal_with_fuel(total_length, 10);
    reveal_with_fuel(on_time, 10);
    assert forall|c: int| 0 <= c < 8 implies on_time(idle_steps(), c) == levels[c] by {
        let d = c as u32;
        assert(0u32 & (1u32 << d) == 0) by (bit_vector);
    }
}

} // verus!
