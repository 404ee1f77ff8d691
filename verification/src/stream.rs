use crate::mask::is_on;
use crate::pwm::PwmStep;
use crate::schedule::{on_time, realizes, total_length};
use vstd::prelude::*;

verus! {

/// What the streaming task is to do next.
#[derive(Debug, Clone, Copy, PartialEq, Eq, Structural)]
pub enum StreamAction {
    /// Copy the steps out of the shared record, let go of the record, and begin a cycle
    /// with the copy.
    Reload,
    /// Send `data`, then wait for `delay` time units.
    Emit { data: u32, delay: u64 },
}

/// The action for a step that takes time.
pub open spec fn emit(step: PwmStep, quantum: u32) -> StreamAction {
    StreamAction::Emit { data: step.data, delay: (step.length * quantum) as u64 }
}

/// The actions for the steps from number `from` on: one for each step that takes time, in
/// the order of the steps. Steps of length 0 are left out.
pub open spec fn pending(steps: Seq<PwmStep>, quantum: u32, from: int) -> Seq<StreamAction>
    decreases steps.len() - from,
{
    if from < 0 || from >= steps.len() {
        Seq::empty()
    } else if steps[from].length > 0 {
        seq![emit(steps[from], quantum)] + pending(steps, quantum, from + 1)
    } else {
        pending(steps, quantum, from + 1)
    }
}

/// The actions of one cycle through `steps`.
pub open spec fn cycle_actions(steps: Seq<PwmStep>, quantum: u32) -> Seq<StreamAction> {
    pending(steps, quantum, 0)
}

/// The time that `action` takes.
pub open spec fn delay_of(action: StreamAction) -> int {
    match action {
        StreamAction::Reload => 0,
        StreamAction::Emit { delay, .. } => delay as int,
    }
}

/// Channel `c` is driven while `action` lasts.
pub open spec fn drives(action: StreamAction, c: int) -> bool {
    match action {
        StreamAction::Reload => false,
        StreamAction::Emit { data, .. } => is_on(data, c),
    }
}

/// The time that `actions` take together.
pub open spec fn total_delay(actions: Seq<StreamAction>) -> int
    decreases actions.len(),
{
    if actions.len() == 0 {
        0
    } else {
        delay_of(actions[0]) + total_delay(actions.skip(1))
    }
}

/// The time for which channel `c` is driven while `actions` are carried out.
pub open spec fn drive_time(actions: Seq<StreamAction>, c: int) -> int
    decreases actions.len(),
{
    if actions.len() == 0 {
        0
    } else {
        (if drives(actions[0], c) { delay_of(actions[0]) } else { 0 }) + drive_time(
            actions.skip(1),
            c,
        )
    }
}

/// The streaming task's place in its cycle: a copy of the steps, and how far it has got.
pub struct StepStream {
    steps: [PwmStep; 9],
    next: usize,
    quantum: u32,
}

impl View for StepStream {
    type V = Seq<StreamAction>;

    /// The actions that are left of the cycle.
    closed spec fn view(&self) -> Seq<StreamAction> {
        pending(self.steps@, self.quantum, self.next as int)
    }
}

impl StepStream {
    #[verifier::type_invariant]
    spec fn inv(&self) -> bool {
        self.next <= 9
    }

    /// The time units that one unit of a step's length takes.
    pub closed spec fn quantum(&self) -> u32 {
        self.quantum
    }

    /// A stream between two cycles: nothing is left to send, so the first action is a reload.
    pub fn new(quantum: u32) -> (r: Self)
        ensures
            r@ == Seq::<StreamAction>::empty(),
            r.quantum() == quantum,
    {
        let idle = PwmStep { length: 0, data: 0 };
        StepStream { steps: [idle; 9], next: 9, quantum }
    }

    /// Begins a cycle through `steps`, dropping what was left of the cycle before.
    pub fn begin_cycle(&mut self, steps: [PwmStep; 9])
        ensures
            final(self)@ == cycle_actions(steps@, old(self).quantum()),
            final(self).quantum() == old(self).quantum(),
    {
        self.next = 0;
        self.steps = steps;
    }

    /// The next action of the cycle, or `Reload` when the cycle is over.
    pub fn next_action(&mut self) -> (r: StreamAction)
        ensures
            final(self).quantum() == old(self).quantum(),
            old(self)@.len() == 0 ==> r == StreamAction::Reload && final(self)@ == old(self)@,
            old(self)@.len() > 0 ==> r == old(self)@[0] && final(self)@ == old(self)@.skip(1),
    {
        proof {
            use_type_invariant(&*self);
        }
        let mut i: usize = self.next;
        while i < 9
            invariant
                self.next <= i <= 9,
                self.steps == old(self).steps,
                self.quantum == old(self).quantum,
                self.next == old(self).next,
                pending(self.steps@, self.quantum, i as int) == old(self)@,
            decreases 9 - i,
        {
            let step = self.steps[i];
            i += 1;
            if step.length > 0 {
                self.next = i;
                proof {
                    let rest = pending(self.steps@, self.quantum, i as int);
                    assert(old(self)@ == seq![emit(step, self.quantum)] + rest);
                    assert(old(self)@.skip(1) =~= rest);
                    assert(step.length * self.quantum <= 255 * 0xFFFF_FFFF) by (nonlinear_arith)
                        requires
                            step.length <= 255,
                            self.quantum <= 0xFFFF_FFFF,
                    ;
                }
                return StreamAction::Emit {
                    data: step.data,
                    delay: step.length as u64 * self.quantum as u64,
                };
            }
        }
        self.next = i;
        StreamAction::Reload
    }
}

/// The time that the first `n` steps take is that of the first `n - 1` and of step `n - 1`;
/// likewise the time for which they drive channel `c`.
proof fn lemma_prefix_step(steps: Seq<PwmStep>, c: int, n: int)
    requires
        0 < n <= steps.len(),
    ensures
        total_length(steps.take(n)) == total_length(steps.take(n - 1)) + steps[n - 1].length,
        on_time(steps.take(n), c) == on_time(steps.take(n - 1), c) + if is_on(steps[n - 1].data, c) {
            steps[n - 1].length as int
        } else {
            0
        },
{
    assert(steps.take(n).drop_last() =~= steps.take(n - 1));
}

/// An action for a step takes `quantum` times the step's length.
proof fn lemma_emit_delay(step: PwmStep, quantum: u32)
    ensures
        delay_of(emit(step, quantum)) == quantum * step.length,
{
    assert(0 <= step.length * quantum <= 255 * 0xFFFF_FFFF) by (nonlinear_arith)
        requires
            0 <= step.length <= 255,
            0 <= quantum <= 0xFFFF_FFFF,
    ;
    assert(step.length * quantum == quantum * step.length) by (nonlinear_arith);
}

/// The actions from step `from` on take `quantum` times the length of those steps, and
/// drive each channel for `quantum` times as long as those steps do.
proof fn lemma_pending_time(steps: Seq<PwmStep>, quantum: u32, c: int, from: int)
    requires
        0 <= from <= steps.len(),
    ensures
        total_delay(pending(steps, quantum, from)) == quantum * (total_length(steps) - total_length(
            steps.take(from),
        )),
        drive_time(pending(steps, quantum, from), c) == quantum * (on_time(steps, c) - on_time(
            steps.take(from),
            c,
        )),
    decreases steps.len() - from,
{
    if from == steps.len() {
        assert(steps.take(from) =~= steps);
        assert(quantum * 0 == 0);
    } else {
        lemma_pending_time(steps, quantum, c, from + 1);
        lemma_prefix_step(steps, c, from + 1);
        lemma_emit_delay(steps[from], quantum);
        let rest = pending(steps, quantum, from + 1);
        let length = steps[from].length as int;
        let after = total_length(steps) - total_length(steps.take(from + 1));
        let after_on = on_time(steps, c) - on_time(steps.take(from + 1), c);
        assert(quantum * (length + after) == quantum * length + quantum * after)
            by (nonlinear_arith);
        assert(quantum * (length + after_on) == quantum * length + quantum * after_on)
            by (nonlinear_arith);
        if length > 0 {
            let all = seq![emit(steps[from], quantum)] + rest;
            assert(all.skip(1) =~= rest);
            assert(all[0] == emit(steps[from], quantum));
        } else {
            assert(quantum * length == 0);
        }
    }
}

/// One cycle through `steps` takes `quantum` times their total length: the steps of length 0
/// that are left out take no time.
pub proof fn lemma_cycle_delay(steps: Seq<PwmStep>, quantum: u32)
    ensures
        total_delay(cycle_actions(steps, quantum)) == quantum * total_length(steps),
{
    lemma_pending_time(steps, quantum, 0, 0);
    assert(steps.take(0) =~= Seq::<PwmStep>::empty());
}

/// One cycle through `steps` drives channel `c` for `quantum` times as long as the steps do.
pub proof fn lemma_cycle_drive_time(steps: Seq<PwmStep>, quantum: u32, c: int)
    ensures
        drive_time(cycle_actions(steps, quantum), c) == quantum * on_time(steps, c),
{
    lemma_pending_time(steps, quantum, c, 0);
    assert(steps.take(0) =~= Seq::<PwmStep>::empty());
}

/// Streaming steps that reproduce `levels` takes 255 quanta for each cycle, and drives each
/// channel for as many quanta of it as its level.
pub proof fn lemma_cycle_reproduces(levels: Seq<u8>, steps: Seq<PwmStep>, quantum: u32, c: int)
    requires
        realizes(levels, steps),
        0 <= c < 8,
    ensures
        total_delay(cycle_actions(steps, quantum)) == quantum * 255,
        drive_time(cycle_actions(steps, quantum), c) == quantum * levels[c],
{
    lemma_cycle_delay(steps, quantum);
    lemma_cycle_drive_time(steps, quantum, c);
}

} // verus!
