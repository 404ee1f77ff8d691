//! Time-division dimming of eight output lines behind one serial shift register.
//!
//! Eight brightness levels between 0 and 255 become a cycle of 255 time units in nine steps.
//! Every line is on when the cycle begins and is switched off when its level has passed, so
//! each step is one word for the shift register and the time for which that word stands.
//!
//! - [`pwm`] holds the levels and the steps derived from them, and derives them.
//! - [`order`] says in which order the channels switch off, and sorts them into it.
//! - [`mask`] says which lines a word drives.
//! - [`schedule`] says what the nine steps are, and proves what holds of them.
//! - [`stream`] decides what the task that feeds the shift register does next.

pub mod mask;
pub mod order;
pub mod pwm;
pub mod schedule;
pub mod stream;
