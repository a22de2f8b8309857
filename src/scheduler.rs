//! The decisions of the event scheduler: when the input worker's poll times
//! out, when a logic tick is due, when the render worker emits a render tick
//! or suspends, and when a change of the activity flag must wake it. The
//! threads, the queue and the condition variable that act on these decisions
//! live with the program that runs them.

use vstd::prelude::*;

verus! {

/// A key of the keyboard, as far as the engine tells keys apart.
#[derive(Clone, Copy, Debug, PartialEq, Eq)]
pub enum Key {
    Esc,
    Char(char),
    Other,
}

/// A key press: the key, and whether the control modifier, alone, was held.
#[derive(Clone, Copy, Debug, PartialEq, Eq)]
pub struct KeyInput {
    pub code: Key,
    pub control: bool,
}

/// Events delivered to the main loop, in the order they were sent.
#[derive(Clone, Copy, Debug, PartialEq, Eq)]
pub enum Event {
    /// A logic tick, with the milliseconds since the previous one.
    LogicTick(u128),
    /// A render tick, with the milliseconds since the previous one.
    RenderTick(u128),
    /// A key press.
    Key(KeyInput),
    /// A mouse event at a column and row.
    Mouse(u16, u16),
    /// The terminal's new width and height.
    Resize(u16, u16),
}

/// How long the input worker waits for input before it looks at the logic
/// clock again: what is left of the interval, or a whole interval once the
/// interval has run out.
pub open spec fn poll_wait(interval: u64, since_last: u128) -> u64 {
    if since_last <= interval as u128 {
        (interval - since_last) as u64
    } else {
        interval
    }
}

/// The input worker's poll timeout, in milliseconds, `since_last`
/// milliseconds after the previous logic tick.
pub fn poll_timeout(interval: u64, since_last: u128) -> (r: u64)
    ensures
        r == poll_wait(interval, since_last),
        r <= interval,
{
    if since_last <= interval as u128 {
        (interval as u128 - since_last) as u64
    } else {
        interval
    }
}

/// Whether a logic tick is due `since_last` milliseconds after the previous
/// one.
pub fn logic_tick_due(interval: u64, since_last: u128) -> (r: bool)
    ensures
        r == (since_last >= interval as u128),
{
    since_last >= interval as u128
}

/// What the render worker does next.
#[derive(Clone, Copy, Debug, PartialEq, Eq)]
pub enum RenderAction {
    /// Wait, without waking, until the activity flag is raised.
    Suspend,
    /// Send a render tick carrying the elapsed milliseconds, and restart the
    /// interval.
    Emit(u128),
    /// Sleep this many milliseconds, then look again.
    Sleep(u128),
}

/// The render worker's decision, given the activity flag and the time since
/// its last render tick.
pub open spec fn render_decision(active: bool, interval: u128, since_last: u128) -> RenderAction {
    if !active {
        RenderAction::Suspend
    } else if since_last >= interval {
        RenderAction::Emit(since_last)
    } else {
        RenderAction::Sleep((interval - since_last) as u128)
    }
}

/// Decides the render worker's next step.
pub fn render_step(active: bool, interval: u128, since_last: u128) -> (r: RenderAction)
    ensures
        r == render_decision(active, interval, since_last),
{
    if !active {
        RenderAction::Suspend
    } else if since_last >= interval {
        RenderAction::Emit(since_last)
    } else {
        RenderAction::Sleep(interval - since_last)
    }
}

/// The number of render ticks emitted over a sequence of observations of
/// the activity flag and of the time since the last render tick.
pub open spec fn emitted(obs: Seq<(bool, u128)>, interval: u128) -> nat
    decreases obs.len(),
{
    if obs.len() == 0 {
        0
    } else {
        emitted(obs.drop_last(), interval) + if render_decision(
            obs.last().0,
            interval,
            obs.last().1,
        ) is Emit {
            1nat
        } else {
            0nat
        }
    }
}

/// While the activity flag stays lowered, however long and however often
/// the render worker looks, it emits no render tick.
pub proof fn lemma_idle_emits_nothing(obs: Seq<(bool, u128)>, interval: u128)
    requires
        forall|i: int| 0 <= i < obs.len() ==> !(#[trigger] obs[i]).0,
    ensures
        emitted(obs, interval) == 0,
    decreases obs.len(),
{
    if obs.len() > 0 {
        lemma_idle_emits_nothing(obs.drop_last(), interval);
    }
}

/// Whether storing `active` over `previous` must wake the render worker.
pub open spec fn wakes(previous: bool, active: bool) -> bool {
    !previous && active
}

/// The activity flag shared by the main loop and the render worker.
#[derive(Debug)]
pub struct ActivityFlag {
    pub animating: bool,
}

impl ActivityFlag {
    /// A lowered flag.
    pub fn new() -> (r: Self)
        ensures
            !r.animating,
    {
        ActivityFlag { animating: false }
    }

    /// Stores `active`, and says whether the render worker must be woken:
    /// exactly when the flag goes from lowered to raised.
    pub fn set(&mut self, active: bool) -> (wake: bool)
        ensures
            final(self).animating == active,
            wake == wakes(old(self).animating, active),
    {
        let wake = !self.animating && active;
        self.animating = active;
        wake
    }
}

/// The flag after storing a sequence of values, starting from `start`.
pub open spec fn flag_after(start: bool, s: Seq<bool>) -> bool {
    if s.len() == 0 {
        start
    } else {
        s.last()
    }
}

/// The number of wake-ups that storing a sequence of values causes.
pub open spec fn wake_count(start: bool, s: Seq<bool>) -> nat
    decreases s.len(),
{
    if s.len() == 0 {
        0
    } else {
        wake_count(start, s.drop_last()) + if wakes(flag_after(start, s.drop_last()), s.last()) {
            1nat
        } else {
            0nat
        }
    }
}

/// An episode of activity, a run of raised values stored while the flag was
/// lowered, wakes the render worker exactly once.
pub proof fn lemma_one_wake_per_episode(start: bool, s: Seq<bool>, from: int, to: int)
    requires
        0 <= from < to <= s.len(),
        !flag_after(start, s.take(from)),
        forall|i: int| from <= i < to ==> #[trigger] s[i],
    ensures
        wake_count(start, s.take(to)) == wake_count(start, s.take(from)) + 1,
    decreases to - from,
{
    assert(s.take(to).drop_last() =~= s.take(to - 1));
    if to - 1 > from {
        lemma_one_wake_per_episode(start, s, from, to - 1);
    }
}

} // verus!
