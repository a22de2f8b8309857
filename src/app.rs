//! The application state driven by the main loop: the animated display, the
//! running flag, and the wipe direction the renderer rotates through.

use crate::animated::{
    advance_all, any_pending, any_transitioning, configured, retimed, sample_all,
    thresholds_are, AnimatedTime, TokenBlock, TokenState, DEFAULT_FORMAT, DEFAULT_TIMING,
};
use crate::scheduler::{Event, Key, KeyInput};
use crate::wall::{is_clock_reading, local_now, WallTime};
use vstd::prelude::*;

verus! {

/// Whether a non-constant block is past its threshold and commits on the
/// next render tick.
pub open spec fn due(b: crate::animated::BlockState) -> bool {
    !b.is_constant && b.progress > b.threshold
}

/// Whether any block commits on the next render tick.
pub open spec fn any_due(ts: Seq<TokenState>) -> bool {
    exists|i: int, j: int|
        0 <= i < ts.len() && 0 <= j < ts[i].blocks.len() && #[trigger] due(ts[i].blocks[j])
}

/// Whether a key press asks the application to quit: escape, `q` or `Q`,
/// or control with `c`, `C`, `d` or `D`.
pub open spec fn quits(key: KeyInput) -> bool {
    match key.code {
        Key::Esc => true,
        Key::Char(c) => c == 'q' || c == 'Q' || (key.control && (c == 'c' || c == 'C' || c
            == 'd' || c == 'D')),
        Key::Other => false,
    }
}

/// The application.
#[derive(Debug)]
pub struct App {
    pub running: bool,
    animated_time: AnimatedTime,
    direction: u8,
}

impl Default for App {
    /// An application showing the time of day with the default transition
    /// time, configured at the current local time.
    fn default() -> (r: Self)
        ensures
            r.wf(),
            r.is_running(),
            r.wipe() == 0,
            r.timing_ms() == DEFAULT_TIMING,
            exists|now: WallTime|
                is_clock_reading(now) && r.tokens() == configured(DEFAULT_FORMAT@, DEFAULT_TIMING as nat, now),
    {
        let animated_time = AnimatedTime::new();
        Self { running: true, animated_time, direction: 0 }
    }
}

impl App {
    /// Whether the main loop goes on.
    pub closed spec fn is_running(&self) -> bool {
        self.running
    }

    /// The display's tokens.
    pub closed spec fn tokens(&self) -> Seq<TokenState> {
        self.animated_time.tokens()
    }

    /// The display's transition time, in milliseconds.
    pub closed spec fn timing_ms(&self) -> nat {
        self.animated_time.timing_ms()
    }

    /// The wipe direction, one of four.
    pub closed spec fn wipe(&self) -> nat {
        self.direction as nat
    }

    /// Every block's threshold is the display's transition time, and the
    /// wipe direction is one of four.
    pub closed spec fn wf(&self) -> bool {
        &&& thresholds_are(self.animated_time.tokens(), self.animated_time.timing_ms())
        &&& self.direction < 4
    }

    /// An application showing the time of day, whose blocks take
    /// `transition_timing` milliseconds to change.
    pub fn new(transition_timing: u128) -> (r: Self)
        ensures
            r.wf(),
            r.is_running(),
            r.wipe() == 0,
            r.timing_ms() == transition_timing,
            exists|now: WallTime|
                is_clock_reading(now) && r.tokens() == retimed(
                    configured(DEFAULT_FORMAT@, DEFAULT_TIMING as nat, now),
                    transition_timing as nat,
                ),
    {
        let animated_time = AnimatedTime::new().set_timing(transition_timing);
        Self { running: true, animated_time, direction: 0 }
    }

    /// An application showing `format_string`, whose blocks take
    /// `transition_timing` milliseconds to change, configured at `now`.
    pub fn with_format_at(format_string: &str, transition_timing: u128, now: WallTime) -> (r: Self)
        ensures
            r.wf(),
            r.is_running(),
            r.wipe() == 0,
            r.timing_ms() == transition_timing,
            r.tokens() == configured(format_string@, transition_timing as nat, now),
    {
        let blank = AnimatedTime { format_tokens: Vec::new(), timing: transition_timing };
        let animated_time = blank.set_format_at(format_string, now);
        Self { running: true, animated_time, direction: 0 }
    }

    /// The animated display.
    pub fn animated_time(&self) -> (r: &AnimatedTime)
        ensures
            r.tokens() == self.tokens(),
            r.timing_ms() == self.timing_ms(),
    {
        &self.animated_time
    }

    /// The display's transition time, in milliseconds.
    pub fn timing(&self) -> (r: u128)
        ensures
            r == self.timing_ms(),
    {
        self.animated_time.timing
    }

    /// Whether the renderer wipes horizontally rather than vertically.
    pub fn wipe_horizontal(&self) -> (r: bool)
        ensures
            r == (self.wipe() % 2 == 1),
    {
        self.direction % 2 == 1
    }

    /// Whether the renderer wipes from the far edge.
    pub fn wipe_reversed(&self) -> (r: bool)
        ensures
            r == (self.wipe() > 1),
    {
        self.direction > 1
    }

    /// A logic tick at the instant `now`: samples it into every block, and
    /// returns the activity to notify, whether any block now differs from
    /// its target.
    pub fn tick_logic_at(&mut self, now: WallTime) -> (notify: bool)
        requires
            old(self).wf(),
        ensures
            final(self).wf(),
            final(self).is_running() == old(self).is_running(),
            final(self).wipe() == old(self).wipe(),
            final(self).timing_ms() == old(self).timing_ms(),
            final(self).tokens() == sample_all(old(self).tokens(), now),
            notify == any_pending(final(self).tokens()),
    {
        let ghost ts = self.animated_time.tokens();
        self.animated_time.tick_logic_at(now);
        let ghost t = self.animated_time.timing_ms();
        assert forall|i: int, j: int|
            0 <= i < sample_all(ts, now).len() && 0 <= j < sample_all(ts, now)[i].blocks.len()
                implies #[trigger] sample_all(ts, now)[i].blocks[j].threshold == t by {
            assert(sample_all(ts, now)[i].blocks[j].threshold == ts[i].blocks[j].threshold);
        }
        self.animated_time.has_pending()
    }

    /// A logic tick `duration` milliseconds after the previous one: samples
    /// the current local time, and returns the activity to notify.
    pub fn tick_logic(&mut self, duration: u128) -> (notify: bool)
        requires
            old(self).wf(),
        ensures
            final(self).wf(),
            final(self).is_running() == old(self).is_running(),
            final(self).wipe() == old(self).wipe(),
            final(self).timing_ms() == old(self).timing_ms(),
            exists|now: WallTime| is_clock_reading(now) && final(self).tokens() == sample_all(old(self).tokens(), now),
            notify == any_pending(final(self).tokens()),
    {
        let now = local_now();
        self.tick_logic_at(now)
    }

    /// A render tick of `duration` milliseconds: advances every block,
    /// rotates the wipe direction when some block commits, and returns the
    /// activity to notify, whether any block was still transitioning.
    pub fn tick_render(&mut self, duration: u128) -> (notify: bool)
        requires
            old(self).wf(),
            old(self).timing_ms() + duration <= u128::MAX,
        ensures
            final(self).wf(),
            final(self).is_running() == old(self).is_running(),
            final(self).timing_ms() == old(self).timing_ms(),
            final(self).tokens() == advance_all(old(self).tokens(), duration as nat),
            final(self).wipe() == if any_due(old(self).tokens()) {
                (old(self).wipe() + 1) % 4
            } else {
                old(self).wipe()
            },
            notify == any_transitioning(old(self).tokens()),
    {
        let ghost ts = self.animated_time.tokens();
        let ghost t = self.animated_time.timing_ms();
        let commits = due_commit(&self.animated_time);
        assert forall|i: int, j: int|
            0 <= i < ts.len() && 0 <= j < ts[i].blocks.len() implies #[trigger] ts[i].blocks[j].threshold
                + duration <= u128::MAX by {
            assert(ts[i].blocks[j].threshold == t);
        }
        let notify = self.animated_time.tick_render(duration);
        assert forall|i: int, j: int|
            0 <= i < advance_all(ts, duration as nat).len() && 0 <= j < advance_all(
                ts,
                duration as nat,
            )[i].blocks.len() implies #[trigger] advance_all(
                ts,
                duration as nat,
            )[i].blocks[j].threshold == t by {
            assert(advance_all(ts, duration as nat)[i].blocks[j].threshold
                == ts[i].blocks[j].threshold);
        }
        if commits {
            self.direction = (self.direction + 1) % 4;
        }
        notify
    }

    /// Handles one event of the main loop, and returns the activity to
    /// notify, if the event calls for one.
    pub fn handle_event(&mut self, event: Event) -> (notify: Option<bool>)
        requires
            old(self).wf(),
            event matches Event::RenderTick(d) ==> old(self).timing_ms() + d <= u128::MAX,
        ensures
            final(self).wf(),
            final(self).timing_ms() == old(self).timing_ms(),
            match event {
                Event::LogicTick(_) => notify == Some(any_pending(final(self).tokens()))
                    && final(self).is_running() == old(self).is_running(),
                Event::RenderTick(d) => notify == Some(any_transitioning(old(self).tokens()))
                    && final(self).tokens() == advance_all(old(self).tokens(), d as nat)
                    && final(self).is_running() == old(self).is_running(),
                Event::Key(k) => notify is None && final(self).tokens() == old(self).tokens()
                    && final(self).is_running() == (old(self).is_running() && !quits(k)),
                _ => notify is None && final(self).tokens() == old(self).tokens()
                    && final(self).is_running() == old(self).is_running(),
            },
    {
        match event {
            Event::LogicTick(d) => Some(self.tick_logic(d)),
            Event::RenderTick(d) => Some(self.tick_render(d)),
            Event::Key(k) => {
                handle_key_events(k, self);
                None
            },
            Event::Mouse(_, _) => None,
            Event::Resize(_, _) => None,
        }
    }
}

/// Whether any block of the display commits on the next render tick.
fn due_commit(a: &AnimatedTime) -> (r: bool)
    ensures
        r == any_due(a.tokens()),
{
    let ghost ts = a.tokens();
    let mut i: usize = 0;
    while i < a.format_tokens.len()
        invariant
            ts == a.tokens(),
            i <= a.format_tokens.len(),
            forall|k: int, j: int|
                0 <= k < i && 0 <= j < ts[k].blocks.len() ==> !#[trigger] due(ts[k].blocks[j]),
        decreases a.format_tokens.len() - i,
    {
        let t = &a.format_tokens[i];
        assert(ts[i as int] == t@);
        let mut j: usize = 0;
        while j < t.blocks.len()
            invariant
                ts == a.tokens(),
                ts[i as int] == t@,
                i < a.format_tokens.len(),
                j <= t.blocks.len(),
                forall|k: int, j: int|
                    0 <= k < i && 0 <= j < ts[k].blocks.len() ==> !#[trigger] due(ts[k].blocks[j]),
                forall|m: int| 0 <= m < j ==> !#[trigger] due(ts[i as int].blocks[m]),
            decreases t.blocks.len() - j,
        {
            let b = &t.blocks[j];
            assert(ts[i as int].blocks[j as int] == b@);
            if !b.is_constant && b.transition_progress > b.transition_timing {
                assert(due(ts[i as int].blocks[j as int]));
                return true;
            }
            j = j + 1;
        }
        i = i + 1;
    }
    false
}

/// Handles a key press: the quit keys stop the application.
pub fn handle_key_events(key_event: KeyInput, app: &mut App)
    ensures
        final(app).is_running() == (old(app).is_running() && !quits(key_event)),
        final(app).tokens() == old(app).tokens(),
        final(app).timing_ms() == old(app).timing_ms(),
        final(app).wipe() == old(app).wipe(),
        final(app).wf() == old(app).wf(),
{
    let quit = match key_event.code {
        Key::Esc => true,
        Key::Char(c) => c == 'q' || c == 'Q' || (key_event.control && (c == 'c' || c == 'C' || c
            == 'd' || c == 'D')),
        Key::Other => false,
    };
    if quit {
        app.running = false;
    }
}

/// The number of terminal columns a block is drawn in: eight per character
/// for a constant block, fifteen for a boxed one.
pub fn block_columns(block: &TokenBlock) -> (r: u128)
    ensures
        r == block.size * (if block.is_constant {
            8int
        } else {
            15int
        }),
{
    let per: u128 = if block.is_constant {
        8
    } else {
        15
    };
    (block.size as u128) * per
}

/// How far a transition has run, in percent of its threshold, at most 100;
/// a zero threshold counts any progress as complete.
pub open spec fn percent(progress: nat, threshold: nat) -> nat {
    if threshold == 0 {
        if progress > 0 {
            100
        } else {
            0
        }
    } else if 100 * progress / threshold > 100 {
        100
    } else {
        100 * progress / threshold
    }
}

/// The share of its transition a block has run, in percent.
pub fn progress_percent(progress: u128, threshold: u128) -> (r: u16)
    ensures
        r == percent(progress as nat, threshold as nat),
{
    if threshold == 0 {
        return if progress > 0 {
            100
        } else {
            0
        };
    }
    if progress >= threshold {
        proof {
            assert(100 * (progress as int) / (threshold as int) >= 100) by (nonlinear_arith)
                requires
                    progress >= threshold,
                    threshold > 0,
            ;
        }
        return 100;
    }
    // Long division of 100 * progress by threshold, one addition at a time,
    // so that no intermediate value exceeds the threshold.
    let mut q: u16 = 0;
    let mut rem: u128 = 0;
    let mut i: u16 = 0;
    while i < 100
        invariant
            0 < threshold,
            progress < threshold,
            i <= 100,
            q <= i,
            rem < threshold,
            (q as int) * (threshold as int) + (rem as int) == (i as int) * (progress as int),
        decreases 100 - i,
    {
        let ghost (q0, r0, i0) = (q as int, rem as int, i as int);
        if progress >= threshold - rem {
            rem = progress - (threshold - rem);
            q = q + 1;
            proof {
                assert((q0 + 1) * (threshold as int) == q0 * (threshold as int) + threshold)
                    by (nonlinear_arith);
            }
        } else {
            rem = rem + progress;
        }
        proof {
            assert((i0 + 1) * (progress as int) == i0 * (progress as int) + progress)
                by (nonlinear_arith);
        }
        i = i + 1;
    }
    proof {
        vstd::arithmetic::div_mod::lemma_fundamental_div_mod_converse(
            100 * progress as int,
            threshold as int,
            q as int,
            rem as int,
        );
        assert(q <= 100);
    }
    q
}

} // verus!
