use crate::keymapping::MappingTable;
use crate::timer::{expired, millis_wide, percent_of, TimeSpan};
use vstd::prelude::*;

verus! {

/// Milliseconds between two ticks of the clock.
pub const TICK_MILLIS: u64 = 500;

/// What reaches the control loop: a key press, or a tick of the clock.
#[derive(Clone, Copy, Debug, PartialEq, Eq, Structural)]
pub enum Event {
    Input(char),
    Tick,
}

/// What the control loop does after one event.
#[derive(Clone, Copy, Debug, PartialEq, Eq, Structural)]
pub enum Decision {
    /// Keep running and paint a new frame.
    Redraw,
    /// Keep running without painting.
    Ignore,
    /// Stop, leaving with this exit code.
    Exit(i32),
}

/// What one frame shows of the countdown.
#[derive(Clone, Copy, Debug, PartialEq, Eq, Structural)]
pub struct Frame {
    pub percent: u16,
    pub elapsed_secs: u64,
    pub total_secs: u64,
}

/// The decision for `event`, given the bindings, the target duration and the
/// time passed so far.
pub open spec fn decide(
    bindings: Map<char, (int, Seq<char>)>,
    target: TimeSpan,
    event: Event,
    elapsed: TimeSpan,
) -> Decision {
    match event {
        Event::Input(k) => if bindings.contains_key(k) {
            Decision::Exit(bindings[k].0 as i32)
        } else {
            Decision::Ignore
        },
        Event::Tick => if expired(elapsed, target) {
            Decision::Exit(0)
        } else {
            Decision::Redraw
        },
    }
}

/// The settled state of one countdown: how long it runs, its key bindings, and
/// its title.
pub struct AppState {
    pub duration: TimeSpan,
    pub mappings: MappingTable,
    pub title: String,
}

impl AppState {
    /// A countdown of `duration` with the given bindings and title.
    pub fn new(duration: TimeSpan, mappings: MappingTable, title: String) -> (r: AppState)
        ensures
            r.duration == duration,
            r.mappings@ == mappings@,
            r.title@ == title@,
    {
        AppState { duration, mappings, title }
    }

    /// Whole seconds in `elapsed`.
    pub fn time_passed_in_seconds(&self, elapsed: &TimeSpan) -> (r: u64)
        ensures
            r == elapsed.secs,
    {
        elapsed.secs
    }

    /// Percent of the duration that `elapsed` covers, by whole milliseconds.
    pub fn progress_in_percent(&self, elapsed: &TimeSpan) -> (r: u16)
        ensures
            r == percent_of(elapsed.millis(), self.duration.millis()),
    {
        let e = millis_wide(elapsed);
        let t = millis_wide(&self.duration);
        if t == 0 {
            if e == 0 {
                0
            } else {
                100
            }
        } else {
            assert(e * 100 <= u128::MAX);
            let p = e * 100 / t;
            if p >= 100 {
                100
            } else {
                p as u16
            }
        }
    }

    /// Whether strictly more than the duration has passed.
    pub fn at_end(&self, elapsed: &TimeSpan) -> (r: bool)
        requires
            elapsed.wf(),
            self.duration.wf(),
        ensures
            r == expired(*elapsed, self.duration),
    {
        let t = self.duration;
        assert(elapsed.secs > t.secs ==> elapsed.nanos() > t.nanos()) by (nonlinear_arith)
            requires
                elapsed.wf(),
                t.wf(),
        ;
        assert(elapsed.secs < t.secs ==> elapsed.nanos() < t.nanos()) by (nonlinear_arith)
            requires
                elapsed.wf(),
                t.wf(),
        ;
        elapsed.secs > t.secs || (elapsed.secs == t.secs && elapsed.subsec_nanos > t.subsec_nanos)
    }

    /// One step of the control loop: a bound key stops with its code, an
    /// unbound key is ignored, a tick stops with 0 once the time is over and
    /// asks for a new frame before that.
    pub fn handle(&self, event: Event, elapsed: &TimeSpan) -> (r: Decision)
        requires
            elapsed.wf(),
            self.duration.wf(),
        ensures
            r == decide(self.mappings@, self.duration, event, *elapsed),
    {
        match event {
            Event::Input(key) => match self.mappings.get(key) {
                Some(mapping) => Decision::Exit(mapping.ret_code),
                None => Decision::Ignore,
            },
            Event::Tick => if self.at_end(elapsed) {
                Decision::Exit(0)
            } else {
                Decision::Redraw
            },
        }
    }

    /// What the frame drawn at `elapsed` shows.
    pub fn frame(&self, elapsed: &TimeSpan) -> (r: Frame)
        ensures
            r.percent == percent_of(elapsed.millis(), self.duration.millis()),
            r.elapsed_secs == elapsed.secs,
            r.total_secs == self.duration.secs,
    {
        Frame {
            percent: self.progress_in_percent(elapsed),
            elapsed_secs: self.time_passed_in_seconds(elapsed),
            total_secs: self.duration.secs,
        }
    }
}

} // verus!
