//! The course of a capture: which device is opened, and when the capture ends.
//!
//! A [`Listener`] decides; its caller performs each [`Action`] and reports what
//! came of it as an [`Event`]. Each capture has a number, and the one that began last
//! is in charge of the shared state; another one that is still under way withdraws.
use crate::devices::find_device;
use crate::devices::first_named;
use crate::devices::text;
use crate::devices::texts;
use crate::samples::SampleFormat;
use crate::state::Audio;
use crate::state::AudioState;
use vstd::prelude::*;

verus! {

/// The time between two looks at a flag, in milliseconds.
pub const POLL_INTERVAL_MS: u64 = 50;

/// How many times a switch of devices looks for the end of the old capture.
pub const SWITCH_POLLS: u32 = 6;

/// Where a capture stands: what it waits for.
#[derive(Clone, Copy, Debug, PartialEq, Eq, Structural)]
pub enum Phase {
    /// For the list of input devices.
    Listing,
    /// For the default input device.
    Defaulting,
    /// For the configuration of the device.
    Configuring,
    /// For the input stream.
    Building,
    /// For the stream to play.
    Starting,
    /// For the next look at the stop flag.
    Streaming,
    /// For the stream to be closed.
    Closing,
    /// For nothing.
    Ended,
}

/// What came of an action.
#[derive(Debug)]
pub enum Event {
    /// The names of the input devices, each `None` if it could not be read; or `None`
    /// if the devices could not be listed.
    Devices(Option<Vec<Option<String>>>),
    /// Whether there is a default input device.
    DefaultDevice(bool),
    /// The native sample format of the device; `None` if its configuration could
    /// not be read.
    Config(Option<SampleFormat>),
    /// Whether the stream could be built.
    Built(bool),
    /// Whether the stream plays.
    Playing(bool),
    /// The pause is over.
    Slept,
    /// The playing stream has reported an error.
    Broken,
    /// The stream is closed.
    Closed,
}

/// Why there is no capture.
#[derive(Clone, Copy, Debug, PartialEq, Eq, Structural)]
pub enum Failure {
    NoMicrophone,
    NoConfig,
    UnsupportedFormat,
    NoStream,
    NotPlaying,
}

/// What to do next.
#[derive(Clone, Copy, Debug, PartialEq, Eq, Structural)]
pub enum Action {
    /// List the names of the input devices.
    ListDevices,
    /// Look for the default input device.
    OpenDefault,
    /// Take the device at this place of the list, and read its configuration.
    UseListed(usize),
    /// Take the default device, and read its configuration.
    UseDefault,
    /// Build an input stream of this format.
    BuildStream(SampleFormat),
    /// Let the stream play.
    Play,
    /// Pause for [`POLL_INTERVAL_MS`].
    Sleep,
    /// Tell the display of an error of the stream, and pause as for
    /// [`Action::Sleep`].
    Warn,
    /// Close the stream, if there is one.
    CloseStream,
    /// The capture has ended as asked.
    Finish,
    /// The capture has ended with an error: tell the display.
    Fail(Failure),
    /// The event was not waited for: nothing is done.
    Ignore,
}

/// An event as a mathematical value.
pub enum Report {
    Devices(Option<Seq<Option<Seq<char>>>>),
    DefaultDevice(bool),
    Config(Option<SampleFormat>),
    Built(bool),
    Playing(bool),
    Slept,
    Broken,
    Closed,
}

impl View for Event {
    type V = Report;

    open spec fn view(&self) -> Report {
        match self {
            Event::Devices(Some(names)) => Report::Devices(Some(texts(names@))),
            Event::Devices(None) => Report::Devices(None),
            Event::DefaultDevice(found) => Report::DefaultDevice(*found),
            Event::Config(format) => Report::Config(*format),
            Event::Built(ok) => Report::Built(*ok),
            Event::Playing(ok) => Report::Playing(*ok),
            Event::Slept => Report::Slept,
            Event::Broken => Report::Broken,
            Event::Closed => Report::Closed,
        }
    }
}

/// The device to take from a list; `None` for the default device.
pub open spec fn chosen(
    names: Option<Seq<Option<Seq<char>>>>,
    requested: Option<Seq<char>>,
) -> Option<usize> {
    match (names, requested) {
        (Some(names), Some(name)) => first_named(names, name),
        _ => None,
    }
}

/// The next look at the stop flag.
pub open spec fn look(stop_flag: bool) -> (Phase, Action) {
    if stop_flag {
        (Phase::Closing, Action::CloseStream)
    } else {
        (Phase::Streaming, Action::Sleep)
    }
}

/// The course of a capture in charge: what follows on a report in each phase.
/// `requested` is the device asked for, if any, and `stop_flag` whether the capture
/// shall end.
pub open spec fn next(
    phase: Phase,
    report: Report,
    requested: Option<Seq<char>>,
    stop_flag: bool,
) -> (Phase, Action) {
    match (phase, report) {
        (Phase::Listing, Report::Devices(names)) => match chosen(names, requested) {
            Some(i) => (Phase::Configuring, Action::UseListed(i)),
            None => (Phase::Defaulting, Action::OpenDefault),
        },
        (Phase::Defaulting, Report::DefaultDevice(found)) => if found {
            (Phase::Configuring, Action::UseDefault)
        } else {
            (Phase::Ended, Action::Fail(Failure::NoMicrophone))
        },
        (Phase::Configuring, Report::Config(config)) => match config {
            Some(format) => if format.supported() {
                (Phase::Building, Action::BuildStream(format))
            } else {
                (Phase::Ended, Action::Fail(Failure::UnsupportedFormat))
            },
            None => (Phase::Ended, Action::Fail(Failure::NoConfig)),
        },
        (Phase::Building, Report::Built(ok)) => if ok {
            (Phase::Starting, Action::Play)
        } else {
            (Phase::Ended, Action::Fail(Failure::NoStream))
        },
        (Phase::Starting, Report::Playing(ok)) => if ok {
            look(stop_flag)
        } else {
            (Phase::Ended, Action::Fail(Failure::NotPlaying))
        },
        (Phase::Streaming, Report::Slept) => look(stop_flag),
        (Phase::Streaming, Report::Broken) => (Phase::Streaming, Action::Warn),
        (Phase::Closing, Report::Closed) => (Phase::Ended, Action::Finish),
        _ => (phase, Action::Ignore),
    }
}

/// The course of a capture that is no longer in charge: it closes its stream, and
/// ends.
pub open spec fn withdraw(phase: Phase, report: Report) -> (Phase, Action) {
    match (phase, report) {
        (Phase::Ended, _) => (Phase::Ended, Action::Ignore),
        (Phase::Closing, Report::Closed) => (Phase::Ended, Action::Finish),
        (Phase::Closing, _) => (Phase::Closing, Action::Ignore),
        _ => (Phase::Closing, Action::CloseStream),
    }
}

/// Whether a capture ends with this action.
pub open spec fn ends(action: Action) -> bool {
    action is Finish || action is Fail
}

/// The shared state after an action of the capture in charge: its end, with or
/// without an error, and an error of its stream allow another one to begin.
pub open spec fn outcome(audio: Audio, action: Action) -> Audio {
    if ends(action) || action is Warn {
        audio.released()
    } else {
        audio
    }
}

/// What follows on a report to the capture with a given number: its phase, the action
/// and the shared state.
pub open spec fn course(
    number: u64,
    phase: Phase,
    report: Report,
    requested: Option<Seq<char>>,
    audio: Audio,
) -> (Phase, Action, Audio) {
    if number == audio.capture {
        let (after, action) = next(phase, report, requested, audio.stop_flag);
        (after, action, outcome(audio, action))
    } else {
        let (after, action) = withdraw(phase, report);
        (after, action, audio)
    }
}

/// How a capture begins.
pub open spec fn first_step(requested: Option<Seq<char>>) -> (Phase, Action) {
    if requested is Some {
        (Phase::Listing, Action::ListDevices)
    } else {
        (Phase::Defaulting, Action::OpenDefault)
    }
}

/// A capture in its course.
pub struct Listener {
    pub phase: Phase,
    /// The device that was asked for when the capture began.
    pub requested: Option<String>,
    /// The number of the capture.
    pub number: u64,
}

impl Listener {
    /// Whether this is how the capture in charge of `audio` begins.
    pub open spec fn begins(self, action: Action, audio: Audio) -> bool {
        &&& self.number == audio.capture
        &&& text(self.requested) == audio.device_name
        &&& (self.phase, action) == first_step(audio.device_name)
    }

    /// How the capture in charge begins.
    fn first(state: &AudioState) -> (r: (Listener, Action))
        ensures
            r.0.begins(r.1, state@),
    {
        let requested: Option<String> = match &state.device_name {
            Some(name) => Some(name.clone()),
            None => None,
        };
        let number: u64 = state.capture;
        if requested.is_some() {
            (Listener { phase: Phase::Listing, requested, number }, Action::ListDevices)
        } else {
            (Listener { phase: Phase::Defaulting, requested, number }, Action::OpenDefault)
        }
    }
}

/// Begins a capture; while one is under way this does nothing and returns `None`.
pub fn start_audio_listener(state: &mut AudioState) -> (r: Option<(Listener, Action)>)
    ensures
        r is None <==> old(state)@.running,
        final(state)@ == old(state)@.captured(),
        r matches Some((listener, action)) ==> listener.begins(action, final(state)@),
{
    if state.claim_capture() {
        Some(Listener::first(state))
    } else {
        None
    }
}

/// Begins a capture of the chosen device in place of the one before it, which
/// withdraws if it is still under way.
pub fn restart_audio_listener(state: &mut AudioState) -> (r: (Listener, Action))
    ensures
        final(state)@ == old(state)@.restarted(),
        r.0.begins(r.1, final(state)@),
{
    state.take_over();
    Listener::first(state)
}

impl Listener {
    /// Takes the report on the last action, and decides what to do next.
    pub fn step(&mut self, event: Event, state: &mut AudioState) -> (action: Action)
        ensures
            (final(self).phase, action, final(state)@) == course(
                old(self).number,
                old(self).phase,
                event@,
                text(old(self).requested),
                old(state)@,
            ),
            text(final(self).requested) == text(old(self).requested),
            final(self).number == old(self).number,
    {
        if self.number != state.capture {
            let (phase, action): (Phase, Action) = match (self.phase, event) {
                (Phase::Ended, _) => (Phase::Ended, Action::Ignore),
                (Phase::Closing, Event::Closed) => (Phase::Ended, Action::Finish),
                (Phase::Closing, _) => (Phase::Closing, Action::Ignore),
                _ => (Phase::Closing, Action::CloseStream),
            };
            self.phase = phase;
            return action;
        }
        let (phase, action): (Phase, Action) = match (self.phase, event) {
            (Phase::Listing, Event::Devices(names)) => {
                let found: Option<usize> = match (&names, &self.requested) {
                    (Some(names), Some(name)) => find_device(names, name),
                    _ => None,
                };
                match found {
                    Some(i) => (Phase::Configuring, Action::UseListed(i)),
                    None => (Phase::Defaulting, Action::OpenDefault),
                }
            },
            (Phase::Defaulting, Event::DefaultDevice(found)) => {
                if found {
                    (Phase::Configuring, Action::UseDefault)
                } else {
                    (Phase::Ended, Action::Fail(Failure::NoMicrophone))
                }
            },
            (Phase::Configuring, Event::Config(config)) => match config {
                Some(format) => {
                    if format.is_supported() {
                        (Phase::Building, Action::BuildStream(format))
                    } else {
                        (Phase::Ended, Action::Fail(Failure::UnsupportedFormat))
                    }
                },
                None => (Phase::Ended, Action::Fail(Failure::NoConfig)),
            },
            (Phase::Building, Event::Built(ok)) => {
                if ok {
                    (Phase::Starting, Action::Play)
                } else {
                    (Phase::Ended, Action::Fail(Failure::NoStream))
                }
            },
            (Phase::Starting, Event::Playing(ok)) => {
                if !ok {
                    (Phase::Ended, Action::Fail(Failure::NotPlaying))
                } else if state.stop_flag {
                    (Phase::Closing, Action::CloseStream)
                } else {
                    (Phase::Streaming, Action::Sleep)
                }
            },
            (Phase::Streaming, Event::Slept) => {
                if state.stop_flag {
                    (Phase::Closing, Action::CloseStream)
                } else {
                    (Phase::Streaming, Action::Sleep)
                }
            },
            (Phase::Streaming, Event::Broken) => (Phase::Streaming, Action::Warn),
            (Phase::Closing, Event::Closed) => (Phase::Ended, Action::Finish),
            _ => (self.phase, Action::Ignore),
        };
        self.phase = phase;
        match action {
            Action::Finish | Action::Fail(_) | Action::Warn => {
                state.release_capture();
            },
            _ => {},
        }
        action
    }
}

/// The wait of a device switch for the end of the old capture: how many pauses it
/// has made.
pub struct DeviceSwitch {
    pub sleeps: u32,
}

impl DeviceSwitch {
    /// After one more pause.
    pub open spec fn slept(self) -> DeviceSwitch {
        if self.sleeps < SWITCH_POLLS {
            DeviceSwitch { sleeps: (self.sleeps + 1) as u32 }
        } else {
            self
        }
    }

    /// Whether the wait is over: when the old capture has ended, or after the last
    /// pause.
    pub open spec fn is_over(self, running: bool) -> bool {
        !running || self.sleeps >= SWITCH_POLLS
    }

    /// A wait that begins.
    pub fn new() -> (r: DeviceSwitch)
        ensures
            r == (DeviceSwitch { sleeps: 0 }),
    {
        DeviceSwitch { sleeps: 0 }
    }

    /// Counts a pause, and decides whether the wait is over.
    pub fn after_sleep(&mut self, running: bool) -> (over: bool)
        ensures
            *final(self) == old(self).slept(),
            over == old(self).slept().is_over(running),
    {
        if self.sleeps < SWITCH_POLLS {
            self.sleeps = self.sleeps + 1;
        }
        !running || self.sleeps >= SWITCH_POLLS
    }
}

} // verus!
