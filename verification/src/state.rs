//! The state that the commands and the capture share.
use crate::calibration::threshold_stats;
use crate::calibration::CalibMode;
use crate::calibration::CalibrationResult;
use crate::calibration::CalibrationState;
use crate::calibration::Window;
use crate::devices::text;
use crate::single::Single;
use crate::throttle::EmitThrottle;
use vstd::prelude::*;

verus! {

/// The state that the commands and the capture share.
pub struct AudioState {
    /// Whether readings are kept from the display; the microphone stays open.
    pub muted: bool,
    /// Whether a capture is under way.
    pub running: bool,
    /// Whether the capture under way has been asked to end.
    pub stop_flag: bool,
    /// The calibration window.
    pub calibration: CalibrationState,
    /// The name of the chosen input device; `None` for the default of the system.
    pub device_name: Option<String>,
    /// The number of the capture in charge: the one that began last.
    pub capture: u64,
}

/// The shared state as a mathematical value.
pub struct Audio {
    pub muted: bool,
    pub running: bool,
    pub stop_flag: bool,
    pub calibration: Window,
    pub device_name: Option<Seq<char>>,
    pub capture: u64,
}

impl View for AudioState {
    type V = Audio;

    open spec fn view(&self) -> Audio {
        Audio {
            muted: self.muted,
            running: self.running,
            stop_flag: self.stop_flag,
            calibration: self.calibration@,
            device_name: text(self.device_name),
            capture: self.capture,
        }
    }
}

/// The number of the capture that begins after the one with the number `n`.
pub open spec fn following(n: u64) -> u64 {
    if n == u64::MAX {
        0
    } else {
        (n + 1) as u64
    }
}

impl Audio {
    /// At the start nothing is muted, captured, chosen or calibrated.
    pub open spec fn initial() -> Audio {
        Audio {
            muted: false,
            running: false,
            stop_flag: false,
            calibration: Window { active: false, samples: Seq::empty() },
            device_name: None,
            capture: 0,
        }
    }

    /// After a toggle of the mute.
    pub open spec fn mute_toggled(self) -> Audio {
        Audio { muted: !self.muted, ..self }
    }

    /// After a start: unless a capture is under way, one begins and is in charge.
    pub open spec fn captured(self) -> Audio {
        if self.running {
            self
        } else {
            Audio { running: true, capture: following(self.capture), ..self }
        }
    }

    /// After a restart: a capture begins and is in charge, whether or not another one
    /// is still under way, and nothing asks it to end.
    pub open spec fn restarted(self) -> Audio {
        Audio { running: true, stop_flag: false, capture: following(self.capture), ..self }
    }

    /// After the capture in charge has ended.
    pub open spec fn released(self) -> Audio {
        Audio { running: false, ..self }
    }

    /// After the choice of a device: the capture is asked to end. The empty name
    /// stands for the default device.
    pub open spec fn switched(self, name: Seq<char>) -> Audio {
        Audio {
            stop_flag: true,
            device_name: if name.len() == 0 {
                None
            } else {
                Some(name)
            },
            ..self
        }
    }

    /// After a change of the calibration window.
    pub open spec fn calibrating(self, window: Window) -> Audio {
        Audio { calibration: window, ..self }
    }
}

impl AudioState {
    /// The state at the start.
    pub fn new() -> (r: AudioState)
        ensures
            r@ == Audio::initial(),
    {
        AudioState {
            muted: false,
            running: false,
            stop_flag: false,
            calibration: CalibrationState::new(),
            device_name: None,
            capture: 0,
        }
    }

    /// Toggles the mute and returns whether readings are now muted.
    pub fn toggle_mute(&mut self) -> (muted: bool)
        ensures
            final(self)@ == old(self)@.mute_toggled(),
            muted == final(self)@.muted,
    {
        self.muted = !self.muted;
        self.muted
    }

    /// Puts a capture that begins in charge, and returns true; while one is under way
    /// this does nothing and returns false.
    pub fn claim_capture(&mut self) -> (claimed: bool)
        ensures
            claimed == !old(self)@.running,
            final(self)@ == old(self)@.captured(),
    {
        if self.running {
            return false;
        }
        self.running = true;
        self.capture = self.capture.wrapping_add(1);
        true
    }

    /// Puts a capture that begins in charge in place of any other, and withdraws the
    /// request to end.
    pub fn take_over(&mut self)
        ensures
            final(self)@ == old(self)@.restarted(),
    {
        self.stop_flag = false;
        self.running = true;
        self.capture = self.capture.wrapping_add(1);
    }

    /// Notes that the capture in charge has ended.
    pub fn release_capture(&mut self)
        ensures
            final(self)@ == old(self)@.released(),
    {
        self.running = false;
    }

    /// Chooses the input device for the next capture, and asks the one under way
    /// to end. The empty name stands for the default device.
    pub fn set_audio_device(&mut self, name: String)
        ensures
            final(self)@ == old(self)@.switched(name@),
    {
        self.device_name = if name.as_str().is_empty() {
            None
        } else {
            Some(name)
        };
        self.stop_flag = true;
    }

    /// Opens a calibration window and returns its mode; while one is open this does
    /// nothing and returns `None`.
    pub fn start_calibration(&mut self, mode: &String) -> (r: Option<CalibMode>)
        ensures
            final(self)@ == old(self)@.calibrating(old(self)@.calibration.opened()),
            r == (if old(self)@.calibration.active {
                None
            } else {
                Some(CalibMode::named(mode@))
            }),
    {
        if self.calibration.open_window() {
            Some(CalibMode::from_name(mode))
        } else {
            None
        }
    }

    /// Closes the calibration window and reports on its readings.
    pub fn finish_calibration(&mut self, mode: &CalibMode) -> (r: CalibrationResult)
        ensures
            final(self)@ == old(self)@.calibrating(old(self)@.calibration.closed()),
            r.stats() == threshold_stats(old(self)@.calibration.samples, *mode),
            r.mode@ == mode.name(),
    {
        self.calibration.close_window(mode)
    }
}

/// Takes a reading from the capture with a given number: into the calibration window,
/// and returns whether to send it to the display. A capture that is no longer in
/// charge is not listened to.
pub fn on_db(
    state: &mut AudioState,
    capture: u64,
    throttle: &mut EmitThrottle,
    now_ms: u64,
    db: Single,
) -> (sent: bool)
    ensures
        capture == old(state)@.capture ==> {
            &&& final(state)@ == old(state)@.calibrating(old(state)@.calibration.with(db))
            &&& sent == (!old(state)@.muted && old(throttle).is_due(now_ms))
            &&& *final(throttle) == old(throttle).after(old(state)@.muted, now_ms)
        },
        capture != old(state)@.capture ==> {
            &&& final(state)@ == old(state)@
            &&& !sent
            &&& *final(throttle) == *old(throttle)
        },
{
    if capture != state.capture {
        return false;
    }
    state.calibration.record(db);
    throttle.should_emit(state.muted, now_ms)
}

} // verus!
