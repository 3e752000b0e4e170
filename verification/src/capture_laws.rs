//! What holds of every course of a capture and of every state.
use crate::calibration::Window;
use crate::devices::first_named;
use crate::listener::course;
use crate::listener::ends;
use crate::listener::first_step;
use crate::listener::next;
use crate::listener::Action;
use crate::listener::DeviceSwitch;
use crate::listener::Failure;
use crate::listener::Phase;
use crate::listener::Report;
use crate::listener::POLL_INTERVAL_MS;
use crate::listener::SWITCH_POLLS;
use crate::samples::SampleFormat;
use crate::state::Audio;
use vstd::prelude::*;

verus! {

/// Toggling the mute twice changes nothing, and toggling it once nothing else: the
/// capture goes on, and so does a calibration.
pub proof fn the_mute_is_a_toggle_of_its_own(audio: Audio, window: Window)
    ensures
        audio.mute_toggled().mute_toggled() == audio,
        audio.mute_toggled().muted == !audio.muted,
        audio.mute_toggled() == (Audio { muted: !audio.muted, ..audio }),
        audio.mute_toggled().calibrating(window) == audio.calibrating(window).mute_toggled(),
        audio.calibrating(window) == (Audio { calibration: window, ..audio }),
{
}

/// A capture that has ended stays so, and one comes to its end exactly with a
/// [`Action::Finish`] or a [`Action::Fail`]: no end goes untold.
pub proof fn a_capture_ends_once(
    number: u64,
    phase: Phase,
    report: Report,
    requested: Option<Seq<char>>,
    audio: Audio,
)
    ensures
        ({
            let (after, action, _) = course(number, phase, report, requested, audio);
            &&& phase == Phase::Ended ==> after == Phase::Ended && action == Action::Ignore
            &&& phase != Phase::Ended ==> (after == Phase::Ended <==> ends(action))
        }),
{
}

/// Once the capture in charge has ended, or its stream has reported an error, another
/// one can begin; until then none can.
pub proof fn an_ended_capture_can_be_retried(
    audio: Audio,
    phase: Phase,
    report: Report,
    requested: Option<Seq<char>>,
)
    requires
        audio.running,
        phase != Phase::Ended,
    ensures
        ({
            let (after, action, freed) = course(audio.capture, phase, report, requested, audio);
            &&& !freed.running <==> after == Phase::Ended || action == Action::Warn
            &&& !freed.running ==> freed.captured().running && freed.captured().capture
                != audio.capture
            &&& freed.running ==> freed.captured() == freed
        }),
{
}

/// A playing stream goes on until a stop is asked for, and is then closed.
pub proof fn a_stop_is_heeded(requested: Option<Seq<char>>)
    ensures
        next(Phase::Streaming, Report::Slept, requested, false) == (
            Phase::Streaming,
            Action::Sleep,
        ),
        next(Phase::Streaming, Report::Slept, requested, true) == (
            Phase::Closing,
            Action::CloseStream,
        ),
        forall|stop_flag: bool| #[trigger]
            next(Phase::Closing, Report::Closed, requested, stop_flag) == (
                Phase::Ended,
                Action::Finish,
            ),
{
}

/// How many reports that are waited for may come before a capture that shall end has
/// ended.
pub open spec fn reports_to_the_end(phase: Phase) -> nat {
    match phase {
        Phase::Listing => 7,
        Phase::Defaulting => 6,
        Phase::Configuring => 5,
        Phase::Building => 4,
        Phase::Starting => 3,
        Phase::Streaming => 2,
        Phase::Closing => 1,
        Phase::Ended => 0,
    }
}

/// A stop is heeded from every phase: once it is asked for, each report that is waited
/// for brings the capture nearer to its end. An error of the stream is not waited for.
pub proof fn a_stop_is_heeded_from_every_phase(
    phase: Phase,
    report: Report,
    requested: Option<Seq<char>>,
)
    ensures
        ({
            let (after, action) = next(phase, report, requested, true);
            action != Action::Ignore && action != Action::Warn ==> reports_to_the_end(after)
                < reports_to_the_end(phase)
        }),
        reports_to_the_end(phase) == 0 <==> phase == Phase::Ended,
{
}

/// A capture that is no longer in charge closes its stream at the next report, in
/// whatever phase it is, and ends once that is done. It changes nothing of the shared
/// state, and tells the display of no error.
pub proof fn a_capture_that_was_replaced_withdraws(
    number: u64,
    phase: Phase,
    report: Report,
    requested: Option<Seq<char>>,
    audio: Audio,
)
    requires
        number != audio.capture,
    ensures
        ({
            let (after, action, left) = course(number, phase, report, requested, audio);
            &&& left == audio
            &&& phase != Phase::Closing && phase != Phase::Ended ==> after == Phase::Closing
                && action == Action::CloseStream
            &&& action !is Fail && action != Action::Warn
            &&& phase == Phase::Closing && report != Report::Closed ==> after == Phase::Closing
                && action == Action::Ignore
        }),
        course(number, Phase::Closing, Report::Closed, requested, audio) == (
            Phase::Ended,
            Action::Finish,
            audio,
        ),
{
}

/// A capture opens the device asked for if it is listed, and on any failure to find
/// it the default device.
pub proof fn an_unknown_device_falls_back_to_the_default(
    names: Option<Seq<Option<Seq<char>>>>,
    name: Seq<char>,
    stop_flag: bool,
)
    ensures
        first_step(Some(name)) == (Phase::Listing, Action::ListDevices),
        next(Phase::Listing, Report::Devices(names), Some(name), stop_flag) == (match names {
            Some(list) if first_named(list, name) is Some => (
                Phase::Configuring,
                Action::UseListed(first_named(list, name)->0),
            ),
            _ => (Phase::Defaulting, Action::OpenDefault),
        }),
{
}

/// Every format that is read leads to a stream of that format, and every other one
/// to an error.
pub proof fn the_native_format_is_used(
    format: SampleFormat,
    requested: Option<Seq<char>>,
    stop_flag: bool,
)
    ensures
        next(Phase::Configuring, Report::Config(Some(format)), requested, stop_flag) == (
        if format == SampleFormat::Other {
            (Phase::Ended, Action::Fail(Failure::UnsupportedFormat))
        } else {
            (Phase::Building, Action::BuildStream(format))
        }),
{
}

/// A switch of devices always reopens with the new device, the default one if the name
/// is empty. `later` is the state when the wait is over: whatever has happened
/// meanwhile, but for another choice of a device. Whether the old capture has ended by
/// then or not, and in whatever phase it is, the capture that begins is in charge and
/// asks for the new device, and the old one closes its stream and ends without a
/// trace. Nothing else has changed.
pub proof fn a_switch_reopens_with_the_new_device(
    audio: Audio,
    name: Seq<char>,
    later: Audio,
    old_phase: Phase,
    report: Report,
    requested: Option<Seq<char>>,
)
    requires
        later.device_name == audio.switched(name).device_name,
    ensures
        ({
            let chosen = if name.len() == 0 {
                None
            } else {
                Some(name)
            };
            let anew = later.restarted();
            let (after, action, left) = course(later.capture, old_phase, report, requested, anew);
            &&& audio.switched(name) == (Audio { stop_flag: true, device_name: chosen, ..audio })
            &&& anew == (Audio {
                running: true,
                stop_flag: false,
                device_name: chosen,
                capture: anew.capture,
                ..later
            })
            &&& anew.capture != later.capture
            &&& first_step(anew.device_name) == (if name.len() == 0 {
                (Phase::Defaulting, Action::OpenDefault)
            } else {
                (Phase::Listing, Action::ListDevices)
            })
            &&& left == anew
            &&& old_phase != Phase::Closing && old_phase != Phase::Ended ==> (after, action) == (
                Phase::Closing,
                Action::CloseStream,
            )
            &&& course(later.capture, Phase::Closing, Report::Closed, requested, anew) == (
                Phase::Ended,
                Action::Finish,
                anew,
            )
        }),
{
}

/// The wait of a device switch after some pauses.
pub open spec fn switch_after(pauses: nat) -> DeviceSwitch
    decreases pauses,
{
    if pauses == 0 {
        DeviceSwitch { sleeps: 0 }
    } else {
        switch_after((pauses - 1) as nat).slept()
    }
}

/// A device switch waits no longer than 300 ms for the old capture, and no longer
/// than that capture runs.
pub proof fn a_switch_waits_at_most_300_ms(pauses: nat, running: bool)
    ensures
        switch_after(pauses).is_over(running) <==> !running || pauses * POLL_INTERVAL_MS >= 300,
    decreases pauses,
{
    lemma_switch_after(pauses);
}

proof fn lemma_switch_after(pauses: nat)
    ensures
        switch_after(pauses).sleeps == (if pauses < SWITCH_POLLS {
            pauses
        } else {
            SWITCH_POLLS as nat
        }),
    decreases pauses,
{
    if pauses > 0 {
        lemma_switch_after((pauses - 1) as nat);
    }
}

} // verus!
