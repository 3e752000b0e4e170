//! What becomes of a capture, from its beginning to its end, by the reports that it
//! gets.
use crate::devices::first_named;
use crate::devices::texts;
use crate::devices::the_first_match_is_taken;
use crate::listener::course;
use crate::listener::first_step;
use crate::listener::Action;
use crate::listener::Event;
use crate::listener::Failure;
use crate::listener::Listener;
use crate::listener::Phase;
use crate::listener::Report;
use crate::samples::SampleFormat;
use crate::state::Audio;
use crate::state::AudioState;
use vstd::prelude::*;

verus! {

/// What a series of reports makes of the capture with a given number: the phase it is
/// in, the actions taken and the shared state.
pub open spec fn run(
    number: u64,
    phase: Phase,
    reports: Seq<Report>,
    requested: Option<Seq<char>>,
    audio: Audio,
) -> (Phase, Seq<Action>, Audio)
    decreases reports.len(),
{
    if reports.len() == 0 {
        (phase, Seq::empty(), audio)
    } else {
        let (before, actions, left) = run(number, phase, reports.drop_last(), requested, audio);
        let (after, action, now) = course(number, before, reports.last(), requested, left);
        (after, actions.push(action), now)
    }
}

proof fn lemma_run_of_four(
    number: u64,
    phase: Phase,
    a: Report,
    b: Report,
    c: Report,
    d: Report,
    requested: Option<Seq<char>>,
    audio: Audio,
)
    ensures
        ({
            let (p1, x1, s1) = course(number, phase, a, requested, audio);
            let (p2, x2, s2) = course(number, p1, b, requested, s1);
            let (p3, x3, s3) = course(number, p2, c, requested, s2);
            let (p4, x4, s4) = course(number, p3, d, requested, s3);
            run(number, phase, seq![a, b, c, d], requested, audio) == (
                p4,
                seq![x1, x2, x3, x4],
                s4,
            )
        }),
{
    let r4 = seq![a, b, c, d];
    let r3 = seq![a, b, c];
    let r2 = seq![a, b];
    let r1 = seq![a];
    assert(r4.drop_last() =~= r3);
    assert(r3.drop_last() =~= r2);
    assert(r2.drop_last() =~= r1);
    assert(r1.drop_last() =~= Seq::<Report>::empty());
    reveal_with_fuel(run, 5);
    let (p1, x1, s1) = course(number, phase, a, requested, audio);
    let (p2, x2, s2) = course(number, p1, b, requested, s1);
    let (p3, x3, s3) = course(number, p2, c, requested, s2);
    let (p4, x4, s4) = course(number, p3, d, requested, s3);
    assert(Seq::<Action>::empty().push(x1).push(x2).push(x3).push(x4) =~= seq![x1, x2, x3, x4]);
}

/// A capture of the default device whose reports are all good takes the default device,
/// builds a stream of its native format, plays it, and goes on until it is asked to end.
/// The shared state stays as it is.
pub proof fn a_good_capture_of_the_default_device_streams(audio: Audio, format: SampleFormat)
    requires
        format != SampleFormat::Other,
    ensures
        first_step(None) == (Phase::Defaulting, Action::OpenDefault),
        run(
            audio.capture,
            Phase::Defaulting,
            seq![
                Report::DefaultDevice(true),
                Report::Config(Some(format)),
                Report::Built(true),
                Report::Playing(true),
            ],
            None,
            audio,
        ) == (
            if audio.stop_flag {
                Phase::Closing
            } else {
                Phase::Streaming
            },
            seq![
                Action::UseDefault,
                Action::BuildStream(format),
                Action::Play,
                if audio.stop_flag {
                    Action::CloseStream
                } else {
                    Action::Sleep
                },
            ],
            audio,
        ),
{
    lemma_run_of_four(
        audio.capture,
        Phase::Defaulting,
        Report::DefaultDevice(true),
        Report::Config(Some(format)),
        Report::Built(true),
        Report::Playing(true),
        None,
        audio,
    );
}

/// A capture of a device that was asked for by name and is listed, and whose reports are
/// all good, takes the first device of that name, builds a stream of its native format,
/// plays it, and goes on until it is asked to end. The shared state stays as it is.
pub proof fn a_good_capture_of_a_named_device_streams(
    audio: Audio,
    name: Seq<char>,
    names: Seq<Option<Seq<char>>>,
    place: usize,
    format: SampleFormat,
)
    requires
        format != SampleFormat::Other,
        place < names.len() <= usize::MAX,
        names[place as int] == Some(name),
        forall|j: int| 0 <= j < place ==> #[trigger] names[j] != Some(name),
    ensures
        first_step(Some(name)) == (Phase::Listing, Action::ListDevices),
        run(
            audio.capture,
            Phase::Listing,
            seq![
                Report::Devices(Some(names)),
                Report::Config(Some(format)),
                Report::Built(true),
                Report::Playing(true),
            ],
            Some(name),
            audio,
        ) == (
            if audio.stop_flag {
                Phase::Closing
            } else {
                Phase::Streaming
            },
            seq![
                Action::UseListed(place),
                Action::BuildStream(format),
                Action::Play,
                if audio.stop_flag {
                    Action::CloseStream
                } else {
                    Action::Sleep
                },
            ],
            audio,
        ),
{
    the_first_match_is_taken(names, name);
    assert(names.contains(Some(name)));
    lemma_run_of_four(
        audio.capture,
        Phase::Listing,
        Report::Devices(Some(names)),
        Report::Config(Some(format)),
        Report::Built(true),
        Report::Playing(true),
        Some(name),
        audio,
    );
}

/// A device that was asked for by name and cannot be found, because it is not listed or
/// because the devices cannot be listed, is replaced by the default device; from there on
/// the capture goes as any other.
pub proof fn a_good_capture_of_a_missing_device_takes_the_default(
    audio: Audio,
    name: Seq<char>,
    names: Option<Seq<Option<Seq<char>>>>,
    format: SampleFormat,
)
    requires
        format != SampleFormat::Other,
        names matches Some(list) ==> list.len() <= usize::MAX && !list.contains(Some(name)),
    ensures
        run(
            audio.capture,
            Phase::Listing,
            seq![
                Report::Devices(names),
                Report::DefaultDevice(true),
                Report::Config(Some(format)),
                Report::Built(true),
            ],
            Some(name),
            audio,
        ) == (
            Phase::Starting,
            seq![
                Action::OpenDefault,
                Action::UseDefault,
                Action::BuildStream(format),
                Action::Play,
            ],
            audio,
        ),
{
    if let Some(list) = names {
        the_first_match_is_taken(list, name);
        if let Some(i) = first_named(list, name) {
            assert(list.contains(list[i as int]));
        }
    }
    lemma_run_of_four(
        audio.capture,
        Phase::Listing,
        Report::Devices(names),
        Report::DefaultDevice(true),
        Report::Config(Some(format)),
        Report::Built(true),
        Some(name),
        audio,
    );
}

/// From each phase a good report leads on to the next one, whatever device was asked for
/// and whether or not a stop is: only a stream that plays looks at the stop flag.
pub proof fn every_good_report_leads_on(
    audio: Audio,
    requested: Option<Seq<char>>,
    format: SampleFormat,
)
    requires
        format != SampleFormat::Other,
    ensures
        course(audio.capture, Phase::Defaulting, Report::DefaultDevice(true), requested, audio)
            == (Phase::Configuring, Action::UseDefault, audio),
        course(audio.capture, Phase::Configuring, Report::Config(Some(format)), requested, audio)
            == (Phase::Building, Action::BuildStream(format), audio),
        course(audio.capture, Phase::Building, Report::Built(true), requested, audio) == (
            Phase::Starting,
            Action::Play,
            audio,
        ),
        !audio.stop_flag ==> course(
            audio.capture,
            Phase::Starting,
            Report::Playing(true),
            requested,
            audio,
        ) == (Phase::Streaming, Action::Sleep, audio),
        audio.stop_flag ==> course(
            audio.capture,
            Phase::Starting,
            Report::Playing(true),
            requested,
            audio,
        ) == (Phase::Closing, Action::CloseStream, audio),
{
}

/// Every bad report ends the capture with an error that says what went wrong, and another
/// capture can begin. Nothing else of the shared state changes.
pub proof fn every_bad_report_ends_the_capture(audio: Audio, requested: Option<Seq<char>>)
    ensures
        ({
            let freed = Audio { running: false, ..audio };
            let n = audio.capture;
            &&& course(n, Phase::Defaulting, Report::DefaultDevice(false), requested, audio) == (
                Phase::Ended,
                Action::Fail(Failure::NoMicrophone),
                freed,
            )
            &&& course(n, Phase::Configuring, Report::Config(None), requested, audio) == (
                Phase::Ended,
                Action::Fail(Failure::NoConfig),
                freed,
            )
            &&& course(
                n,
                Phase::Configuring,
                Report::Config(Some(SampleFormat::Other)),
                requested,
                audio,
            ) == (Phase::Ended, Action::Fail(Failure::UnsupportedFormat), freed)
            &&& course(n, Phase::Building, Report::Built(false), requested, audio) == (
                Phase::Ended,
                Action::Fail(Failure::NoStream),
                freed,
            )
            &&& course(n, Phase::Starting, Report::Playing(false), requested, audio) == (
                Phase::Ended,
                Action::Fail(Failure::NotPlaying),
                freed,
            )
        }),
{
}

/// An error of a playing stream is told to the display at once and lets another capture
/// begin, and this one goes on looking at the stop flag.
pub proof fn a_stream_error_is_told(audio: Audio, requested: Option<Seq<char>>)
    ensures
        course(audio.capture, Phase::Streaming, Report::Broken, requested, audio) == (
            Phase::Streaming,
            Action::Warn,
            Audio { running: false, ..audio },
        ),
{
}

/// Whether a report answers what a capture waits for in a phase.
pub open spec fn is_awaited(phase: Phase, report: Report) -> bool {
    match report {
        Report::Devices(_) => phase == Phase::Listing,
        Report::DefaultDevice(_) => phase == Phase::Defaulting,
        Report::Config(_) => phase == Phase::Configuring,
        Report::Built(_) => phase == Phase::Building,
        Report::Playing(_) => phase == Phase::Starting,
        Report::Slept => phase == Phase::Streaming,
        Report::Broken => phase == Phase::Streaming,
        Report::Closed => phase == Phase::Closing,
    }
}

/// A report that is not waited for changes nothing, and one that is waited for is never
/// ignored.
pub proof fn only_awaited_reports_count(
    audio: Audio,
    phase: Phase,
    report: Report,
    requested: Option<Seq<char>>,
)
    ensures
        !is_awaited(phase, report) ==> course(audio.capture, phase, report, requested, audio) == (
            phase,
            Action::Ignore,
            audio,
        ),
        is_awaited(phase, report) ==> course(audio.capture, phase, report, requested, audio).1
            != Action::Ignore,
{
}

/// A playing capture goes on for as many pauses as come without a stop, and ends with the
/// first pause after one: the stream is closed, and another capture can begin.
pub proof fn a_capture_plays_until_it_is_stopped(
    audio: Audio,
    requested: Option<Seq<char>>,
    pauses: nat,
)
    requires
        !audio.stop_flag,
    ensures
        run(
            audio.capture,
            Phase::Streaming,
            Seq::new(pauses, |i: int| Report::Slept),
            requested,
            audio,
        ) == (Phase::Streaming, Seq::new(pauses, |i: int| Action::Sleep), audio),
        ({
            let asked = Audio { stop_flag: true, ..audio };
            &&& course(audio.capture, Phase::Streaming, Report::Slept, requested, asked) == (
                Phase::Closing,
                Action::CloseStream,
                asked,
            )
            &&& course(audio.capture, Phase::Closing, Report::Closed, requested, asked) == (
                Phase::Ended,
                Action::Finish,
                Audio { running: false, ..asked },
            )
        }),
    decreases pauses,
{
    let reports = Seq::new(pauses, |i: int| Report::Slept);
    if pauses > 0 {
        let m = (pauses - 1) as nat;
        a_capture_plays_until_it_is_stopped(audio, requested, m);
        assert(reports.drop_last() =~= Seq::new(m, |i: int| Report::Slept));
        assert(Seq::new(m, |i: int| Action::Sleep).push(Action::Sleep) =~= Seq::new(
            pauses,
            |i: int| Action::Sleep,
        ));
    } else {
        assert(Seq::new(0, |i: int| Action::Sleep) =~= Seq::<Action>::empty());
    }
}

/// A capture begins with the number of the one in charge, and asks for the device that is
/// chosen then: it lists the devices for one that has a name, and else looks for the
/// default device.
pub proof fn a_capture_asks_for_the_chosen_device(listener: Listener, action: Action, audio: Audio)
    requires
        listener.begins(action, audio),
    ensures
        listener.number == audio.capture,
        listener.requested matches Some(name) ==> audio.device_name == Some(name@)
            && listener.phase == Phase::Listing && action == Action::ListDevices,
        listener.requested is None ==> audio.device_name is None && listener.phase
            == Phase::Defaulting && action == Action::OpenDefault,
{
}

/// A start begins a capture exactly if none is under way, under a number of its own, and
/// changes nothing else.
pub proof fn a_start_begins_a_capture_unless_one_runs(audio: Audio)
    ensures
        audio.running ==> audio.captured() == audio,
        !audio.running ==> {
            &&& audio.captured() == (Audio {
                running: true,
                capture: audio.captured().capture,
                ..audio
            })
            &&& audio.captured().capture != audio.capture
            &&& audio.captured().capture == audio.restarted().capture
        },
        audio.released() == (Audio { running: false, ..audio }),
{
}

/// The state after as many restarts.
pub open spec fn restarts(audio: Audio, times: nat) -> Audio
    decreases times,
{
    if times == 0 {
        audio
    } else {
        restarts(audio, (times - 1) as nat).restarted()
    }
}

/// The numbers of captures do not recur: none is that of one before it, until there have
/// been 2^64 of them.
pub proof fn capture_numbers_do_not_recur(audio: Audio, times: nat)
    ensures
        restarts(audio, times).capture == (audio.capture + times) % 0x1_0000_0000_0000_0000,
        0 < times < 0x1_0000_0000_0000_0000 ==> restarts(audio, times).capture != audio.capture,
    decreases times,
{
    if times > 0 {
        capture_numbers_do_not_recur(audio, (times - 1) as nat);
    }
}

/// At the start nothing is muted, captured, asked to end, calibrated or chosen.
pub proof fn the_meter_starts_idle(audio: Audio)
    requires
        audio == Audio::initial(),
    ensures
        !audio.muted && !audio.running && !audio.stop_flag,
        !audio.calibration.active && audio.calibration.samples.len() == 0,
        audio.device_name is None,
{
}

/// The view of the shared state shows every part of it.
pub proof fn the_state_is_seen_as_it_is(state: AudioState)
    ensures
        state@.muted == state.muted,
        state@.running == state.running,
        state@.stop_flag == state.stop_flag,
        state@.capture == state.capture,
        state@.calibration.active == state.calibration.active,
        state@.calibration.samples == state.calibration.samples@,
        state.device_name matches Some(name) ==> state@.device_name == Some(name@),
        state.device_name is None ==> state@.device_name is None,
{
}

/// The view of an event shows all of it.
pub proof fn an_event_is_seen_as_it_is(event: Event)
    ensures
        match event {
            Event::Devices(None) => event@ == Report::Devices(None),
            Event::Devices(Some(names)) => {
                &&& event@ == Report::Devices(Some(texts(names@)))
                &&& texts(names@).len() == names@.len()
                &&& forall|i: int|
                    0 <= i < names@.len() ==> #[trigger] texts(names@)[i] == (match names@[i] {
                        Some(name) => Some(name@),
                        None => None,
                    })
            },
            Event::DefaultDevice(found) => event@ == Report::DefaultDevice(found),
            Event::Config(format) => event@ == Report::Config(format),
            Event::Built(ok) => event@ == Report::Built(ok),
            Event::Playing(ok) => event@ == Report::Playing(ok),
            Event::Slept => event@ == Report::Slept,
            Event::Broken => event@ == Report::Broken,
            Event::Closed => event@ == Report::Closed,
        },
{
}

} // verus!
