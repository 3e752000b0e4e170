//! The course of a capture, the shared state and the throttle.
use decibel_counter::calibration::CalibMode;
use decibel_counter::devices::{find_device, list_audio_devices};
use decibel_counter::listener::{
    restart_audio_listener, start_audio_listener, Action, DeviceSwitch, Event, Failure, Listener,
    Phase, POLL_INTERVAL_MS,
};
use decibel_counter::samples::SampleFormat;
use decibel_counter::single::Single;
use decibel_counter::state::{on_db, AudioState};
use decibel_counter::throttle::EmitThrottle;

fn named(name: &str) -> Option<String> {
    Some(name.to_string())
}

fn begin(state: &mut AudioState) -> (Listener, Action) {
    start_audio_listener(state).unwrap()
}

/// A capture of the default device, up to its first pause.
fn playing(state: &mut AudioState) -> Listener {
    let (mut listener, action) = begin(state);
    assert_eq!(action, Action::OpenDefault);
    assert_eq!(listener.step(Event::DefaultDevice(true), state), Action::UseDefault);
    let format = SampleFormat::F32;
    assert_eq!(
        listener.step(Event::Config(Some(format)), state),
        Action::BuildStream(format)
    );
    assert_eq!(listener.step(Event::Built(true), state), Action::Play);
    assert_eq!(listener.step(Event::Playing(true), state), Action::Sleep);
    listener
}

#[test]
fn a_capture_plays_until_it_is_stopped() {
    let mut state = AudioState::new();
    let mut listener = playing(&mut state);
    assert!(state.running);
    assert_eq!(listener.step(Event::Slept, &mut state), Action::Sleep);
    state.stop_flag = true;
    assert_eq!(listener.step(Event::Slept, &mut state), Action::CloseStream);
    assert!(state.running);
    assert_eq!(listener.step(Event::Closed, &mut state), Action::Finish);
    assert!(!state.running);
    assert_eq!(listener.phase, Phase::Ended);
}

#[test]
fn a_stop_before_the_first_pause_closes_at_once() {
    let mut state = AudioState::new();
    let (mut listener, _) = begin(&mut state);
    listener.step(Event::DefaultDevice(true), &mut state);
    listener.step(Event::Config(Some(SampleFormat::I16)), &mut state);
    listener.step(Event::Built(true), &mut state);
    state.stop_flag = true;
    assert_eq!(listener.step(Event::Playing(true), &mut state), Action::CloseStream);
}

#[test]
fn a_second_start_does_nothing() {
    let mut state = AudioState::new();
    let _listener = playing(&mut state);
    assert!(start_audio_listener(&mut state).is_none());
    assert!(state.running);
}

/// Runs a capture to the event that fails, and starts another one.
fn fails(events: Vec<Event>, failure: Failure) {
    let mut state = AudioState::new();
    let (mut listener, _) = begin(&mut state);
    let mut action = Action::Ignore;
    for event in events {
        assert!(state.running);
        action = listener.step(event, &mut state);
    }
    assert_eq!(action, Action::Fail(failure));
    assert!(!state.running);
    assert_eq!(listener.step(Event::Slept, &mut state), Action::Ignore);
    assert!(start_audio_listener(&mut state).is_some());
}

#[test]
fn a_missing_microphone_fails() {
    fails(vec![Event::DefaultDevice(false)], Failure::NoMicrophone);
}

#[test]
fn an_unreadable_configuration_fails() {
    fails(vec![Event::DefaultDevice(true), Event::Config(None)], Failure::NoConfig);
}

#[test]
fn an_unknown_format_fails() {
    fails(
        vec![Event::DefaultDevice(true), Event::Config(Some(SampleFormat::Other))],
        Failure::UnsupportedFormat,
    );
}

#[test]
fn a_stream_that_cannot_be_built_fails() {
    fails(
        vec![
            Event::DefaultDevice(true),
            Event::Config(Some(SampleFormat::U16)),
            Event::Built(false),
        ],
        Failure::NoStream,
    );
}

#[test]
fn a_stream_that_does_not_play_fails() {
    fails(
        vec![
            Event::DefaultDevice(true),
            Event::Config(Some(SampleFormat::I32)),
            Event::Built(true),
            Event::Playing(false),
        ],
        Failure::NotPlaying,
    );
}

#[test]
fn a_chosen_device_is_looked_up_by_name() {
    let mut state = AudioState::new();
    state.set_audio_device("USB".to_string());
    let (mut listener, action) = restart_audio_listener(&mut state);
    assert_eq!(action, Action::ListDevices);
    let names = vec![named("Built-in"), None, named("USB"), named("USB")];
    assert_eq!(
        listener.step(Event::Devices(Some(names)), &mut state),
        Action::UseListed(2)
    );
}

#[test]
fn a_device_that_is_gone_falls_back_to_the_default() {
    for names in [None, Some(vec![]), Some(vec![None, named("usb"), named("")])] {
        let mut state = AudioState::new();
        state.set_audio_device("USB".to_string());
        let (mut listener, _) = restart_audio_listener(&mut state);
        assert_eq!(listener.step(Event::Devices(names), &mut state), Action::OpenDefault);
        assert_eq!(listener.step(Event::DefaultDevice(true), &mut state), Action::UseDefault);
    }
}

#[test]
fn unexpected_events_are_ignored() {
    let mut state = AudioState::new();
    let mut listener = playing(&mut state);
    assert_eq!(listener.step(Event::Built(false), &mut state), Action::Ignore);
    assert_eq!(listener.phase, Phase::Streaming);
    assert!(state.running);
}

#[test]
fn a_switch_reopens_with_the_new_device() {
    let mut state = AudioState::new();
    let mut listener = playing(&mut state);
    state.set_audio_device("USB".to_string());
    assert!(state.stop_flag);
    let mut switch = DeviceSwitch::new();
    assert!(!switch.after_sleep(state.running));
    listener.step(Event::Slept, &mut state);
    listener.step(Event::Closed, &mut state);
    assert!(switch.after_sleep(state.running));
    let (listener, action) = restart_audio_listener(&mut state);
    assert_eq!(action, Action::ListDevices);
    assert_eq!(listener.requested, named("USB"));
    assert!(state.running && !state.stop_flag);
}

#[test]
fn a_switch_to_the_empty_name_takes_the_default() {
    let mut state = AudioState::new();
    state.set_audio_device("USB".to_string());
    state.set_audio_device(String::new());
    assert_eq!(state.device_name, None);
    let (_, action) = restart_audio_listener(&mut state);
    assert_eq!(action, Action::OpenDefault);
}

#[test]
fn a_switch_gives_up_after_300_ms() {
    let mut switch = DeviceSwitch::new();
    let mut waited = 0;
    loop {
        waited += POLL_INTERVAL_MS;
        if switch.after_sleep(true) {
            break;
        }
    }
    assert_eq!(waited, 300);
}

#[test]
fn a_switch_does_not_depend_on_the_end_of_the_old_capture() {
    let mut state = AudioState::new();
    let mut old = playing(&mut state);
    state.set_audio_device("USB".to_string());
    let (mut new, action) = restart_audio_listener(&mut state);
    assert_eq!(action, Action::ListDevices);
    assert_eq!(new.requested, named("USB"));
    assert_ne!(new.number, old.number);
    assert!(state.running && !state.stop_flag);

    assert_eq!(old.step(Event::Slept, &mut state), Action::CloseStream);
    assert_eq!(old.step(Event::Closed, &mut state), Action::Finish);
    assert_eq!(old.phase, Phase::Ended);
    assert!(state.running && !state.stop_flag);
    assert_eq!(
        new.step(Event::Devices(Some(vec![named("USB")])), &mut state),
        Action::UseListed(0)
    );
}

#[test]
fn a_replaced_capture_withdraws_from_every_phase() {
    for steps in 0..5 {
        let mut state = AudioState::new();
        let (mut old, _) = begin(&mut state);
        let events = vec![
            Event::DefaultDevice(true),
            Event::Config(Some(SampleFormat::F32)),
            Event::Built(true),
            Event::Playing(true),
        ];
        for event in events.into_iter().take(steps) {
            old.step(event, &mut state);
        }
        restart_audio_listener(&mut state);
        let report = match old.phase {
            Phase::Defaulting => Event::DefaultDevice(false),
            Phase::Configuring => Event::Config(None),
            Phase::Building => Event::Built(false),
            Phase::Starting => Event::Playing(false),
            _ => Event::Broken,
        };
        assert_eq!(old.step(report, &mut state), Action::CloseStream);
        assert!(state.running);
        assert_eq!(old.step(Event::Slept, &mut state), Action::Ignore);
        assert_eq!(old.step(Event::Closed, &mut state), Action::Finish);
        assert!(state.running);
        assert_eq!(old.step(Event::Closed, &mut state), Action::Ignore);
    }
}

#[test]
fn a_broken_stream_is_told_and_can_be_replaced() {
    let mut state = AudioState::new();
    let mut old = playing(&mut state);
    assert_eq!(old.step(Event::Broken, &mut state), Action::Warn);
    assert!(!state.running);
    assert_eq!(old.step(Event::Slept, &mut state), Action::Sleep);
    let new = playing(&mut state);
    assert_ne!(new.number, old.number);
    assert_eq!(old.step(Event::Slept, &mut state), Action::CloseStream);
    assert_eq!(old.step(Event::Closed, &mut state), Action::Finish);
    assert!(state.running);
}

#[test]
fn capture_numbers_go_round() {
    let mut state = AudioState::new();
    state.capture = u64::MAX;
    let (listener, _) = begin(&mut state);
    assert_eq!(listener.number, 0);
    assert_eq!(state.capture, 0);
}

#[test]
fn the_mute_toggles() {
    let mut state = AudioState::new();
    assert!(state.toggle_mute());
    assert!(state.muted);
    assert!(!state.toggle_mute());
    assert!(!state.muted);
}

#[test]
fn calibration_goes_on_while_muted_and_throttled() {
    let mut state = AudioState::new();
    let mut throttle = EmitThrottle::new();
    let db = Single { bits: 75.0_f32.to_bits() };
    assert_eq!(state.start_calibration(&"limit".to_string()), Some(CalibMode::Limit));
    assert_eq!(state.start_calibration(&"normal".to_string()), None);
    let mut sent = 0;
    for i in 0..40 {
        if i == 20 {
            state.toggle_mute();
        }
        if on_db(&mut state, 0, &mut throttle, 25 * i, db) {
            sent += 1;
        }
    }
    assert_eq!(sent, 4);
    let result = state.finish_calibration(&CalibMode::Limit);
    assert_eq!(state.calibration.samples.len(), 40);
    assert_eq!(result.threshold, db);
    assert_eq!(result.mode, "limit");
    assert_eq!(state.start_calibration(&"anything".to_string()), Some(CalibMode::Normal));
}

#[test]
fn a_reading_is_sent_every_100_ms_unless_muted() {
    let mut state = AudioState::new();
    let mut throttle = EmitThrottle::new();
    let db = Single { bits: 0 };
    assert!(!on_db(&mut state, 0, &mut throttle, 99, db));
    assert!(on_db(&mut state, 0, &mut throttle, 100, db));
    assert!(!on_db(&mut state, 0, &mut throttle, 199, db));
    state.toggle_mute();
    assert!(!on_db(&mut state, 0, &mut throttle, 200, db));
    state.toggle_mute();
    assert!(on_db(&mut state, 0, &mut throttle, 200, db));
    assert_eq!(throttle.last_ms, 200);
    assert!(state.calibration.samples.is_empty());
}

#[test]
fn a_replaced_capture_is_not_listened_to() {
    let mut state = AudioState::new();
    let old = playing(&mut state);
    let (new, _) = restart_audio_listener(&mut state);
    state.start_calibration(&"limit".to_string());
    let mut throttle = EmitThrottle::new();
    let db = Single { bits: 0 };
    assert!(!on_db(&mut state, old.number, &mut throttle, 500, db));
    assert!(state.calibration.samples.is_empty());
    assert_eq!(throttle.last_ms, 0);
    assert!(on_db(&mut state, new.number, &mut throttle, 500, db));
    assert_eq!(state.calibration.samples, vec![db]);
}

#[test]
fn a_clock_that_steps_back_sends_nothing() {
    let mut throttle = EmitThrottle { last_ms: 1000 };
    assert!(!throttle.should_emit(false, 500));
    assert_eq!(throttle.last_ms, 1000);
    assert!(throttle.should_emit(false, u64::MAX));
}

#[test]
fn ten_readings_a_second_at_most() {
    let mut throttle = EmitThrottle::new();
    let mut times = Vec::new();
    for now_ms in (0..10_000).step_by(7) {
        if throttle.should_emit(false, now_ms) {
            times.push(now_ms);
        }
    }
    assert!(times.len() <= 100);
    assert!(times.windows(2).all(|w| w[1] - w[0] >= 100));
    assert_eq!(times[0], 105);
}

#[test]
fn the_device_list_leaves_out_what_has_no_name() {
    let names = vec![named("A"), None, named(""), named("B"), named("A")];
    assert_eq!(list_audio_devices(&Some(names)), vec!["A", "B", "A"]);
    assert!(list_audio_devices(&None).is_empty());
    assert!(list_audio_devices(&Some(vec![])).is_empty());
}

#[test]
fn the_first_device_of_a_name_is_found() {
    let names = vec![None, named("A"), named("B"), named("B")];
    assert_eq!(find_device(&names, &"B".to_string()), Some(2));
    assert_eq!(find_device(&names, &"C".to_string()), None);
}

#[test]
fn every_known_format_is_streamed_as_it_is() {
    for format in [
        SampleFormat::F64,
        SampleFormat::I32,
        SampleFormat::F32,
        SampleFormat::I16,
        SampleFormat::U16,
    ] {
        let mut state = AudioState::new();
        let (mut listener, _) = begin(&mut state);
        listener.step(Event::DefaultDevice(true), &mut state);
        let action = listener.step(Event::Config(Some(format)), &mut state);
        assert_eq!(action, Action::BuildStream(format));
    }
}
