use midi_mixer::dispatch::VolumeAdjustment;
use midi_mixer::dispatch::plan_tick;
use midi_mixer::dispatch::plan_volume_adjustment;
use midi_mixer::midi::MidiHandler;
use midi_mixer::midi::MidiMessage;
use midi_mixer::profile::Button;
use midi_mixer::profile::ControlsConfig;
use midi_mixer::profile::Fader;
use midi_mixer::profile::Fraction;
use midi_mixer::profile::GroupConfig;
use midi_mixer::profile::Profile;
use midi_mixer::profile::ProfileConfig;
use midi_mixer::resolver::SinkSelection;
use midi_mixer::resolver::resolve_sink;

fn scenario_config() -> ProfileConfig {
    ProfileConfig {
        midi_controller_name: String::from("board"),
        controls: ControlsConfig {
            buttons: vec![(
                String::from("b1"),
                Button { channel: 1, control: 8, trigger: 127 },
            )],
            faders: vec![(
                String::from("f1"),
                Fader { channel: 1, control: 7, min: 0, max: 127 },
            )],
        },
        groups: vec![(
            String::from("G"),
            GroupConfig {
                volume_control: vec![String::from("f1")],
                mute: vec![String::from("b1")],
            },
        )],
        mapping: vec![(String::from("G"), String::from("firefox"))],
    }
}

#[test]
fn adjustment_increases_towards_a_higher_target() {
    // Target 64/127 from 20 percent: delta = 6400 - 2540 = 3860 / 12700.
    let r = plan_volume_adjustment(Fraction { num: 64, den: 127 }, 20);
    assert_eq!(r, VolumeAdjustment::Increase { num: 3860, den: 12700 });
    let delta = 3860.0_f64 / 12700.0_f64;
    assert!((delta - (64.0 / 127.0 - 0.20)).abs() < 1e-12);
}

#[test]
fn adjustment_decreases_towards_a_lower_target() {
    // Target 10/100 from 55 percent: delta = 1000 - 5500 = -4500 / 10000.
    let r = plan_volume_adjustment(Fraction { num: 10, den: 100 }, 55);
    assert_eq!(r, VolumeAdjustment::Decrease { num: 4500, den: 10000 });
}

#[test]
fn adjustment_is_a_no_op_at_the_target() {
    // Target 1/2 from 50 percent: exactly on target.
    let r = plan_volume_adjustment(Fraction { num: 1, den: 2 }, 50);
    assert_eq!(r, VolumeAdjustment::NoChange);
}

#[test]
fn plan_fires_volume_action_for_a_bound_fader() {
    let profile = Profile::new(&scenario_config()).unwrap();
    let plan = plan_tick(&profile, MidiMessage { channel: 1, control: 7, value: 64 });
    assert_eq!(plan.mute_toggle, None);
    let (sink, position) = plan.volume.unwrap();
    assert_eq!(sink, "firefox");
    assert_eq!(position, Fraction { num: 64, den: 127 });
}

#[test]
fn plan_fires_mute_action_only_on_the_trigger_value() {
    let profile = Profile::new(&scenario_config()).unwrap();
    let plan = plan_tick(&profile, MidiMessage { channel: 1, control: 8, value: 127 });
    assert_eq!(plan.mute_toggle, Some(String::from("firefox")));
    assert!(plan.volume.is_none());
    // One value short of the trigger fires nothing.
    let plan = plan_tick(&profile, MidiMessage { channel: 1, control: 8, value: 126 });
    assert_eq!(plan.mute_toggle, None);
    assert!(plan.volume.is_none());
}

#[test]
fn plan_ignores_unbound_pairs() {
    let profile = Profile::new(&scenario_config()).unwrap();
    let plan = plan_tick(&profile, MidiMessage { channel: 2, control: 7, value: 64 });
    assert!(plan.mute_toggle.is_none());
    assert!(plan.volume.is_none());
}

#[test]
fn end_to_end_scenario_acts_once_per_change() {
    // Profile maps group G (fader channel 1, control 7, range 0..=127) to
    // sink "firefox"; the event {1, 7, 64} arrives once.
    let profile = Profile::new(&scenario_config()).unwrap();
    let mut handler = MidiHandler::new();

    let raw = [0xB1, 0x07, 0x40];
    handler.record(MidiMessage::new(&raw).unwrap());

    // First tick: the change is polled and planned.
    let event = handler.poll_if_changed().unwrap();
    assert_eq!(event, MidiMessage { channel: 1, control: 7, value: 64 });
    let plan = plan_tick(&profile, event);
    let (sink, position) = plan.volume.unwrap();

    // The resolver finds the running application "firefox".
    let apps = vec![String::from("firefox")];
    let devices: Vec<String> = vec![];
    assert_eq!(
        resolve_sink(&sink, &apps, &devices),
        Some(SinkSelection::Application { index: 0 })
    );

    // The issued action is a relative move to about 0.504 of full volume.
    let target = position.num as f64 / position.den as f64;
    assert!((target - 0.504).abs() < 0.001);
    match plan_volume_adjustment(position, 20) {
        VolumeAdjustment::Increase { num, den } => {
            let delta = num as f64 / den as f64;
            assert!((delta - (target - 0.20)).abs() < 1e-12);
        }
        other => panic!("expected an increase, got {:?}", other),
    }

    // A repeated identical event produces no further action.
    handler.record(MidiMessage::new(&raw).unwrap());
    assert_eq!(handler.poll_if_changed(), None);
}
