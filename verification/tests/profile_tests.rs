use midi_mixer::profile::Button;
use midi_mixer::profile::ConfigError;
use midi_mixer::profile::ControlsConfig;
use midi_mixer::profile::Fader;
use midi_mixer::profile::GroupConfig;
use midi_mixer::profile::Profile;
use midi_mixer::profile::ProfileConfig;

fn fader(channel: u8, control: u8, min: u8, max: u8) -> Fader {
    Fader { channel, control, min, max }
}

fn button(channel: u8, control: u8, trigger: u8) -> Button {
    Button { channel, control, trigger }
}

fn base_config() -> ProfileConfig {
    ProfileConfig {
        midi_controller_name: String::from("nanoKONTROL2"),
        controls: ControlsConfig {
            buttons: vec![(String::from("b1"), button(1, 8, 127))],
            faders: vec![(String::from("f1"), fader(1, 7, 0, 127))],
        },
        groups: vec![(
            String::from("G"),
            GroupConfig {
                volume_control: vec![String::from("f1")],
                mute: vec![String::from("b1")],
            },
        )],
        mapping: vec![(String::from("G"), String::from("firefox"))],
    }
}

#[test]
fn button_triggered_is_exact() {
    let b = button(1, 8, 127);
    assert!(b.triggered(127));
    assert!(!b.triggered(126));
    assert!(!b.triggered(0));
    let b = button(1, 8, 0);
    assert!(b.triggered(0));
    assert!(!b.triggered(1));
}

#[test]
fn to_percentage_endpoints_and_linearity() {
    let f = fader(1, 7, 0, 127);
    let at_min = f.to_percentage(0);
    assert_eq!(at_min.num, 0);
    let p_min = at_min.num as f64 / at_min.den as f64;
    assert_eq!(p_min, 0.0);

    let at_max = f.to_percentage(127);
    assert_eq!(at_max.num as u32, at_max.den);
    let p_max = at_max.num as f64 / at_max.den as f64;
    assert_eq!(p_max, 1.0);

    let mid = f.to_percentage(64);
    assert_eq!(mid.num, 64);
    assert_eq!(mid.den, 127);
    let p_mid = mid.num as f64 / mid.den as f64;
    assert!((p_mid - 64.0 / 127.0).abs() < 1e-12);
}

#[test]
fn to_percentage_is_not_clamped() {
    let f = fader(1, 7, 10, 20);
    // Below min: negative position; above max: position beyond 1.
    let below = f.to_percentage(5);
    assert_eq!(below.num, -5);
    assert_eq!(below.den, 10);
    assert!((below.num as f64 / below.den as f64) < 0.0);
    let above = f.to_percentage(25);
    assert_eq!(above.num, 15);
    assert!((above.num as f64 / above.den as f64) > 1.0);
}

#[test]
fn new_builds_a_profile_from_a_resolvable_config() {
    let config = base_config();
    let profile = Profile::new(&config).unwrap();
    assert_eq!(profile.get_midi_controller_name(), "nanoKONTROL2");
    let (sink, f) = profile.get_volume_control(1, 7).unwrap();
    assert_eq!(sink, "firefox");
    assert_eq!(f, fader(1, 7, 0, 127));
    let (sink, b) = profile.get_mute(1, 8).unwrap();
    assert_eq!(sink, "firefox");
    assert_eq!(b, button(1, 8, 127));
    // Unbound pairs find nothing.
    assert!(profile.get_volume_control(2, 7).is_none());
    assert!(profile.get_mute(1, 7).is_none());
}

#[test]
fn new_rejects_undefined_fader_reference() {
    let mut config = base_config();
    config.groups[0].1.volume_control.push(String::from("missing"));
    match Profile::new(&config) {
        Err(ConfigError::FaderNotFound(name)) => assert_eq!(name, "missing"),
        _ => panic!("expected a fader-not-found error"),
    }
}

#[test]
fn new_rejects_undefined_button_reference() {
    let mut config = base_config();
    config.groups[0].1.mute.push(String::from("nope"));
    match Profile::new(&config) {
        Err(ConfigError::ButtonNotFound(name)) => assert_eq!(name, "nope"),
        _ => panic!("expected a button-not-found error"),
    }
}

#[test]
fn new_rejects_undefined_group_reference() {
    let mut config = base_config();
    config.mapping.push((String::from("H"), String::from("spotify")));
    match Profile::new(&config) {
        Err(ConfigError::GroupNotFound(name)) => assert_eq!(name, "H"),
        _ => panic!("expected a group-not-found error"),
    }
}

#[test]
fn new_rejects_degenerate_fader_range() {
    let mut config = base_config();
    config.controls.faders.push((String::from("flat"), fader(2, 9, 64, 64)));
    match Profile::new(&config) {
        Err(ConfigError::InvalidFaderRange(name)) => assert_eq!(name, "flat"),
        _ => panic!("expected an invalid-fader-range error"),
    }
    let mut config = base_config();
    config.controls.faders.push((String::from("upside"), fader(2, 9, 100, 20)));
    assert!(matches!(
        Profile::new(&config),
        Err(ConfigError::InvalidFaderRange(_))
    ));
}

#[test]
fn empty_sink_name_suppresses_actions() {
    let mut config = base_config();
    config.mapping[0].1 = String::new();
    let profile = Profile::new(&config).unwrap();
    assert!(profile.get_volume_control(1, 7).is_none());
    assert!(profile.get_mute(1, 8).is_none());
}

#[test]
fn describe_names_the_offending_entry() {
    let e = ConfigError::FaderNotFound(String::from("f9"));
    assert!(e.describe().contains("f9"));
    let e = ConfigError::GroupNotFound(String::from("G9"));
    assert!(e.describe().contains("G9"));
}

#[test]
fn serialize_round_trip_preserves_bindings() {
    let config = ProfileConfig {
        midi_controller_name: String::from("board"),
        controls: ControlsConfig {
            buttons: vec![
                (String::from("b1"), button(1, 8, 127)),
                (String::from("b2"), button(2, 9, 64)),
            ],
            faders: vec![
                (String::from("f1"), fader(1, 7, 0, 127)),
                (String::from("f2"), fader(2, 3, 10, 20)),
            ],
        },
        groups: vec![
            (
                String::from("G"),
                GroupConfig {
                    volume_control: vec![String::from("f1")],
                    mute: vec![String::from("b1")],
                },
            ),
            (
                String::from("H"),
                GroupConfig {
                    volume_control: vec![String::from("f2"), String::from("f1")],
                    mute: vec![String::from("b2")],
                },
            ),
        ],
        mapping: vec![
            (String::from("G"), String::from("firefox")),
            (String::from("H"), String::from("Built-in Audio")),
        ],
    };
    let profile = Profile::new(&config).unwrap();
    let flat = profile.serialize();
    assert_eq!(flat.midi_controller_name, "board");

    // The controls dictionaries survive verbatim.
    assert_eq!(flat.controls.faders, config.controls.faders);
    assert_eq!(flat.controls.buttons, config.controls.buttons);

    // Reconstructing from the serialized form succeeds and preserves the
    // (channel, control) pairs bound to each group and the group-to-sink
    // mapping.
    let rebuilt = Profile::new(&flat).unwrap();
    for (channel, control, sink) in [(1u8, 7u8, "firefox"), (2u8, 3u8, "Built-in Audio")] {
        let (s0, f0) = profile.get_volume_control(channel, control).unwrap();
        let (s1, f1) = rebuilt.get_volume_control(channel, control).unwrap();
        assert_eq!(s0, sink);
        assert_eq!(s0, s1);
        assert_eq!((f0.channel, f0.control), (f1.channel, f1.control));
    }
    let (s0, b0) = profile.get_mute(1, 8).unwrap();
    let (s1, b1) = rebuilt.get_mute(1, 8).unwrap();
    assert_eq!(s0, s1);
    assert_eq!((b0.channel, b0.control), (b1.channel, b1.control));

    // And the serialized mapping is the group-name-to-sink-name table.
    let mut mapping = flat.mapping.clone();
    mapping.sort();
    assert_eq!(
        mapping,
        vec![
            (String::from("G"), String::from("firefox")),
            (String::from("H"), String::from("Built-in Audio")),
        ]
    );
}
