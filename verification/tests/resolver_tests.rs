use midi_mixer::resolver::SinkSelection;
use midi_mixer::resolver::find_port;
use midi_mixer::resolver::resolve_sink;

fn names(list: &[&str]) -> Vec<String> {
    list.iter().map(|s| String::from(*s)).collect()
}

#[test]
fn application_match_ignores_case_whitespace_and_nul_padding() {
    // A backend name padded with whitespace and trailing NULs still matches
    // the configured sink name "myapp".
    let apps = names(&[" MyApp\0\0"]);
    let devices = names(&[]);
    assert_eq!(
        resolve_sink("myapp", &apps, &devices),
        Some(SinkSelection::Application { index: 0 })
    );
    // The query side is trimmed and lowercased too.
    assert_eq!(
        resolve_sink("  MYAPP ", &apps, &devices),
        Some(SinkSelection::Application { index: 0 })
    );
}

#[test]
fn application_match_takes_the_first_of_equals() {
    let apps = names(&["spotify", "Firefox", "firefox"]);
    let devices = names(&[]);
    assert_eq!(
        resolve_sink("firefox", &apps, &devices),
        Some(SinkSelection::Application { index: 1 })
    );
}

#[test]
fn device_match_requires_exact_case() {
    let apps = names(&[]);
    let devices = names(&["Built-in Audio"]);
    assert_eq!(
        resolve_sink("Built-in Audio", &apps, &devices),
        Some(SinkSelection::OutputDevice { index: 0 })
    );
    // A case difference is no device match.
    assert_eq!(resolve_sink("built-in audio", &apps, &devices), None);
    // Whitespace padding is no device match either.
    assert_eq!(resolve_sink(" Built-in Audio", &apps, &devices), None);
}

#[test]
fn applications_are_searched_before_devices() {
    let apps = names(&["firefox"]);
    let devices = names(&["firefox"]);
    assert_eq!(
        resolve_sink("firefox", &apps, &devices),
        Some(SinkSelection::Application { index: 0 })
    );
}

#[test]
fn no_match_is_not_an_error() {
    let apps = names(&["spotify"]);
    let devices = names(&["Built-in Audio"]);
    assert_eq!(resolve_sink("firefox", &apps, &devices), None);
    assert_eq!(resolve_sink("anything", &names(&[]), &names(&[])), None);
}

#[test]
fn find_port_matches_exactly() {
    let ports = names(&["Midi Through", "nanoKONTROL2 MIDI 1"]);
    assert_eq!(find_port(&ports, "nanoKONTROL2 MIDI 1"), Some(1));
    assert_eq!(find_port(&ports, "Midi Through"), Some(0));
    assert_eq!(find_port(&ports, "nanokontrol2 midi 1"), None);
    assert_eq!(find_port(&ports, "missing"), None);
}
