use midi_driver::midi_translate::{translate_config_is_refused, MidiTranslate};

#[test]
fn test_new_creates_instance() {
    // The contents of a configuration file
    const TEST_NAME: &str = "f";
    let contents = format!("{}\n", &format!("name {}\nt 3 6\n", TEST_NAME));

    // Instantiate MidiTranslate
    assert!(!translate_config_is_refused(&contents));
    let midi_translate = MidiTranslate::from_config(&contents);

    // Check if the instance contains the name
    assert_eq!(midi_translate.name, TEST_NAME.to_string());

    // Check it translates 3 -> 6
    assert_eq!(midi_translate.table.get(&3), Some(&6));
}

#[test]
fn translate_config_refusals() {
    // No name
    assert!(translate_config_refused_text("t 3 6\n"));
    // Two names
    assert!(translate_config_refused_text("name a\nname b\n"));
    // A name with nothing after it
    assert!(translate_config_refused_text("name \n"));
    // A malformed rule
    assert!(translate_config_refused_text("name a\nt 3\n"));
    assert!(translate_config_refused_text("name a\nt 3 x\n"));
    // A piece of two to four bytes
    assert!(translate_config_refused_text("name a\nabc\n"));
    // One byte pieces and empty pieces are fine
    assert!(!translate_config_refused_text("name pedal\n\nx\nt 1 2\nt 1 3\n# comment\n"));
    let t = MidiTranslate::from_config("name pedal\n\nx\nt 1 2\nt 1 3\n# comment\n");
    assert_eq!(t.name, "pedal");
    assert_eq!(t.table.len(), 1);
    assert_eq!(t.table.get(&1), Some(&3));
}

fn translate_config_refused_text(s: &str) -> bool {
    translate_config_is_refused(s)
}
