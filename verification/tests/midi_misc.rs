use midi_driver::controls::{
    pipeline_running, slider_selection, ButtonIncrement, ButtonPress, CommandMode, ModeSwitch,
    MouseEvent, MuteState,
};
use midi_driver::midi::{find_port, Midi, MidiData, MidiError};
use midi_driver::midi_command::{make_table, CommandConfigError, CommandListener};
use midi_driver::midi_status::MidiStatus;
use midi_driver::pedal_state::{sorted_keys, state_file_name, SelectionMonitor};
use midi_driver::text::ParseNumError;
use std::collections::HashMap;

#[test]
fn status_bytes_round_trip() {
    for b in 0u8..=255 {
        match MidiStatus::from_byte(b) {
            None => assert!(b < 0x80),
            Some(s) => assert_eq!(s.to_byte(), b),
        }
    }
    assert_eq!(MidiStatus::from_byte(0x93), Some(MidiStatus::NoteOn(3)));
    assert_eq!(MidiStatus::from_byte(0xC0), Some(MidiStatus::ProgramChange(0)));
    assert_eq!(MidiStatus::from_byte(0xF8), Some(MidiStatus::TimingClock));
    assert_eq!(MidiStatus::from_byte(0x7F), None);
    assert_eq!(MidiStatus::PitchBend(15).to_byte(), 0xEF);
    assert_eq!(MidiStatus::Reset.to_byte(), 0xFF);
}

#[test]
fn command_table() {
    let (t, c) = make_table("x 60 start_amp\nx 61 stop amp\nc 2\n# c 9\nx 60 other\n").unwrap();
    assert_eq!(c, 2);
    assert_eq!(t.len(), 2);
    assert_eq!(t[&60], "other");
    assert_eq!(t[&61], "stop amp");
    assert_eq!(make_table("").unwrap().1, 0);
    assert_eq!(make_table("c 1\nc 4").unwrap().1, 4);
    assert_eq!(make_table("x 60\n"), Err(CommandConfigError::InvalidLine { line: 0 }));
    assert_eq!(
        make_table("x 600 a\n"),
        Err(CommandConfigError::BadNote { line: 0, error: ParseNumError::PosOverflow })
    );
    assert_eq!(
        make_table("c x\n"),
        Err(CommandConfigError::BadChannel(ParseNumError::InvalidDigit))
    );
}

#[test]
fn command_listener_notes() {
    let mut l = CommandListener::new(1);
    let input = [0x91u8, 60, 100, 62, 90, 0x81, 60, 0, 0x90, 64, 1, 0x91, 65];
    let notes: Vec<Option<u8>> = input.iter().map(|&b| l.step(b)).collect();
    assert_eq!(
        notes,
        vec![
            None,
            Some(60),
            None,
            Some(62),
            None,
            None,
            None,
            None,
            None,
            None,
            None,
            None,
            Some(65)
        ]
    );
}

#[test]
fn midi_ports() {
    let names = vec![
        None,
        Some("Midi Through:Midi Through Port-0".to_string()),
        Some("SINCO:SINCO MIDI 1".to_string()),
        Some("SINCO 2".to_string()),
    ];
    assert_eq!(find_port(&names, "SINCO"), Ok(2));
    assert_eq!(find_port(&names, "Through"), Ok(1));
    assert_eq!(find_port(&names, ""), Ok(1));
    assert_eq!(find_port(&names, "KORG"), Err(MidiError::NoPort));
    assert_eq!(find_port(&vec![], ""), Err(MidiError::NoPort));
}

#[test]
fn midi_program_messages() {
    let mut table = HashMap::new();
    table.insert(3u8, 7u8);
    let m = Midi::new("SINCO".to_string(), table).unwrap();
    assert_eq!(m.name, "SINCO");
    assert_eq!(m.program_message(&[0xC0, 3]), [192, 7]);
    assert_eq!(m.program_message(&[0x90, 4, 100]), [192, 4]);
    let d = MidiData::default();
    assert!(d.connection_cache.is_empty());
    assert_eq!(d.last, 0);
}

#[test]
fn pedal_state_helpers() {
    assert_eq!(state_file_name("../PEDALS"), "../PEDALS/.state");
    let mut t = HashMap::new();
    t.insert(9u8, ());
    t.insert(0u8, ());
    t.insert(255u8, ());
    t.insert(3u8, ());
    assert_eq!(sorted_keys(&t), vec![0, 3, 9, 255]);
    assert_eq!(sorted_keys(&HashMap::<u8, ()>::new()), Vec::<u8>::new());
}

#[test]
fn controls() {
    assert_eq!(ButtonIncrement::NegativeSmall.value(), -1);
    assert_eq!(ButtonIncrement::NegativeBig.value(), -10);
    assert_eq!(ButtonIncrement::PositiveSmall.value(), 1);
    assert_eq!(ButtonIncrement::PositiveBig.value(), 10);
    assert_eq!(CommandMode::EditMode.toggled(), CommandMode::LiveMode);
    assert_eq!(CommandMode::LiveMode.toggled(), CommandMode::EditMode);
    assert!(CommandMode::LiveMode.runs_pedals());
    assert!(!CommandMode::EditMode.runs_pedals());
    let running = vec![
        "bash".to_string(),
        "jack_midi".to_string(),
        "translate_midi".to_string(),
        "read_midi".to_string(),
    ];
    assert!(pipeline_running(&running));
    assert!(!pipeline_running(&running[..3].to_vec()));
    assert!(!pipeline_running(&vec!["read_midi2".to_string()]));
}

#[test]
fn buttons() {
    let mut b = ButtonPress::new();
    assert!(!b.event(MouseEvent::Up));
    assert!(!b.event(MouseEvent::Down));
    assert!(b.shows_pressed());
    b.mouse_at(false);
    assert!(!b.shows_pressed());
    b.mouse_released(false);
    assert!(!b.pressed);
    assert!(!b.event(MouseEvent::Up));
    assert!(!b.event(MouseEvent::Down));
    assert!(b.event(MouseEvent::Up));

    let mut m = MuteState { button: ButtonPress::new(), muted: false };
    assert_eq!(m.event(MouseEvent::Down), None);
    assert_eq!(m.button, ButtonPress { pressed: true, mouse_in: true });
    assert_eq!(m.event(MouseEvent::Move), None);
    assert!(m.button.pressed);
    assert_eq!(m.event(MouseEvent::Up), Some(true));
    assert!(!m.button.pressed);
    assert_eq!(m.event(MouseEvent::Up), None);
    assert_eq!(m.event(MouseEvent::Down), None);
    assert_eq!(m.event(MouseEvent::Up), Some(false));

    let mut s = ModeSwitch { mode: CommandMode::LiveMode, pressed: false };
    assert!(!s.event(MouseEvent::Down, true));
    assert!(!s.event(MouseEvent::Up, false));
    assert_eq!(s.mode, CommandMode::LiveMode);
    assert!(!s.event(MouseEvent::Down, true));
    assert!(!s.event(MouseEvent::Move, true));
    assert!(s.event(MouseEvent::Up, true));
    assert_eq!(s.mode, CommandMode::EditMode);

    assert_eq!(slider_selection(&vec![1, 2, 3], Some(2)), vec![false, true, false]);
    assert_eq!(slider_selection(&vec![1, 2, 3], None), vec![false, false, false]);
    assert_eq!(slider_selection(&vec![1, 2], Some(7)), vec![false, false]);
}

#[test]
fn selection_monitor() {
    let mut m = SelectionMonitor::new(None);
    assert!(!m.observe(None));
    assert!(m.observe(Some(2)));
    assert!(!m.observe(Some(2)));
    assert!(m.observe(Some(3)));
    assert!(m.observe(None));
    assert_eq!(m.selected, None);
}

#[test]
fn selection_monitor_over_reads() {
    let mut m = SelectionMonitor::new(Some(1));
    let sent = m.observe_all(&vec![Some(1), Some(2), Some(2), None, None, Some(1), Some(1)]);
    assert_eq!(sent, vec![Some(2), None, Some(1)]);
    assert_eq!(m.selected, Some(1));
}
