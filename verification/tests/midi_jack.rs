use midi_driver::midi_jack::{
    jack_files, make_table, jack_table_cuts, parse_jack_pairs, JackAction,
    JackConfigError, JackConnectionHandler, JackRouter,
};
use midi_driver::text::ParseNumError;
use std::collections::HashMap;

// Tests for make_table function

#[test]
fn test_empty_config() {
    let config = "";
    let result = make_table(config, &vec![]);
    assert!(result.is_ok());
    let (table, channel) = result.unwrap();
    assert_eq!(table.len(), 0);
    assert_eq!(channel, 0);
}

#[test]
fn test_channel_config() {
    let config = "c 5\n";
    let result = make_table(config, &vec![]);
    assert!(result.is_ok());
    let (_, channel) = result.unwrap();
    assert_eq!(channel, 5);
}

#[test]
fn test_multiple_channel_config() {
    let config = "c 1\nc 5\n";
    let result = make_table(config, &vec![]);
    assert!(result.is_ok());
    let (_, channel) = result.unwrap();
    assert_eq!(channel, 5); // should take the last one
}

#[test]
fn test_invalid_channel_config() {
    let config = "c abc\n";
    let result = make_table(config, &vec![]);
    assert!(result.is_err());
}

#[test]
fn test_single_jack_config() {
    let config = "j 1 test_jack.txt\n";
    // The file does not exist, so it could not be read
    let result = make_table(config, &vec![None]);
    assert!(result.is_err());
}

#[test]
fn test_invalid_jack_config_line() {
    let config = "j abc\n";
    let result = make_table(config, &vec![]);
    assert!(result.is_err());
}

#[test]
fn jack_config_with_files() {
    let config = "# pedals\n  j 1   pedals/one\nj 2 pedals/two\nc 3\n";
    assert_eq!(
        jack_files(config),
        vec!["pedals/one".to_string(), "pedals/two".to_string()]
    );
    let contents = vec![
        Some("system:capture_1 effect_1:in\neffect_1:out system:playback_1 extra\n".to_string()),
        Some("a b\n".to_string()),
    ];
    assert!(!jack_table_cuts(config, &contents));
    let (table, channel) = make_table(config, &contents).unwrap();
    assert_eq!(channel, 3);
    assert_eq!(table.len(), 2);
    assert_eq!(
        table[&1],
        vec![
            ("system:capture_1".to_string(), "effect_1:in".to_string()),
            ("effect_1:out".to_string(), "system:playback_1".to_string())
        ]
    );
    assert_eq!(table[&2], vec![("a".to_string(), "b".to_string())]);
}

#[test]
fn jack_config_errors() {
    assert_eq!(
        make_table("j abc\n", &vec![]),
        Err(JackConfigError::ShortLine { line: 0 })
    );
    assert_eq!(
        make_table("j x12 f\n", &vec![]),
        Err(JackConfigError::BadIndex { line: 0, error: ParseNumError::InvalidDigit })
    );
    assert_eq!(
        make_table("j 300 f\n", &vec![]),
        Err(JackConfigError::BadIndex { line: 0, error: ParseNumError::PosOverflow })
    );
    assert_eq!(
        make_table("\nj 1 ff\n", &vec![None]),
        Err(JackConfigError::FileUnreadable { line: 1 })
    );
    assert_eq!(
        make_table("j 1 ff\n", &vec![Some("a b\nc\n".to_string())]),
        Err(JackConfigError::BadJackDescription { line: 0, pair_line: 1 })
    );
    assert_eq!(
        make_table("c 1x\n", &vec![]),
        Err(JackConfigError::BadChannel(ParseNumError::InvalidDigit))
    );
    // The `j` lines fail before the channel is read.
    assert_eq!(
        make_table("c x\nj abc\n", &vec![]),
        Err(JackConfigError::ShortLine { line: 1 })
    );
    // No file name after the program number: the empty name is read.
    assert_eq!(jack_files("j 0255\n"), vec!["".to_string()]);
    // Reading the names stops at the first failing `j` line.
    assert_eq!(jack_files("j 1 aa\nj b\nj 2 cc\n"), vec!["aa".to_string()]);
}

#[test]
fn jack_config_cut_characters() {
    // A program number followed by a two-byte character: its character
    // index falls inside that character when taken as a byte offset.
    assert!(jack_table_cuts("j é 1\n", &vec![]));
    assert!(!jack_table_cuts("j éé 1\n", &vec![]));
    assert_eq!(
        make_table("j éé 1\n", &vec![]),
        Err(JackConfigError::BadIndex { line: 0, error: ParseNumError::InvalidDigit })
    );
}

#[test]
fn jack_pairs() {
    assert_eq!(
        parse_jack_pairs("a b\n\n"),
        Err(1)
    );
    assert_eq!(
        parse_jack_pairs("a\tb c\r\nd  e"),
        Ok(vec![("a".to_string(), "b".to_string()), ("d".to_string(), "e".to_string())])
    );
    assert_eq!(parse_jack_pairs(""), Ok(vec![]));
}

// Tests for the router

#[derive(Debug)]
struct MockJackError {
    what: String,
}

#[derive(Debug)]
struct MockJackConnectionHandler {
    made_connections: Vec<(String, String)>,
    unmade_connections: Vec<(String, String)>,
}

impl MockJackConnectionHandler {
    fn new(connections: &[(String, String)]) -> Self {
        MockJackConnectionHandler {
            // Start with no connections made
            made_connections: Vec::new(),
            // Start with all connections unmade
            unmade_connections: connections.to_vec(),
        }
    }
}

impl JackConnectionHandler for MockJackConnectionHandler {
    fn make_jack(&mut self, src: &str, dst: &str) -> Result<(), String> {
        if self
            .made_connections
            .contains(&(src.to_string(), dst.to_string()))
        {
            let e = MockJackError {
                what: format!("({src}, {dst}) is already connected"),
            };
            Err(e.what)
        } else {
            self.made_connections
                .push((src.to_string(), dst.to_string()));
            self.unmade_connections
                .retain(|c| c != &(src.to_string(), dst.to_string()));
            Ok(())
        }
    }

    fn unmake_jack(&mut self, src: &str, dst: &str) -> Result<(), String> {
        if self
            .unmade_connections
            .contains(&(src.to_string(), dst.to_string()))
        {
            let e = MockJackError {
                what: format!("({src}, {dst}) is already disconnected"),
            };
            Err(e.what)
        } else {
            self.unmade_connections
                .push((src.to_string(), dst.to_string()));
            self.made_connections
                .retain(|c| c != &(src.to_string(), dst.to_string()));
            Ok(())
        }
    }
}

/// Break every connection of the table (errors ignored), then take the
/// actions of each byte, stopping at the first error.
fn run<J: JackConnectionHandler>(
    bytes: &[u8],
    command_table: &HashMap<u8, Vec<(String, String)>>,
    channel: u8,
    jack_connections: &mut J,
) -> Result<(), String> {
    let mut router = JackRouter::new(command_table.clone(), channel);
    for action in router.release_all() {
        if let JackAction::Disconnect(s, d) = action {
            let _ = jack_connections.unmake_jack(&s, &d);
        }
    }
    for &byte in bytes {
        for action in router.step(byte) {
            match action {
                JackAction::Connect(s, d) => jack_connections.make_jack(&s, &d)?,
                JackAction::Disconnect(s, d) => jack_connections.unmake_jack(&s, &d)?,
            }
        }
    }
    Ok(())
}

fn create_test_table() -> HashMap<u8, Vec<(String, String)>> {
    let mut table = HashMap::new();
    table.insert(
        1,
        vec![
            ("src1".to_string(), "dst1".to_string()),
            ("src2".to_string(), "dst2".to_string()),
        ],
    );
    table.insert(
        2,
        vec![
            ("src1".to_string(), "dst1".to_string()),
            ("src3".to_string(), "dst3".to_string()),
        ],
    );
    table
}

fn table_connections(input: &HashMap<u8, Vec<(String, String)>>) -> Vec<(String, String)> {
    input.values().flatten().cloned().collect()
}

#[test]
fn test_run_with_program_change() {
    let table = create_test_table();
    let mut mock_jack = MockJackConnectionHandler::new(&table_connections(&table));
    let midi_data = vec![
        0xC0, // Program change on channel 0
        0x01, // Program number 1
    ];

    run(&midi_data, &table, 0, &mut mock_jack).unwrap();

    assert_eq!(mock_jack.made_connections.len(), 2);
    assert_eq!(
        mock_jack.made_connections[0],
        ("src1".to_string(), "dst1".to_string())
    );
    assert_eq!(
        mock_jack.made_connections[1],
        ("src2".to_string(), "dst2".to_string())
    );
    assert_eq!(mock_jack.unmade_connections.len(), 1);
    assert_eq!(
        mock_jack.unmade_connections[0],
        ("src3".to_string(), "dst3".to_string())
    );
}

#[test]
fn test_run_with_program_change_and_previous_effect() {
    let table = create_test_table();
    let mut mock_jack = MockJackConnectionHandler::new(&table_connections(&table));
    let midi_data = vec![
        0xC0, // Program change on channel 0
        0x01, // Program number 1
        0xC0, // Program change on channel 0
        0x02, // Program number 2
    ];

    run(&midi_data, &table, 0, &mut mock_jack).unwrap();

    // First program change
    assert!(mock_jack
        .made_connections
        .contains(&("src1".to_string(), "dst1".to_string())));
    assert!(mock_jack
        .made_connections
        .contains(&("src3".to_string(), "dst3".to_string())));

    // Second program change should:
    // 1. Keep src1-dst1 (common to both)
    // 2. Add src3-dst3
    // 3. Remove src2-dst2
    assert!(mock_jack
        .made_connections
        .contains(&("src3".to_string(), "dst3".to_string())));
    assert_eq!(mock_jack.unmade_connections.len(), 1);
    assert_eq!(
        mock_jack.unmade_connections[0],
        ("src2".to_string(), "dst2".to_string())
    );
}

#[test]
fn test_run_with_wrong_channel() {
    let table = create_test_table();
    let mut mock_jack = MockJackConnectionHandler::new(&table_connections(&table));
    let midi_data = vec![
        0xC1, // Program change on channel 1 (we're listening to channel 0)
        0x01, // Program number 1
    ];

    run(&midi_data, &table, 0, &mut mock_jack).unwrap();

    assert_eq!(mock_jack.made_connections.len(), 0);
    assert_eq!(mock_jack.unmade_connections.len(), 4);
}

#[test]
fn test_run_with_non_program_change_message() {
    let table = create_test_table();
    let mut mock_jack = MockJackConnectionHandler::new(&table_connections(&table));
    let midi_data = vec![
        0x90, // Note on (not program change)
        0x40, // Note number
        0x7F, // Velocity
    ];

    run(&midi_data, &table, 0, &mut mock_jack).unwrap();

    assert_eq!(mock_jack.made_connections.len(), 0);
    assert_eq!(mock_jack.unmade_connections.len(), 4);
}

#[test]
fn test_run_with_unknown_program() {
    let table = create_test_table();
    let mut mock_jack = MockJackConnectionHandler::new(&table_connections(&table));

    assert_eq!(mock_jack.unmade_connections.len(), 4);
    let midi_data = vec![
        0xC0, // Program change on channel 0
        0x03, // Program number 3 (not in our table)
    ];

    let result = run(&midi_data, &table, 0, &mut mock_jack);
    assert!(result.is_ok()); // Unknown programs should be ignored, not cause errors

    assert_eq!(mock_jack.made_connections.len(), 0);
    assert_eq!(mock_jack.unmade_connections.len(), 4);
}

fn conn(s: &str, d: &str, connect: bool) -> JackAction {
    if connect {
        JackAction::Connect(s.to_string(), d.to_string())
    } else {
        JackAction::Disconnect(s.to_string(), d.to_string())
    }
}

#[test]
fn router_actions() {
    let mut r = JackRouter::new(create_test_table(), 0);
    assert_eq!(
        r.release_all(),
        vec![
            conn("src1", "dst1", false),
            conn("src2", "dst2", false),
            conn("src1", "dst1", false),
            conn("src3", "dst3", false)
        ]
    );
    assert_eq!(r.step(0xC0), vec![]);
    assert_eq!(
        r.step(1),
        vec![conn("src1", "dst1", true), conn("src2", "dst2", true)]
    );
    // Selecting the same program again does nothing.
    assert_eq!(r.step(1), vec![]);
    assert_eq!(
        r.step(2),
        vec![conn("src3", "dst3", true), conn("src2", "dst2", false)]
    );
    assert_eq!(r.effect, Some(2));
    let mut now = r.connected.clone();
    now.sort();
    assert_eq!(
        now,
        vec![
            ("src1".to_string(), "dst1".to_string()),
            ("src3".to_string(), "dst3".to_string())
        ]
    );
    // A status byte on another channel stops the program changes.
    assert_eq!(r.step(0xC1), vec![]);
    assert_eq!(r.step(1), vec![]);
    // Back on the channel, an unknown program does nothing.
    assert_eq!(r.step(0xC0), vec![]);
    assert_eq!(r.step(9), vec![]);
    assert_eq!(r.effect, Some(2));
}

#[test]
fn router_run_keeps_selected_program() {
    // Over a whole run, the connections made and not broken again are
    // those of the last program selected.
    let table = create_test_table();
    let mut mock_jack = MockJackConnectionHandler::new(&[]);
    run(&[0xC0, 2, 0x90, 1, 0xC0, 1, 3, 2, 0xC5, 1], &table, 0, &mut mock_jack).unwrap();
    let mut made = mock_jack.made_connections.clone();
    made.sort();
    assert_eq!(
        made,
        vec![
            ("src1".to_string(), "dst1".to_string()),
            ("src3".to_string(), "dst3".to_string())
        ]
    );
}

#[test]
fn router_reselect_over_run() {
    let table = create_test_table();
    let mut a = JackRouter::new(table.clone(), 3);
    let mut b = JackRouter::new(table, 3);
    let once = [0x93u8, 0x90, 7, 0xC3, 2];
    let twice = [0x93u8, 0x90, 7, 0xC3, 2, 0xC3, 2];
    let acts_a: Vec<JackAction> = once.iter().flat_map(|&x| a.step(x)).collect();
    let acts_b: Vec<JackAction> = twice.iter().flat_map(|&x| b.step(x)).collect();
    assert_eq!(acts_a, acts_b);
    assert_eq!(a.connected, b.connected);
    assert_eq!(a.effect, b.effect);
}
