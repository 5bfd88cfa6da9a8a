use midi_driver::midi_status::MidiStatus;
use midi_driver::text::ParseNumError;
use midi_driver::translate::{
    get_channel, make_key, make_translate_table, str_u8, ChannelOperation, ChannelTranslate,
    TranslateError, Translator,
};
use std::collections::HashMap;

#[test]
fn test_str_u8() {
    // Test decimal parsing
    assert_eq!(str_u8("10").unwrap(), 10);
    assert_eq!(str_u8("255").unwrap(), 255);

    // Test hex parsing
    assert_eq!(str_u8("0xA").unwrap(), 10);
    assert_eq!(str_u8("0xFF").unwrap(), 255);
    assert_eq!(str_u8("0x0F").unwrap(), 15);

    // Test invalid cases
    assert!(str_u8("256").is_err()); // Overflow
    assert!(str_u8("0xG").is_err()); // Invalid hex
    assert!(str_u8("abc").is_err()); // Invalid decimal
}

#[test]
fn str_u8_error_kinds() {
    assert_eq!(str_u8(""), Err(ParseNumError::Empty));
    assert_eq!(str_u8("0x"), Err(ParseNumError::Empty));
    assert_eq!(str_u8("+"), Err(ParseNumError::InvalidDigit));
    assert_eq!(str_u8("-1"), Err(ParseNumError::InvalidDigit));
    assert_eq!(str_u8("256"), Err(ParseNumError::PosOverflow));
    assert_eq!(str_u8("2560x"), Err(ParseNumError::PosOverflow));
    assert_eq!(str_u8("+7"), Ok(7));
    assert_eq!(str_u8("0x0xff"), Ok(255));
    assert_eq!(str_u8("0xfF"), Ok(255));
    assert_eq!(str_u8("0x100"), Err(ParseNumError::PosOverflow));
}

#[test]
fn test_make_key() {
    // Status 0x90, index 0, value 0x3C
    assert_eq!(make_key(0x90, 0, 0x3C), 0x9000 | 0x3C);
    // Status 0x80, index 1, value 0x40
    assert_eq!(make_key(0x80, 1, 0x40), 0x8100 | 0x40);
    // Status 0xB0, index 0, value 0x07
    assert_eq!(make_key(0xB0, 0, 0x07), 0xB000 | 0x07);
}

#[test]
fn test_make_table_valid() {
    let input = "t 0x90 0 0x3C 0x40\nt 0x90 1 0x40 0x3C";
    let result = make_translate_table(input).unwrap();

    let mut expected = HashMap::new();
    expected.insert(make_key(0x90, 0, 0x3C), 0x40);
    expected.insert(make_key(0x90, 1, 0x40), 0x3C);

    assert_eq!(result, expected);
}

#[test]
fn test_make_table_invalid_line() {
    // Missing one field
    let input = "t 0x90 0 0x3C";
    assert!(make_translate_table(input).is_err());

    // Invalid number format
    let input = "t 0x90 0 abc 0x40";
    assert!(make_translate_table(input).is_err());

    // Invalid line prefix
    let input = "x 0x90 0 0x3C 0x40";
    let result = make_translate_table(input).unwrap();
    assert!(result.is_empty());
}

#[test]
fn make_table_error_values() {
    assert_eq!(
        make_translate_table("# comment\nt 0x90 0 0x3C"),
        Err(TranslateError::InvalidLine { line: 1, words: 3 })
    );
    assert_eq!(
        make_translate_table("t 0x90 0 abc 0x40"),
        Err(TranslateError::Number(ParseNumError::InvalidDigit))
    );
    // The first failing line gives the error.
    assert_eq!(
        make_translate_table("t 1 2 3\nt 1 2 3 x"),
        Err(TranslateError::InvalidLine { line: 0, words: 3 })
    );
    // A later rule for the same key replaces an earlier one.
    let t = make_translate_table("t 0x90 0 1 2\nt 0x90 0 1 3").unwrap();
    assert_eq!(t.len(), 1);
    assert_eq!(t[&make_key(0x90, 0, 1)], 3);
}

#[test]
fn test_make_table_mixed_lines() {
    let input = r#"
# Comment line
t 0x90 0 0x3C 0x40
t 0x90 1 0x40 0x3C

t 0x80 0 0x3C 0x40
# Another comment
t 0x80 1 0x40 0x3C
t 0x0c 0 0 1
        "#;

    let result = make_translate_table(input).unwrap();
    assert_eq!(result.len(), 5);
    assert_eq!(result[&make_key(0x90, 0, 0x3C)], 0x40);
    assert_eq!(result[&make_key(0x80, 1, 0x40)], 0x3C);
    assert_eq!(result[&make_key(0x0c, 0, 0)], 1);
}

fn to_hex(bytes: &[u8]) -> String {
    bytes
        .iter()
        .fold(String::with_capacity(bytes.len() * 3), |mut s, b| {
            s.push_str(&format!("{:02x} ", b));
            s
        })
}

fn translate_stream(table: &HashMap<u16, u8>, input: &[u8]) -> Vec<u8> {
    let mut t = Translator::new(table.clone(), None);
    input.iter().map(|&b| t.step(b).unwrap()).collect()
}

// Integration test for the main processing logic
#[test]
fn test_midi_processing_logic() {
    // Create a simple translation table
    let mut translation_table = HashMap::new();
    // Translate note 0x3C to 0x40 when status is 0x90 and it's the first data byte
    translation_table.insert(make_key(0x90, 0, 0x3C), 0x40);
    // Translate velocity 0x40 to 0x3C when status is 0x90 and it's the second data byte
    translation_table.insert(make_key(0x90, 1, 0x40), 0x3C);

    // Test MIDI message processing
    let test_cases = vec![
        // Note On message (status 0x90, note 0x3C, velocity 0x40)
        // Should be translated to (status 0x90, note 0x40, velocity 0x3C)
        (vec![0x90, 0x3C, 0x40], vec![0x90, 0x40, 0x40]),
        // Note On message with different values that shouldn't be translated
        (vec![0x90, 0x3D, 0x41], vec![0x90, 0x3D, 0x41]),
        // Different status byte (0x80) shouldn't be translated
        (vec![0x80, 0x3C, 0x40], vec![0x80, 0x3C, 0x40]),
        // System Exclusive message should pass through unchanged
        (
            vec![0xF0, 0x01, 0x02, 0x03, 0xF7],
            vec![0xF0, 0x01, 0x02, 0x03, 0xF7],
        ),
    ];

    for (input, expected) in test_cases {
        let mut working = Vec::new();
        let mut status = None;
        let mut output = Vec::new();

        for byte in input.iter().copied() {
            if byte & 0x80 == 0x80 {
                // Status byte
                status = MidiStatus::from_byte(byte);
                working.push(byte);
            } else {
                // Data byte
                if let Some(status_byte) = status.as_ref().map(|s| s.to_byte()) {
                    let x = (working.len() % 2) as u8;
                    let key = make_key(status_byte, x, byte);
                    let v = translation_table.get(&key).copied().unwrap_or(byte);
                    working.push(v);
                } else {
                    working.push(byte);
                }
            }

            // Simulate the write_working function
            if !working.is_empty() {
                output.extend_from_slice(&working);
                working.clear();
            }
        }

        assert_eq!(to_hex(&output), to_hex(&expected));
        // The translator gives the same bytes.
        assert_eq!(
            to_hex(&translate_stream(&translation_table, &input)),
            to_hex(&expected)
        );
    }
}

// Test for handling incomplete messages
#[test]
fn test_incomplete_messages() {
    let translation_table: HashMap<u16, u8> = HashMap::new(); // Empty table
    let input = vec![0x90, 0x3C]; // Missing velocity byte
    let mut working = Vec::new();
    let mut status = None;
    let mut output = Vec::new();

    for byte in input.iter().copied() {
        if byte & 0x80 == 0x80 {
            status = MidiStatus::from_byte(byte);
            working.push(byte);
        } else if let Some(status_byte) = status.as_ref().map(|s| s.to_byte()) {
            let x = (working.len() % 2) as u8;
            let key = make_key(status_byte, x, byte);
            let v = translation_table.get(&key).copied().unwrap_or(byte);
            working.push(v);
        } else {
            working.push(byte);
        }

        if !working.is_empty() {
            output.extend_from_slice(&working);
            working.clear();
        }
    }

    // The incomplete message should still be output
    assert_eq!(output, vec![0x90, 0x3C]);
    assert_eq!(translate_stream(&translation_table, &input), vec![0x90, 0x3C]);
}

#[test]
fn data_without_status_passes() {
    let mut table = HashMap::new();
    table.insert(make_key(0x90, 0, 5), 9);
    assert_eq!(translate_stream(&table, &[5, 0x90, 5, 5]), vec![5, 0x90, 9, 9]);
}

#[test]
fn channel_definitions() {
    assert_eq!(
        ChannelTranslate::from_str("+1"),
        Ok(ChannelTranslate { op: ChannelOperation::Plus, value: 1 })
    );
    assert_eq!(
        ChannelTranslate::from_str("-2"),
        Ok(ChannelTranslate { op: ChannelOperation::Minus, value: 2 })
    );
    assert_eq!(
        ChannelTranslate::from_str("a"),
        Ok(ChannelTranslate { op: ChannelOperation::Literal, value: 10 })
    );
    assert_eq!(
        ChannelTranslate::from_str(""),
        Err(TranslateError::InvalidChannelDefinition)
    );
    assert_eq!(
        ChannelTranslate::from_str("-"),
        Err(TranslateError::InvalidChannelDefinition)
    );
    assert_eq!(
        ChannelTranslate::from_str("10"),
        Err(TranslateError::InvalidChannelDefinition)
    );
    assert_eq!(
        ChannelTranslate::from_str("+1f"),
        Err(TranslateError::InvalidChannelDefinition)
    );
    assert_eq!(
        ChannelTranslate::from_str("-F"),
        Ok(ChannelTranslate { op: ChannelOperation::Minus, value: 15 })
    );
    assert_eq!(
        ChannelTranslate::from_str("g"),
        Err(TranslateError::Number(ParseNumError::InvalidDigit))
    );
}

#[test]
fn channel_lines() {
    assert_eq!(get_channel("t 1 2 3 4\n"), Ok(None));
    assert_eq!(
        get_channel("# x\nc +1\nc 2\n"),
        Ok(Some(ChannelTranslate { op: ChannelOperation::Plus, value: 1 }))
    );
    assert_eq!(
        get_channel("c 1 2\n"),
        Err(TranslateError::InvalidLine { line: 0, words: 2 })
    );
    // Two bytes are cut from the untrimmed line.
    assert_eq!(
        get_channel("  c 5\n"),
        Err(TranslateError::InvalidLine { line: 0, words: 2 })
    );
}

#[test]
fn channel_rule_checks_status_bytes() {
    let mut t = Translator::new(
        HashMap::new(),
        Some(ChannelTranslate { op: ChannelOperation::Plus, value: 4 }),
    );
    assert_eq!(t.step(0x9B), Ok(0x9B));
    assert_eq!(t.step(0x9C), Err(TranslateError::InvalidChannel(16)));
    assert!(!t.channel_overflows(0x9C));
    let t = Translator::new(
        HashMap::new(),
        Some(ChannelTranslate { op: ChannelOperation::Minus, value: 4 }),
    );
    assert!(t.channel_overflows(0x93));
    assert!(!t.channel_overflows(0x94));
    assert!(!t.channel_overflows(0x13));
}

#[test]
fn str_u8_round_trip() {
    for n in 0u8..=255 {
        assert_eq!(str_u8(&n.to_string()), Ok(n));
        assert_eq!(str_u8(&format!("0x{:x}", n)), Ok(n));
        assert_eq!(str_u8(&format!("0x{:02X}", n)), Ok(n));
    }
}

#[test]
fn first_channel_line_wins() {
    let a = get_channel("# x\nc 3\nc zz\nt 1\n");
    assert_eq!(a, get_channel("# x\nc 3\n"));
    assert_eq!(a, Ok(Some(ChannelTranslate { op: ChannelOperation::Literal, value: 3 })));
}

#[test]
fn channel_line_with_carriage_return() {
    let alone = get_channel("c -2\r");
    assert_eq!(alone, Ok(Some(ChannelTranslate { op: ChannelOperation::Minus, value: 2 })));
    assert_eq!(get_channel("# x\r\nc -2\r\nc 7\r\n"), alone);
}

#[test]
fn data_keyed_by_status_kind() {
    let mut table = HashMap::new();
    table.insert(make_key(0x90, 0, 0x05), 0x09);
    // A Note On on channel 1 uses the Note On rule.
    assert_eq!(translate_stream(&table, &[0x91, 0x05, 0x05]), vec![0x91, 0x09, 0x09]);
    assert_eq!(translate_stream(&table, &[0x9F, 0x05]), vec![0x9F, 0x09]);
    // Another kind is not translated.
    assert_eq!(translate_stream(&table, &[0x81, 0x05]), vec![0x81, 0x05]);
}
