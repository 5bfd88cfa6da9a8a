//! MIDI status bytes.
use vstd::prelude::*;

verus! {

/// The kind of message a MIDI status byte opens.  The channel messages
/// carry their channel (the low nibble of the status byte).
#[derive(Debug, Clone, Copy, PartialEq, Eq, Structural)]
pub enum MidiStatus {
    NoteOff(u8),
    NoteOn(u8),
    PolyphonicAftertouch(u8),
    ControlChange(u8),
    ProgramChange(u8),
    ChannelAftertouch(u8),
    PitchBend(u8),
    SystemExclusive,
    TimeCodeQuarterFrame,
    SongPositionPointer,
    SongSelect,
    Undefined1,
    Undefined2,
    TuneRequest,
    EndOfExclusive,
    TimingClock,
    Undefined3,
    Start,
    Continue,
    Stop,
    Undefined4,
    ActiveSensing,
    Reset,
}

/// The high nibble of a channel message's status byte, and its channel.
pub open spec fn channel_message(s: MidiStatus) -> Option<(u8, u8)> {
    match s {
        MidiStatus::NoteOff(c) => Some((0x8u8, c)),
        MidiStatus::NoteOn(c) => Some((0x9u8, c)),
        MidiStatus::PolyphonicAftertouch(c) => Some((0xAu8, c)),
        MidiStatus::ControlChange(c) => Some((0xBu8, c)),
        MidiStatus::ProgramChange(c) => Some((0xCu8, c)),
        MidiStatus::ChannelAftertouch(c) => Some((0xDu8, c)),
        MidiStatus::PitchBend(c) => Some((0xEu8, c)),
        _ => None,
    }
}

/// The status byte of a system message.
pub open spec fn system_byte(s: MidiStatus) -> u8 {
    match s {
        MidiStatus::SystemExclusive => 0xF0u8,
        MidiStatus::TimeCodeQuarterFrame => 0xF1u8,
        MidiStatus::SongPositionPointer => 0xF2u8,
        MidiStatus::SongSelect => 0xF3u8,
        MidiStatus::Undefined1 => 0xF4u8,
        MidiStatus::Undefined2 => 0xF5u8,
        MidiStatus::TuneRequest => 0xF6u8,
        MidiStatus::EndOfExclusive => 0xF7u8,
        MidiStatus::TimingClock => 0xF8u8,
        MidiStatus::Undefined3 => 0xF9u8,
        MidiStatus::Start => 0xFAu8,
        MidiStatus::Continue => 0xFBu8,
        MidiStatus::Stop => 0xFCu8,
        MidiStatus::Undefined4 => 0xFDu8,
        MidiStatus::ActiveSensing => 0xFEu8,
        _ => 0xFFu8,
    }
}

/// A status whose channel, if it has one, fits in a nibble.
pub open spec fn valid_status(s: MidiStatus) -> bool {
    match channel_message(s) {
        Some((_, c)) => c < 16,
        None => true,
    }
}

/// The status byte of `s` (the channel taken modulo 16).
pub open spec fn status_byte(s: MidiStatus) -> u8 {
    match channel_message(s) {
        Some((kind, c)) => ((kind as int) * 16 + (c as int) % 16) as u8,
        None => system_byte(s),
    }
}

/// The status that a byte opens: none for a data byte (below 0x80), else
/// the valid status whose status byte it is.
pub open spec fn read_status(b: u8) -> Option<MidiStatus> {
    if b < 0x80 {
        None
    } else {
        Some(choose|s: MidiStatus| valid_status(s) && status_byte(s) == b)
    }
}

impl MidiStatus {
    /// The status that `byte` opens: `None` for a data byte (below 0x80),
    /// else the one valid status whose status byte is `byte`.
    pub fn from_byte(byte: u8) -> (r: Option<Self>)
        ensures
            byte < 0x80 ==> r is None,
            byte >= 0x80 ==> (r matches Some(s) && valid_status(s) && status_byte(s) == byte),
            r == read_status(byte),
    {
        let r = Self::read(byte);
        proof {
            if byte >= 0x80 {
                law_status_byte_onto(byte);
                let t = choose|s: MidiStatus| valid_status(s) && status_byte(s) == byte;
                law_status_byte_injective(r->0, t);
            }
        }
        r
    }

    fn read(byte: u8) -> (r: Option<Self>)
        ensures
            byte < 0x80 ==> r is None,
            byte >= 0x80 ==> (r matches Some(s) && valid_status(s) && status_byte(s) == byte),
    {
        let c = byte & 0x0F;
        assert(c == byte % 16 && c < 16) by (bit_vector)
            requires
                c == byte & 0x0F,
        ;
        match byte {
            0x80..=0x8F => Some(MidiStatus::NoteOff(c)),
            0x90..=0x9F => Some(MidiStatus::NoteOn(c)),
            0xA0..=0xAF => Some(MidiStatus::PolyphonicAftertouch(c)),
            0xB0..=0xBF => Some(MidiStatus::ControlChange(c)),
            0xC0..=0xCF => Some(MidiStatus::ProgramChange(c)),
            0xD0..=0xDF => Some(MidiStatus::ChannelAftertouch(c)),
            0xE0..=0xEF => Some(MidiStatus::PitchBend(c)),
            0xF0 => Some(MidiStatus::SystemExclusive),
            0xF1 => Some(MidiStatus::TimeCodeQuarterFrame),
            0xF2 => Some(MidiStatus::SongPositionPointer),
            0xF3 => Some(MidiStatus::SongSelect),
            0xF4 => Some(MidiStatus::Undefined1),
            0xF5 => Some(MidiStatus::Undefined2),
            0xF6 => Some(MidiStatus::TuneRequest),
            0xF7 => Some(MidiStatus::EndOfExclusive),
            0xF8 => Some(MidiStatus::TimingClock),
            0xF9 => Some(MidiStatus::Undefined3),
            0xFA => Some(MidiStatus::Start),
            0xFB => Some(MidiStatus::Continue),
            0xFC => Some(MidiStatus::Stop),
            0xFD => Some(MidiStatus::Undefined4),
            0xFE => Some(MidiStatus::ActiveSensing),
            0xFF => Some(MidiStatus::Reset),
            _ => None,
        }
    }

    /// The status byte of this status.
    pub fn to_byte(&self) -> (b: u8)
        ensures
            b == status_byte(*self),
            b >= 0x80,
    {
        match *self {
            MidiStatus::NoteOff(c) => 0x80 + c % 16,
            MidiStatus::NoteOn(c) => 0x90 + c % 16,
            MidiStatus::PolyphonicAftertouch(c) => 0xA0 + c % 16,
            MidiStatus::ControlChange(c) => 0xB0 + c % 16,
            MidiStatus::ProgramChange(c) => 0xC0 + c % 16,
            MidiStatus::ChannelAftertouch(c) => 0xD0 + c % 16,
            MidiStatus::PitchBend(c) => 0xE0 + c % 16,
            MidiStatus::SystemExclusive => 0xF0,
            MidiStatus::TimeCodeQuarterFrame => 0xF1,
            MidiStatus::SongPositionPointer => 0xF2,
            MidiStatus::SongSelect => 0xF3,
            MidiStatus::Undefined1 => 0xF4,
            MidiStatus::Undefined2 => 0xF5,
            MidiStatus::TuneRequest => 0xF6,
            MidiStatus::EndOfExclusive => 0xF7,
            MidiStatus::TimingClock => 0xF8,
            MidiStatus::Undefined3 => 0xF9,
            MidiStatus::Start => 0xFA,
            MidiStatus::Continue => 0xFB,
            MidiStatus::Stop => 0xFC,
            MidiStatus::Undefined4 => 0xFD,
            MidiStatus::ActiveSensing => 0xFE,
            MidiStatus::Reset => 0xFF,
        }
    }
}

/// A valid status is determined by its status byte, so reading back the
/// byte that `to_byte` writes gives the same status.
pub proof fn law_status_byte_injective(s: MidiStatus, t: MidiStatus)
    requires
        valid_status(s),
        valid_status(t),
        status_byte(s) == status_byte(t),
    ensures
        s == t,
{
}

/// Every byte from 0x80 up is the status byte of a valid status, so
/// `to_byte` gives back any status byte that `from_byte` read.
pub proof fn law_status_byte_onto(b: u8)
    requires
        b >= 0x80,
    ensures
        exists|s: MidiStatus| valid_status(s) && #[trigger] status_byte(s) == b,
{
    let c = (b % 16) as u8;
    let s = if b < 0x90 {
        MidiStatus::NoteOff(c)
    } else if b < 0xA0 {
        MidiStatus::NoteOn(c)
    } else if b < 0xB0 {
        MidiStatus::PolyphonicAftertouch(c)
    } else if b < 0xC0 {
        MidiStatus::ControlChange(c)
    } else if b < 0xD0 {
        MidiStatus::ProgramChange(c)
    } else if b < 0xE0 {
        MidiStatus::ChannelAftertouch(c)
    } else if b < 0xF0 {
        MidiStatus::PitchBend(c)
    } else if b == 0xF0 {
        MidiStatus::SystemExclusive
    } else if b == 0xF1 {
        MidiStatus::TimeCodeQuarterFrame
    } else if b == 0xF2 {
        MidiStatus::SongPositionPointer
    } else if b == 0xF3 {
        MidiStatus::SongSelect
    } else if b == 0xF4 {
        MidiStatus::Undefined1
    } else if b == 0xF5 {
        MidiStatus::Undefined2
    } else if b == 0xF6 {
        MidiStatus::TuneRequest
    } else if b == 0xF7 {
        MidiStatus::EndOfExclusive
    } else if b == 0xF8 {
        MidiStatus::TimingClock
    } else if b == 0xF9 {
        MidiStatus::Undefined3
    } else if b == 0xFA {
        MidiStatus::Start
    } else if b == 0xFB {
        MidiStatus::Continue
    } else if b == 0xFC {
        MidiStatus::Stop
    } else if b == 0xFD {
        MidiStatus::Undefined4
    } else if b == 0xFE {
        MidiStatus::ActiveSensing
    } else {
        MidiStatus::Reset
    };
    assert(valid_status(s) && status_byte(s) == b);
}

/// Each channel message has its MIDI high nibble and its channel in the
/// low nibble, and reading that byte gives the message back: Note Off
/// 0x8n, Note On 0x9n, Polyphonic Aftertouch 0xAn, Control Change 0xBn,
/// Program Change 0xCn, Channel Aftertouch 0xDn, Pitch Bend 0xEn.
pub proof fn law_channel_status_bytes(c: u8)
    requires
        c < 16,
    ensures
        status_byte(MidiStatus::NoteOff(c)) == 0x80 + c,
        status_byte(MidiStatus::NoteOn(c)) == 0x90 + c,
        status_byte(MidiStatus::PolyphonicAftertouch(c)) == 0xA0 + c,
        status_byte(MidiStatus::ControlChange(c)) == 0xB0 + c,
        status_byte(MidiStatus::ProgramChange(c)) == 0xC0 + c,
        status_byte(MidiStatus::ChannelAftertouch(c)) == 0xD0 + c,
        status_byte(MidiStatus::PitchBend(c)) == 0xE0 + c,
        read_status((0x80 + c) as u8) == Some(MidiStatus::NoteOff(c)),
        read_status((0x90 + c) as u8) == Some(MidiStatus::NoteOn(c)),
        read_status((0xA0 + c) as u8) == Some(MidiStatus::PolyphonicAftertouch(c)),
        read_status((0xB0 + c) as u8) == Some(MidiStatus::ControlChange(c)),
        read_status((0xC0 + c) as u8) == Some(MidiStatus::ProgramChange(c)),
        read_status((0xD0 + c) as u8) == Some(MidiStatus::ChannelAftertouch(c)),
        read_status((0xE0 + c) as u8) == Some(MidiStatus::PitchBend(c)),
{
    let all = seq![
        MidiStatus::NoteOff(c),
        MidiStatus::NoteOn(c),
        MidiStatus::PolyphonicAftertouch(c),
        MidiStatus::ControlChange(c),
        MidiStatus::ProgramChange(c),
        MidiStatus::ChannelAftertouch(c),
        MidiStatus::PitchBend(c),
    ];
    assert forall|k: int| 0 <= k < 7 implies read_status(#[trigger] status_byte(all[k])) == Some(
        all[k],
    ) by {
        lemma_read_status_byte(all[k]);
    }
    assert(status_byte(all[0]) == 0x80 + c);
    assert(status_byte(all[1]) == 0x90 + c);
    assert(status_byte(all[2]) == 0xA0 + c);
    assert(status_byte(all[3]) == 0xB0 + c);
    assert(status_byte(all[4]) == 0xC0 + c);
    assert(status_byte(all[5]) == 0xD0 + c);
    assert(status_byte(all[6]) == 0xE0 + c);
}

/// The system messages are the bytes 0xF0 to 0xFF in MIDI order.
pub proof fn law_system_status_bytes()
    ensures
        read_status(0xF0) == Some(MidiStatus::SystemExclusive),
        read_status(0xF1) == Some(MidiStatus::TimeCodeQuarterFrame),
        read_status(0xF2) == Some(MidiStatus::SongPositionPointer),
        read_status(0xF3) == Some(MidiStatus::SongSelect),
        read_status(0xF4) == Some(MidiStatus::Undefined1),
        read_status(0xF5) == Some(MidiStatus::Undefined2),
        read_status(0xF6) == Some(MidiStatus::TuneRequest),
        read_status(0xF7) == Some(MidiStatus::EndOfExclusive),
        read_status(0xF8) == Some(MidiStatus::TimingClock),
        read_status(0xF9) == Some(MidiStatus::Undefined3),
        read_status(0xFA) == Some(MidiStatus::Start),
        read_status(0xFB) == Some(MidiStatus::Continue),
        read_status(0xFC) == Some(MidiStatus::Stop),
        read_status(0xFD) == Some(MidiStatus::Undefined4),
        read_status(0xFE) == Some(MidiStatus::ActiveSensing),
        read_status(0xFF) == Some(MidiStatus::Reset),
{
    lemma_read_status_byte(MidiStatus::SystemExclusive);
    lemma_read_status_byte(MidiStatus::TimeCodeQuarterFrame);
    lemma_read_status_byte(MidiStatus::SongPositionPointer);
    lemma_read_status_byte(MidiStatus::SongSelect);
    lemma_read_status_byte(MidiStatus::Undefined1);
    lemma_read_status_byte(MidiStatus::Undefined2);
    lemma_read_status_byte(MidiStatus::TuneRequest);
    lemma_read_status_byte(MidiStatus::EndOfExclusive);
    lemma_read_status_byte(MidiStatus::TimingClock);
    lemma_read_status_byte(MidiStatus::Undefined3);
    lemma_read_status_byte(MidiStatus::Start);
    lemma_read_status_byte(MidiStatus::Continue);
    lemma_read_status_byte(MidiStatus::Stop);
    lemma_read_status_byte(MidiStatus::Undefined4);
    lemma_read_status_byte(MidiStatus::ActiveSensing);
    lemma_read_status_byte(MidiStatus::Reset);
}

/// Reading the status byte of a valid status gives that status.
proof fn lemma_read_status_byte(s: MidiStatus)
    requires
        valid_status(s),
    ensures
        status_byte(s) >= 0x80,
        read_status(status_byte(s)) == Some(s),
{
    let b = status_byte(s);
    assert(b >= 0x80);
    law_status_byte_onto(b);
    let t = choose|t: MidiStatus| valid_status(t) && status_byte(t) == b;
    law_status_byte_injective(s, t);
}

} // verus!
