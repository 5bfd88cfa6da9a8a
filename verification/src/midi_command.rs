//! The command runner: a configuration that maps MIDI notes to commands,
//! and the decisions that pick out the notes of Note On messages.
//!
//! Configuration lines (as `str::lines` splits them):
//! * `x N COMMAND`: the command to run when note `N` is played.
//! * `c N`: the channel to listen on; the last such line counts, 0 if none.
use crate::midi_jack::last_c_line;
use crate::midi_status::{read_status, MidiStatus};
use crate::text::{
    chars_of, copy_range, has_prefix, lines, parse_u8, parse_u8_spec, seq_views, split_lines,
    starts_with2, string_of, ParseNumError,
};
use std::collections::HashMap;
use vstd::prelude::*;

verus! {

broadcast use vstd::std_specs::hash::group_hash_axioms;

/// What goes wrong in reading a command configuration.
#[derive(Debug, Clone, Copy, PartialEq, Eq, Structural)]
pub enum CommandConfigError {
    /// An `x` line (its index) with no space after the note.
    InvalidLine { line: usize },
    /// An `x` line whose note does not parse.
    BadNote { line: usize, error: ParseNumError },
    /// The channel of the last `c` line does not parse.
    BadChannel(ParseNumError),
}

/// The index of the first `c` in `s`.
pub open spec fn first_index_of(s: Seq<char>, c: char) -> Option<int>
    decreases s.len(),
{
    if s.len() == 0 {
        None
    } else if s[0] == c {
        Some(0)
    } else {
        match first_index_of(s.drop_first(), c) {
            Some(k) => Some(k + 1),
            None => None,
        }
    }
}

/// The index of the first `c` in `s[from..]`, counted from the start of `s`.
fn find_char(s: &Vec<char>, from: usize, c: char) -> (r: Option<usize>)
    requires
        from <= s.len(),
    ensures
        match r {
            Some(k) => first_index_of(s@.skip(from as int), c) == Some(k - from) && from <= k
                < s.len(),
            None => first_index_of(s@.skip(from as int), c) is None,
        },
{
    let mut i = from;
    while i < s.len()
        invariant
            from <= i <= s.len(),
            first_index_of(s@.skip(from as int), c) == match first_index_of(
                s@.skip(i as int),
                c,
            ) {
                Some(k) => Some(k + (i - from)),
                None => None::<int>,
            },
        decreases s.len() - i,
    {
        assert(s@.skip(i as int).drop_first() =~= s@.skip(i + 1));
        if s[i] == c {
            return Some(i);
        }
        i = i + 1;
    }
    None
}

/// The entry of `x` line `l` (line `i`): the note before the first space
/// after `x `, and the command after it.
pub open spec fn x_line_entry(l: Seq<char>, i: int) -> Result<(u8, Seq<char>), CommandConfigError> {
    let rest = l.skip(2);
    match first_index_of(rest, ' ') {
        None => Err(CommandConfigError::InvalidLine { line: i as usize }),
        Some(k) => match parse_u8_spec(rest.take(k), 10) {
            Err(error) => Err(CommandConfigError::BadNote { line: i as usize, error }),
            Ok(note) => Ok((note, rest.skip(k + 1))),
        },
    }
}

/// The commands that lines `ls` give: each `x` line in order inserts its
/// entry (a later one replaces an earlier one for the same note); the
/// first line that fails gives the error.
pub open spec fn command_table_spec(ls: Seq<Seq<char>>) -> Result<
    Map<u8, Seq<char>>,
    CommandConfigError,
>
    decreases ls.len(),
{
    if ls.len() == 0 {
        Ok(Map::empty())
    } else {
        match command_table_spec(ls.drop_last()) {
            Err(e) => Err(e),
            Ok(m) => if !has_prefix(ls.last(), seq!['x', ' ']) {
                Ok(m)
            } else {
                match x_line_entry(ls.last(), ls.len() - 1) {
                    Err(e) => Err(e),
                    Ok((note, cmd)) => Ok(m.insert(note, cmd)),
                }
            },
        }
    }
}

/// The channel: the number after `c ` on the last `c` line, else 0.
pub open spec fn command_channel_spec(ls: Seq<Seq<char>>) -> Result<u8, CommandConfigError> {
    match last_c_line(ls) {
        None => Ok(0),
        Some(i) => match parse_u8_spec(ls[i].skip(2), 10) {
            Ok(c) => Ok(c),
            Err(e) => Err(CommandConfigError::BadChannel(e)),
        },
    }
}

/// The views of a table of commands.
pub open spec fn commands_view(m: Map<u8, String>) -> Map<u8, Seq<char>> {
    Map::new(|k: u8| m.contains_key(k), |k: u8| m[k]@)
}

proof fn lemma_command_prefix(ls: Seq<Seq<char>>, i: int)
    requires
        0 <= i <= ls.len(),
        command_table_spec(ls.take(i)) is Err,
    ensures
        command_table_spec(ls) == command_table_spec(ls.take(i)),
    decreases ls.len() - i,
{
    if i < ls.len() {
        assert(ls.take(i + 1).drop_last() =~= ls.take(i));
        lemma_command_prefix(ls, i + 1);
    } else {
        assert(ls.take(i) =~= ls);
    }
}

/// Read the command table and the channel from the configuration text.
pub fn make_table(description: &str) -> (r: Result<(HashMap<u8, String>, u8), CommandConfigError>)
    ensures
        match r {
            Ok((m, c)) => command_table_spec(lines(description@)) == Ok::<
                Map<u8, Seq<char>>,
                CommandConfigError,
            >(commands_view(m@)) && command_channel_spec(lines(description@)) == Ok::<
                u8,
                CommandConfigError,
            >(c),
            Err(e) => match command_table_spec(lines(description@)) {
                Err(e1) => e1 == e,
                Ok(_) => command_channel_spec(lines(description@)) == Err::<
                    u8,
                    CommandConfigError,
                >(e),
            },
        },
{
    let d = chars_of(description);
    let ls = split_lines(&d);
    let ghost gls = lines(d@);
    let mut table: HashMap<u8, String> = HashMap::new();
    let mut last_c: Option<usize> = None;
    let mut i: usize = 0;
    assert(gls.take(0) =~= Seq::<Seq<char>>::empty());
    assert(commands_view(table@) =~= Map::<u8, Seq<char>>::empty());
    while i < ls.len()
        invariant
            i <= ls.len(),
            seq_views(ls@) == gls,
            gls == lines(description@),
            command_table_spec(gls.take(i as int)) == Ok::<
                Map<u8, Seq<char>>,
                CommandConfigError,
            >(commands_view(table@)),
            last_c_line(gls.take(i as int)) == match last_c {
                Some(k) => Some(k as int),
                None => None::<int>,
            },
            last_c matches Some(k) ==> k < i && has_prefix(gls[k as int], seq!['c', ' ']),
        decreases ls.len() - i,
    {
        assert(gls.take(i + 1).drop_last() =~= gls.take(i as int));
        assert(gls.take(i + 1).last() == ls@[i as int]@);
        let l = &ls[i];
        if starts_with2(l, 'c', ' ') {
            last_c = Some(i);
        }
        if starts_with2(l, 'x', ' ') {
            assert(l@.skip(2) =~= l@.subrange(2, l@.len() as int));
            match find_char(l, 2, ' ') {
                None => {
                    proof {
                        lemma_command_prefix(gls, i + 1);
                    }
                    return Err(CommandConfigError::InvalidLine { line: i });
                },
                Some(k) => {
                    let note_text = copy_range(l, 2, k);
                    assert(note_text@ =~= l@.skip(2).take(k - 2));
                    match parse_u8(&note_text, 10) {
                        Err(error) => {
                            proof {
                                lemma_command_prefix(gls, i + 1);
                            }
                            return Err(CommandConfigError::BadNote { line: i, error });
                        },
                        Ok(note) => {
                            let cmd_chars = copy_range(l, k + 1, l.len());
                            assert(cmd_chars@ =~= l@.skip(2).skip(k - 2 + 1));
                            let cmd = string_of(&cmd_chars);
                            table.insert(note, cmd);
                            assert(commands_view(table@) =~= command_table_spec(
                                gls.take(i + 1),
                            )->Ok_0);
                        },
                    }
                },
            }
        }
        i = i + 1;
    }
    assert(gls.take(ls.len() as int) =~= gls);
    let channel = match last_c {
        None => 0u8,
        Some(k) => {
            let rest = copy_range(&ls[k], 2, ls[k].len());
            assert(rest@ =~= gls[k as int].skip(2));
            match parse_u8(&rest, 10) {
                Ok(c) => c,
                Err(e) => {
                    return Err(CommandConfigError::BadChannel(e));
                },
            }
        },
    };
    Ok((table, channel))
}

/// The state of the command runner between bytes: the channel it listens
/// on, whether the current message is a Note On on that channel, and
/// whether the next data byte of it is a note (the bytes of a Note On
/// message alternate note, velocity).
pub struct CommandListener {
    pub channel: u8,
    pub note_on: bool,
    pub expect_note: bool,
}

impl CommandListener {
    /// A listener on `channel` that has read nothing yet.
    pub fn new(channel: u8) -> (r: Self)
        ensures
            r.channel == channel,
            !r.note_on,
            r.expect_note,
    {
        CommandListener { channel, note_on: false, expect_note: true }
    }

    /// Read one byte.  A status byte starts a message: a Note On on the
    /// channel is watched, anything else is not.  In a watched message the
    /// data bytes alternate note, velocity; the notes are given back.
    pub fn step(&mut self, byte: u8) -> (note: Option<u8>)
        ensures
            final(self).channel == old(self).channel,
            byte >= 0x80 ==> {
                &&& final(self).note_on == (read_status(byte) == Some(
                    MidiStatus::NoteOn(old(self).channel),
                ))
                &&& final(self).expect_note
                &&& note is None
            },
            byte < 0x80 ==> {
                &&& final(self).note_on == old(self).note_on
                &&& note == if old(self).note_on && old(self).expect_note {
                    Some(byte)
                } else {
                    None::<u8>
                }
                &&& final(self).expect_note == if old(self).note_on {
                    !old(self).expect_note
                } else {
                    old(self).expect_note
                }
            },
    {
        if byte >= 0x80 {
            let st = MidiStatus::from_byte(byte);
            self.note_on = match st {
                Some(MidiStatus::NoteOn(c)) => c == self.channel,
                _ => false,
            };
            self.expect_note = true;
            None
        } else if self.note_on {
            let is_note = self.expect_note;
            self.expect_note = !self.expect_note;
            if is_note {
                Some(byte)
            } else {
                None
            }
        } else {
            None
        }
    }
}

} // verus!
