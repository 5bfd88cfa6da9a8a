//! MIDI input: choosing the input port by name, and turning each incoming
//! message into a Program Change through a translation table.
use crate::text::chars_of;
use std::collections::HashMap;
use vstd::prelude::*;

verus! {

broadcast use vstd::std_specs::hash::group_hash_axioms;

/// What goes wrong in connecting to MIDI input.
#[derive(Debug, Clone, Copy, PartialEq, Eq, Structural)]
pub enum MidiError {
    /// No input port has the wanted text in its name.
    NoPort,
}

/// Data handed to the handler of incoming MIDI messages.
pub struct MidiData {
    pub connection_cache: Vec<(String, String)>,
    pub last: u8,
}

impl Default for MidiData {
    fn default() -> (r: Self)
        ensures
            r.connection_cache@.len() == 0,
            r.last == 0,
    {
        MidiData { connection_cache: Vec::new(), last: 0 }
    }
}

/// A MIDI input by port name, with a table that translates the second
/// byte of each message.
pub struct Midi {
    pub name: String,
    pub translate_table: HashMap<u8, u8>,
}

/// `needle` occurs in `hay`.
pub open spec fn contains_text(hay: Seq<char>, needle: Seq<char>) -> bool {
    exists|i: int| 0 <= i && i + needle.len() <= hay.len() && #[trigger] hay.subrange(i, i + needle.len()) == needle
}

/// Whether `needle` occurs in `hay` at `i`.
fn occurs_at(hay: &Vec<char>, needle: &Vec<char>, i: usize) -> (r: bool)
    requires
        i + needle.len() <= hay.len(),
    ensures
        r == (hay@.subrange(i as int, i + needle.len()) == needle@),
{
    let mut k: usize = 0;
    while k < needle.len()
        invariant
            k <= needle.len(),
            i + needle.len() <= hay.len(),
            hay@.subrange(i as int, i + k) == needle@.take(k as int),
        decreases needle.len() - k,
    {
        if hay[i + k] != needle[k] {
            assert(hay@.subrange(i as int, i + needle.len())[k as int] != needle@[k as int]);
            return false;
        }
        k = k + 1;
        assert(hay@.subrange(i as int, i + k) =~= needle@.take(k as int));
    }
    assert(needle@.take(k as int) =~= needle@);
    true
}

/// Whether `needle` occurs in `hay`.
pub fn contains_chars(hay: &Vec<char>, needle: &Vec<char>) -> (r: bool)
    ensures
        r == contains_text(hay@, needle@),
{
    if needle.len() > hay.len() {
        return false;
    }
    let last = hay.len() - needle.len();
    let mut i: usize = 0;
    loop
        invariant
            needle.len() <= hay.len(),
            last == hay.len() - needle.len(),
            i <= last,
            forall|j: int|
                0 <= j < i ==> #[trigger] hay@.subrange(j, j + needle.len()) != needle@,
        decreases last - i,
    {
        if occurs_at(hay, needle, i) {
            return true;
        }
        if i == last {
            return false;
        }
        i = i + 1;
    }
}

/// Port `p` (its name, if it could be read) is one whose name holds `name`.
pub open spec fn port_matches(p: Option<Seq<char>>, name: Seq<char>) -> bool {
    match p {
        Some(n) => contains_text(n, name),
        None => false,
    }
}

/// The views of the port names.
pub open spec fn port_names_view(v: Seq<Option<String>>) -> Seq<Option<Seq<char>>> {
    Seq::new(
        v.len(),
        |i: int|
            match v[i] {
                Some(s) => Some(s@),
                None => None,
            },
    )
}

/// The first port whose name holds `name`; ports whose names could not
/// be read (`None`) are passed over.
pub fn find_port(port_names: &Vec<Option<String>>, name: &str) -> (r: Result<usize, MidiError>)
    ensures
        match r {
            Ok(i) => i < port_names.len() && port_matches(
                port_names_view(port_names@)[i as int],
                name@,
            ) && forall|j: int|
                0 <= j < i ==> !port_matches(#[trigger] port_names_view(port_names@)[j], name@),
            Err(_) => forall|j: int|
                0 <= j < port_names.len() ==> !port_matches(
                    #[trigger] port_names_view(port_names@)[j],
                    name@,
                ),
        },
{
    let needle = chars_of(name);
    let mut i: usize = 0;
    while i < port_names.len()
        invariant
            i <= port_names.len(),
            needle@ == name@,
            forall|j: int|
                0 <= j < i ==> !port_matches(#[trigger] port_names_view(port_names@)[j], name@),
        decreases port_names.len() - i,
    {
        match &port_names[i] {
            Some(n) => {
                let hay = chars_of(n.as_str());
                if contains_chars(&hay, &needle) {
                    return Ok(i);
                }
            },
            None => {},
        }
        i = i + 1;
    }
    Err(MidiError::NoPort)
}

/// The translated value of `b`: the table's entry, else `b`.
pub open spec fn translated(table: Map<u8, u8>, b: u8) -> u8 {
    if table.contains_key(b) {
        table[b]
    } else {
        b
    }
}

impl Midi {
    /// A MIDI input for the port named (in part) `name`.
    pub fn new(name: String, translate_table: HashMap<u8, u8>) -> (r: Result<Self, MidiError>)
        ensures
            r matches Ok(m) && m.name == name && m.translate_table@ == translate_table@,
    {
        Ok(Midi { name, translate_table })
    }

    /// The Program Change message sent for an incoming message: status
    /// 192 and the translated second byte.
    pub fn program_message(&self, message: &[u8]) -> (r: [u8; 2])
        requires
            message@.len() >= 2,
        ensures
            r@ == seq![192u8, translated(self.translate_table@, message@[1])],
    {
        let b = message[1];
        let c = match self.translate_table.get(&b) {
            Some(d) => *d,
            None => b,
        };
        let r = [192u8, c];
        assert(r@ =~= seq![192u8, translated(self.translate_table@, message@[1])]);
        r
    }
}

} // verus!
