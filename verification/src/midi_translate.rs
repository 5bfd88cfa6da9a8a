//! The pedal's translation configuration: the port name of the pedal and
//! a table from the MIDI values it sends to the values wanted.
//!
//! Configuration pieces (as `split('\n')` cuts the text):
//! * `name NAME`: the port name of the pedal; exactly one is wanted.
//! * `t K V`: value `K` is sent on as `V` (both decimal); values without
//!   such a rule pass unchanged.
//!
//! A configuration that breaks these rules is refused (see
//! `translate_config_refused`); so is a piece of two to four bytes, or
//! one whose first two or five bytes end inside a character.
use crate::text::{
    byte_len, bytes_at_least, char_at_byte, char_index_at_byte, chars_of, copy_range, has_prefix,
    is_ws, lemma_byte_len_at_least_len, lemma_words_two, parse_u8, parse_u8_spec, pieces,
    seq_views, split_pieces, split_words, starts_with2, string_of, words,
};
use crate::translate::{decimal_text, lemma_decimal_text};
use std::collections::HashMap;
use vstd::prelude::*;

verus! {

broadcast use vstd::std_specs::hash::group_hash_axioms;

/// The port name of the pedal and its translation table.
pub struct MidiTranslate {
    pub table: HashMap<u8, u8>,
    pub name: String,
}

/// The characters `name `.
pub open spec fn name_prefix() -> Seq<char> {
    seq!['n', 'a', 'm', 'e', ' ']
}

/// A `t` piece whose rule is malformed: not exactly two words after
/// `t `, or a word that is not a decimal `u8`.
pub open spec fn t_piece_bad(p: Seq<char>) -> bool {
    let w = words(p.skip(2));
    w.len() != 2 || parse_u8_spec(w[0], 10) is Err || parse_u8_spec(w[1], 10) is Err
}

/// A piece that the reader refuses on its own: more than one byte, and
/// its first two bytes end inside a character, or it is a malformed `t`
/// rule, or it is shorter than five bytes, or its first five bytes end
/// inside a character.
pub open spec fn piece_refused(p: Seq<char>) -> bool {
    byte_len(p) > 1 && (char_at_byte(p, 2) is None || (has_prefix(p, seq!['t', ' '])
        && t_piece_bad(p)) || byte_len(p) < 5 || char_at_byte(p, 5) is None)
}

/// Reading pieces `ps` from the left: whether one is refused, the table
/// of the `t` rules (a later rule for a value replaces an earlier one),
/// and the `name` pieces.
pub open spec fn config_scan(ps: Seq<Seq<char>>) -> (bool, Map<u8, u8>, Seq<Seq<char>>)
    decreases ps.len(),
{
    if ps.len() == 0 {
        (false, Map::empty(), Seq::empty())
    } else {
        let (refused, m, names) = config_scan(ps.drop_last());
        let p = ps.last();
        let long = byte_len(p) > 1;
        let m2 = if long && has_prefix(p, seq!['t', ' ']) && !t_piece_bad(p) {
            let w = words(p.skip(2));
            m.insert(parse_u8_spec(w[0], 10)->Ok_0, parse_u8_spec(w[1], 10)->Ok_0)
        } else {
            m
        };
        let names2 = if long && has_prefix(p, name_prefix()) {
            names.push(p)
        } else {
            names
        };
        (refused || piece_refused(p), m2, names2)
    }
}

/// The configuration `s` is refused: a piece is refused, or there is not
/// exactly one `name` piece, or it names nothing.
pub open spec fn translate_config_refused(s: Seq<char>) -> bool {
    let (refused, _, names) = config_scan(pieces(s));
    refused || names.len() != 1 || byte_len(names[0]) < 6
}

/// The table that configuration `s` gives.
pub open spec fn translate_config_table(s: Seq<char>) -> Map<u8, u8> {
    config_scan(pieces(s)).1
}

/// The port name that configuration `s` gives: the `name` piece after
/// its first five characters.
pub open spec fn translate_config_name(s: Seq<char>) -> Seq<char> {
    config_scan(pieces(s)).2[0].skip(5)
}

/// The `name` pieces that the scan collects are exactly the pieces of
/// more than one byte that begin with `name `.
proof fn lemma_config_names(ps: Seq<Seq<char>>)
    ensures
        forall|j: int|
            0 <= j < config_scan(ps).2.len() ==> has_prefix(
                #[trigger] config_scan(ps).2[j],
                name_prefix(),
            ) && exists|k: int| 0 <= k < ps.len() && ps[k] == config_scan(ps).2[j],
        forall|k: int|
            0 <= k < ps.len() && byte_len(#[trigger] ps[k]) > 1 && has_prefix(ps[k], name_prefix())
                ==> exists|j: int| 0 <= j < config_scan(ps).2.len() && config_scan(ps).2[j] == ps[k],
    decreases ps.len(),
{
    if ps.len() > 0 {
        let init = ps.drop_last();
        lemma_config_names(init);
        let names0 = config_scan(init).2;
        let names = config_scan(ps).2;
        let p = ps.last();
        assert forall|j: int| 0 <= j < names.len() implies has_prefix(
            #[trigger] names[j],
            name_prefix(),
        ) && exists|k: int| 0 <= k < ps.len() && ps[k] == names[j] by {
            if j < names0.len() {
                assert(names[j] == names0[j]);
                let k = choose|k: int| 0 <= k < init.len() && init[k] == names0[j];
                assert(ps[k] == init[k]);
            } else {
                assert(names[j] == p);
                assert(ps[ps.len() - 1] == p);
            }
        }
        assert forall|k: int|
            0 <= k < ps.len() && byte_len(#[trigger] ps[k]) > 1 && has_prefix(
                ps[k],
                name_prefix(),
            ) implies exists|j: int| 0 <= j < names.len() && names[j] == ps[k] by {
            if k < init.len() {
                assert(init[k] == ps[k]);
                let j = choose|j: int| 0 <= j < names0.len() && names0[j] == init[k];
                assert(names[j] == names0[j]);
            } else {
                assert(names[names.len() - 1] == p);
            }
        }
    }
}

/// The port name is the whole of the one `name` piece after `name `, white
/// space inside it kept: in a configuration that is not refused, `name `
/// followed by the port name is a piece, and every piece of more than one
/// byte that begins with `name ` is that piece.
pub proof fn law_name_is_name_piece(s: Seq<char>)
    requires
        !translate_config_refused(s),
    ensures
        exists|k: int|
            0 <= k < pieces(s).len() && pieces(s)[k] == name_prefix() + translate_config_name(s),
        forall|k: int|
            0 <= k < pieces(s).len() && byte_len(#[trigger] pieces(s)[k]) > 1 && has_prefix(
                pieces(s)[k],
                name_prefix(),
            ) ==> pieces(s)[k] == name_prefix() + translate_config_name(s),
{
    let ps = pieces(s);
    lemma_config_names(ps);
    let n = config_scan(ps).2[0];
    assert(has_prefix(n, name_prefix()));
    assert(n =~= name_prefix() + n.skip(5));
    assert(n == name_prefix() + translate_config_name(s));
    let k = choose|k: int| 0 <= k < ps.len() && ps[k] == n;
    assert(ps[k] == name_prefix() + translate_config_name(s));
    assert forall|k: int|
        0 <= k < ps.len() && byte_len(#[trigger] ps[k]) > 1 && has_prefix(ps[k], name_prefix())
            implies ps[k] == name_prefix() + translate_config_name(s) by {
        let j = choose|j: int| 0 <= j < config_scan(ps).2.len() && config_scan(ps).2[j] == ps[k];
    }
}

/// The `t` piece that gives `a` as `b`, both in decimal.
pub open spec fn t_piece(a: u8, b: u8) -> Seq<char> {
    seq!['t', ' '] + decimal_text(a) + seq![' '] + decimal_text(b)
}

proof fn lemma_t_piece(a: u8, b: u8)
    ensures
        byte_len(t_piece(a, b)) > 1,
        has_prefix(t_piece(a, b), seq!['t', ' ']),
        !has_prefix(t_piece(a, b), name_prefix()),
        !t_piece_bad(t_piece(a, b)),
        words(t_piece(a, b).skip(2)) == seq![decimal_text(a), decimal_text(b)],
{
    let p = t_piece(a, b);
    let da = decimal_text(a);
    let db = decimal_text(b);
    lemma_decimal_text(a);
    lemma_decimal_text(b);
    lemma_byte_len_at_least_len(p);
    assert(p.take(2) =~= seq!['t', ' ']);
    assert(p[0] == 't');
    assert(p.skip(2) =~= da + seq![' '] + db);
    assert forall|i: int| 0 <= i < da.len() implies !is_ws(#[trigger] da[i]) by {
        assert('0' <= da[i] <= '9');
    }
    assert forall|i: int| 0 <= i < db.len() implies !is_ws(#[trigger] db[i]) by {
        assert('0' <= db[i] <= '9');
    }
    lemma_words_two(da, db);
}

proof fn lemma_config_table_t(ps: Seq<Seq<char>>, k: int, a: u8, b: u8)
    requires
        0 <= k < ps.len(),
        ps[k] == t_piece(a, b),
        forall|j: int| k < j < ps.len() ==> !has_prefix(#[trigger] ps[j], seq!['t', ' ']),
    ensures
        config_scan(ps).1.contains_key(a),
        config_scan(ps).1[a] == b,
    decreases ps.len(),
{
    let init = ps.drop_last();
    if k == ps.len() - 1 {
        lemma_t_piece(a, b);
        lemma_decimal_text(a);
        lemma_decimal_text(b);
    } else {
        assert(!has_prefix(ps[ps.len() - 1], seq!['t', ' ']));
        assert forall|j: int| k < j < init.len() implies !has_prefix(
            #[trigger] init[j],
            seq!['t', ' '],
        ) by {
            assert(init[j] == ps[j]);
        }
        assert(init[k] == ps[k]);
        lemma_config_table_t(init, k, a, b);
    }
}

/// The `t` rules are read in decimal, and the last one counts: where the
/// last piece of `s` that begins with `t ` is `t A B`, `A` and `B` the
/// decimal texts of `a` and `b`, the table sends `a` to `b`.
pub proof fn law_t_rule_is_decimal(s: Seq<char>, k: int, a: u8, b: u8)
    requires
        0 <= k < pieces(s).len(),
        pieces(s)[k] == t_piece(a, b),
        forall|j: int| k < j < pieces(s).len() ==> !has_prefix(#[trigger] pieces(s)[j], seq!['t', ' ']),
    ensures
        translate_config_table(s).contains_key(a),
        translate_config_table(s)[a] == b,
{
    lemma_config_table_t(pieces(s), k, a, b);
}

/// Whether `p` begins with `name `.
fn starts_with_name(p: &Vec<char>) -> (r: bool)
    ensures
        r == has_prefix(p@, name_prefix()),
{
    let r = p.len() >= 5 && p[0] == 'n' && p[1] == 'a' && p[2] == 'm' && p[3] == 'e' && p[4]
        == ' ';
    if r {
        assert(p@.take(5) =~= name_prefix());
    } else if p.len() >= 5 {
        assert(p@.take(5)[0] == p@[0]);
        assert(p@.take(5)[1] == p@[1]);
        assert(p@.take(5)[2] == p@[2]);
        assert(p@.take(5)[3] == p@[3]);
        assert(p@.take(5)[4] == p@[4]);
    }
    r
}

fn read_config(contents: &str) -> (r: Option<MidiTranslate>)
    ensures
        match r {
            Some(t) => !translate_config_refused(contents@) && t.table@
                == translate_config_table(contents@) && t.name@ == translate_config_name(
                contents@,
            ),
            None => translate_config_refused(contents@),
        },
{
    let d = chars_of(contents);
    let ps = split_pieces(&d);
    let ghost gps = pieces(d@);
    let mut table: HashMap<u8, u8> = HashMap::new();
    let mut names: Vec<Vec<char>> = Vec::new();
    let mut refused = false;
    let mut i: usize = 0;
    assert(gps.take(0) =~= Seq::<Seq<char>>::empty());
    assert(seq_views(names@) =~= Seq::<Seq<char>>::empty());
    while i < ps.len()
        invariant
            i <= ps.len(),
            seq_views(ps@) == gps,
            gps == pieces(contents@),
            config_scan(gps.take(i as int)) == (refused, table@, seq_views(names@)),
            forall|k: int|
                0 <= k < names@.len() ==> has_prefix(#[trigger] names@[k]@, name_prefix()),
        decreases ps.len() - i,
    {
        assert(gps.take(i + 1).drop_last() =~= gps.take(i as int));
        assert(gps.take(i + 1).last() == ps@[i as int]@);
        let p = &ps[i];
        let long = bytes_at_least(p, 2);
        if long {
            let cut2 = char_index_at_byte(p, 2).is_none();
            let is_t = starts_with2(p, 't', ' ');
            let mut bad_t = false;
            if is_t {
                let w = split_words(p, 2);
                if w.len() != 2 {
                    bad_t = true;
                } else {
                    assert(w@[0]@ == seq_views(w@)[0]);
                    assert(w@[1]@ == seq_views(w@)[1]);
                    match (parse_u8(&w[0], 10), parse_u8(&w[1], 10)) {
                        (Ok(k), Ok(v)) => {
                            table.insert(k, v);
                        },
                        _ => {
                            bad_t = true;
                        },
                    }
                }
            }
            let short5 = !bytes_at_least(p, 5);
            let cut5 = char_index_at_byte(p, 5).is_none();
            if cut2 || bad_t || short5 || cut5 {
                refused = true;
            }
            if starts_with_name(p) {
                names.push(copy_range(p, 0, p.len()));
                assert(ps@[i as int]@.subrange(0, ps@[i as int]@.len() as int) =~= ps@[i as int]@);
            }
        }
        assert(seq_views(names@) =~= config_scan(gps.take(i + 1)).2);
        i = i + 1;
    }
    assert(gps.take(ps.len() as int) =~= gps);
    if refused || names.len() != 1 {
        return None;
    }
    assert(names@[0]@ == seq_views(names@)[0]);
    assert(has_prefix(names@[0]@, name_prefix()));
    if !bytes_at_least(&names[0], 6) {
        return None;
    }
    let name_chars = copy_range(&names[0], 5, names[0].len());
    assert(name_chars@ =~= names@[0]@.skip(5));
    let name = string_of(&name_chars);
    Some(MidiTranslate { table, name })
}

/// Whether the reader refuses configuration `contents`.
pub fn translate_config_is_refused(contents: &str) -> (r: bool)
    ensures
        r == translate_config_refused(contents@),
{
    read_config(contents).is_none()
}

impl MidiTranslate {
    /// Read the port name and the translation table from the text of the
    /// configuration.
    pub fn from_config(contents: &str) -> (r: Self)
        requires
            !translate_config_refused(contents@),
        ensures
            r.table@ == translate_config_table(contents@),
            r.name@ == translate_config_name(contents@),
    {
        match read_config(contents) {
            Some(t) => t,
            None => {
                assert(false);
                MidiTranslate { table: HashMap::new(), name: String::new() }
            },
        }
    }
}

} // verus!
