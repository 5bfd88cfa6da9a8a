//! The Jack router: a configuration that maps MIDI program numbers to
//! sets of Jack connections, and the decisions that switch between them
//! as Program Change messages arrive.
//!
//! Configuration lines (as `str::lines` splits them):
//! * `j N FILE` (after trimming): program `N` makes the connections that
//!   `FILE` lists, one `src dst` pair per line.
//! * `c N`: the channel to listen on; the last such line counts, 0 if none.
use crate::midi_status::{
    law_status_byte_injective, law_status_byte_onto, read_status, status_byte, valid_status,
    MidiStatus,
};
use crate::text::{
    byte_len, bytes_at_least, char_at_byte, char_index_at_byte, chars_of, copy_range, has_prefix,
    leading_run, lemma_char_at_byte_range, lines, parse_u8, parse_u8_spec, run_end, seq_views,
    split_lines, split_words, starts_with2, string_of, trim, trimmed, words, ParseNumError,
};
use crate::translate::{decimal_text, hex_prefixed, law_str_u8_round_trip, str_u8_spec};
use std::collections::HashMap;
use vstd::prelude::*;

verus! {

broadcast use vstd::std_specs::hash::group_hash_axioms;

/// What goes wrong in reading a Jack router configuration.
#[derive(Debug, Clone, Copy, PartialEq, Eq, Structural)]
pub enum JackConfigError {
    /// A `j` line (its index) shorter than six bytes.
    ShortLine { line: usize },
    /// A `j` line whose program number does not parse.
    BadIndex { line: usize, error: ParseNumError },
    /// The file that a `j` line names could not be read.
    FileUnreadable { line: usize },
    /// A line (`pair_line`) of the file that `j` line `line` names has
    /// fewer than two words.
    BadJackDescription { line: usize, pair_line: usize },
    /// The channel of the last `c` line does not parse.
    BadChannel(ParseNumError),
}

/// A connection: source port and destination port.
pub type PairView = (Seq<char>, Seq<char>);

/// The view of a connection.
pub open spec fn pair_view(p: (String, String)) -> PairView {
    (p.0@, p.1@)
}

/// The views of a sequence of connections.
pub open spec fn pairs_view(v: Seq<(String, String)>) -> Seq<PairView> {
    Seq::new(v.len(), |i: int| pair_view(v[i]))
}

/// The view of a table from program numbers to connections.
pub open spec fn table_view(m: Map<u8, Vec<(String, String)>>) -> Map<u8, Seq<PairView>> {
    Map::new(|k: u8| m.contains_key(k), |k: u8| pairs_view(m[k]@))
}

// ---------------------------------------------------------------------
// Reading one `j` line
// ---------------------------------------------------------------------

/// What one line of the configuration is, as the router reads it.
pub enum JackLine {
    /// Not a `j` line.
    Other,
    /// A `j` line shorter than six bytes.
    Short,
    /// A `j` line where the reader's character counts, taken as byte
    /// offsets, cut a character in two.
    Cuts,
    /// A `j` line whose program number does not parse.
    BadIndex(ParseNumError),
    /// A `j` line: program number and file name.
    Entry(u8, Vec<char>),
}

/// `JackLine` with the file name as a sequence.
pub enum JackLineView {
    Other,
    Short,
    Cuts,
    BadIndex(ParseNumError),
    Entry(u8, Seq<char>),
}

/// The reading of line `l`.  The trimmed line `t` must begin with `j `
/// and hold six bytes; the program number runs from byte 2 to the byte
/// offset equal to the character index `i` where the first run of
/// non-white-space after `j ` ends; the file name starts at the byte offset
/// equal to the character index `j` where the white space after it ends.
pub open spec fn jack_line_spec(l: Seq<char>) -> JackLineView {
    let t = trim(l);
    if !has_prefix(t, seq!['j', ' ']) {
        JackLineView::Other
    } else if byte_len(t) < 6 {
        JackLineView::Short
    } else {
        let i: int = 2int + leading_run(t.skip(2), false);
        match char_at_byte(t, i) {
            None => JackLineView::Cuts,
            Some(a) => match parse_u8_spec(t.subrange(2, a), 10) {
                Err(e) => JackLineView::BadIndex(e),
                Ok(idx) => {
                    let j: int = i + leading_run(t.skip(i), true);
                    match char_at_byte(t, j) {
                        None => JackLineView::Cuts,
                        Some(b) => JackLineView::Entry(idx, t.skip(b)),
                    }
                },
            },
        }
    }
}

proof fn lemma_char_at_byte_after_ascii2(t: Seq<char>, i: int)
    requires
        t.len() >= 2,
        utf8_len_is_one(t[0]),
        utf8_len_is_one(t[1]),
        i >= 2,
    ensures
        char_at_byte(t, i) == match char_at_byte(t.skip(2), i - 2) {
            Some(k) => Some(k + 2),
            None => None::<int>,
        },
{
    let t1 = t.drop_first();
    assert(t1.drop_first() =~= t.skip(2));
    assert(t1[0] == t[1]);
    assert(char_at_byte(t, i) == match char_at_byte(t1, i - 1) {
        Some(k) => Some(k + 1),
        None => None::<int>,
    });
    assert(char_at_byte(t1, i - 1) == match char_at_byte(t1.drop_first(), i - 2) {
        Some(k) => Some(k + 1),
        None => None::<int>,
    });
    lemma_char_at_byte_range(t.skip(2), i - 2);
}

/// A character of one byte in UTF-8.
pub open spec fn utf8_len_is_one(c: char) -> bool {
    (c as u32) < 0x80
}

/// Read one line of the configuration.
pub fn read_jack_line(l: &Vec<char>) -> (r: JackLine)
    ensures
        match r {
            JackLine::Other => jack_line_spec(l@) is Other,
            JackLine::Short => jack_line_spec(l@) is Short,
            JackLine::Cuts => jack_line_spec(l@) is Cuts,
            JackLine::BadIndex(e) => jack_line_spec(l@) == JackLineView::BadIndex(e),
            JackLine::Entry(idx, name) => jack_line_spec(l@) == JackLineView::Entry(idx, name@),
        },
{
    let t = trimmed(l);
    if !starts_with2(&t, 'j', ' ') {
        return JackLine::Other;
    }
    if !bytes_at_least(&t, 6) {
        return JackLine::Short;
    }
    assert(t@[0] == 'j' && t@[1] == ' ') by {
        assert(t@.take(2)[0] == t@[0]);
        assert(t@.take(2)[1] == t@[1]);
    }
    let i = run_end(&t, 2, false);
    let a = match char_index_at_byte(&t, i) {
        Some(a) => a,
        None => {
            return JackLine::Cuts;
        },
    };
    proof {
        lemma_char_at_byte_after_ascii2(t@, i as int);
        lemma_char_at_byte_range(t@.skip(2), i - 2);
    }
    assert(a >= 2);
    let idx_text = copy_range(&t, 2, a);
    let idx = match parse_u8(&idx_text, 10) {
        Ok(v) => v,
        Err(e) => {
            return JackLine::BadIndex(e);
        },
    };
    let j = run_end(&t, i, true);
    let b = match char_index_at_byte(&t, j) {
        Some(b) => b,
        None => {
            return JackLine::Cuts;
        },
    };
    let name = copy_range(&t, b, t.len());
    assert(name@ =~= t@.skip(b as int));
    JackLine::Entry(idx, name)
}

// ---------------------------------------------------------------------
// Reading a file of connections
// ---------------------------------------------------------------------

/// The connections that the lines `ls` of a file list: the first two
/// words of each line; or the index of the first line with fewer.
pub open spec fn jack_pairs_spec(ls: Seq<Seq<char>>) -> Result<Seq<PairView>, usize>
    decreases ls.len(),
{
    if ls.len() == 0 {
        Ok(Seq::empty())
    } else {
        match jack_pairs_spec(ls.drop_last()) {
            Err(i) => Err(i),
            Ok(ps) => {
                let w = words(ls.last());
                if w.len() < 2 {
                    Err((ls.len() - 1) as usize)
                } else {
                    Ok(ps.push((w[0], w[1])))
                }
            },
        }
    }
}

proof fn lemma_pairs_prefix(ls: Seq<Seq<char>>, i: int)
    requires
        0 <= i <= ls.len(),
        jack_pairs_spec(ls.take(i)) is Err,
    ensures
        jack_pairs_spec(ls) == jack_pairs_spec(ls.take(i)),
    decreases ls.len() - i,
{
    if i < ls.len() {
        assert(ls.take(i + 1).drop_last() =~= ls.take(i));
        lemma_pairs_prefix(ls, i + 1);
    } else {
        assert(ls.take(i) =~= ls);
    }
}

/// Read the connections that a file lists, one `src dst` pair per line
/// (further words are ignored); `Err` holds the index of the first line
/// with fewer than two words.
pub fn parse_jack_pairs(content: &str) -> (r: Result<Vec<(String, String)>, usize>)
    ensures
        match r {
            Ok(v) => jack_pairs_spec(lines(content@)) == Ok::<Seq<PairView>, usize>(
                pairs_view(v@),
            ),
            Err(i) => jack_pairs_spec(lines(content@)) == Err::<Seq<PairView>, usize>(i),
        },
{
    let d = chars_of(content);
    let ls = split_lines(&d);
    let ghost gls = lines(d@);
    let mut out: Vec<(String, String)> = Vec::new();
    let mut i: usize = 0;
    assert(gls.take(0) =~= Seq::<Seq<char>>::empty());
    assert(pairs_view(out@) =~= Seq::<PairView>::empty());
    while i < ls.len()
        invariant
            i <= ls.len(),
            seq_views(ls@) == gls,
            gls == lines(content@),
            jack_pairs_spec(gls.take(i as int)) == Ok::<Seq<PairView>, usize>(pairs_view(out@)),
        decreases ls.len() - i,
    {
        assert(gls.take(i + 1).drop_last() =~= gls.take(i as int));
        assert(gls.take(i + 1).last() == ls@[i as int]@);
        let w = split_words(&ls[i], 0);
        assert(ls@[i as int]@.skip(0) =~= ls@[i as int]@);
        if w.len() < 2 {
            proof {
                lemma_pairs_prefix(gls, i + 1);
            }
            return Err(i);
        }
        assert(w@[0]@ == seq_views(w@)[0]);
        assert(w@[1]@ == seq_views(w@)[1]);
        let src = string_of(&w[0]);
        let dst = string_of(&w[1]);
        out.push((src, dst));
        assert(pairs_view(out@) =~= jack_pairs_spec(gls.take(i + 1))->Ok_0);
        i = i + 1;
    }
    assert(gls.take(ls.len() as int) =~= gls);
    Ok(out)
}

// ---------------------------------------------------------------------
// The whole configuration
// ---------------------------------------------------------------------

/// The file contents handed in for the `k`-th `j` line (`None` when the
/// file could not be read or none was handed in).
pub open spec fn content_of(contents: Seq<Option<Seq<char>>>, k: int) -> Option<Seq<char>> {
    if 0 <= k < contents.len() {
        contents[k]
    } else {
        None
    }
}

/// The number of lines of `ls` that read as `j` entries.
pub open spec fn entry_count(ls: Seq<Seq<char>>) -> nat
    decreases ls.len(),
{
    if ls.len() == 0 {
        0
    } else {
        entry_count(ls.drop_last()) + if jack_line_spec(ls.last()) is Entry {
            1nat
        } else {
            0nat
        }
    }
}

/// The table that lines `ls` give, the `k`-th `j` line reading
/// `contents[k]`: each `j` line in order inserts its connections (a later
/// one replaces an earlier one with the same program); the first line
/// that fails gives the error.
pub open spec fn jack_table_spec(ls: Seq<Seq<char>>, contents: Seq<Option<Seq<char>>>) -> Result<
    Map<u8, Seq<PairView>>,
    JackConfigError,
>
    decreases ls.len(),
{
    if ls.len() == 0 {
        Ok(Map::empty())
    } else {
        let prev = ls.drop_last();
        let line = (ls.len() - 1) as usize;
        match jack_table_spec(prev, contents) {
            Err(e) => Err(e),
            Ok(m) => match jack_line_spec(ls.last()) {
                JackLineView::Other => Ok(m),
                JackLineView::Cuts => Ok(m),
                JackLineView::Short => Err(JackConfigError::ShortLine { line }),
                JackLineView::BadIndex(error) => Err(JackConfigError::BadIndex { line, error }),
                JackLineView::Entry(idx, _) => match content_of(contents, entry_count(prev) as int) {
                    None => Err(JackConfigError::FileUnreadable { line }),
                    Some(c) => match jack_pairs_spec(lines(c)) {
                        Err(pair_line) => Err(
                            JackConfigError::BadJackDescription { line, pair_line },
                        ),
                        Ok(ps) => Ok(m.insert(idx, ps)),
                    },
                },
            },
        }
    }
}

/// Reading the lines `ls` reaches a `j` line that cuts a character in two.
pub open spec fn jack_table_panics(ls: Seq<Seq<char>>, contents: Seq<Option<Seq<char>>>) -> bool
    decreases ls.len(),
{
    ls.len() > 0 && (jack_table_panics(ls.drop_last(), contents) || (jack_table_spec(
        ls.drop_last(),
        contents,
    ) is Ok && jack_line_spec(ls.last()) is Cuts))
}

/// The index of the last line that begins with `c `.
pub open spec fn last_c_line(ls: Seq<Seq<char>>) -> Option<int>
    decreases ls.len(),
{
    if ls.len() == 0 {
        None
    } else if has_prefix(ls.last(), seq!['c', ' ']) {
        Some(ls.len() - 1)
    } else {
        last_c_line(ls.drop_last())
    }
}

/// The channel: the number after `c ` on the last `c` line, else 0.
pub open spec fn config_channel_spec(ls: Seq<Seq<char>>) -> Result<u8, JackConfigError> {
    match last_c_line(ls) {
        None => Ok(0),
        Some(i) => match parse_u8_spec(ls[i].skip(2), 10) {
            Ok(c) => Ok(c),
            Err(e) => Err(JackConfigError::BadChannel(e)),
        },
    }
}

proof fn lemma_last_c_line(ls: Seq<Seq<char>>, i: int)
    requires
        0 <= i < ls.len(),
        has_prefix(ls[i], seq!['c', ' ']),
        forall|k: int| i < k < ls.len() ==> !has_prefix(#[trigger] ls[k], seq!['c', ' ']),
    ensures
        last_c_line(ls) == Some(i),
    decreases ls.len(),
{
    if i < ls.len() - 1 {
        assert(!has_prefix(ls[ls.len() - 1], seq!['c', ' ']));
        let init = ls.drop_last();
        assert forall|k: int| i < k < init.len() implies !has_prefix(
            #[trigger] init[k],
            seq!['c', ' '],
        ) by {
            assert(init[k] == ls[k]);
        }
        lemma_last_c_line(init, i);
    }
}

proof fn lemma_no_c_line(ls: Seq<Seq<char>>)
    requires
        forall|k: int| 0 <= k < ls.len() ==> !has_prefix(#[trigger] ls[k], seq!['c', ' ']),
    ensures
        last_c_line(ls) is None,
    decreases ls.len(),
{
    if ls.len() > 0 {
        assert(!has_prefix(ls[ls.len() - 1], seq!['c', ' ']));
        let init = ls.drop_last();
        assert forall|k: int| 0 <= k < init.len() implies !has_prefix(
            #[trigger] init[k],
            seq!['c', ' '],
        ) by {
            assert(init[k] == ls[k]);
        }
        lemma_no_c_line(init);
    }
}

/// The channel is read in decimal from the last `c` line: where the last
/// line of `d` that begins with `c ` is `c ` and the decimal text of `n`,
/// the channel is `n`, and a configuration whose table reads gives `n`
/// with it.
pub proof fn law_channel_is_last_decimal(
    d: Seq<char>,
    contents: Seq<Option<Seq<char>>>,
    i: int,
    n: u8,
)
    requires
        0 <= i < lines(d).len(),
        lines(d)[i] == seq!['c', ' '] + decimal_text(n),
        forall|k: int| i < k < lines(d).len() ==> !has_prefix(#[trigger] lines(d)[k], seq!['c', ' ']),
    ensures
        config_channel_spec(lines(d)) == Ok::<u8, JackConfigError>(n),
        jack_table_spec(lines(d), contents) matches Ok(m) ==> make_table_spec(d, contents) == Ok::<
            (Map<u8, Seq<PairView>>, u8),
            JackConfigError,
        >((m, n)),
{
    let ls = lines(d);
    assert(ls[i].take(2) =~= seq!['c', ' ']);
    lemma_last_c_line(ls, i);
    assert(ls[i].skip(2) =~= decimal_text(n));
    law_str_u8_round_trip(n);
    let dt = decimal_text(n);
    assert(dt.len() >= 2 ==> dt[1] != 'x');
    assert(!hex_prefixed(dt));
}

/// Without a line that begins with `c `, the channel is 0.
pub proof fn law_channel_default(d: Seq<char>)
    requires
        forall|k: int| 0 <= k < lines(d).len() ==> !has_prefix(#[trigger] lines(d)[k], seq!['c', ' ']),
    ensures
        config_channel_spec(lines(d)) == Ok::<u8, JackConfigError>(0),
{
    lemma_no_c_line(lines(d));
}

/// The table and channel that configuration `d` gives.
pub open spec fn make_table_spec(d: Seq<char>, contents: Seq<Option<Seq<char>>>) -> Result<
    (Map<u8, Seq<PairView>>, u8),
    JackConfigError,
> {
    match jack_table_spec(lines(d), contents) {
        Err(e) => Err(e),
        Ok(m) => match config_channel_spec(lines(d)) {
            Err(e) => Err(e),
            Ok(c) => Ok((m, c)),
        },
    }
}

/// The views of the contents handed in.
pub open spec fn contents_view(v: Seq<Option<String>>) -> Seq<Option<Seq<char>>> {
    Seq::new(
        v.len(),
        |i: int|
            match v[i] {
                Some(s) => Some(s@),
                None => None,
            },
    )
}

proof fn lemma_jack_prefix(ls: Seq<Seq<char>>, contents: Seq<Option<Seq<char>>>, i: int)
    requires
        0 <= i <= ls.len(),
    ensures
        jack_table_panics(ls.take(i), contents) ==> jack_table_panics(ls, contents),
        jack_table_spec(ls.take(i), contents) is Err && !jack_table_panics(ls.take(i), contents)
            ==> !jack_table_panics(ls, contents) && jack_table_spec(ls, contents)
            == jack_table_spec(ls.take(i), contents),
    decreases ls.len() - i,
{
    if i < ls.len() {
        lemma_jack_prefix(ls, contents, i + 1);
        assert(ls.take(i + 1).drop_last() =~= ls.take(i));
    } else {
        assert(ls.take(i) =~= ls);
    }
}

/// The outcome of reading a configuration.
enum TableBuild {
    Table(HashMap<u8, Vec<(String, String)>>, u8),
    Failed(JackConfigError),
    Cuts,
}

fn build_table(description: &str, contents: &Vec<Option<String>>) -> (r: TableBuild)
    ensures
        match r {
            TableBuild::Cuts => jack_table_panics(lines(description@), contents_view(contents@)),
            TableBuild::Table(m, c) => !jack_table_panics(
                lines(description@),
                contents_view(contents@),
            ) && make_table_spec(description@, contents_view(contents@)) == Ok::<
                (Map<u8, Seq<PairView>>, u8),
                JackConfigError,
            >((table_view(m@), c)),
            TableBuild::Failed(e) => !jack_table_panics(
                lines(description@),
                contents_view(contents@),
            ) && make_table_spec(description@, contents_view(contents@)) == Err::<
                (Map<u8, Seq<PairView>>, u8),
                JackConfigError,
            >(e),
        },
{
    let d = chars_of(description);
    let ls = split_lines(&d);
    let ghost gls = lines(d@);
    let ghost cv = contents_view(contents@);
    let mut table: HashMap<u8, Vec<(String, String)>> = HashMap::new();
    let mut entries: usize = 0;
    let mut last_c: Option<usize> = None;
    let mut i: usize = 0;
    assert(gls.take(0) =~= Seq::<Seq<char>>::empty());
    assert(table_view(table@) =~= Map::<u8, Seq<PairView>>::empty());
    while i < ls.len()
        invariant
            i <= ls.len(),
            seq_views(ls@) == gls,
            gls == lines(description@),
            cv == contents_view(contents@),
            !jack_table_panics(gls.take(i as int), cv),
            jack_table_spec(gls.take(i as int), cv) == Ok::<
                Map<u8, Seq<PairView>>,
                JackConfigError,
            >(table_view(table@)),
            entries == entry_count(gls.take(i as int)),
            last_c_line(gls.take(i as int)) == match last_c {
                Some(k) => Some(k as int),
                None => None::<int>,
            },
            last_c matches Some(k) ==> k < i && has_prefix(gls[k as int], seq!['c', ' ']),
        decreases ls.len() - i,
    {
        proof {
            lemma_jack_prefix(gls, cv, i + 1);
        }
        assert(gls.take(i + 1).drop_last() =~= gls.take(i as int));
        assert(gls.take(i + 1).last() == ls@[i as int]@);
        let l = &ls[i];
        if starts_with2(l, 'c', ' ') {
            last_c = Some(i);
        }
        match read_jack_line(l) {
            JackLine::Other => {},
            JackLine::Cuts => {
                return TableBuild::Cuts;
            },
            JackLine::Short => {
                return TableBuild::Failed(JackConfigError::ShortLine { line: i });
            },
            JackLine::BadIndex(error) => {
                return TableBuild::Failed(JackConfigError::BadIndex { line: i, error });
            },
            JackLine::Entry(idx, _name) => {
                if entries >= contents.len() {
                    return TableBuild::Failed(JackConfigError::FileUnreadable { line: i });
                }
                match &contents[entries] {
                    None => {
                        return TableBuild::Failed(JackConfigError::FileUnreadable { line: i });
                    },
                    Some(c) => {
                        match parse_jack_pairs(c.as_str()) {
                            Err(pair_line) => {
                                return TableBuild::Failed(
                                    JackConfigError::BadJackDescription { line: i, pair_line },
                                );
                            },
                            Ok(ps) => {
                                table.insert(idx, ps);
                                assert(table_view(table@) =~= jack_table_spec(
                                    gls.take(i + 1),
                                    cv,
                                )->Ok_0);
                            },
                        }
                    },
                }
                entries = entries + 1;
            },
        }
        i = i + 1;
    }
    assert(gls.take(ls.len() as int) =~= gls);
    let channel = match last_c {
        None => 0u8,
        Some(k) => {
            let rest = copy_range(&ls[k], 2, ls[k].len());
            assert(rest@ =~= gls[k as int].skip(2));
            match parse_u8(&rest, 10) {
                Ok(c) => c,
                Err(e) => {
                    return TableBuild::Failed(JackConfigError::BadChannel(e));
                },
            }
        },
    };
    TableBuild::Table(table, channel)
}

/// Whether reading `description` with `contents` reaches a `j` line whose
/// character counts, taken as byte offsets, cut a character in two.
pub fn jack_table_cuts(description: &str, contents: &Vec<Option<String>>) -> (r: bool)
    ensures
        r == jack_table_panics(lines(description@), contents_view(contents@)),
{
    match build_table(description, contents) {
        TableBuild::Cuts => true,
        _ => false,
    }
}

/// Build the table from the configuration text `description`; the
/// `k`-th `j` line reads `contents[k]`, the text of the file it names
/// (`None` where that file could not be read).
pub fn make_table(description: &str, contents: &Vec<Option<String>>) -> (r: Result<
    (HashMap<u8, Vec<(String, String)>>, u8),
    JackConfigError,
>)
    requires
        !jack_table_panics(lines(description@), contents_view(contents@)),
    ensures
        match r {
            Ok((m, c)) => make_table_spec(description@, contents_view(contents@)) == Ok::<
                (Map<u8, Seq<PairView>>, u8),
                JackConfigError,
            >((table_view(m@), c)),
            Err(e) => make_table_spec(description@, contents_view(contents@)) == Err::<
                (Map<u8, Seq<PairView>>, u8),
                JackConfigError,
            >(e),
        },
{
    match build_table(description, contents) {
        TableBuild::Table(m, c) => Ok((m, c)),
        TableBuild::Failed(e) => Err(e),
        TableBuild::Cuts => {
            assert(false);
            Err(JackConfigError::ShortLine { line: 0 })
        },
    }
}

/// Reading lines `ls` from the left: the file names of the `j` lines
/// read so far, and whether a `j` line has failed (reading stops there).
pub open spec fn jack_files_scan(ls: Seq<Seq<char>>) -> (Seq<Seq<char>>, bool)
    decreases ls.len(),
{
    if ls.len() == 0 {
        (Seq::empty(), false)
    } else {
        let (names, stopped) = jack_files_scan(ls.drop_last());
        if stopped {
            (names, true)
        } else {
            match jack_line_spec(ls.last()) {
                JackLineView::Other => (names, false),
                JackLineView::Entry(_, name) => (names.push(name), false),
                _ => (names, true),
            }
        }
    }
}

/// The names of the files that the `j` lines of `description` name, in
/// order, up to the first `j` line that fails to read.
pub fn jack_files(description: &str) -> (r: Vec<String>)
    ensures
        Seq::new(r@.len(), |i: int| r@[i]@) == jack_files_scan(lines(description@)).0,
{
    let d = chars_of(description);
    let ls = split_lines(&d);
    let ghost gls = lines(d@);
    let mut names: Vec<String> = Vec::new();
    let mut i: usize = 0;
    assert(gls.take(0) =~= Seq::<Seq<char>>::empty());
    while i < ls.len()
        invariant
            i <= ls.len(),
            seq_views(ls@) == gls,
            gls == lines(description@),
            !jack_files_scan(gls.take(i as int)).1,
            Seq::new(names@.len(), |k: int| names@[k]@) == jack_files_scan(gls.take(i as int)).0,
        decreases ls.len() - i,
    {
        assert(gls.take(i + 1).drop_last() =~= gls.take(i as int));
        assert(gls.take(i + 1).last() == ls@[i as int]@);
        match read_jack_line(&ls[i]) {
            JackLine::Other => {},
            JackLine::Entry(_idx, name) => {
                let n = string_of(&name);
                names.push(n);
                assert(Seq::new(names@.len(), |k: int| names@[k]@) =~= jack_files_scan(
                    gls.take(i + 1),
                ).0);
            },
            _ => {
                proof {
                    lemma_files_stop(gls, i + 1);
                }
                return names;
            },
        }
        i = i + 1;
    }
    assert(gls.take(ls.len() as int) =~= gls);
    names
}

proof fn lemma_files_stop(ls: Seq<Seq<char>>, i: int)
    requires
        0 <= i <= ls.len(),
        jack_files_scan(ls.take(i)).1,
    ensures
        jack_files_scan(ls) == jack_files_scan(ls.take(i)),
    decreases ls.len() - i,
{
    if i < ls.len() {
        assert(ls.take(i + 1).drop_last() =~= ls.take(i));
        lemma_files_stop(ls, i + 1);
    } else {
        assert(ls.take(i) =~= ls);
    }
}

// ---------------------------------------------------------------------
// Routing
// ---------------------------------------------------------------------

/// A change to make to the Jack connections.
#[derive(Debug, PartialEq, Eq)]
pub enum JackAction {
    /// Connect source to destination.
    Connect(String, String),
    /// Disconnect source from destination.
    Disconnect(String, String),
}

/// An action as `(connect?, (source, destination))`.
pub open spec fn action_view(a: JackAction) -> (bool, PairView) {
    match a {
        JackAction::Connect(s, d) => (true, (s@, d@)),
        JackAction::Disconnect(s, d) => (false, (s@, d@)),
    }
}

/// The views of a sequence of actions.
pub open spec fn actions_view(v: Seq<JackAction>) -> Seq<(bool, PairView)> {
    Seq::new(v.len(), |i: int| action_view(v[i]))
}

/// Connect actions for each pair of `ps`.
pub open spec fn connects(ps: Seq<PairView>) -> Seq<(bool, PairView)> {
    Seq::new(ps.len(), |i: int| (true, ps[i]))
}

/// Disconnect actions for each pair of `ps`.
pub open spec fn disconnects(ps: Seq<PairView>) -> Seq<(bool, PairView)> {
    Seq::new(ps.len(), |i: int| (false, ps[i]))
}

/// Something that makes and breaks Jack connections.
pub trait JackConnectionHandler {
    /// Connect `src` to `dst`.
    fn make_jack(&mut self, src: &str, dst: &str) -> Result<(), String>;

    /// Disconnect `src` from `dst`.
    fn unmake_jack(&mut self, src: &str, dst: &str) -> Result<(), String>;
}

/// The state of the router between bytes.
pub struct RouterView {
    pub table: Map<u8, Seq<PairView>>,
    pub channel: u8,
    pub status: Option<MidiStatus>,
    pub effect: Option<u8>,
    pub connected: Seq<PairView>,
}

/// The router is consistent: the selected program is in the table, and
/// exactly its connections are recorded as made, each once.
pub open spec fn router_wf(r: RouterView) -> bool {
    &&& r.effect matches Some(e) ==> r.table.contains_key(e)
    &&& r.connected.no_duplicates()
    &&& forall|x: PairView|
        r.connected.contains(x) <==> match r.effect {
            Some(e) => r.table[e].contains(x),
            None => false,
        }
}

/// Making the connections `pipes` when `connected` are made: the ones to
/// make (each not yet made, once, in order) and the connections made after.
pub open spec fn connect_scan(connected: Seq<PairView>, pipes: Seq<PairView>) -> (
    Seq<PairView>,
    Seq<PairView>,
)
    decreases pipes.len(),
{
    if pipes.len() == 0 {
        (Seq::empty(), connected)
    } else {
        let (made, conn) = connect_scan(connected, pipes.drop_last());
        let p = pipes.last();
        if conn.contains(p) {
            (made, conn)
        } else {
            (made.push(p), conn.push(p))
        }
    }
}

/// The pairs of `old`, in order, that `pipes` does not hold.
pub open spec fn missing_from(old: Seq<PairView>, pipes: Seq<PairView>) -> Seq<PairView>
    decreases old.len(),
{
    if old.len() == 0 {
        Seq::empty()
    } else {
        let rest = missing_from(old.drop_last(), pipes);
        if pipes.contains(old.last()) {
            rest
        } else {
            rest.push(old.last())
        }
    }
}

/// The pairs of `conn`, in order, that `ds` does not hold.
pub open spec fn remove_all(conn: Seq<PairView>, ds: Seq<PairView>) -> Seq<PairView>
    decreases conn.len(),
{
    if conn.len() == 0 {
        Seq::empty()
    } else {
        let rest = remove_all(conn.drop_last(), ds);
        if ds.contains(conn.last()) {
            rest
        } else {
            rest.push(conn.last())
        }
    }
}

/// Data byte `byte` selects a program: the current status is a Program
/// Change and the table has the program.
pub open spec fn selects(r: RouterView, byte: u8) -> bool {
    &&& byte < 0x80
    &&& r.status matches Some(MidiStatus::ProgramChange(_))
    &&& r.table.contains_key(byte)
}

/// One byte read by the router: the state after and the actions to take.
/// A status byte on the router's channel becomes the current status (one
/// on another channel clears it).  A data byte that selects a program
/// makes its connections not yet made, then breaks those of the program
/// selected before that the new one does not hold.  Anything else does
/// nothing.
pub open spec fn step_spec(r: RouterView, byte: u8) -> (RouterView, Seq<(bool, PairView)>) {
    if byte >= 0x80 {
        (
            RouterView {
                status: if byte % 16 == r.channel {
                    read_status(byte)
                } else {
                    None
                },
                ..r
            },
            Seq::empty(),
        )
    } else if selects(r, byte) {
        let pipes = r.table[byte];
        let (made, conn) = connect_scan(r.connected, pipes);
        let ds = match r.effect {
            Some(old) => missing_from(r.table[old], pipes),
            None => Seq::empty(),
        };
        (
            RouterView { effect: Some(byte), connected: remove_all(conn, ds), ..r },
            connects(made) + disconnects(ds),
        )
    } else {
        (r, Seq::empty())
    }
}

proof fn lemma_connect_scan(connected: Seq<PairView>, pipes: Seq<PairView>)
    ensures
        connected.no_duplicates() ==> connect_scan(connected, pipes).1.no_duplicates(),
        connect_scan(connected, pipes).1 == connected + connect_scan(connected, pipes).0,
        forall|x: PairView| #[trigger]
            connect_scan(connected, pipes).1.contains(x) <==> (connected.contains(x)
                || pipes.contains(x)),
        forall|x: PairView| #[trigger]
            connect_scan(connected, pipes).0.contains(x) ==> pipes.contains(x),
    decreases pipes.len(),
{
    if pipes.len() > 0 {
        let pre = pipes.drop_last();
        lemma_connect_scan(connected, pre);
        let (made, conn) = connect_scan(connected, pre);
        let p = pipes.last();
        assert(pipes =~= pre.push(p));
        assert forall|x: PairView| pipes.contains(x) <==> (pre.contains(x) || x == p) by {
            if pipes.contains(x) {
                let k = choose|k: int| 0 <= k < pipes.len() && pipes[k] == x;
                if k < pre.len() {
                    assert(pre[k] == x);
                }
            }
            if pre.contains(x) {
                let k = choose|k: int| 0 <= k < pre.len() && pre[k] == x;
                assert(pipes[k] == x);
            }
            if x == p {
                assert(pipes[pipes.len() - 1] == x);
            }
        }
        if !conn.contains(p) {
            assert(conn.push(p) =~= connected + made.push(p));
            assert forall|x: PairView| conn.push(p).contains(x) <==> (conn.contains(x) || x == p) by {
                if conn.push(p).contains(x) {
                    let k = choose|k: int| 0 <= k < conn.push(p).len() && conn.push(p)[k] == x;
                    if k < conn.len() {
                        assert(conn[k] == x);
                    }
                }
                if conn.contains(x) {
                    let k = choose|k: int| 0 <= k < conn.len() && conn[k] == x;
                    assert(conn.push(p)[k] == x);
                }
                if x == p {
                    assert(conn.push(p)[conn.len() as int] == x);
                }
            }
            assert forall|x: PairView| made.push(p).contains(x) implies pipes.contains(x) by {
                let k = choose|k: int| 0 <= k < made.push(p).len() && made.push(p)[k] == x;
                if k < made.len() {
                    assert(made[k] == x);
                    assert(made.contains(x));
                    assert(pre.contains(x));
                } else {
                    assert(pipes[pipes.len() - 1] == x);
                }
            }
        }
        assert forall|x: PairView|
            connect_scan(connected, pipes).1.contains(x) <==> (connected.contains(x)
                || pipes.contains(x)) by {
            assert(conn.contains(x) <==> (connected.contains(x) || pre.contains(x)));
            if !conn.contains(p) {
                assert(conn.push(p).contains(x) <==> (conn.contains(x) || x == p));
            }
        }
    } else {
        assert(connected + Seq::<PairView>::empty() =~= connected);
    }
}

proof fn lemma_missing_from(old: Seq<PairView>, pipes: Seq<PairView>)
    ensures
        forall|x: PairView| #[trigger]
            missing_from(old, pipes).contains(x) <==> (old.contains(x) && !pipes.contains(x)),
    decreases old.len(),
{
    if old.len() > 0 {
        let pre = old.drop_last();
        lemma_missing_from(pre, pipes);
        let rest = missing_from(pre, pipes);
        let p = old.last();
        assert forall|x: PairView| old.contains(x) <==> (pre.contains(x) || x == p) by {
            if old.contains(x) {
                let k = choose|k: int| 0 <= k < old.len() && old[k] == x;
                if k < pre.len() {
                    assert(pre[k] == x);
                }
            }
            if pre.contains(x) {
                let k = choose|k: int| 0 <= k < pre.len() && pre[k] == x;
                assert(old[k] == x);
            }
            if x == p {
                assert(old[old.len() - 1] == x);
            }
        }
        assert forall|x: PairView| rest.push(p).contains(x) <==> (rest.contains(x) || x == p) by {
            if rest.push(p).contains(x) {
                let k = choose|k: int| 0 <= k < rest.push(p).len() && rest.push(p)[k] == x;
                if k < rest.len() {
                    assert(rest[k] == x);
                }
            }
            if rest.contains(x) {
                let k = choose|k: int| 0 <= k < rest.len() && rest[k] == x;
                assert(rest.push(p)[k] == x);
            }
            if x == p {
                assert(rest.push(p)[rest.len() as int] == x);
            }
        }
        assert forall|x: PairView|
            missing_from(old, pipes).contains(x) <==> (old.contains(x) && !pipes.contains(x)) by {
            assert(rest.contains(x) <==> (pre.contains(x) && !pipes.contains(x)));
        }
    }
}

proof fn lemma_remove_all(conn: Seq<PairView>, ds: Seq<PairView>)
    ensures
        forall|x: PairView| #[trigger]
            remove_all(conn, ds).contains(x) <==> (conn.contains(x) && !ds.contains(x)),
        conn.no_duplicates() ==> remove_all(conn, ds).no_duplicates(),
    decreases conn.len(),
{
    if conn.len() > 0 {
        let pre = conn.drop_last();
        lemma_remove_all(pre, ds);
        let rest = remove_all(pre, ds);
        let p = conn.last();
        assert forall|x: PairView| conn.contains(x) <==> (pre.contains(x) || x == p) by {
            if conn.contains(x) {
                let k = choose|k: int| 0 <= k < conn.len() && conn[k] == x;
                if k < pre.len() {
                    assert(pre[k] == x);
                }
            }
            if pre.contains(x) {
                let k = choose|k: int| 0 <= k < pre.len() && pre[k] == x;
                assert(conn[k] == x);
            }
            if x == p {
                assert(conn[conn.len() - 1] == x);
            }
        }
        assert forall|x: PairView| rest.push(p).contains(x) <==> (rest.contains(x) || x == p) by {
            if rest.push(p).contains(x) {
                let k = choose|k: int| 0 <= k < rest.push(p).len() && rest.push(p)[k] == x;
                if k < rest.len() {
                    assert(rest[k] == x);
                }
            }
            if rest.contains(x) {
                let k = choose|k: int| 0 <= k < rest.len() && rest[k] == x;
                assert(rest.push(p)[k] == x);
            }
            if x == p {
                assert(rest.push(p)[rest.len() as int] == x);
            }
        }
        assert forall|x: PairView|
            remove_all(conn, ds).contains(x) <==> (conn.contains(x) && !ds.contains(x)) by {
            assert(rest.contains(x) <==> (pre.contains(x) && !ds.contains(x)));
        }
        if conn.no_duplicates() {
            assert(pre.no_duplicates());
            if !ds.contains(p) {
                assert(!pre.contains(p)) by {
                    if pre.contains(p) {
                        let k = choose|k: int| 0 <= k < pre.len() && pre[k] == p;
                        assert(conn[k] == conn[conn.len() - 1]);
                    }
                }
                assert(!rest.contains(p));
                assert(rest.push(p).no_duplicates()) by {
                    assert forall|a: int, b: int|
                        0 <= a < b < rest.push(p).len() implies rest.push(p)[a] != rest.push(
                        p,
                    )[b] by {
                        if b == rest.len() {
                            assert(rest[a] == rest.push(p)[a]);
                        }
                    }
                }
            }
        }
    }
}

/// The router stays consistent from byte to byte.
pub proof fn law_step_keeps_wf(r: RouterView, byte: u8)
    requires
        router_wf(r),
    ensures
        router_wf(step_spec(r, byte).0),
{
    if byte < 0x80 && selects(r, byte) {
        let pipes = r.table[byte];
        lemma_connect_scan(r.connected, pipes);
        let (made, conn) = connect_scan(r.connected, pipes);
        let ds = match r.effect {
            Some(old) => missing_from(r.table[old], pipes),
            None => Seq::empty(),
        };
        match r.effect {
            Some(old) => lemma_missing_from(r.table[old], pipes),
            None => {},
        }
        lemma_remove_all(conn, ds);
    }
}

/// Central law: after a byte that selects a program, the connections
/// recorded as made are exactly that program's connections.
pub proof fn law_program_change_connects_exactly(r: RouterView, byte: u8)
    requires
        router_wf(r),
        selects(r, byte),
    ensures
        step_spec(r, byte).0.effect == Some(byte),
        forall|x: PairView|
            step_spec(r, byte).0.connected.contains(x) <==> r.table[byte].contains(x),
{
    law_step_keeps_wf(r, byte);
}

/// Taking the actions of a step, in order, on the set of connections made
/// before it gives the set of connections made after it.
pub open spec fn apply_actions(made: Set<PairView>, acts: Seq<(bool, PairView)>) -> Set<PairView>
    decreases acts.len(),
{
    if acts.len() == 0 {
        made
    } else {
        let before = apply_actions(made, acts.drop_last());
        let (connect, p) = acts.last();
        if connect {
            before.insert(p)
        } else {
            before.remove(p)
        }
    }
}

proof fn lemma_apply_connects(made: Set<PairView>, ps: Seq<PairView>)
    ensures
        apply_actions(made, connects(ps)) == made + ps.to_set(),
    decreases ps.len(),
{
    if ps.len() > 0 {
        lemma_apply_connects(made, ps.drop_last());
        assert(connects(ps).drop_last() =~= connects(ps.drop_last()));
        assert(ps.to_set() =~= ps.drop_last().to_set().insert(ps.last())) by {
            assert forall|x: PairView| ps.contains(x) <==> (ps.drop_last().contains(x) || x
                == ps.last()) by {
                if ps.contains(x) {
                    let k = choose|k: int| 0 <= k < ps.len() && ps[k] == x;
                    if k < ps.len() - 1 {
                        assert(ps.drop_last()[k] == x);
                    }
                }
                if ps.drop_last().contains(x) {
                    let k = choose|k: int| 0 <= k < ps.drop_last().len() && ps.drop_last()[k] == x;
                    assert(ps[k] == x);
                }
                if x == ps.last() {
                    assert(ps[ps.len() - 1] == x);
                }
            }
        }
        assert(apply_actions(made, connects(ps)) =~= made + ps.to_set());
    } else {
        assert(made + ps.to_set() =~= made);
    }
}

proof fn lemma_apply_append(made: Set<PairView>, a: Seq<(bool, PairView)>, b: Seq<
    (bool, PairView),
>)
    ensures
        apply_actions(made, a + b) == apply_actions(apply_actions(made, a), b),
    decreases b.len(),
{
    if b.len() > 0 {
        lemma_apply_append(made, a, b.drop_last());
        assert((a + b).drop_last() =~= a + b.drop_last());
        assert((a + b).last() == b.last());
    } else {
        assert(a + b =~= a);
    }
}

proof fn lemma_apply_disconnects(made: Set<PairView>, ps: Seq<PairView>)
    ensures
        apply_actions(made, disconnects(ps)) == made - ps.to_set(),
    decreases ps.len(),
{
    if ps.len() > 0 {
        lemma_apply_disconnects(made, ps.drop_last());
        assert(disconnects(ps).drop_last() =~= disconnects(ps.drop_last()));
        assert(ps.to_set() =~= ps.drop_last().to_set().insert(ps.last())) by {
            assert forall|x: PairView| ps.contains(x) <==> (ps.drop_last().contains(x) || x
                == ps.last()) by {
                if ps.contains(x) {
                    let k = choose|k: int| 0 <= k < ps.len() && ps[k] == x;
                    if k < ps.len() - 1 {
                        assert(ps.drop_last()[k] == x);
                    }
                }
                if ps.drop_last().contains(x) {
                    let k = choose|k: int| 0 <= k < ps.drop_last().len() && ps.drop_last()[k] == x;
                    assert(ps[k] == x);
                }
                if x == ps.last() {
                    assert(ps[ps.len() - 1] == x);
                }
            }
        }
        assert(apply_actions(made, disconnects(ps)) =~= made - ps.to_set());
    } else {
        assert(made - ps.to_set() =~= made);
    }
}

/// The actions of a step, taken in order on the connections made before
/// it, leave exactly the connections recorded as made after it.
pub proof fn law_actions_match_state(r: RouterView, byte: u8)
    requires
        router_wf(r),
    ensures
        apply_actions(r.connected.to_set(), step_spec(r, byte).1) == step_spec(
            r,
            byte,
        ).0.connected.to_set(),
{
    if byte < 0x80 && selects(r, byte) {
        let pipes = r.table[byte];
        lemma_connect_scan(r.connected, pipes);
        let (made, conn) = connect_scan(r.connected, pipes);
        let ds = match r.effect {
            Some(old) => missing_from(r.table[old], pipes),
            None => Seq::empty(),
        };
        match r.effect {
            Some(old) => lemma_missing_from(r.table[old], pipes),
            None => {},
        }
        lemma_remove_all(conn, ds);
        lemma_apply_append(r.connected.to_set(), connects(made), disconnects(ds));
        lemma_apply_connects(r.connected.to_set(), made);
        lemma_apply_disconnects(r.connected.to_set() + made.to_set(), ds);
        assert(apply_actions(r.connected.to_set(), step_spec(r, byte).1) =~= step_spec(
            r,
            byte,
        ).0.connected.to_set());
    }
}

/// Selecting the program that is already selected changes nothing.
pub proof fn law_reselect_is_silent(r: RouterView, byte: u8)
    requires
        router_wf(r),
        selects(r, byte),
        r.effect == Some(byte),
    ensures
        step_spec(r, byte).1.len() == 0,
        step_spec(r, byte).0.connected == r.connected,
{
    let pipes = r.table[byte];
    lemma_connect_scan(r.connected, pipes);
    lemma_missing_from(pipes, pipes);
    let (made, conn) = connect_scan(r.connected, pipes);
    assert(made.len() == 0) by {
        if made.len() > 0 {
            assert(made.contains(made[0]));
            assert(pipes.contains(made[0]));
            assert(r.connected.contains(made[0]));
            assert(conn =~= r.connected + made);
            assert(conn[r.connected.len() as int] == made[0]);
            assert(connect_scan(r.connected, pipes).1.no_duplicates());
            let k = choose|k: int| 0 <= k < r.connected.len() && r.connected[k] == made[0];
            assert(conn[k] == made[0]);
        }
    }
    let ds = missing_from(pipes, pipes);
    assert(ds.len() == 0) by {
        if ds.len() > 0 {
            let x = ds[0];
            assert(ds.contains(x));
            assert(missing_from(pipes, pipes).contains(x) <==> (pipes.contains(x)
                && !pipes.contains(x)));
        }
    }
    assert(conn =~= r.connected);
    lemma_remove_nothing(conn, ds);
}

/// A Program Change to a program that the table does not have is
/// ignored: no action, and nothing changes.
pub proof fn law_unknown_program_is_silent(r: RouterView, byte: u8)
    requires
        byte < 0x80,
        r.status matches Some(MidiStatus::ProgramChange(_)),
        !r.table.contains_key(byte),
    ensures
        step_spec(r, byte).0 == r,
        step_spec(r, byte).1.len() == 0,
{
}

/// A status byte on another channel leaves no status, so the data bytes
/// after it change nothing.
pub proof fn law_other_channel_is_ignored(r: RouterView, s: u8, d: u8)
    requires
        s >= 0x80,
        s % 16 != r.channel,
        d < 0x80,
    ensures
        step_spec(step_spec(r, s).0, d).0 == step_spec(r, s).0,
        step_spec(step_spec(r, s).0, d).1.len() == 0,
        step_spec(r, s).1.len() == 0,
{
}

/// A status byte on the router's channel replaces the status: one that
/// is not a Program Change (outside 0xC0 to 0xCF) leaves no Program
/// Change, so a data byte after it changes nothing and takes no action;
/// a Program Change on the channel (0xC0 plus the channel) followed by a
/// program of the table selects that program.
pub proof fn law_channel_status_replaces(r: RouterView, s: u8, d: u8)
    requires
        s >= 0x80,
        s % 16 == r.channel,
        d < 0x80,
    ensures
        (s < 0xC0 || s >= 0xD0) ==> {
            &&& step_spec(step_spec(r, s).0, d).1.len() == 0
            &&& step_spec(step_spec(r, s).0, d).0.effect == r.effect
            &&& step_spec(step_spec(r, s).0, d).0.connected == r.connected
        },
        (0xC0 <= s < 0xD0 && r.table.contains_key(d)) ==> step_spec(step_spec(r, s).0, d).0.effect
            == Some(d),
{
    law_status_byte_onto(s);
    let t = choose|t: MidiStatus| valid_status(t) && status_byte(t) == s;
    assert(read_status(s) == Some(t));
    match t {
        MidiStatus::ProgramChange(c) => {
            assert(status_byte(t) == 0xC0 + c % 16);
        },
        _ => {},
    }
}

/// Reading the bytes `bytes` from state `r`: the state after them and
/// all the actions taken, in order.
pub open spec fn run_spec(r: RouterView, bytes: Seq<u8>) -> (RouterView, Seq<(bool, PairView)>)
    decreases bytes.len(),
{
    if bytes.len() == 0 {
        (r, Seq::empty())
    } else {
        let (mid, acts) = run_spec(r, bytes.drop_last());
        let (last, more) = step_spec(mid, bytes.last());
        (last, acts + more)
    }
}

/// The program selected after reading `bytes` from `r`: the last data
/// byte that selected a program, else the one selected in `r`.
pub open spec fn selected_after(r: RouterView, bytes: Seq<u8>) -> Option<u8>
    decreases bytes.len(),
{
    if bytes.len() == 0 {
        r.effect
    } else if selects(run_spec(r, bytes.drop_last()).0, bytes.last()) {
        Some(bytes.last())
    } else {
        selected_after(r, bytes.drop_last())
    }
}

/// The set of connections of a program (none when no program).
pub open spec fn program_pairs(table: Map<u8, Seq<PairView>>, p: Option<u8>) -> Set<PairView> {
    match p {
        Some(p) => table[p].to_set(),
        None => Set::empty(),
    }
}

proof fn lemma_run(r: RouterView, bytes: Seq<u8>)
    requires
        router_wf(r),
    ensures
        router_wf(run_spec(r, bytes).0),
        run_spec(r, bytes).0.table == r.table,
        run_spec(r, bytes).0.channel == r.channel,
        run_spec(r, bytes).0.effect == selected_after(r, bytes),
        apply_actions(r.connected.to_set(), run_spec(r, bytes).1) == run_spec(
            r,
            bytes,
        ).0.connected.to_set(),
    decreases bytes.len(),
{
    if bytes.len() > 0 {
        let pre = bytes.drop_last();
        lemma_run(r, pre);
        let (mid, acts) = run_spec(r, pre);
        law_step_keeps_wf(mid, bytes.last());
        law_actions_match_state(mid, bytes.last());
        let (last, more) = step_spec(mid, bytes.last());
        lemma_apply_append(r.connected.to_set(), acts, more);
    }
}

/// The router over a whole run: starting with no program selected and no
/// connection made, the connections that the actions make and do not
/// break again are exactly those of the program that the last selecting
/// byte chose (none before any program is chosen).
pub proof fn law_run_connects_selected(table: Map<u8, Seq<PairView>>, channel: u8, bytes: Seq<u8>)
    ensures
        ({
            let r0 = RouterView {
                table,
                channel,
                status: None,
                effect: None,
                connected: Seq::empty(),
            };
            let (r, acts) = run_spec(r0, bytes);
            &&& r.effect == selected_after(r0, bytes)
            &&& apply_actions(Set::empty(), acts) == program_pairs(table, r.effect)
            &&& router_wf(r)
        }),
{
    let r0 = RouterView { table, channel, status: None, effect: None, connected: Seq::empty() };
    assert(router_wf(r0));
    lemma_run(r0, bytes);
    let (r, acts) = run_spec(r0, bytes);
    assert(r0.connected.to_set() =~= Set::<PairView>::empty());
    assert(r.connected.to_set() =~= program_pairs(table, r.effect));
}

proof fn lemma_run_snoc(r: RouterView, bytes: Seq<u8>, b: u8)
    ensures
        run_spec(r, bytes.push(b)) == ({
            let (mid, acts) = run_spec(r, bytes);
            let (last, more) = step_spec(mid, b);
            (last, acts + more)
        }),
{
    assert(bytes.push(b).drop_last() =~= bytes);
}

/// Over whole runs: sending the Program Change of the program just
/// selected once more changes nothing; the run ends in the same state with
/// the same actions as without the repeat.
pub proof fn law_reselect_run_is_silent(r0: RouterView, bs: Seq<u8>, p: u8)
    requires
        router_wf(r0),
        r0.channel < 16,
        p < 0x80,
        r0.table.contains_key(p),
    ensures
        ({
            let c = (0xC0 + r0.channel) as u8;
            &&& run_spec(r0, bs + seq![c, p, c, p]).0 == run_spec(r0, bs + seq![c, p]).0
            &&& run_spec(r0, bs + seq![c, p, c, p]).1 == run_spec(r0, bs + seq![c, p]).1
        }),
{
    let c = (0xC0 + r0.channel) as u8;
    let pc = MidiStatus::ProgramChange(r0.channel);
    assert(valid_status(pc) && status_byte(pc) == c);
    law_status_byte_onto(c);
    let t = choose|s: MidiStatus| valid_status(s) && status_byte(s) == c;
    law_status_byte_injective(pc, t);
    assert(read_status(c) == Some(pc));
    assert(c % 16 == r0.channel);
    let x1 = bs.push(c);
    let x2 = x1.push(p);
    let x3 = x2.push(c);
    let x4 = x3.push(p);
    assert(bs + seq![c, p] =~= x2);
    assert(bs + seq![c, p, c, p] =~= x4);
    lemma_run(r0, bs);
    lemma_run_snoc(r0, bs, c);
    lemma_run_snoc(r0, x1, p);
    lemma_run_snoc(r0, x2, c);
    lemma_run_snoc(r0, x3, p);
    lemma_run(r0, x1);
    lemma_run(r0, x2);
    lemma_run(r0, x3);
    let (m2, a2) = run_spec(r0, x2);
    assert(m2.effect == Some(p));
    assert(m2.status == Some(pc));
    let (m3, a3) = run_spec(r0, x3);
    assert(m3 == m2);
    law_reselect_is_silent(m3, p);
    let (m4, a4) = run_spec(r0, x4);
    assert(m4.connected == m2.connected);
    assert(m4 == m2);
    assert(a4 =~= a2);
}

proof fn lemma_remove_nothing(conn: Seq<PairView>, ds: Seq<PairView>)
    requires
        ds.len() == 0,
    ensures
        remove_all(conn, ds) == conn,
    decreases conn.len(),
{
    if conn.len() > 0 {
        lemma_remove_nothing(conn.drop_last(), ds);
        assert(conn.drop_last().push(conn.last()) =~= conn);
    }
}

/// Whether `v` holds the connection `(s, d)`.
fn contains_pair(v: &Vec<(String, String)>, s: &String, d: &String) -> (r: bool)
    ensures
        r == pairs_view(v@).contains((s@, d@)),
{
    let mut i: usize = 0;
    while i < v.len()
        invariant
            i <= v.len(),
            forall|k: int| 0 <= k < i ==> pairs_view(v@)[k] != (s@, d@),
        decreases v.len() - i,
    {
        if v[i].0 == *s && v[i].1 == *d {
            assert(pairs_view(v@)[i as int] == (s@, d@));
            return true;
        }
        i = i + 1;
    }
    false
}

/// The router: its table, its channel, the status last read on the
/// channel, the program selected and the connections it has made.
pub struct JackRouter {
    pub table: HashMap<u8, Vec<(String, String)>>,
    pub channel: u8,
    pub status: Option<MidiStatus>,
    pub effect: Option<u8>,
    pub connected: Vec<(String, String)>,
}

impl View for JackRouter {
    type V = RouterView;

    open spec fn view(&self) -> RouterView {
        RouterView {
            table: table_view(self.table@),
            channel: self.channel,
            status: self.status,
            effect: self.effect,
            connected: pairs_view(self.connected@),
        }
    }
}

/// The connections of every program of `table` with a number below `n`,
/// program by program in increasing order.
pub open spec fn release_upto(table: Map<u8, Seq<PairView>>, n: nat) -> Seq<PairView>
    decreases n,
{
    if n == 0 {
        Seq::empty()
    } else {
        let k = (n - 1) as u8;
        release_upto(table, (n - 1) as nat) + if table.contains_key(k) {
            table[k]
        } else {
            Seq::empty()
        }
    }
}

impl JackRouter {
    /// A router for `table` listening on `channel`, with no program
    /// selected and no connection made.
    pub fn new(table: HashMap<u8, Vec<(String, String)>>, channel: u8) -> (r: Self)
        ensures
            r@ == (RouterView {
                table: table_view(table@),
                channel,
                status: None,
                effect: None,
                connected: Seq::empty(),
            }),
            router_wf(r@),
    {
        let r = JackRouter {
            table,
            channel,
            status: None,
            effect: None,
            connected: Vec::new(),
        };
        assert(pairs_view(r.connected@) =~= Seq::<PairView>::empty());
        r
    }

    /// The actions that break every connection of every program of the
    /// table, program by program in increasing order, so that the router
    /// starts from no connection.
    pub fn release_all(&self) -> (acts: Vec<JackAction>)
        ensures
            actions_view(acts@) == disconnects(release_upto(self@.table, 256)),
    {
        let mut acts: Vec<JackAction> = Vec::new();
        let mut k: u32 = 0;
        assert(actions_view(acts@) =~= disconnects(release_upto(self@.table, 0)));
        while k < 256
            invariant
                k <= 256,
                actions_view(acts@) == disconnects(release_upto(self@.table, k as nat)),
            decreases 256 - k,
        {
            let key = k as u8;
            match self.table.get(&key) {
                Some(ps) => {
                    let mut i: usize = 0;
                    let ghost before = release_upto(self@.table, k as nat);
                    while i < ps.len()
                        invariant
                            i <= ps.len(),
                            self.table@.contains_key(key),
                            self.table@[key] == *ps,
                            actions_view(acts@) == disconnects(
                                before + pairs_view(ps@).take(i as int),
                            ),
                        decreases ps.len() - i,
                    {
                        let a = JackAction::Disconnect(ps[i].0.clone(), ps[i].1.clone());
                        assert(action_view(a) == (false, pairs_view(ps@)[i as int]));
                        let ghost prev = before + pairs_view(ps@).take(i as int);
                        assert(before + pairs_view(ps@).take(i + 1) =~= prev.push(
                            pairs_view(ps@)[i as int],
                        ));
                        assert(disconnects(prev.push(pairs_view(ps@)[i as int]))
                            =~= disconnects(prev).push((false, pairs_view(ps@)[i as int])));
                        let ghost old_acts = acts@;
                        acts.push(a);
                        assert(actions_view(acts@) =~= actions_view(old_acts).push(
                            action_view(a),
                        ));
                        i = i + 1;
                        assert(actions_view(acts@) =~= disconnects(
                            before + pairs_view(ps@).take(i as int),
                        ));
                    }
                    assert(pairs_view(ps@).take(i as int) =~= pairs_view(ps@));
                    assert(self@.table[key] == pairs_view(ps@));
                    assert(release_upto(self@.table, (k + 1) as nat) =~= before + pairs_view(
                        ps@,
                    ));
                },
                None => {
                    assert(release_upto(self@.table, (k + 1) as nat) =~= release_upto(
                        self@.table,
                        k as nat,
                    ));
                },
            }
            k = k + 1;
            assert((k - 1) as u8 == key);
        }
        acts
    }

    /// Read one byte and give the actions to take for it (see `step_spec`).
    pub fn step(&mut self, byte: u8) -> (acts: Vec<JackAction>)
        requires
            router_wf(old(self)@),
        ensures
            router_wf(final(self)@),
            (final(self)@, actions_view(acts@)) == step_spec(old(self)@, byte),
    {
        proof {
            law_step_keeps_wf(self@, byte);
        }
        if byte >= 0x80 {
            if byte % 16 == self.channel {
                self.status = MidiStatus::from_byte(byte);
            } else {
                self.status = None;
            }
            let acts: Vec<JackAction> = Vec::new();
            assert(actions_view(acts@) =~= Seq::<(bool, PairView)>::empty());
            return acts;
        }
        let is_pc = match self.status {
            Some(MidiStatus::ProgramChange(_)) => true,
            _ => false,
        };
        if !is_pc || !self.table.contains_key(&byte) {
            let acts: Vec<JackAction> = Vec::new();
            assert(actions_view(acts@) =~= Seq::<(bool, PairView)>::empty());
            return acts;
        }
        let ghost r0 = self@;
        let ghost pipes_v = r0.table[byte];
        let mut conn: Vec<(String, String)> = Vec::new();
        std::mem::swap(&mut conn, &mut self.connected);
        let mut acts: Vec<JackAction> = Vec::new();
        let pipes = self.table.get(&byte).unwrap();
        assert(pairs_view(pipes@) == pipes_v);
        let mut i: usize = 0;
        assert(pipes_v.take(0) =~= Seq::<PairView>::empty());
        assert(actions_view(acts@) =~= connects(Seq::<PairView>::empty()));
        while i < pipes.len()
            invariant
                i <= pipes.len(),
                pairs_view(pipes@) == pipes_v,
                pairs_view(conn@) == connect_scan(r0.connected, pipes_v.take(i as int)).1,
                actions_view(acts@) == connects(connect_scan(r0.connected, pipes_v.take(i as int)).0),
            decreases pipes.len() - i,
        {
            assert(pipes_v.take(i + 1).drop_last() =~= pipes_v.take(i as int));
            assert(pipes_v.take(i + 1).last() == pair_view(pipes@[i as int]));
            if !contains_pair(&conn, &pipes[i].0, &pipes[i].1) {
                let a = JackAction::Connect(pipes[i].0.clone(), pipes[i].1.clone());
                let ghost old_acts = acts@;
                let ghost m0 = connect_scan(r0.connected, pipes_v.take(i as int)).0;
                assert(connects(m0.push(pipes_v[i as int])) =~= connects(m0).push(
                    (true, pipes_v[i as int]),
                ));
                acts.push(a);
                assert(actions_view(acts@) =~= actions_view(old_acts).push(action_view(a)));
                conn.push((pipes[i].0.clone(), pipes[i].1.clone()));
                assert(pairs_view(conn@) =~= connect_scan(r0.connected, pipes_v.take(i + 1)).1);
                assert(actions_view(acts@) =~= connects(
                    connect_scan(r0.connected, pipes_v.take(i + 1)).0,
                ));
            }
            i = i + 1;
        }
        assert(pipes_v.take(pipes.len() as int) =~= pipes_v);
        let ghost made = connect_scan(r0.connected, pipes_v).0;
        let mut ds: Vec<(String, String)> = Vec::new();
        match self.effect {
            Some(old) => {
                let old_pipes = self.table.get(&old).unwrap();
                let ghost old_v = r0.table[old];
                assert(pairs_view(old_pipes@) == old_v);
                let mut j: usize = 0;
                assert(old_v.take(0) =~= Seq::<PairView>::empty());
                assert(pairs_view(ds@) =~= Seq::<PairView>::empty());
                assert(actions_view(acts@) =~= connects(made) + disconnects(
                    Seq::<PairView>::empty(),
                ));
                while j < old_pipes.len()
                    invariant
                        j <= old_pipes.len(),
                        pairs_view(old_pipes@) == old_v,
                        pairs_view(pipes@) == pipes_v,
                        pairs_view(ds@) == missing_from(old_v.take(j as int), pipes_v),
                        actions_view(acts@) == connects(made) + disconnects(
                            missing_from(old_v.take(j as int), pipes_v),
                        ),
                    decreases old_pipes.len() - j,
                {
                    assert(old_v.take(j + 1).drop_last() =~= old_v.take(j as int));
                    assert(old_v.take(j + 1).last() == pair_view(old_pipes@[j as int]));
                    if !contains_pair(pipes, &old_pipes[j].0, &old_pipes[j].1) {
                        let a = JackAction::Disconnect(
                            old_pipes[j].0.clone(),
                            old_pipes[j].1.clone(),
                        );
                        let ghost old_acts = acts@;
                        let ghost m0 = missing_from(old_v.take(j as int), pipes_v);
                        assert(disconnects(m0.push(old_v[j as int])) =~= disconnects(m0).push(
                            (false, old_v[j as int]),
                        ));
                        assert(connects(made) + disconnects(m0).push((false, old_v[j as int]))
                            =~= (connects(made) + disconnects(m0)).push((false, old_v[j as int])));
                        acts.push(a);
                        assert(actions_view(acts@) =~= actions_view(old_acts).push(
                            action_view(a),
                        ));
                        ds.push((old_pipes[j].0.clone(), old_pipes[j].1.clone()));
                        assert(pairs_view(ds@) =~= missing_from(old_v.take(j + 1), pipes_v));
                        assert(actions_view(acts@) =~= connects(made) + disconnects(
                            missing_from(old_v.take(j + 1), pipes_v),
                        ));
                    }
                    j = j + 1;
                }
                assert(old_v.take(old_pipes.len() as int) =~= old_v);
            },
            None => {
                assert(pairs_view(ds@) =~= Seq::<PairView>::empty());
                assert(actions_view(acts@) =~= connects(made) + disconnects(
                    Seq::<PairView>::empty(),
                ));
            },
        }
        let ghost ds_v = pairs_view(ds@);
        let ghost conn_v = pairs_view(conn@);
        let mut kept: Vec<(String, String)> = Vec::new();
        let mut k: usize = 0;
        assert(conn_v.take(0) =~= Seq::<PairView>::empty());
        assert(pairs_view(kept@) =~= Seq::<PairView>::empty());
        while k < conn.len()
            invariant
                k <= conn.len(),
                pairs_view(conn@) == conn_v,
                pairs_view(ds@) == ds_v,
                pairs_view(kept@) == remove_all(conn_v.take(k as int), ds_v),
            decreases conn.len() - k,
        {
            assert(conn_v.take(k + 1).drop_last() =~= conn_v.take(k as int));
            assert(conn_v.take(k + 1).last() == pair_view(conn@[k as int]));
            if !contains_pair(&ds, &conn[k].0, &conn[k].1) {
                kept.push((conn[k].0.clone(), conn[k].1.clone()));
                assert(pairs_view(kept@) =~= remove_all(conn_v.take(k + 1), ds_v));
            }
            k = k + 1;
        }
        assert(conn_v.take(conn.len() as int) =~= conn_v);
        self.connected = kept;
        self.effect = Some(byte);
        assert(self@ == step_spec(r0, byte).0);
        acts
    }
}

} // verus!
