//! The translator: a table read from configuration text that rewrites
//! MIDI data bytes, and a channel rule that status bytes are checked
//! against.
//!
//! Configuration lines (as `str::lines` splits them):
//! * `t S X K V`: under status byte `S`, at index `X`, data byte `K` is
//!   written as `V`.  Each number is decimal, or hexadecimal after `0x`.
//! * `c [+-]N`: the channel rule, `N` one hexadecimal number.  The first
//!   such line counts.
use crate::midi_status::{law_status_byte_onto, read_status, status_byte, MidiStatus};
use crate::text::{
    char_at_byte, char_index_at_byte, char_utf8_len, chars_of, copy_range, digit_of, digit_value,
    digits_u8, has_prefix, is_ws, lemma_byte_len_at_least_len, lemma_char_at_byte_push,
    lemma_char_at_byte_range, lemma_lines_append, lemma_lines_closed, lemma_lines_one,
    lemma_trim_len, lemma_trim_push_ws, lemma_words_push_ws, lines, lines_scan, strip_cr,
    parse_u8, parse_u8_spec, seq_views, split_lines, split_words, starts_with2, trim, trimmed,
    utf8_len, words, ParseNumError,
};
use std::collections::HashMap;
use vstd::prelude::*;

verus! {

broadcast use vstd::std_specs::hash::group_hash_axioms;

/// What goes wrong in reading a translation configuration or in
/// translating.
#[derive(Debug, Clone, Copy, PartialEq, Eq, Structural)]
pub enum TranslateError {
    /// A status byte whose channel, under the channel rule, is above 15.
    InvalidChannel(u8),
    /// An empty channel definition.
    InvalidChannelDefinition,
    /// A `t` or `c` line (its index among the lines) with the wrong
    /// number of words after its first two bytes.
    InvalidLine { line: usize, words: usize },
    /// A number that does not parse.
    Number(ParseNumError),
}

// ---------------------------------------------------------------------
// Numbers
// ---------------------------------------------------------------------

/// `s` begins with `0x`.
pub open spec fn hex_prefixed(s: Seq<char>) -> bool {
    s.len() >= 2 && s[0] == '0' && s[1] == 'x'
}

/// `s` without every leading `0x` (as `trim_start_matches("0x")`).
pub open spec fn strip_hex_prefixes(s: Seq<char>) -> Seq<char>
    decreases s.len(),
{
    if hex_prefixed(s) {
        strip_hex_prefixes(s.skip(2))
    } else {
        s
    }
}

/// Looking at the first two bytes of `s` cuts a character in two: `s` has
/// more than one byte and byte 2 is inside a character.
pub open spec fn byte2_cuts(s: Seq<char>) -> bool {
    (s.len() >= 2 || (s.len() == 1 && utf8_len(s[0]) > 1)) && char_at_byte(s, 2) is None
}

/// A number of the configuration: hexadecimal after `0x`, else decimal.
pub open spec fn str_u8_spec(s: Seq<char>) -> Result<u8, ParseNumError> {
    if hex_prefixed(s) {
        parse_u8_spec(strip_hex_prefixes(s), 16)
    } else {
        parse_u8_spec(s, 10)
    }
}

/// Read a `u8`: hexadecimal if prefixed with `0x`, else decimal.
pub fn str_u8(inp: &str) -> (r: Result<u8, ParseNumError>)
    requires
        !byte2_cuts(inp@),
    ensures
        r == str_u8_spec(inp@),
{
    let s = chars_of(inp);
    str_u8_chars(&s)
}

/// `str_u8` on characters.
pub fn str_u8_chars(s: &Vec<char>) -> (r: Result<u8, ParseNumError>)
    ensures
        r == str_u8_spec(s@),
{
    if s.len() >= 2 && s[0] == '0' && s[1] == 'x' {
        let mut i: usize = 0;
        assert(s@.skip(0) =~= s@);
        while s.len() - i >= 2 && s[i] == '0' && s[i + 1] == 'x'
            invariant
                i <= s.len(),
                strip_hex_prefixes(s@) == strip_hex_prefixes(s@.skip(i as int)),
            decreases s.len() - i,
        {
            assert(s@.skip(i as int).skip(2) =~= s@.skip(i + 2));
            i = i + 2;
        }
        assert(!hex_prefixed(s@.skip(i as int)));
        let rest = copy_range(s, i, s.len());
        assert(rest@ =~= s@.skip(i as int));
        parse_u8(&rest, 16)
    } else {
        parse_u8(s, 10)
    }
}

/// The character of digit `d` (below 16): `0-9`, then `a-f` (`upper`:
/// `A-F`).
pub open spec fn digit_char(d: int, upper: bool) -> char {
    if d < 10 {
        (48 + d) as char
    } else if upper {
        (55 + d) as char
    } else {
        (87 + d) as char
    }
}

/// `n` in decimal, as `n.to_string()` writes it.
pub open spec fn decimal_text(n: u8) -> Seq<char> {
    if n < 10 {
        seq![digit_char(n as int, false)]
    } else if n < 100 {
        seq![digit_char(n as int / 10, false), digit_char(n as int % 10, false)]
    } else {
        seq![
            digit_char(n as int / 100, false),
            digit_char((n as int / 10) % 10, false),
            digit_char(n as int % 10, false),
        ]
    }
}

/// `n` in hexadecimal after `0x`, as `format!("0x{:x}", n)` writes it.
pub open spec fn hex_text(n: u8) -> Seq<char> {
    if n < 16 {
        seq!['0', 'x', digit_char(n as int, false)]
    } else {
        seq!['0', 'x', digit_char(n as int / 16, false), digit_char(n as int % 16, false)]
    }
}

/// `n` in two upper-case hexadecimal digits after `0x`, as
/// `format!("0x{:02X}", n)` writes it.
pub open spec fn hex_text_upper2(n: u8) -> Seq<char> {
    seq!['0', 'x', digit_char(n as int / 16, true), digit_char(n as int % 16, true)]
}

proof fn lemma_digit_char(d: int, radix: nat, upper: bool)
    requires
        0 <= d < radix,
        radix == 10 || radix == 16,
    ensures
        digit_of(digit_char(d, upper), radix) == Some(d as nat),
        digit_char(d, upper) != 'x',
        digit_char(d, upper) != '+',
        digit_char(d, upper) != '-',
{
}

proof fn lemma_digits_one(c: char, radix: nat, acc: nat, d: nat)
    requires
        digit_of(c, radix) == Some(d),
        acc * radix + d <= 255,
    ensures
        digits_u8(seq![c], radix, acc) == Ok::<nat, ParseNumError>(acc * radix + d),
{
    assert(seq![c].drop_first() =~= Seq::<char>::empty());
    assert(digits_u8(Seq::<char>::empty(), radix, acc * radix + d) == Ok::<nat, ParseNumError>(
        acc * radix + d,
    ));
}

proof fn lemma_digits_cons(c: char, rest: Seq<char>, radix: nat, acc: nat, d: nat)
    requires
        digit_of(c, radix) == Some(d),
        acc * radix + d <= 255,
    ensures
        digits_u8(seq![c] + rest, radix, acc) == digits_u8(rest, radix, acc * radix + d),
{
    assert((seq![c] + rest).drop_first() =~= rest);
}

proof fn lemma_decimal_round_trip(n: u8)
    ensures
        str_u8_spec(decimal_text(n)) == Ok::<u8, ParseNumError>(n),
{
    let v = n as int;
    let dt = decimal_text(n);
    if v < 10 {
        lemma_digit_char(v, 10, false);
        lemma_digits_one(dt[0], 10, 0, v as nat);
        assert(dt =~= seq![dt[0]]);
    } else if v < 100 {
        let a = v / 10;
        let b = v % 10;
        lemma_digit_char(a, 10, false);
        lemma_digit_char(b, 10, false);
        lemma_digits_one(dt[1], 10, a as nat, b as nat);
        lemma_digits_cons(dt[0], seq![dt[1]], 10, 0, a as nat);
        assert(dt =~= seq![dt[0]] + seq![dt[1]]);
    } else {
        let a = v / 100;
        let b = (v / 10) % 10;
        let c = v % 10;
        assert(a * 10 + b == v / 10);
        lemma_digit_char(a, 10, false);
        lemma_digit_char(b, 10, false);
        lemma_digit_char(c, 10, false);
        lemma_digits_one(dt[2], 10, (a * 10 + b) as nat, c as nat);
        lemma_digits_cons(dt[1], seq![dt[2]], 10, a as nat, b as nat);
        lemma_digits_cons(dt[0], seq![dt[1]] + seq![dt[2]], 10, 0, a as nat);
        assert(dt =~= seq![dt[0]] + (seq![dt[1]] + seq![dt[2]]));
    }
}

proof fn lemma_hex_digits(n: u8, upper: bool, two: bool)
    ensures
        ({
            let v = n as int;
            let t = if two || v >= 16 {
                seq![digit_char(v / 16, upper), digit_char(v % 16, upper)]
            } else {
                seq![digit_char(v, upper)]
            };
            parse_u8_spec(t, 16) == Ok::<u8, ParseNumError>(n) && !hex_prefixed(t)
        }),
{
    let v = n as int;
    let a = v / 16;
    let b = v % 16;
    lemma_digit_char(a, 16, upper);
    lemma_digit_char(b, 16, upper);
    if two || v >= 16 {
        let t = seq![digit_char(a, upper), digit_char(b, upper)];
        lemma_digits_one(t[1], 16, a as nat, b as nat);
        lemma_digits_cons(t[0], seq![t[1]], 16, 0, a as nat);
        assert(t =~= seq![t[0]] + seq![t[1]]);
    } else {
        lemma_digit_char(v, 16, upper);
        let t = seq![digit_char(v, upper)];
        lemma_digits_one(t[0], 16, 0, v as nat);
    }
}

/// The decimal text of `n`: one to three digits that read back as `n`.
pub proof fn lemma_decimal_text(n: u8)
    ensures
        parse_u8_spec(decimal_text(n), 10) == Ok::<u8, ParseNumError>(n),
        1 <= decimal_text(n).len() <= 3,
        forall|i: int|
            0 <= i < decimal_text(n).len() ==> '0' <= #[trigger] decimal_text(n)[i] <= '9',
{
    lemma_decimal_round_trip(n);
    let dt = decimal_text(n);
    assert(!hex_prefixed(dt));
}

/// Every `u8` written in decimal, in hexadecimal after `0x`, or in two
/// upper-case hexadecimal digits after `0x`, reads back as itself.
pub proof fn law_str_u8_round_trip(n: u8)
    ensures
        str_u8_spec(decimal_text(n)) == Ok::<u8, ParseNumError>(n),
        str_u8_spec(hex_text(n)) == Ok::<u8, ParseNumError>(n),
        str_u8_spec(hex_text_upper2(n)) == Ok::<u8, ParseNumError>(n),
{
    lemma_decimal_round_trip(n);
    lemma_hex_digits(n, false, false);
    lemma_hex_digits(n, true, true);
    let ht = hex_text(n);
    assert(strip_hex_prefixes(ht.skip(2)) == ht.skip(2));
    assert(strip_hex_prefixes(ht) == ht.skip(2));
    let hu = hex_text_upper2(n);
    assert(strip_hex_prefixes(hu.skip(2)) == hu.skip(2));
    assert(strip_hex_prefixes(hu) == hu.skip(2));
    if (n as int) < 16 {
        assert(ht.skip(2) =~= seq![digit_char(n as int, false)]);
    } else {
        assert(ht.skip(2) =~= seq![digit_char(n as int / 16, false), digit_char(n as int % 16, false)]);
    }
    assert(hu.skip(2) =~= seq![digit_char(n as int / 16, true), digit_char(n as int % 16, true)]);
}

/// The key of the translation table for status byte `s`, index `x` and
/// data byte `k`: `s | x` in the high byte, `k` in the low byte.
pub open spec fn table_key(s: u8, x: u8, k: u8) -> u16 {
    ((s | x) as int * 256 + k as int) as u16
}

/// Make a key for the translation table.  Combine the status with the
/// index in the message (0 or 1) in the high byte and put the value to
/// translate in the low byte.
pub fn make_key(s: u8, x: u8, k: u8) -> (r: u16)
    ensures
        r == table_key(s, x, k),
        r as int == (s | x) as int * 256 + k as int,
{
    let h: u8 = s | x;
    let r: u16 = ((h as u16) << 8u16) | (k as u16);
    assert(r == (h as int * 256 + k as int) as u16 && h as int * 256 + k as int <= 0xFFFF)
        by (bit_vector)
        requires
            r == ((h as u16) << 8u16) | (k as u16),
    ;
    r
}

// ---------------------------------------------------------------------
// The channel rule
// ---------------------------------------------------------------------

/// How the channel of an incoming status byte is mapped.
#[derive(Debug, Clone, Copy, PartialEq, Eq, Structural)]
pub enum ChannelOperation {
    /// The channel is `value`.
    Literal,
    /// The channel is the incoming channel minus `value`.
    Minus,
    /// The channel is the incoming channel plus `value`.
    Plus,
}

/// The channel rule of the configuration.
#[derive(Debug, Clone, Copy, PartialEq, Eq, Structural)]
pub struct ChannelTranslate {
    pub op: ChannelOperation,
    pub value: u8,
}

/// A channel definition `[+-]?N` with `N` one hexadecimal digit: any
/// other length is an invalid definition, a non-digit an invalid digit.
pub open spec fn channel_spec(s: Seq<char>) -> Result<ChannelTranslate, TranslateError> {
    if s.len() == 0 {
        Err(TranslateError::InvalidChannelDefinition)
    } else {
        let (op, digits) = if s[0] == '+' {
            (ChannelOperation::Plus, s.drop_first())
        } else if s[0] == '-' {
            (ChannelOperation::Minus, s.drop_first())
        } else {
            (ChannelOperation::Literal, s)
        };
        if digits.len() != 1 {
            Err(TranslateError::InvalidChannelDefinition)
        } else {
            match digit_of(digits[0], 16) {
                Some(value) => Ok(ChannelTranslate { op, value: value as u8 }),
                None => Err(TranslateError::Number(ParseNumError::InvalidDigit)),
            }
        }
    }
}

impl ChannelTranslate {
    /// Read a channel definition: `[+-]?N`, `N` one hexadecimal digit.
    pub fn from_str(s: &str) -> (r: Result<Self, TranslateError>)
        ensures
            r == channel_spec(s@),
    {
        let v = chars_of(s);
        Self::from_chars(&v)
    }

    /// `from_str` on characters.
    pub fn from_chars(s: &Vec<char>) -> (r: Result<Self, TranslateError>)
        ensures
            r == channel_spec(s@),
    {
        if s.len() == 0 {
            return Err(TranslateError::InvalidChannelDefinition);
        }
        let (op, from) = if s[0] == '+' {
            (ChannelOperation::Plus, 1usize)
        } else if s[0] == '-' {
            (ChannelOperation::Minus, 1usize)
        } else {
            (ChannelOperation::Literal, 0usize)
        };
        assert(s@.drop_first() =~= s@.subrange(1, s@.len() as int));
        assert(s@ =~= s@.subrange(0, s@.len() as int));
        if s.len() - from != 1 {
            return Err(TranslateError::InvalidChannelDefinition);
        }
        assert(s@.subrange(from as int, s@.len() as int)[0] == s@[from as int]);
        match digit_value(s[from], 16) {
            Some(value) => Ok(ChannelTranslate { op, value: value as u8 }),
            None => Err(TranslateError::Number(ParseNumError::InvalidDigit)),
        }
    }
}

/// A line whose trimmed text begins with `c `.
pub open spec fn is_c_line(l: Seq<char>) -> bool {
    has_prefix(trim(l), seq!['c', ' '])
}

/// The index of the first `c` line.
pub open spec fn first_c_line(ls: Seq<Seq<char>>) -> Option<int>
    decreases ls.len(),
{
    if ls.len() == 0 {
        None
    } else if is_c_line(ls[0]) {
        Some(0)
    } else {
        match first_c_line(ls.drop_first()) {
            Some(i) => Some(i + 1),
            None => None,
        }
    }
}

/// Reading the channel rule cuts a character in two: the first `c` line
/// has its byte 2 inside a character.
pub open spec fn get_channel_panics(d: Seq<char>) -> bool {
    match first_c_line(lines(d)) {
        Some(i) => char_at_byte(lines(d)[i], 2) is None,
        None => false,
    }
}

/// The channel rule of configuration `d`: none without a `c` line, else
/// the one word after the first two bytes of the first `c` line.
pub open spec fn get_channel_spec(d: Seq<char>) -> Result<
    Option<ChannelTranslate>,
    TranslateError,
> {
    let ls = lines(d);
    match first_c_line(ls) {
        None => Ok(None),
        Some(i) => {
            let l = ls[i];
            let parts = words(l.skip(char_at_byte(l, 2)->0));
            if parts.len() != 1 {
                Err(TranslateError::InvalidLine { line: i as usize, words: parts.len() as usize })
            } else {
                match channel_spec(parts[0]) {
                    Ok(ct) => Ok(Some(ct)),
                    Err(e) => Err(e),
                }
            }
        },
    }
}

proof fn lemma_first_c_line_range(ls: Seq<Seq<char>>)
    ensures
        first_c_line(ls) matches Some(i) ==> 0 <= i < ls.len() && is_c_line(ls[i]),
    decreases ls.len(),
{
    if ls.len() > 0 && !is_c_line(ls[0]) {
        lemma_first_c_line_range(ls.drop_first());
    }
}

proof fn lemma_first_c_line_prefix(ls1: Seq<Seq<char>>, ls2: Seq<Seq<char>>, i: int)
    requires
        first_c_line(ls1) == Some(i),
        0 <= i < ls1.len(),
        i < ls2.len(),
        ls1.take(i + 1) == ls2.take(i + 1),
    ensures
        first_c_line(ls2) == Some(i),
    decreases i,
{
    assert(ls1[0] == ls1.take(i + 1)[0]);
    assert(ls2[0] == ls2.take(i + 1)[0]);
    lemma_first_c_line_range(ls1.drop_first());
    if i > 0 {
        assert(!is_c_line(ls1[0]));
        assert(!is_c_line(ls2[0]));
        assert(first_c_line(ls1.drop_first()) == Some(i - 1)) by {
            match first_c_line(ls1.drop_first()) {
                Some(k) => {
                    assert(Some(k + 1) == Some(i));
                },
                None => {},
            }
        }
        lemma_first_c_line_range(ls1.drop_first());
        assert(ls1.drop_first().take(i) =~= ls1.take(i + 1).drop_first());
        assert(ls2.drop_first().take(i) =~= ls2.take(i + 1).drop_first());
        lemma_first_c_line_prefix(ls1.drop_first(), ls2.drop_first(), i - 1);
    }
}

/// The first channel line wins: two configurations whose lines agree up
/// to and including the first `c` line of the first have the same channel
/// rule (and the same refusal); the lines after it have no effect.
pub proof fn law_first_channel_line_wins(d1: Seq<char>, d2: Seq<char>)
    requires
        first_c_line(lines(d1)) matches Some(i) && i < lines(d2).len() && lines(d1).take(i + 1)
            == lines(d2).take(i + 1),
    ensures
        get_channel_spec(d1) == get_channel_spec(d2),
        get_channel_panics(d1) == get_channel_panics(d2),
{
    let ls1 = lines(d1);
    let ls2 = lines(d2);
    let i = first_c_line(ls1)->0;
    lemma_first_c_line_range(ls1);
    lemma_first_c_line_prefix(ls1, ls2, i);
    assert(ls1[i] == ls1.take(i + 1)[i]);
    assert(ls2[i] == ls2.take(i + 1)[i]);
}

proof fn lemma_first_c_line_after(xs: Seq<Seq<char>>, ys: Seq<Seq<char>>)
    requires
        forall|k: int| 0 <= k < xs.len() ==> !is_c_line(#[trigger] xs[k]),
    ensures
        first_c_line(xs + ys) == match first_c_line(ys) {
            Some(i) => Some(i + xs.len()),
            None => None::<int>,
        },
    decreases xs.len(),
{
    if xs.len() == 0 {
        assert(xs + ys =~= ys);
    } else {
        assert((xs + ys).drop_first() =~= xs.drop_first() + ys);
        assert((xs + ys)[0] == xs[0]);
        assert forall|k: int| 0 <= k < xs.drop_first().len() implies !is_c_line(
            #[trigger] xs.drop_first()[k],
        ) by {
            assert(xs.drop_first()[k] == xs[k + 1]);
        }
        lemma_first_c_line_after(xs.drop_first(), ys);
    }
}

/// A channel line that ends in a carriage return reads as the same line
/// without it.
proof fn lemma_c_line_cr(l: Seq<char>)
    requires
        is_c_line(l),
        l.len() > 0,
        l.last() == '\r',
    ensures
        is_c_line(l.drop_last()),
        char_at_byte(l, 2) == char_at_byte(l.drop_last(), 2),
        char_at_byte(l, 2) matches Some(k) ==> words(l.skip(k)) == words(l.drop_last().skip(k)),
{
    let m = l.drop_last();
    assert(is_ws('\r'));
    assert(m.push('\r') =~= l);
    lemma_trim_push_ws(m, '\r');
    lemma_trim_len(m);
    lemma_byte_len_at_least_len(m);
    lemma_char_at_byte_push(m, '\r', 2);
    lemma_char_at_byte_range(m, 2);
    if let Some(k) = char_at_byte(m, 2) {
        assert(l.skip(k) =~= m.skip(k).push('\r'));
        lemma_words_push_ws(m.skip(k), '\r');
    }
}

/// A channel line read on its own gives the rule that it gives as the
/// first channel line of a configuration: lines before it that are not
/// channel lines, and all lines after it, make no difference (up to the
/// line index in an error).  Reading it cuts a character in two in both
/// places or in neither.
pub proof fn law_channel_line_alone(a: Seq<char>, l: Seq<char>, b: Seq<char>)
    requires
        a.len() == 0 || a.last() == '\n',
        forall|k: int| 0 <= k < lines(a).len() ==> !is_c_line(#[trigger] lines(a)[k]),
        is_c_line(l),
        forall|k: int| 0 <= k < l.len() ==> l[k] != '\n',
    ensures
        ({
            let d = a + l + seq!['\n'] + b;
            &&& get_channel_panics(d) == get_channel_panics(l)
            &&& !get_channel_panics(l) ==> (get_channel_spec(d) is Ok <==> get_channel_spec(
                l,
            ) is Ok)
            &&& !get_channel_panics(l) ==> (get_channel_spec(d) is Ok ==> get_channel_spec(d)
                == get_channel_spec(l))
        }),
{
    let ln = l + seq!['\n'];
    let d = a + l + seq!['\n'] + b;
    let m = strip_cr(l);
    assert(d =~= (a + ln) + b);
    assert(l.len() > 0);
    lemma_lines_one(l);
    assert(ln.drop_last() =~= l);
    assert(lines_scan(ln) == (seq![m], Seq::<char>::empty()));
    if l.last() == '\r' {
        lemma_c_line_cr(l);
    }
    assert(is_c_line(m));
    lemma_lines_closed(a);
    lemma_lines_append(a, ln);
    assert(lines_scan(a + ln).1.len() == 0);
    lemma_lines_append(a + ln, b);
    lemma_lines_closed(a + ln);
    let la = lines(a);
    assert(lines(d) =~= la + (seq![m] + lines(b)));
    lemma_first_c_line_after(la, seq![m] + lines(b));
    assert((seq![m] + lines(b))[0] == m);
    assert(first_c_line(seq![m] + lines(b)) == Some(0int));
    assert(first_c_line(lines(d)) == Some(la.len() as int));
    assert(lines(d)[la.len() as int] == m);
    assert(lines(l) == seq![l]);
    assert(first_c_line(seq![l]) == Some(0int));
}

/// Whether reading the channel rule of `description` would look at the
/// first two bytes of the first `c` line and cut a character in two.
pub fn channel_line_cuts(description: &str) -> (r: bool)
    ensures
        r == get_channel_panics(description@),
{
    let d = chars_of(description);
    let ls = split_lines(&d);
    let ghost gls = lines(d@);
    let mut i: usize = 0;
    assert(gls =~= gls.skip(0));
    while i < ls.len()
        invariant
            i <= ls.len(),
            seq_views(ls@) == gls,
            gls == lines(description@),
            first_c_line(gls) == match first_c_line(gls.skip(i as int)) {
                Some(k) => Some(k + i),
                None => None::<int>,
            },
        decreases ls.len() - i,
    {
        assert(gls.skip(i as int).drop_first() =~= gls.skip(i + 1));
        assert(gls.skip(i as int)[0] == ls@[i as int]@);
        let t = trimmed(&ls[i]);
        if starts_with2(&t, 'c', ' ') {
            return char_index_at_byte(&ls[i], 2).is_none();
        }
        i = i + 1;
    }
    false
}

/// Get the channel translation data from the configuration.
pub fn get_channel(description: &str) -> (r: Result<Option<ChannelTranslate>, TranslateError>)
    requires
        !get_channel_panics(description@),
    ensures
        r == get_channel_spec(description@),
{
    let d = chars_of(description);
    let ls = split_lines(&d);
    let ghost gls = lines(d@);
    let mut i: usize = 0;
    assert(gls =~= gls.skip(0));
    while i < ls.len()
        invariant
            i <= ls.len(),
            seq_views(ls@) == gls,
            gls == lines(description@),
            first_c_line(gls) == match first_c_line(gls.skip(i as int)) {
                Some(k) => Some(k + i),
                None => None::<int>,
            },
            !get_channel_panics(description@),
        decreases ls.len() - i,
    {
        assert(gls.skip(i as int).drop_first() =~= gls.skip(i + 1));
        assert(gls.skip(i as int)[0] == ls@[i as int]@);
        let t = trimmed(&ls[i]);
        if starts_with2(&t, 'c', ' ') {
            let l = &ls[i];
            let k = char_index_at_byte(l, 2).unwrap();
            let parts = split_words(l, k);
            if parts.len() != 1 {
                return Err(TranslateError::InvalidLine { line: i, words: parts.len() });
            }
            assert(parts@[0]@ == seq_views(parts@)[0]);
            return match ChannelTranslate::from_chars(&parts[0]) {
                Ok(ct) => Ok(Some(ct)),
                Err(e) => Err(e),
            };
        }
        i = i + 1;
    }
    Ok(None)
}

// ---------------------------------------------------------------------
// The translation table
// ---------------------------------------------------------------------

/// A line whose trimmed text begins with `t `.
pub open spec fn is_t_line(l: Seq<char>) -> bool {
    has_prefix(trim(l), seq!['t', ' '])
}

/// The entry of `t` line `l` (line `i`): four numbers after its first two
/// bytes, read in order until one fails.
pub open spec fn t_line_entry(l: Seq<char>, i: int) -> Result<(u16, u8), TranslateError> {
    let p = words(l.skip(char_at_byte(l, 2)->0));
    if p.len() != 4 {
        Err(TranslateError::InvalidLine { line: i as usize, words: p.len() as usize })
    } else {
        match str_u8_spec(p[0]) {
            Err(e) => Err(TranslateError::Number(e)),
            Ok(s) => match str_u8_spec(p[1]) {
                Err(e) => Err(TranslateError::Number(e)),
                Ok(x) => match str_u8_spec(p[2]) {
                    Err(e) => Err(TranslateError::Number(e)),
                    Ok(k) => match str_u8_spec(p[3]) {
                        Err(e) => Err(TranslateError::Number(e)),
                        Ok(v) => Ok((table_key(s, x, k), v)),
                    },
                },
            },
        }
    }
}

/// Reading `t` line `l` cuts a character in two: at byte 2 of the line,
/// or at byte 2 of a number that is read.
pub open spec fn t_line_panics(l: Seq<char>) -> bool {
    is_t_line(l) && (char_at_byte(l, 2) is None || {
        let p = words(l.skip(char_at_byte(l, 2)->0));
        p.len() == 4 && (byte2_cuts(p[0]) || (str_u8_spec(p[0]) is Ok && (byte2_cuts(p[1]) || (
        str_u8_spec(p[1]) is Ok && (byte2_cuts(p[2]) || (str_u8_spec(p[2]) is Ok && byte2_cuts(
            p[3],
        )))))))
    })
}

/// The table that the lines `ls` give: each `t` line in order inserts its
/// entry (a later one replaces an earlier one with the same key); the
/// first line that fails gives the error.
pub open spec fn table_spec(ls: Seq<Seq<char>>) -> Result<Map<u16, u8>, TranslateError>
    decreases ls.len(),
{
    if ls.len() == 0 {
        Ok(Map::empty())
    } else {
        match table_spec(ls.drop_last()) {
            Err(e) => Err(e),
            Ok(m) => {
                let l = ls.last();
                if !is_t_line(l) {
                    Ok(m)
                } else {
                    match t_line_entry(l, ls.len() - 1) {
                        Err(e) => Err(e),
                        Ok((k, v)) => Ok(m.insert(k, v)),
                    }
                }
            },
        }
    }
}

/// Building the table from the lines `ls` cuts a character in two.
pub open spec fn table_panics(ls: Seq<Seq<char>>) -> bool
    decreases ls.len(),
{
    ls.len() > 0 && (table_panics(ls.drop_last()) || (table_spec(ls.drop_last()) is Ok
        && t_line_panics(ls.last())))
}

proof fn lemma_table_prefix(ls: Seq<Seq<char>>, i: int)
    requires
        0 <= i <= ls.len(),
    ensures
        table_panics(ls.take(i)) ==> table_panics(ls),
        table_spec(ls.take(i)) is Err && !table_panics(ls.take(i)) ==> !table_panics(ls)
            && table_spec(ls) == table_spec(ls.take(i)),
    decreases ls.len() - i,
{
    if i < ls.len() {
        lemma_table_prefix(ls, i + 1);
        assert(ls.take(i + 1).drop_last() =~= ls.take(i));
    } else {
        assert(ls.take(i) =~= ls);
    }
}

/// Whether reading the number `s` looks at its first two bytes and cuts a
/// character in two.
pub fn byte2_cuts_chars(s: &Vec<char>) -> (r: bool)
    ensures
        r == byte2_cuts(s@),
{
    let long = s.len() >= 2 || (s.len() == 1 && char_utf8_len(s[0]) > 1);
    long && char_index_at_byte(s, 2).is_none()
}

/// The outcome of reading the translation table.
enum TableBuild {
    Table(HashMap<u16, u8>),
    Failed(TranslateError),
    Cuts,
}

/// A number of a `t` line, or the outcome that ends the reading.
fn t_number(p: &Vec<char>) -> (r: Result<u8, TableBuild>)
    ensures
        match r {
            Ok(v) => !byte2_cuts(p@) && str_u8_spec(p@) == Ok::<u8, ParseNumError>(v),
            Err(TableBuild::Cuts) => byte2_cuts(p@),
            Err(TableBuild::Failed(e)) => !byte2_cuts(p@) && exists|n: ParseNumError|
                str_u8_spec(p@) == Err::<u8, ParseNumError>(n) && e == TranslateError::Number(n),
            Err(TableBuild::Table(_)) => false,
        },
{
    if byte2_cuts_chars(p) {
        return Err(TableBuild::Cuts);
    }
    match str_u8_chars(p) {
        Ok(v) => Ok(v),
        Err(n) => Err(TableBuild::Failed(TranslateError::Number(n))),
    }
}

fn build_translate_table(description: &str) -> (r: TableBuild)
    ensures
        match r {
            TableBuild::Cuts => table_panics(lines(description@)),
            TableBuild::Table(m) => !table_panics(lines(description@)) && table_spec(
                lines(description@),
            ) == Ok::<Map<u16, u8>, TranslateError>(m@),
            TableBuild::Failed(e) => !table_panics(lines(description@)) && table_spec(
                lines(description@),
            ) == Err::<Map<u16, u8>, TranslateError>(e),
        },
{
    let d = chars_of(description);
    let ls = split_lines(&d);
    let ghost gls = lines(d@);
    let mut m: HashMap<u16, u8> = HashMap::new();
    let mut i: usize = 0;
    assert(gls.take(0) =~= Seq::<Seq<char>>::empty());
    while i < ls.len()
        invariant
            i <= ls.len(),
            seq_views(ls@) == gls,
            gls == lines(description@),
            !table_panics(gls.take(i as int)),
            table_spec(gls.take(i as int)) == Ok::<Map<u16, u8>, TranslateError>(m@),
        decreases ls.len() - i,
    {
        proof {
            lemma_table_prefix(gls, i + 1);
        }
        assert(gls.take(i + 1).drop_last() =~= gls.take(i as int));
        assert(gls.take(i + 1).last() == ls@[i as int]@);
        let l = &ls[i];
        let t = trimmed(l);
        if starts_with2(&t, 't', ' ') {
            let k = match char_index_at_byte(l, 2) {
                Some(k) => k,
                None => {
                    return TableBuild::Cuts;
                },
            };
            let parts = split_words(l, k);
            if parts.len() != 4 {
                return TableBuild::Failed(
                    TranslateError::InvalidLine { line: i, words: parts.len() },
                );
            }
            assert(parts@[0]@ == seq_views(parts@)[0]);
            assert(parts@[1]@ == seq_views(parts@)[1]);
            assert(parts@[2]@ == seq_views(parts@)[2]);
            assert(parts@[3]@ == seq_views(parts@)[3]);
            let s = match t_number(&parts[0]) {
                Ok(v) => v,
                Err(b) => {
                    return b;
                },
            };
            let x = match t_number(&parts[1]) {
                Ok(v) => v,
                Err(b) => {
                    return b;
                },
            };
            let kk = match t_number(&parts[2]) {
                Ok(v) => v,
                Err(b) => {
                    return b;
                },
            };
            let v = match t_number(&parts[3]) {
                Ok(v) => v,
                Err(b) => {
                    return b;
                },
            };
            let key = make_key(s, x, kk);
            m.insert(key, v);
        }
        i = i + 1;
    }
    assert(gls.take(ls.len() as int) =~= gls);
    TableBuild::Table(m)
}

/// Whether building the table from `description` would look at the
/// first two bytes of a line or of a number and cut a character in two.
pub fn translate_table_cuts(description: &str) -> (r: bool)
    ensures
        r == table_panics(lines(description@)),
{
    match build_translate_table(description) {
        TableBuild::Cuts => true,
        _ => false,
    }
}

/// Build the table that translates MIDI data bytes, keyed by status byte,
/// index and data byte.
pub fn make_translate_table(description: &str) -> (r: Result<HashMap<u16, u8>, TranslateError>)
    requires
        !table_panics(lines(description@)),
    ensures
        match r {
            Ok(m) => table_spec(lines(description@)) == Ok::<Map<u16, u8>, TranslateError>(m@),
            Err(e) => table_spec(lines(description@)) == Err::<Map<u16, u8>, TranslateError>(e),
        },
{
    match build_translate_table(description) {
        TableBuild::Table(m) => Ok(m),
        TableBuild::Failed(e) => Err(e),
        TableBuild::Cuts => {
            assert(false);
            Err(TranslateError::InvalidChannelDefinition)
        },
    }
}

// ---------------------------------------------------------------------
// Translating a stream
// ---------------------------------------------------------------------

/// The channel that the rule gives a status byte (0 without a rule).
pub open spec fn channel_of(ct: Option<ChannelTranslate>, byte: u8) -> int {
    match ct {
        None => 0,
        Some(ct) => match ct.op {
            ChannelOperation::Literal => ct.value as int,
            ChannelOperation::Minus => (byte % 16) as int - ct.value as int,
            ChannelOperation::Plus => (byte % 16) as int + ct.value as int,
        },
    }
}

/// The channel rule on a status byte with incoming channel `byte % 16`:
/// a literal rule gives its value whatever the incoming channel, `+v` and
/// `-v` add to and take from the incoming channel, and no rule gives 0.
/// So a literal rule up to 15 never overflows nor refuses a status byte.
pub proof fn law_channel_rule(v: u8, byte: u8)
    ensures
        channel_of(Some(ChannelTranslate { op: ChannelOperation::Literal, value: v }), byte)
            == v,
        channel_of(Some(ChannelTranslate { op: ChannelOperation::Plus, value: v }), byte) == (
        byte % 16) + v,
        channel_of(Some(ChannelTranslate { op: ChannelOperation::Minus, value: v }), byte) == (
        byte % 16) - v,
        channel_of(None, byte) == 0,
        v <= 15 ==> !channel_overflows(
            Some(ChannelTranslate { op: ChannelOperation::Literal, value: v }),
            byte,
        ) && channel_of(Some(ChannelTranslate { op: ChannelOperation::Literal, value: v }), byte)
            <= 15,
{
}

/// The rule's arithmetic on status byte `byte` leaves the range of `u8`.
pub open spec fn channel_overflows(ct: Option<ChannelTranslate>, byte: u8) -> bool {
    byte >= 0x80 && (channel_of(ct, byte) < 0 || channel_of(ct, byte) > 255)
}

/// The kind of a status byte: its high four bits, the channel cleared.
pub open spec fn status_kind(b: u8) -> u8 {
    (b - b % 16) as u8
}

/// What a data byte is written as under `status`: the table's entry for
/// the status kind (the status byte without its channel), index 0 and the
/// byte, else the byte itself.
pub open spec fn data_out(table: Map<u16, u8>, status: Option<MidiStatus>, b: u8) -> u8 {
    match status {
        Some(st) => {
            let key = table_key(status_kind(status_byte(st)), 0, b);
            if table.contains_key(key) {
                table[key]
            } else {
                b
            }
        },
        None => b,
    }
}

/// The state of the translator between bytes: its table, its channel rule
/// and the status last read.
pub struct Translator {
    pub table: HashMap<u16, u8>,
    pub channel: Option<ChannelTranslate>,
    pub status: Option<MidiStatus>,
}

impl Translator {
    /// A translator that has read no status yet.
    pub fn new(table: HashMap<u16, u8>, channel: Option<ChannelTranslate>) -> (t: Self)
        ensures
            t.table@ == table@,
            t.channel == channel,
            t.status is None,
    {
        Translator { table, channel, status: None }
    }

    /// Whether reading `byte` would overflow the channel arithmetic.
    pub fn channel_overflows(&self, byte: u8) -> (r: bool)
        ensures
            r == channel_overflows(self.channel, byte),
    {
        if byte < 0x80 {
            return false;
        }
        let c1: u8 = byte & 0x0F;
        assert(c1 == byte % 16) by (bit_vector)
            requires
                c1 == byte & 0x0F,
        ;
        match self.channel {
            None => false,
            Some(ct) => match ct.op {
                ChannelOperation::Literal => false,
                ChannelOperation::Minus => ct.value > c1,
                ChannelOperation::Plus => ct.value > 255 - c1,
            },
        }
    }

    /// Read one byte and give the byte to write for it.  A status byte
    /// becomes the current status and is written unchanged, unless the
    /// channel rule puts it above channel 15; a data byte is translated
    /// under the kind of the current status (its channel cleared).  The
    /// buffer of pending bytes is written after every byte, so a data byte
    /// is looked up at index 0.
    pub fn step(&mut self, byte: u8) -> (r: Result<u8, TranslateError>)
        requires
            !channel_overflows(old(self).channel, byte),
        ensures
            final(self).table@ == old(self).table@,
            final(self).channel == old(self).channel,
            byte >= 0x80 ==> {
                &&& final(self).status == read_status(byte)
                &&& r == if channel_of(old(self).channel, byte) > 15 {
                    Err::<u8, TranslateError>(
                        TranslateError::InvalidChannel(channel_of(old(self).channel, byte) as u8),
                    )
                } else {
                    Ok::<u8, TranslateError>(byte)
                }
            },
            byte < 0x80 ==> {
                &&& final(self).status == old(self).status
                &&& r == Ok::<u8, TranslateError>(
                    data_out(old(self).table@, old(self).status, byte),
                )
            },
    {
        if byte & 0x80 == 0x80 {
            assert(byte >= 0x80) by (bit_vector)
                requires
                    byte & 0x80 == 0x80,
            ;
            let st = MidiStatus::from_byte(byte);
            self.status = st;
            let c1: u8 = byte & 0x0F;
            assert(c1 == byte % 16) by (bit_vector)
                requires
                    c1 == byte & 0x0F,
            ;
            let channel: u8 = match self.channel {
                Some(ct) => match ct.op {
                    ChannelOperation::Literal => ct.value,
                    ChannelOperation::Minus => c1 - ct.value,
                    ChannelOperation::Plus => c1 + ct.value,
                },
                None => 0,
            };
            if channel > 0xf {
                return Err(TranslateError::InvalidChannel(channel));
            }
            Ok(byte)
        } else {
            assert(byte < 0x80) by (bit_vector)
                requires
                    byte & 0x80 != 0x80,
            ;
            match self.status {
                Some(st) => {
                    let b = st.to_byte();
                    let s: u8 = b & 0xF0;
                    assert(s == (b - b % 16) as u8) by (bit_vector)
                        requires
                            s == b & 0xF0,
                    ;
                    let key = make_key(s, 0, byte);
                    match self.table.get(&key) {
                        Some(v) => Ok(*v),
                        None => Ok(byte),
                    }
                },
                None => Ok(byte),
            }
        }
    }
}

/// Under the status opened by status byte `s`, a data byte is looked up
/// with the kind of `s` (its channel cleared) in the key.
pub proof fn law_data_keyed_by_status_kind(table: Map<u16, u8>, s: u8, d: u8)
    requires
        s >= 0x80,
        d < 0x80,
    ensures
        data_out(table, read_status(s), d) == if table.contains_key(
            table_key(status_kind(s), 0, d),
        ) {
            table[table_key(status_kind(s), 0, d)]
        } else {
            d
        },
{
    law_status_byte_onto(s);
}

/// Data bytes are translated alike under two status bytes of one kind,
/// whatever their channels.
pub proof fn law_data_ignores_channel(table: Map<u16, u8>, s1: u8, s2: u8, d: u8)
    requires
        s1 >= 0x80,
        s2 >= 0x80,
        s1 / 16 == s2 / 16,
        d < 0x80,
    ensures
        data_out(table, read_status(s1), d) == data_out(table, read_status(s2), d),
{
    law_data_keyed_by_status_kind(table, s1, d);
    law_data_keyed_by_status_kind(table, s2, d);
    assert(status_kind(s1) == status_kind(s2));
}

} // verus!
