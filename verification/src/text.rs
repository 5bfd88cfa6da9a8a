//! Text primitives for the configuration grammars: the characters of a
//! string, Unicode white space, line splitting, trimming, splitting into
//! words, UTF-8 byte offsets and integer parsing.
use vstd::prelude::*;

verus! {

broadcast use vstd::string::group_string_axioms;

/// The characters of `s`, in order.
pub fn chars_of(s: &str) -> (v: Vec<char>)
    ensures
        v@ == s@,
{
    let mut v: Vec<char> = Vec::new();
    for c in it: s.chars()
        invariant
            v@ == it.seq().take(it.index() as int),
            it.seq() == s@,
    {
        v.push(c);
    }
    v
}

/// `String::push`: appends one character to the string.
#[verifier::external_body]
fn push_char(s: &mut String, c: char)
    ensures
        final(s)@ == old(s)@.push(c),
{
    s.push(c);
}

/// A string holding the characters of `v`.
pub fn string_of(v: &Vec<char>) -> (s: String)
    ensures
        s@ == v@,
{
    let mut s = String::new();
    let mut i: usize = 0;
    while i < v.len()
        invariant
            i <= v.len(),
            s@ == v@.take(i as int),
        decreases v.len() - i,
    {
        push_char(&mut s, v[i]);
        i = i + 1;
        assert(s@ =~= v@.take(i as int));
    }
    assert(v@.take(v.len() as int) =~= v@);
    s
}

/// The views of a sequence of character vectors.
pub open spec fn seq_views(v: Seq<Vec<char>>) -> Seq<Seq<char>> {
    Seq::new(v.len(), |i: int| v[i]@)
}

/// A copy of `s[from..to]`.
pub fn copy_range(s: &Vec<char>, from: usize, to: usize) -> (r: Vec<char>)
    requires
        from <= to <= s.len(),
    ensures
        r@ == s@.subrange(from as int, to as int),
{
    let mut r: Vec<char> = Vec::new();
    let mut i = from;
    while i < to
        invariant
            from <= i <= to <= s.len(),
            r@ == s@.subrange(from as int, i as int),
        decreases to - i,
    {
        r.push(s[i]);
        i = i + 1;
        assert(r@ =~= s@.subrange(from as int, i as int));
    }
    r
}

// ---------------------------------------------------------------------
// White space
// ---------------------------------------------------------------------

/// A character with the Unicode `White_Space` property (what
/// `char::is_whitespace` accepts).
pub open spec fn is_ws(c: char) -> bool {
    let u = c as u32;
    ||| 0x09 <= u <= 0x0D
    ||| u == 0x20
    ||| u == 0x85
    ||| u == 0xA0
    ||| u == 0x1680
    ||| 0x2000 <= u <= 0x200A
    ||| u == 0x2028
    ||| u == 0x2029
    ||| u == 0x202F
    ||| u == 0x205F
    ||| u == 0x3000
}

/// Whether `c` is white space.
pub fn is_whitespace(c: char) -> (b: bool)
    ensures
        b == is_ws(c),
{
    let u = c as u32;
    (0x09 <= u && u <= 0x0D) || u == 0x20 || u == 0x85 || u == 0xA0 || u == 0x1680 || (0x2000
        <= u && u <= 0x200A) || u == 0x2028 || u == 0x2029 || u == 0x202F || u == 0x205F || u
        == 0x3000
}

// ---------------------------------------------------------------------
// UTF-8 byte offsets
// ---------------------------------------------------------------------

/// The number of bytes of `c` in UTF-8.
pub open spec fn utf8_len(c: char) -> nat {
    let u = c as u32;
    if u < 0x80 {
        1
    } else if u < 0x800 {
        2
    } else if u < 0x1_0000 {
        3
    } else {
        4
    }
}

/// The number of bytes of `s` in UTF-8.
pub open spec fn byte_len(s: Seq<char>) -> nat
    decreases s.len(),
{
    if s.len() == 0 {
        0
    } else {
        utf8_len(s[0]) + byte_len(s.drop_first())
    }
}

/// The index of the character that starts at byte offset `b` of the UTF-8
/// encoding of `s` (`s.len()` where `b` is the end), or `None` where `b`
/// falls inside a character or past the end.
pub open spec fn char_at_byte(s: Seq<char>, b: int) -> Option<int>
    decreases s.len(),
{
    if b == 0 {
        Some(0)
    } else if b < 0 || s.len() == 0 || b < utf8_len(s[0]) {
        None
    } else {
        match char_at_byte(s.drop_first(), b - utf8_len(s[0])) {
            Some(k) => Some(k + 1),
            None => None,
        }
    }
}

/// A character index found at a byte offset lies within the string.
pub proof fn lemma_char_at_byte_range(s: Seq<char>, b: int)
    ensures
        char_at_byte(s, b) matches Some(k) ==> 0 <= k <= s.len(),
    decreases s.len(),
{
    if b != 0 && !(b < 0 || s.len() == 0 || b < utf8_len(s[0])) {
        lemma_char_at_byte_range(s.drop_first(), b - utf8_len(s[0]));
    }
}

/// Each character takes at least one byte.
pub proof fn lemma_byte_len_at_least_len(s: Seq<char>)
    ensures
        byte_len(s) >= s.len(),
    decreases s.len(),
{
    if s.len() > 0 {
        lemma_byte_len_at_least_len(s.drop_first());
    }
}

/// A character appended after byte offset `b` does not move what lies at `b`.
pub proof fn lemma_char_at_byte_push(s: Seq<char>, c: char, b: int)
    requires
        b <= byte_len(s),
    ensures
        char_at_byte(s.push(c), b) == char_at_byte(s, b),
    decreases s.len(),
{
    if b != 0 && b >= 0 && s.len() > 0 {
        assert(s.push(c)[0] == s[0]);
        if b >= utf8_len(s[0]) {
            assert(s.push(c).drop_first() =~= s.drop_first().push(c));
            lemma_char_at_byte_push(s.drop_first(), c, b - utf8_len(s[0]));
        }
    }
}

/// The UTF-8 length of one character.
pub fn char_utf8_len(c: char) -> (n: usize)
    ensures
        n == utf8_len(c),
{
    let u = c as u32;
    if u < 0x80 {
        1
    } else if u < 0x800 {
        2
    } else if u < 0x1_0000 {
        3
    } else {
        4
    }
}

proof fn lemma_char_at_byte_step(s: Seq<char>, i: int, b: int)
    requires
        0 <= i < s.len(),
        b >= utf8_len(s[i]),
        b > 0,
    ensures
        char_at_byte(s.skip(i), b) == match char_at_byte(s.skip(i + 1), b - utf8_len(s[i])) {
            Some(k) => Some(k + 1),
            None => None::<int>,
        },
{
    assert(s.skip(i).drop_first() =~= s.skip(i + 1));
}

/// The character index at byte offset `b` of `s`, as `char_at_byte` says.
pub fn char_index_at_byte(s: &Vec<char>, b: usize) -> (r: Option<usize>)
    ensures
        match r {
            Some(k) => char_at_byte(s@, b as int) == Some(k as int) && k <= s.len(),
            None => char_at_byte(s@, b as int) is None,
        },
{
    let mut i: usize = 0;
    let mut used: usize = 0;
    assert(s@.skip(0) =~= s@);
    while used < b && i < s.len()
        invariant
            i <= s.len(),
            used <= b,
            char_at_byte(s@, b as int) == match char_at_byte(s@.skip(i as int), b - used) {
                Some(k) => Some(k + i),
                None => None::<int>,
            },
        decreases s.len() - i,
    {
        let n = char_utf8_len(s[i]);
        if n > b - used {
            assert(char_at_byte(s@.skip(i as int), b - used) is None);
            return None;
        }
        proof {
            lemma_char_at_byte_step(s@, i as int, b - used);
        }
        used = used + n;
        i = i + 1;
    }
    if used == b {
        Some(i)
    } else {
        assert(s@.skip(i as int).len() == 0);
        None
    }
}

/// Whether the UTF-8 encoding of `s` has at least `n` bytes.
pub fn bytes_at_least(s: &Vec<char>, n: usize) -> (r: bool)
    ensures
        r == (byte_len(s@) >= n),
{
    let mut i: usize = 0;
    let mut used: usize = 0;
    assert(s@.skip(0) =~= s@);
    while used < n && i < s.len()
        invariant
            i <= s.len(),
            used <= n,
            byte_len(s@) == used + byte_len(s@.skip(i as int)),
        decreases s.len() - i,
    {
        assert(s@.skip(i as int).drop_first() =~= s@.skip(i + 1));
        let k = char_utf8_len(s[i]);
        if k >= n - used {
            assert(byte_len(s@.skip(i + 1)) >= 0);
            return true;
        }
        used = used + k;
        i = i + 1;
    }
    if used >= n {
        true
    } else {
        assert(s@.skip(i as int).len() == 0);
        false
    }
}

/// The number of leading characters of `s` that are white space (`ws`)
/// or that are not (`!ws`).
pub open spec fn leading_run(s: Seq<char>, ws: bool) -> nat
    decreases s.len(),
{
    if s.len() > 0 && is_ws(s[0]) == ws {
        1 + leading_run(s.drop_first(), ws)
    } else {
        0
    }
}

/// The end of the run of white space (`ws`) or of other characters
/// (`!ws`) that starts at `from`.
pub fn run_end(s: &Vec<char>, from: usize, ws: bool) -> (r: usize)
    requires
        from <= s.len(),
    ensures
        r == from + leading_run(s@.skip(from as int), ws),
        r <= s.len(),
{
    let mut i = from;
    while i < s.len() && is_whitespace(s[i]) == ws
        invariant
            from <= i <= s.len(),
            from + leading_run(s@.skip(from as int), ws) == i + leading_run(
                s@.skip(i as int),
                ws,
            ),
        decreases s.len() - i,
    {
        assert(s@.skip(i as int).drop_first() =~= s@.skip(i + 1));
        i = i + 1;
    }
    i
}

// ---------------------------------------------------------------------
// Lines
// ---------------------------------------------------------------------

/// `l` without one trailing carriage return.
pub open spec fn strip_cr(l: Seq<char>) -> Seq<char> {
    if l.len() > 0 && l.last() == '\r' {
        l.drop_last()
    } else {
        l
    }
}

/// Reading `s` from the left: the lines ended so far (each without its
/// `\n` and a `\r` just before it) and the line still open.
pub open spec fn lines_scan(s: Seq<char>) -> (Seq<Seq<char>>, Seq<char>)
    decreases s.len(),
{
    if s.len() == 0 {
        (Seq::empty(), Seq::empty())
    } else {
        let (done, cur) = lines_scan(s.drop_last());
        if s.last() == '\n' {
            (done.push(strip_cr(cur)), Seq::empty())
        } else {
            (done, cur.push(s.last()))
        }
    }
}

/// The lines of `s` as `str::lines` gives them: split at `\n`, a `\r`
/// before the `\n` dropped, and no empty last line after a final `\n`.
pub open spec fn lines(s: Seq<char>) -> Seq<Seq<char>> {
    let (done, cur) = lines_scan(s);
    if cur.len() == 0 {
        done
    } else {
        done.push(cur)
    }
}

/// Text that ends its last line (empty, or ending in `\n`) leaves no line
/// open.
pub proof fn lemma_lines_closed(x: Seq<char>)
    requires
        x.len() == 0 || x.last() == '\n',
    ensures
        lines_scan(x).1.len() == 0,
        lines(x) == lines_scan(x).0,
{
}

/// The lines of `x + y`, where `x` leaves no line open, are the lines of
/// `x` followed by those of `y`.
pub proof fn lemma_lines_append(x: Seq<char>, y: Seq<char>)
    requires
        lines_scan(x).1.len() == 0,
    ensures
        lines_scan(x + y) == (lines_scan(x).0 + lines_scan(y).0, lines_scan(y).1),
        lines(x + y) == lines_scan(x).0 + lines(y),
    decreases y.len(),
{
    if y.len() == 0 {
        assert(x + y =~= x);
        assert(lines_scan(x).0 + lines_scan(y).0 =~= lines_scan(x).0);
    } else {
        lemma_lines_append(x, y.drop_last());
        assert((x + y).drop_last() =~= x + y.drop_last());
        assert((x + y).last() == y.last());
        let (d, c) = lines_scan(y.drop_last());
        assert((lines_scan(x).0 + d).push(strip_cr(c)) =~= lines_scan(x).0 + d.push(strip_cr(c)));
    }
    let (d, c) = lines_scan(y);
    assert((lines_scan(x).0 + d).push(c) =~= lines_scan(x).0 + d.push(c));
}

/// A line without `\n` is read as one open line.
pub proof fn lemma_lines_one(l: Seq<char>)
    requires
        forall|k: int| 0 <= k < l.len() ==> l[k] != '\n',
    ensures
        lines_scan(l) == (Seq::<Seq<char>>::empty(), l),
    decreases l.len(),
{
    if l.len() > 0 {
        lemma_lines_one(l.drop_last());
        assert(l.drop_last().push(l.last()) =~= l);
    }
}

/// The lines of `s`.
pub fn split_lines(s: &Vec<char>) -> (r: Vec<Vec<char>>)
    ensures
        seq_views(r@) == lines(s@),
{
    let mut done: Vec<Vec<char>> = Vec::new();
    let mut cur: Vec<char> = Vec::new();
    let mut i: usize = 0;
    assert(s@.take(0) =~= Seq::<char>::empty());
    while i < s.len()
        invariant
            i <= s.len(),
            (seq_views(done@), cur@) == lines_scan(s@.take(i as int)),
        decreases s.len() - i,
    {
        let c = s[i];
        assert(s@.take(i + 1).drop_last() =~= s@.take(i as int));
        if c == '\n' {
            if cur.len() > 0 && cur[cur.len() - 1] == '\r' {
                cur.pop();
            }
            let line = cur;
            done.push(line);
            cur = Vec::new();
            assert(seq_views(done@) =~= lines_scan(s@.take(i + 1)).0);
        } else {
            cur.push(c);
        }
        i = i + 1;
    }
    assert(s@.take(s.len() as int) =~= s@);
    if cur.len() > 0 {
        done.push(cur);
        assert(seq_views(done@) =~= lines(s@));
    }
    done
}

/// Reading `s` from the left: the pieces ended by a `\n` so far and the
/// piece still open.
pub open spec fn pieces_scan(s: Seq<char>) -> (Seq<Seq<char>>, Seq<char>)
    decreases s.len(),
{
    if s.len() == 0 {
        (Seq::empty(), Seq::empty())
    } else {
        let (done, cur) = pieces_scan(s.drop_last());
        if s.last() == '\n' {
            (done.push(cur), Seq::empty())
        } else {
            (done, cur.push(s.last()))
        }
    }
}

/// The pieces of `s` between `\n` characters, as `str::split('\n')`
/// gives them (one more than there are `\n`).
pub open spec fn pieces(s: Seq<char>) -> Seq<Seq<char>> {
    let (done, cur) = pieces_scan(s);
    done.push(cur)
}

/// The pieces of `s` between `\n` characters.
pub fn split_pieces(s: &Vec<char>) -> (r: Vec<Vec<char>>)
    ensures
        seq_views(r@) == pieces(s@),
{
    let mut done: Vec<Vec<char>> = Vec::new();
    let mut cur: Vec<char> = Vec::new();
    let mut i: usize = 0;
    assert(s@.take(0) =~= Seq::<char>::empty());
    while i < s.len()
        invariant
            i <= s.len(),
            (seq_views(done@), cur@) == pieces_scan(s@.take(i as int)),
        decreases s.len() - i,
    {
        let c = s[i];
        assert(s@.take(i + 1).drop_last() =~= s@.take(i as int));
        if c == '\n' {
            let piece = cur;
            done.push(piece);
            cur = Vec::new();
            assert(seq_views(done@) =~= pieces_scan(s@.take(i + 1)).0);
        } else {
            cur.push(c);
        }
        i = i + 1;
    }
    assert(s@.take(s.len() as int) =~= s@);
    done.push(cur);
    assert(seq_views(done@) =~= pieces(s@));
    done
}

// ---------------------------------------------------------------------
// Trimming and prefixes
// ---------------------------------------------------------------------

/// `s` without its leading white space.
pub open spec fn trim_start(s: Seq<char>) -> Seq<char>
    decreases s.len(),
{
    if s.len() > 0 && is_ws(s[0]) {
        trim_start(s.drop_first())
    } else {
        s
    }
}

/// `s` without its trailing white space.
pub open spec fn trim_end(s: Seq<char>) -> Seq<char>
    decreases s.len(),
{
    if s.len() > 0 && is_ws(s.last()) {
        trim_end(s.drop_last())
    } else {
        s
    }
}

/// `s` without leading and trailing white space, as `str::trim` gives it.
pub open spec fn trim(s: Seq<char>) -> Seq<char> {
    trim_end(trim_start(s))
}

proof fn lemma_trim_start_push(s: Seq<char>, c: char)
    ensures
        trim_start(s.push(c)) == if trim_start(s).len() == 0 {
            trim_start(seq![c])
        } else {
            trim_start(s).push(c)
        },
    decreases s.len(),
{
    if s.len() == 0 {
        assert(s.push(c) =~= seq![c]);
    } else {
        assert(s.push(c)[0] == s[0]);
        if is_ws(s[0]) {
            assert(s.push(c).drop_first() =~= s.drop_first().push(c));
            lemma_trim_start_push(s.drop_first(), c);
        }
    }
}

/// Trimming ignores a white-space character appended to `s`.
pub proof fn lemma_trim_push_ws(s: Seq<char>, c: char)
    requires
        is_ws(c),
    ensures
        trim(s.push(c)) == trim(s),
{
    lemma_trim_start_push(s, c);
    assert(seq![c].drop_first() =~= Seq::<char>::empty());
    assert(trim_start(seq![c]) == trim_start(Seq::<char>::empty()));
    let t = trim_start(s);
    assert(t.push(c).drop_last() =~= t);
}

proof fn lemma_trim_start_len(s: Seq<char>)
    ensures
        trim_start(s).len() <= s.len(),
    decreases s.len(),
{
    if s.len() > 0 && is_ws(s[0]) {
        lemma_trim_start_len(s.drop_first());
    }
}

proof fn lemma_trim_end_len(s: Seq<char>)
    ensures
        trim_end(s).len() <= s.len(),
    decreases s.len(),
{
    if s.len() > 0 && is_ws(s.last()) {
        lemma_trim_end_len(s.drop_last());
    }
}

/// Trimming does not lengthen.
pub proof fn lemma_trim_len(s: Seq<char>)
    ensures
        trim(s).len() <= s.len(),
{
    lemma_trim_start_len(s);
    lemma_trim_end_len(trim_start(s));
}

/// `s` trimmed of white space at both ends.
pub fn trimmed(s: &Vec<char>) -> (r: Vec<char>)
    ensures
        r@ == trim(s@),
{
    let mut i: usize = 0;
    assert(s@.skip(0) =~= s@);
    while i < s.len() && is_whitespace(s[i])
        invariant
            i <= s.len(),
            trim_start(s@) == trim_start(s@.skip(i as int)),
        decreases s.len() - i,
    {
        assert(s@.skip(i as int).drop_first() =~= s@.skip(i + 1));
        i = i + 1;
    }
    let mut j: usize = s.len();
    assert(s@.skip(i as int) =~= s@.subrange(i as int, j as int));
    while j > i && is_whitespace(s[j - 1])
        invariant
            i <= j <= s.len(),
            trim(s@) == trim_end(s@.subrange(i as int, j as int)),
        decreases j,
    {
        assert(s@.subrange(i as int, j as int).drop_last() =~= s@.subrange(i as int, j - 1));
        j = j - 1;
    }
    copy_range(s, i, j)
}

/// `s` begins with `p`.
pub open spec fn has_prefix(s: Seq<char>, p: Seq<char>) -> bool {
    p.len() <= s.len() && s.take(p.len() as int) == p
}

/// `s` begins with the two characters `a` and `b`.
pub fn starts_with2(s: &Vec<char>, a: char, b: char) -> (r: bool)
    ensures
        r == has_prefix(s@, seq![a, b]),
{
    let r = s.len() >= 2 && s[0] == a && s[1] == b;
    if r {
        assert(s@.take(2) =~= seq![a, b]);
    } else if s.len() >= 2 {
        assert(s@.take(2)[0] == s@[0]);
        assert(s@.take(2)[1] == s@[1]);
    }
    r
}

// ---------------------------------------------------------------------
// Words
// ---------------------------------------------------------------------

/// Reading `s` from the left: the words ended so far and the word still
/// open.
pub open spec fn words_scan(s: Seq<char>) -> (Seq<Seq<char>>, Seq<char>)
    decreases s.len(),
{
    if s.len() == 0 {
        (Seq::empty(), Seq::empty())
    } else {
        let (done, cur) = words_scan(s.drop_last());
        if is_ws(s.last()) {
            if cur.len() > 0 {
                (done.push(cur), Seq::empty())
            } else {
                (done, cur)
            }
        } else {
            (done, cur.push(s.last()))
        }
    }
}

/// The maximal runs of non-white-space characters of `s`, as
/// `str::split_whitespace` gives them.
pub open spec fn words(s: Seq<char>) -> Seq<Seq<char>> {
    let (done, cur) = words_scan(s);
    if cur.len() > 0 {
        done.push(cur)
    } else {
        done
    }
}

/// A white-space character appended to `s` adds no word.
pub proof fn lemma_words_push_ws(s: Seq<char>, c: char)
    requires
        is_ws(c),
    ensures
        words(s.push(c)) == words(s),
{
    assert(s.push(c).drop_last() =~= s);
}

/// Characters without white space appended to `p` extend its open word.
proof fn lemma_words_scan_append(p: Seq<char>, y: Seq<char>)
    requires
        forall|i: int| 0 <= i < y.len() ==> !is_ws(#[trigger] y[i]),
    ensures
        words_scan(p + y) == (words_scan(p).0, words_scan(p).1 + y),
    decreases y.len(),
{
    if y.len() == 0 {
        assert(p + y =~= p);
        assert(words_scan(p).1 + y =~= words_scan(p).1);
    } else {
        let y0 = y.drop_last();
        assert forall|i: int| 0 <= i < y0.len() implies !is_ws(#[trigger] y0[i]) by {
            assert(y0[i] == y[i]);
        }
        lemma_words_scan_append(p, y0);
        assert((p + y).drop_last() =~= p + y0);
        assert((p + y).last() == y[y.len() - 1]);
        assert((words_scan(p).1 + y0).push(y.last()) =~= words_scan(p).1 + y);
    }
}

/// Two runs without white space, one space between them, are two words.
pub proof fn lemma_words_two(x: Seq<char>, y: Seq<char>)
    requires
        x.len() > 0,
        y.len() > 0,
        forall|i: int| 0 <= i < x.len() ==> !is_ws(#[trigger] x[i]),
        forall|i: int| 0 <= i < y.len() ==> !is_ws(#[trigger] y[i]),
    ensures
        words(x + seq![' '] + y) == seq![x, y],
{
    let e = Seq::<char>::empty();
    lemma_words_scan_append(e, x);
    assert(e + x =~= x);
    assert(words_scan(e).1 + x =~= x);
    let xs = x + seq![' '];
    assert(xs.drop_last() =~= x);
    assert(is_ws(' '));
    assert(words_scan(xs) == (seq![x], e));
    lemma_words_scan_append(xs, y);
    assert(e + y =~= y);
    assert(seq![x].push(y) =~= seq![x, y]);
}

/// The words of `s[from..]`.
pub fn split_words(s: &Vec<char>, from: usize) -> (r: Vec<Vec<char>>)
    requires
        from <= s.len(),
    ensures
        seq_views(r@) == words(s@.skip(from as int)),
{
    let mut done: Vec<Vec<char>> = Vec::new();
    let mut cur: Vec<char> = Vec::new();
    let mut i: usize = from;
    assert(s@.subrange(from as int, from as int) =~= Seq::<char>::empty());
    while i < s.len()
        invariant
            from <= i <= s.len(),
            (seq_views(done@), cur@) == words_scan(s@.subrange(from as int, i as int)),
        decreases s.len() - i,
    {
        let c = s[i];
        assert(s@.subrange(from as int, i + 1).drop_last() =~= s@.subrange(
            from as int,
            i as int,
        ));
        if is_whitespace(c) {
            if cur.len() > 0 {
                let w = cur;
                done.push(w);
                cur = Vec::new();
                assert(seq_views(done@) =~= words_scan(s@.subrange(from as int, i + 1)).0);
            }
        } else {
            cur.push(c);
        }
        i = i + 1;
    }
    assert(s@.subrange(from as int, s.len() as int) =~= s@.skip(from as int));
    if cur.len() > 0 {
        done.push(cur);
        assert(seq_views(done@) =~= words(s@.skip(from as int)));
    }
    done
}

// ---------------------------------------------------------------------
// Integers
// ---------------------------------------------------------------------

/// Why a text is not an integer of the wanted type.
#[derive(Debug, Clone, Copy, PartialEq, Eq, Structural)]
pub enum ParseNumError {
    /// Nothing to parse.
    Empty,
    /// A character that is not a digit of the radix.
    InvalidDigit,
    /// The number is too large for the type.
    PosOverflow,
}

/// The value of `c` as a digit in `radix` (`0-9`, then `a-z` or `A-Z`).
pub open spec fn digit_of(c: char, radix: nat) -> Option<nat> {
    let u = c as u32;
    let d: int = if 0x30 <= u <= 0x39 {
        u - 0x30
    } else if 0x61 <= u <= 0x7A {
        u - 0x61 + 10
    } else if 0x41 <= u <= 0x5A {
        u - 0x41 + 10
    } else {
        99
    };
    if d < radix {
        Some(d as nat)
    } else {
        None
    }
}

/// Reading the digits `d` from the left onto `acc`: the value, or the
/// first fault met (a non-digit, or a value above 255).
pub open spec fn digits_u8(d: Seq<char>, radix: nat, acc: nat) -> Result<nat, ParseNumError>
    decreases d.len(),
{
    if d.len() == 0 {
        Ok(acc)
    } else {
        match digit_of(d[0], radix) {
            None => Err(ParseNumError::InvalidDigit),
            Some(v) => {
                let next = acc * radix + v;
                if next > 255 {
                    Err(ParseNumError::PosOverflow)
                } else {
                    digits_u8(d.drop_first(), radix, next)
                }
            },
        }
    }
}

/// `s` read as a `u8` in `radix`, as `u8::from_str_radix` reads it: an
/// optional `+` then at least one digit.
pub open spec fn parse_u8_spec(s: Seq<char>, radix: nat) -> Result<u8, ParseNumError> {
    if s.len() == 0 {
        Err(ParseNumError::Empty)
    } else if s.len() == 1 && (s[0] == '+' || s[0] == '-') {
        Err(ParseNumError::InvalidDigit)
    } else {
        let d = if s[0] == '+' {
            s.drop_first()
        } else {
            s
        };
        match digits_u8(d, radix, 0) {
            Ok(v) => Ok(v as u8),
            Err(e) => Err(e),
        }
    }
}

/// The value of `c` as a digit in `radix`.
pub fn digit_value(c: char, radix: u32) -> (r: Option<u32>)
    requires
        2 <= radix <= 36,
    ensures
        match r {
            Some(v) => digit_of(c, radix as nat) == Some(v as nat) && v < radix,
            None => digit_of(c, radix as nat) is None,
        },
{
    let u = c as u32;
    let d: u32 = if 0x30 <= u && u <= 0x39 {
        u - 0x30
    } else if 0x61 <= u && u <= 0x7A {
        u - 0x61 + 10
    } else if 0x41 <= u && u <= 0x5A {
        u - 0x41 + 10
    } else {
        99
    };
    if d < radix {
        Some(d)
    } else {
        None
    }
}

proof fn lemma_digits_step(d: Seq<char>, k: int, radix: nat, acc: nat)
    requires
        0 <= k < d.len(),
    ensures
        digits_u8(d.skip(k), radix, acc) == match digit_of(d[k], radix) {
            None => Err(ParseNumError::InvalidDigit),
            Some(v) => if acc * radix + v > 255 {
                Err(ParseNumError::PosOverflow)
            } else {
                digits_u8(d.skip(k + 1), radix, acc * radix + v)
            },
        },
{
    assert(d.skip(k).drop_first() =~= d.skip(k + 1));
}

/// `s` read as a `u8` in `radix`.
pub fn parse_u8(s: &Vec<char>, radix: u32) -> (r: Result<u8, ParseNumError>)
    requires
        2 <= radix <= 36,
    ensures
        r == parse_u8_spec(s@, radix as nat),
{
    if s.len() == 0 {
        return Err(ParseNumError::Empty);
    }
    if s.len() == 1 && (s[0] == '+' || s[0] == '-') {
        return Err(ParseNumError::InvalidDigit);
    }
    let start: usize = if s[0] == '+' {
        1
    } else {
        0
    };
    let ghost d = if s@[0] == '+' {
        s@.drop_first()
    } else {
        s@
    };
    assert(d =~= s@.skip(start as int));
    let mut acc: u32 = 0;
    let mut i: usize = start;
    assert(s@.skip(start as int) =~= d.skip(0));
    while i < s.len()
        invariant
            start <= i <= s.len(),
            2 <= radix <= 36,
            acc <= 255,
            d =~= s@.skip(start as int),
            parse_u8_spec(s@, radix as nat) == match digits_u8(d, radix as nat, 0) {
                Ok(v) => Ok(v as u8),
                Err(e) => Err(e),
            },
            digits_u8(d, radix as nat, 0) == digits_u8(
                d.skip(i - start),
                radix as nat,
                acc as nat,
            ),
        decreases s.len() - i,
    {
        proof {
            lemma_digits_step(d, i - start, radix as nat, acc as nat);
        }
        assert(d[i - start] == s@[i as int]);
        match digit_value(s[i], radix) {
            None => {
                return Err(ParseNumError::InvalidDigit);
            },
            Some(v) => {
                assert(acc * radix <= 255 * 36) by (nonlinear_arith)
                    requires
                        acc <= 255,
                        radix <= 36,
                ;
                let next = acc * radix + v;
                if next > 255 {
                    return Err(ParseNumError::PosOverflow);
                }
                acc = next;
            },
        }
        i = i + 1;
    }
    assert(d.skip(i - start).len() == 0);
    Ok(acc as u8)
}

} // verus!
