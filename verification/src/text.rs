//! Character-level text handling shared by the file formats and the screens:
//! splitting, line breaking, trimming, substring removal and decimal numbers.
//! Every operation is stated over the `Seq<char>` view of the text.
use vstd::prelude::*;

verus! {

// ---------------------------------------------------------------------------
// Specifications
// ---------------------------------------------------------------------------

/// Unicode `White_Space`, the set `char::is_whitespace` and `str::trim` use.
pub open spec fn is_ws(c: char) -> bool {
    ||| ('\u{9}' <= c && c <= '\u{d}')
    ||| c == ' '
    ||| c == '\u{85}'
    ||| c == '\u{a0}'
    ||| c == '\u{1680}'
    ||| ('\u{2000}' <= c && c <= '\u{200a}')
    ||| c == '\u{2028}'
    ||| c == '\u{2029}'
    ||| c == '\u{202f}'
    ||| c == '\u{205f}'
    ||| c == '\u{3000}'
}

/// `s` without its leading whitespace.
pub open spec fn trim_start(s: Seq<char>) -> Seq<char>
    decreases s.len(),
{
    if s.len() > 0 && is_ws(s[0]) {
        trim_start(s.drop_first())
    } else {
        s
    }
}

/// `s` without its trailing whitespace.
pub open spec fn trim_end(s: Seq<char>) -> Seq<char>
    decreases s.len(),
{
    if s.len() > 0 && is_ws(s.last()) {
        trim_end(s.drop_last())
    } else {
        s
    }
}

/// `s` without leading and trailing whitespace (`str::trim`).
pub open spec fn trim(s: Seq<char>) -> Seq<char> {
    trim_end(trim_start(s))
}

/// The pieces of `s` between occurrences of `sep` (`str::split` on a char):
/// always at least one piece, and one more piece than there are separators.
pub open spec fn split(s: Seq<char>, sep: char) -> Seq<Seq<char>>
    decreases s.len(),
{
    if s.len() == 0 {
        seq![Seq::empty()]
    } else {
        let r = split(s.drop_last(), sep);
        if s.last() == sep {
            r.push(Seq::empty())
        } else {
            r.update(r.len() - 1, r.last().push(s.last()))
        }
    }
}

/// `line` without one trailing carriage return.
pub open spec fn strip_cr(line: Seq<char>) -> Seq<char> {
    if line.len() > 0 && line.last() == '\r' {
        line.drop_last()
    } else {
        line
    }
}

/// The lines of `s` (`str::lines`): the text is cut at each `'\n'`, a `'\r'`
/// right before a `'\n'` is dropped, and a final empty piece (the text ends
/// with `'\n'`, or is empty) is no line.
pub open spec fn lines(s: Seq<char>) -> Seq<Seq<char>> {
    let p = split(s, '\n');
    let ended = Seq::new((p.len() - 1) as nat, |k: int| strip_cr(p[k]));
    if p.last().len() > 0 {
        ended.push(p.last())
    } else {
        ended
    }
}

/// `s` with every occurrence of the non-empty `pat`, scanned from the left,
/// removed (`str::replace(pat, "")`).
pub open spec fn remove_all(s: Seq<char>, pat: Seq<char>) -> Seq<char>
    decreases s.len(),
{
    if s.len() == 0 || pat.len() == 0 {
        s
    } else if pat.len() <= s.len() && s.take(pat.len() as int) == pat {
        remove_all(s.skip(pat.len() as int), pat)
    } else {
        seq![s[0]] + remove_all(s.drop_first(), pat)
    }
}

/// The ASCII digit for `d` in `0..10`.
pub open spec fn digit_char(d: int) -> char {
    if d == 0 { '0' }
    else if d == 1 { '1' }
    else if d == 2 { '2' }
    else if d == 3 { '3' }
    else if d == 4 { '4' }
    else if d == 5 { '5' }
    else if d == 6 { '6' }
    else if d == 7 { '7' }
    else if d == 8 { '8' }
    else { '9' }
}

/// The decimal representation of `n`, without leading zeros (`n.to_string()`).
pub open spec fn decimal(n: nat) -> Seq<char>
    decreases n,
{
    if n < 10 {
        seq![digit_char(n as int)]
    } else {
        decimal(n / 10).push(digit_char((n % 10) as int))
    }
}

pub open spec fn is_digit(c: char) -> bool {
    '0' <= c && c <= '9'
}

pub open spec fn digit_value(c: char) -> int {
    c as int - '0' as int
}

/// Why a text is not an integer of the wanted type (std's `IntErrorKind`).
#[derive(Clone, Copy, Debug, PartialEq, Eq, Structural)]
pub enum IntErrorKind {
    Empty,
    InvalidDigit,
    PosOverflow,
    NegOverflow,
}

/// Reads the digits of `d` after the value `acc`, left to right, failing at
/// the first character that is no digit or at the first digit that takes the
/// value above `max`.
pub open spec fn scan_digits(d: Seq<char>, acc: int, max: int) -> Result<int, IntErrorKind>
    decreases d.len(),
{
    if d.len() == 0 {
        Ok(acc)
    } else if !is_digit(d[0]) {
        Err(IntErrorKind::InvalidDigit)
    } else if acc * 10 + digit_value(d[0]) > max {
        Err(IntErrorKind::PosOverflow)
    } else {
        scan_digits(d.drop_first(), acc * 10 + digit_value(d[0]), max)
    }
}

/// `str::parse` for an unsigned integer type whose largest value is `max`:
/// an optional `+`, then one or more decimal digits.
pub open spec fn parse_unsigned(s: Seq<char>, max: int) -> Result<int, IntErrorKind> {
    if s.len() == 0 {
        Err(IntErrorKind::Empty)
    } else if s.len() == 1 && (s[0] == '+' || s[0] == '-') {
        Err(IntErrorKind::InvalidDigit)
    } else if s[0] == '+' {
        scan_digits(s.drop_first(), 0, max)
    } else {
        scan_digits(s, 0, max)
    }
}

/// Reads the digits of `d` after the value `acc` of a negative number, left
/// to right, failing at the first character that is no digit or at the
/// first digit that takes the value below `min`.
pub open spec fn scan_negative(d: Seq<char>, acc: int, min: int) -> Result<int, IntErrorKind>
    decreases d.len(),
{
    if d.len() == 0 {
        Ok(acc)
    } else if !is_digit(d[0]) {
        Err(IntErrorKind::InvalidDigit)
    } else if acc * 10 - digit_value(d[0]) < min {
        Err(IntErrorKind::NegOverflow)
    } else {
        scan_negative(d.drop_first(), acc * 10 - digit_value(d[0]), min)
    }
}

/// `str::parse` for a signed integer type from `min` to `max`: an optional
/// `+` or `-`, then one or more decimal digits.
pub open spec fn parse_signed(s: Seq<char>, min: int, max: int) -> Result<int, IntErrorKind> {
    if s.len() == 0 {
        Err(IntErrorKind::Empty)
    } else if s.len() == 1 && (s[0] == '+' || s[0] == '-') {
        Err(IntErrorKind::InvalidDigit)
    } else if s[0] == '-' {
        scan_negative(s.drop_first(), 0, min)
    } else if s[0] == '+' {
        scan_digits(s.drop_first(), 0, max)
    } else {
        scan_digits(s, 0, max)
    }
}

/// The message std's `ParseIntError` displays for each kind.
pub open spec fn int_error_message(kind: IntErrorKind) -> Seq<char> {
    match kind {
        IntErrorKind::Empty => "cannot parse integer from empty string"@,
        IntErrorKind::InvalidDigit => "invalid digit found in string"@,
        IntErrorKind::PosOverflow => "number too large to fit in target type"@,
        IntErrorKind::NegOverflow => "number too small to fit in target type"@,
    }
}

/// `sep` joins the pieces, with no separator after the last (`join`).
pub open spec fn join(pieces: Seq<Seq<char>>, sep: Seq<char>) -> Seq<char>
    decreases pieces.len(),
{
    if pieces.len() == 0 {
        Seq::empty()
    } else if pieces.len() == 1 {
        pieces[0]
    } else {
        join(pieces.drop_last(), sep) + sep + pieces.last()
    }
}

/// The texts held by a vector of character vectors.
pub open spec fn views(v: Seq<Vec<char>>) -> Seq<Seq<char>> {
    Seq::new(v.len(), |i: int| v[i]@)
}

/// The texts held by a vector of strings.
pub open spec fn strings_view(v: Seq<String>) -> Seq<Seq<char>> {
    Seq::new(v.len(), |i: int| v[i]@)
}

/// The text made of the lines, each followed by `'\n'`.
pub open spec fn text_of_lines(ls: Seq<Seq<char>>) -> Seq<char>
    decreases ls.len(),
{
    if ls.len() == 0 {
        Seq::empty()
    } else {
        text_of_lines(ls.drop_last()) + ls.last().push('\n')
    }
}

/// A line that `lines` gives back as it is: no `'\n'` in it, and no
/// carriage return at its end.
pub open spec fn plain_line(l: Seq<char>) -> bool {
    free_of(l, '\n') && (l.len() == 0 || l.last() != '\r')
}

/// `a` comes strictly before `b` in dictionary order of code points (the
/// order of `String`'s `cmp`, since UTF-8 keeps code point order).
pub open spec fn lex_lt(a: Seq<char>, b: Seq<char>) -> bool
    decreases a.len(),
{
    if a.len() == 0 {
        b.len() > 0
    } else if b.len() == 0 {
        false
    } else if a[0] != b[0] {
        a[0] < b[0]
    } else {
        lex_lt(a.drop_first(), b.drop_first())
    }
}

/// `pat` occurs in `s` (`str::contains`).
pub open spec fn contains_text(s: Seq<char>, pat: Seq<char>) -> bool {
    exists|i: int| 0 <= i <= s.len() - pat.len() && #[trigger] s.subrange(i, i + pat.len()) == pat
}

/// No character of `s` is `c`.
pub open spec fn free_of(s: Seq<char>, c: char) -> bool {
    forall|i: int| 0 <= i < s.len() ==> s[i] != c
}

// ---------------------------------------------------------------------------
// Lemmas
// ---------------------------------------------------------------------------

pub proof fn lemma_split_len(s: Seq<char>, sep: char)
    ensures
        split(s, sep).len() >= 1,
    decreases s.len(),
{
    if s.len() > 0 {
        lemma_split_len(s.drop_last(), sep);
    }
}

/// Splitting a text that holds no separator gives the text itself.
pub proof fn lemma_split_free(s: Seq<char>, sep: char)
    requires
        free_of(s, sep),
    ensures
        split(s, sep) == seq![s],
    decreases s.len(),
{
    if s.len() > 0 {
        assert(free_of(s.drop_last(), sep)) by {
            assert forall|i: int| 0 <= i < s.drop_last().len() implies s.drop_last()[i] != sep by {
                assert(s.drop_last()[i] == s[i]);
            }
        }
        assert(s[s.len() - 1] != sep);
        lemma_split_free(s.drop_last(), sep);
        assert(s.drop_last().push(s.last()) =~= s);
        assert(split(s, sep) =~= seq![s]);
    } else {
        assert(s =~= Seq::<char>::empty());
    }
}

/// Splitting `a + [sep] + b` gives the pieces of `a`, then those of `b`,
/// where the last piece of `a` and the first of `b` stay apart.
pub proof fn lemma_split_concat(a: Seq<char>, b: Seq<char>, sep: char)
    ensures
        split(a.push(sep) + b, sep) == split(a, sep) + split(b, sep),
    decreases b.len(),
{
    lemma_split_len(a, sep);
    lemma_split_len(b, sep);
    if b.len() == 0 {
        assert(a.push(sep) + b =~= a.push(sep));
        assert(a.push(sep).drop_last() =~= a);
        assert(split(a, sep) + split(b, sep) =~= split(a, sep).push(Seq::empty()));
    } else {
        let s = a.push(sep) + b;
        assert(s.drop_last() =~= a.push(sep) + b.drop_last());
        lemma_split_concat(a, b.drop_last(), sep);
        lemma_split_len(b.drop_last(), sep);
        let ra = split(a, sep);
        let rb = split(b.drop_last(), sep);
        if b.last() == sep {
            assert(split(s, sep) =~= (ra + rb).push(Seq::empty()));
            assert(split(b, sep) =~= rb.push(Seq::empty()));
            assert((ra + rb).push(Seq::empty()) =~= ra + rb.push(Seq::empty()));
        } else {
            let rl = rb.last().push(b.last());
            assert(split(b, sep) =~= rb.update(rb.len() - 1, rl));
            assert((ra + rb).update((ra + rb).len() - 1, rl) =~= ra + rb.update(
                rb.len() - 1,
                rl,
            ));
        }
    }
}

/// Splitting the text of some lines, followed by one more piece, at
/// `'\n'` gives back the lines and the piece.
pub proof fn lemma_split_text_of_lines(ls: Seq<Seq<char>>, l: Seq<char>)
    requires
        forall|i: int| 0 <= i < ls.len() ==> free_of(#[trigger] ls[i], '\n'),
        free_of(l, '\n'),
    ensures
        split(text_of_lines(ls) + l, '\n') == ls.push(l),
    decreases ls.len(),
{
    if ls.len() == 0 {
        assert(text_of_lines(ls) + l =~= l);
        lemma_split_free(l, '\n');
        assert(ls.push(l) =~= seq![l]);
    } else {
        let prev = ls.drop_last();
        assert forall|i: int| 0 <= i < prev.len() implies free_of(#[trigger] prev[i], '\n') by {
            assert(prev[i] == ls[i]);
        }
        assert(free_of(ls.last(), '\n'));
        lemma_split_text_of_lines(prev, ls.last());
        assert(text_of_lines(ls) + l =~= (text_of_lines(prev) + ls.last()).push('\n') + l);
        lemma_split_concat(text_of_lines(prev) + ls.last(), l, '\n');
        lemma_split_free(l, '\n');
        assert(prev.push(ls.last()) =~= ls);
        assert(ls + seq![l] =~= ls.push(l));
    }
}

/// The lines of a text made of plain lines are those lines.
pub proof fn lemma_lines_of_text(ls: Seq<Seq<char>>)
    requires
        forall|i: int| 0 <= i < ls.len() ==> plain_line(#[trigger] ls[i]),
    ensures
        lines(text_of_lines(ls)) == ls,
{
    assert forall|i: int| 0 <= i < ls.len() implies free_of(#[trigger] ls[i], '\n') by {
        assert(plain_line(ls[i]));
    }
    assert(free_of(Seq::<char>::empty(), '\n'));
    lemma_split_text_of_lines(ls, Seq::empty());
    assert(text_of_lines(ls) + Seq::<char>::empty() =~= text_of_lines(ls));
    let p = split(text_of_lines(ls), '\n');
    assert(p.last() == Seq::<char>::empty());
    assert forall|k: int| 0 <= k < ls.len() implies strip_cr(p[k]) == ls[k] by {
        assert(p[k] == ls[k]);
        assert(plain_line(ls[k]));
    }
    assert(lines(text_of_lines(ls)) =~= ls);
}

proof fn lemma_trim_start_len(s: Seq<char>)
    ensures
        trim_start(s).len() <= s.len(),
        s.len() > 0 && is_ws(s[0]) ==> trim_start(s).len() < s.len(),
        trim_start(s) == s.skip(s.len() - trim_start(s).len()),
    decreases s.len(),
{
    if s.len() > 0 && is_ws(s[0]) {
        lemma_trim_start_len(s.drop_first());
        assert(s.drop_first().skip(s.drop_first().len() - trim_start(s).len()) =~= s.skip(
            s.len() - trim_start(s).len(),
        ));
    } else {
        assert(s.skip(0) =~= s);
    }
}

proof fn lemma_trim_end_len(s: Seq<char>)
    ensures
        trim_end(s).len() <= s.len(),
        s.len() > 0 && is_ws(s.last()) ==> trim_end(s).len() < s.len(),
    decreases s.len(),
{
    if s.len() > 0 && is_ws(s.last()) {
        lemma_trim_end_len(s.drop_last());
    }
}

/// A text that trimming leaves as it is neither starts nor ends with
/// whitespace.
pub proof fn lemma_trimmed_ends(s: Seq<char>)
    requires
        trim(s) == s,
    ensures
        s.len() > 0 ==> !is_ws(s[0]) && !is_ws(s.last()),
{
    lemma_trim_start_len(s);
    lemma_trim_end_len(trim_start(s));
    assert(trim_start(s).len() == s.len());
    assert(s.skip(0) =~= s);
    assert(trim_start(s) == s);
    lemma_trim_end_len(s);
}

/// The items a filter keeps are the items of the sequence that pass, in
/// their order: the result gives, for each kept item, its position in the
/// sequence; positions increase, and every passing position is one of them.
pub proof fn lemma_filter_positions<A>(s: Seq<A>, p: spec_fn(A) -> bool) -> (f: Seq<int>)
    ensures
        f.len() == s.filter(p).len(),
        forall|k: int| 0 <= k < f.len() ==> 0 <= #[trigger] f[k] < s.len() && s.filter(p)[k] == s[f[k]] && p(s[f[k]]),
        forall|k1: int, k2: int| 0 <= k1 < k2 < f.len() ==> f[k1] < f[k2],
        forall|t: int| 0 <= t < s.len() && p(#[trigger] s[t]) ==> exists|k: int| 0 <= k < f.len() && f[k] == t,
    decreases s.len(),
{
    reveal(Seq::filter);
    if s.len() == 0 {
        Seq::empty()
    } else {
        let d = s.drop_last();
        let g = lemma_filter_positions(d, p);
        assert(s.filter(p) == (if p(s.last()) { d.filter(p).push(s.last()) } else { d.filter(p) }));
        let f = if p(s.last()) { g.push(s.len() - 1) } else { g };
        assert forall|k: int| 0 <= k < f.len() implies 0 <= #[trigger] f[k] < s.len() && s.filter(p)[k] == s[f[k]]
            && p(s[f[k]]) by {
            if k < g.len() {
                assert(f[k] == g[k]);
                assert(d[g[k]] == s[g[k]]);
            }
        }
        assert forall|t: int| 0 <= t < s.len() && p(#[trigger] s[t]) implies exists|k: int| 0 <= k < f.len() && f[k] == t by {
            if t < s.len() - 1 {
                assert(d[t] == s[t]);
                let k = choose|k: int| 0 <= k < g.len() && g[k] == t;
                assert(f[k] == t);
            } else {
                assert(f[f.len() - 1] == t);
            }
        }
        f
    }
}

/// Dictionary order is irreflexive.
pub proof fn lemma_lex_irreflexive(a: Seq<char>)
    ensures
        !lex_lt(a, a),
    decreases a.len(),
{
    if a.len() > 0 {
        lemma_lex_irreflexive(a.drop_first());
    }
}

/// Dictionary order is asymmetric.
pub proof fn lemma_lex_asymmetric(a: Seq<char>, b: Seq<char>)
    ensures
        lex_lt(a, b) ==> !lex_lt(b, a),
    decreases a.len(),
{
    if a.len() > 0 && b.len() > 0 && a[0] == b[0] {
        lemma_lex_asymmetric(a.drop_first(), b.drop_first());
    }
}

/// Two different texts are ordered one way or the other.
pub proof fn lemma_lex_total(a: Seq<char>, b: Seq<char>)
    ensures
        a != b ==> lex_lt(a, b) || lex_lt(b, a),
    decreases a.len(),
{
    if a.len() > 0 && b.len() > 0 && a[0] == b[0] {
        lemma_lex_total(a.drop_first(), b.drop_first());
        if a.drop_first() == b.drop_first() {
            assert(a =~= seq![a[0]] + a.drop_first());
            assert(b =~= seq![b[0]] + b.drop_first());
        }
    } else if a.len() == 0 && b.len() == 0 {
        assert(a =~= b);
    }
}

/// Dictionary order is transitive.
pub proof fn lemma_lex_transitive(a: Seq<char>, b: Seq<char>, c: Seq<char>)
    ensures
        lex_lt(a, b) && lex_lt(b, c) ==> lex_lt(a, c),
    decreases a.len(),
{
    if a.len() > 0 && b.len() > 0 && c.len() > 0 && a[0] == b[0] && b[0] == c[0] {
        lemma_lex_transitive(a.drop_first(), b.drop_first(), c.drop_first());
    }
}

proof fn lemma_scan_push(d: Seq<char>, acc: int, max: int, c: char)
    requires
        scan_digits(d, acc, max) is Ok,
        is_digit(c),
        scan_digits(d, acc, max)->Ok_0 * 10 + digit_value(c) <= max,
    ensures
        scan_digits(d.push(c), acc, max) == Ok::<int, IntErrorKind>(
            scan_digits(d, acc, max)->Ok_0 * 10 + digit_value(c),
        ),
    decreases d.len(),
{
    let dc = d.push(c);
    if d.len() > 0 {
        assert(dc.drop_first() =~= d.drop_first().push(c));
        assert(dc[0] == d[0]);
        let next = acc * 10 + digit_value(d[0]);
        assert(scan_digits(d, acc, max) == scan_digits(d.drop_first(), next, max));
        lemma_scan_push(d.drop_first(), next, max, c);
        assert(scan_digits(dc, acc, max) == scan_digits(dc.drop_first(), next, max));
    } else {
        assert(dc.drop_first() =~= Seq::<char>::empty());
        assert(dc[0] == c);
        assert(scan_digits(d, acc, max) == Ok::<int, IntErrorKind>(acc));
        let next = acc * 10 + digit_value(c);
        assert(scan_digits(dc.drop_first(), next, max) == Ok::<int, IntErrorKind>(next));
        assert(scan_digits(dc, acc, max) == scan_digits(dc.drop_first(), next, max));
    }
}

pub proof fn lemma_digit_char(d: int)
    requires
        0 <= d < 10,
    ensures
        is_digit(digit_char(d)),
        digit_value(digit_char(d)) == d,
{
}

/// The decimal text of a number starts with a digit and holds only digits.
pub proof fn lemma_decimal_digits(n: nat)
    ensures
        decimal(n).len() >= 1,
        forall|i: int| 0 <= i < decimal(n).len() ==> is_digit(#[trigger] decimal(n)[i]),
    decreases n,
{
    lemma_digit_char((n % 10) as int);
    if n >= 10 {
        lemma_decimal_digits(n / 10);
    }
}

/// Reading back the decimal text of `n` gives `n`, for any `n` within the
/// type's bound.
pub proof fn lemma_parse_decimal(n: nat, max: int)
    requires
        n <= max,
    ensures
        parse_unsigned(decimal(n), max) == Ok::<int, IntErrorKind>(n as int),
        scan_digits(decimal(n), 0, max) == Ok::<int, IntErrorKind>(n as int),
    decreases n,
{
    lemma_digit_char((n % 10) as int);
    lemma_decimal_digits(n);
    let s = decimal(n);
    if n < 10 {
        assert(s == seq![digit_char(n as int)]);
        assert(s.drop_first() =~= Seq::<char>::empty());
        assert(scan_digits(s.drop_first(), n as int, max) == Ok::<int, IntErrorKind>(n as int));
        assert(scan_digits(s, 0, max) == Ok::<int, IntErrorKind>(n as int));
    } else {
        lemma_parse_decimal(n / 10, max);
        assert((n / 10) * 10 + n % 10 == n);
        lemma_scan_push(decimal(n / 10), 0, max, digit_char((n % 10) as int));
        lemma_decimal_digits(n / 10);
        assert(s.len() >= 2);
    }
    assert(is_digit(s[0]));
    assert(s[0] != '+' && s[0] != '-');
}

// ---------------------------------------------------------------------------
// Executable text operations
// ---------------------------------------------------------------------------

/// The characters of `s`, in order.
pub fn chars_of(s: &str) -> (res: Vec<char>)
    ensures
        res@ == s@,
{
    let mut res: Vec<char> = Vec::new();
    for c in it: s.chars()
        invariant
            it.seq() == s@,
            res@ == it.seq().take(it.index() as int),
    {
        res.push(c);
    }
    res
}

/// Appends `c` to `s` by std's `String::push`, which vstd gives no
/// specification. Trusted: the contract claims what std documents, that the
/// text afterwards is the text before with `c` added at its end.
#[verifier::external_body]
fn push_char(s: &mut String, c: char)
    ensures
        final(s)@ == old(s)@.push(c),
{
    s.push(c);
}

/// The text made of the characters `v`.
pub fn string_of(v: &Vec<char>) -> (res: String)
    ensures
        res@ == v@,
{
    let mut res = String::new();
    for i in 0..v.len()
        invariant
            res@ == v@.take(i as int),
    {
        push_char(&mut res, v[i]);
        assert(v@.take(i + 1) =~= v@.take(i as int).push(v@[i as int]));
    }
    assert(v@.take(v.len() as int) =~= v@);
    res
}

/// Appends the characters of `s` to `out`.
pub fn push_str(out: &mut Vec<char>, s: &str)
    ensures
        final(out)@ == old(out)@ + s@,
{
    let c = chars_of(s);
    extend(out, &c);
}

/// Appends `v` to `out`.
pub fn extend(out: &mut Vec<char>, v: &Vec<char>)
    ensures
        final(out)@ == old(out)@ + v@,
{
    let ghost start = out@;
    for i in 0..v.len()
        invariant
            out@ == start + v@.take(i as int),
    {
        out.push(v[i]);
        assert(v@.take(i + 1) =~= v@.take(i as int).push(v@[i as int]));
    }
    assert(v@.take(v.len() as int) =~= v@);
}

/// The characters of `s` from `a` to `b`.
pub fn slice(s: &Vec<char>, a: usize, b: usize) -> (res: Vec<char>)
    requires
        a <= b <= s.len(),
    ensures
        res@ == s@.subrange(a as int, b as int),
{
    let mut res: Vec<char> = Vec::new();
    let mut i = a;
    while i < b
        invariant
            a <= i <= b <= s.len(),
            res@ == s@.subrange(a as int, i as int),
        decreases b - i,
    {
        res.push(s[i]);
        assert(s@.subrange(a as int, i + 1) =~= s@.subrange(a as int, i as int).push(s@[i as int]));
        i += 1;
    }
    res
}

/// Whether `a` and `b` hold the same characters.
pub fn same_chars(a: &Vec<char>, b: &Vec<char>) -> (res: bool)
    ensures
        res == (a@ == b@),
{
    if a.len() != b.len() {
        return false;
    }
    let mut i: usize = 0;
    while i < a.len()
        invariant
            a.len() == b.len(),
            0 <= i <= a.len(),
            forall|k: int| 0 <= k < i ==> a@[k] == b@[k],
        decreases a.len() - i,
    {
        if a[i] != b[i] {
            return false;
        }
        i += 1;
    }
    assert(a@ =~= b@);
    true
}

/// The strings made of each piece.
pub fn strings_of(pieces: &Vec<Vec<char>>) -> (res: Vec<String>)
    ensures
        strings_view(res@) == views(pieces@),
{
    let mut res: Vec<String> = Vec::new();
    for i in 0..pieces.len()
        invariant
            strings_view(res@) == views(pieces@).take(i as int),
    {
        let s = string_of(&pieces[i]);
        let ghost before = strings_view(res@);
        res.push(s);
        assert(strings_view(res@) =~= before.push(s@));
        assert(views(pieces@).take(i + 1) =~= views(pieces@).take(i as int).push(pieces@[i as int]@));
    }
    assert(views(pieces@).take(pieces.len() as int) =~= views(pieces@));
    res
}

/// The pieces joined with `sep` between them.
pub fn join_strings(pieces: &Vec<String>, sep: char) -> (res: Vec<char>)
    ensures
        res@ == join(strings_view(pieces@), seq![sep]),
{
    let ghost v = strings_view(pieces@);
    let mut out: Vec<char> = Vec::new();
    assert(v.take(0) =~= Seq::<Seq<char>>::empty());
    for k in 0..pieces.len()
        invariant
            v == strings_view(pieces@),
            out@ == join(v.take(k as int), seq![sep]),
    {
        let ghost before = out@;
        assert(v.take(k + 1).drop_last() =~= v.take(k as int));
        assert(v.take(k + 1).last() == pieces@[k as int]@);
        if k > 0 {
            out.push(sep);
        }
        push_str(&mut out, pieces[k].as_str());
        if k == 0 {
            assert(v.take(1) =~= seq![pieces@[0]@]);
            assert(out@ =~= pieces@[0]@);
        } else {
            assert(out@ =~= before + seq![sep] + pieces@[k as int]@);
        }
    }
    assert(v.take(pieces.len() as int) =~= v);
    out
}

/// Whether `a` comes strictly before `b` in dictionary order.
pub fn lex_less(a: &Vec<char>, b: &Vec<char>) -> (res: bool)
    ensures
        res == lex_lt(a@, b@),
{
    let mut i: usize = 0;
    assert(a@.skip(0) =~= a@);
    assert(b@.skip(0) =~= b@);
    while i < a.len() && i < b.len() && a[i] == b[i]
        invariant
            0 <= i <= a.len(),
            i <= b.len(),
            lex_lt(a@, b@) == lex_lt(a@.skip(i as int), b@.skip(i as int)),
        decreases a.len() - i,
    {
        assert(a@.skip(i as int).drop_first() =~= a@.skip(i + 1));
        assert(b@.skip(i as int).drop_first() =~= b@.skip(i + 1));
        assert(a@.skip(i as int)[0] == a@[i as int]);
        assert(b@.skip(i as int)[0] == b@[i as int]);
        i += 1;
    }
    if i < a.len() && i < b.len() {
        assert(a@.skip(i as int)[0] == a@[i as int]);
        assert(b@.skip(i as int)[0] == b@[i as int]);
        a[i] < b[i]
    } else {
        i == a.len() && i < b.len()
    }
}

/// Whether `pat` occurs in `s`.
pub fn contains_chars(s: &Vec<char>, pat: &Vec<char>) -> (res: bool)
    ensures
        res == contains_text(s@, pat@),
{
    if pat.len() > s.len() {
        return false;
    }
    let mut i: usize = 0;
    while i <= s.len() - pat.len()
        invariant
            pat.len() <= s.len(),
            0 <= i <= s.len() - pat.len() + 1,
            forall|j: int| 0 <= j < i ==> #[trigger] s@.subrange(j, j + pat@.len()) != pat@,
        decreases s.len() - pat.len() + 1 - i,
    {
        if occurs_at(s, i, pat) {
            assert(s@.subrange(i as int, i + pat@.len()) =~= pat@);
            return true;
        }
        proof {
            if s@.subrange(i as int, i + pat@.len()) == pat@ {
                assert forall|k: int| 0 <= k < pat@.len() implies s@[i + k] == pat@[k] by {
                    assert(s@.subrange(i as int, i + pat@.len())[k] == s@[i + k]);
                }
            }
        }
        i += 1;
    }
    false
}

fn occurs_at(s: &Vec<char>, i: usize, pat: &Vec<char>) -> (res: bool)
    requires
        i + pat.len() <= s.len(),
    ensures
        res == (forall|k: int| 0 <= k < pat@.len() ==> s@[i + k] == pat@[k]),
{
    let mut k: usize = 0;
    while k < pat.len()
        invariant
            i + pat.len() <= s.len(),
            0 <= k <= pat.len(),
            forall|j: int| 0 <= j < k ==> s@[i + j] == pat@[j],
        decreases pat.len() - k,
    {
        if s[i + k] != pat[k] {
            return false;
        }
        k += 1;
    }
    true
}

/// Whether `c` is whitespace (`char::is_whitespace`).
pub fn is_whitespace(c: char) -> (res: bool)
    ensures
        res == is_ws(c),
{
    ('\u{9}' <= c && c <= '\u{d}') || c == ' ' || c == '\u{85}' || c == '\u{a0}' || c
        == '\u{1680}' || ('\u{2000}' <= c && c <= '\u{200a}') || c == '\u{2028}' || c
        == '\u{2029}' || c == '\u{202f}' || c == '\u{205f}' || c == '\u{3000}'
}

/// `s` without leading and trailing whitespace.
pub fn trim_chars(s: &Vec<char>) -> (res: Vec<char>)
    ensures
        res@ == trim(s@),
{
    let mut i: usize = 0;
    assert(s@.subrange(0, s.len() as int) =~= s@);
    while i < s.len() && is_whitespace(s[i])
        invariant
            0 <= i <= s.len(),
            trim_start(s@) == trim_start(s@.subrange(i as int, s.len() as int)),
        decreases s.len() - i,
    {
        assert(s@.subrange(i as int, s.len() as int).drop_first() =~= s@.subrange(
            i + 1,
            s.len() as int,
        ));
        i += 1;
    }
    let mut j = s.len();
    while j > i && is_whitespace(s[j - 1])
        invariant
            i <= j <= s.len(),
            trim_start(s@) == s@.subrange(i as int, s.len() as int),
            trim(s@) == trim_end(s@.subrange(i as int, j as int)),
        decreases j,
    {
        assert(s@.subrange(i as int, j as int).drop_last() =~= s@.subrange(
            i as int,
            j - 1,
        ));
        j -= 1;
    }
    slice(s, i, j)
}

/// The pieces of `s` between occurrences of `sep`.
pub fn split_chars(s: &Vec<char>, sep: char) -> (res: Vec<Vec<char>>)
    ensures
        views(res@) == split(s@, sep),
{
    let mut done: Vec<Vec<char>> = Vec::new();
    let mut cur: Vec<char> = Vec::new();
    let mut i: usize = 0;
    assert(s@.take(0) =~= Seq::<char>::empty());
    assert(views(done@).push(cur@) =~= split(s@.take(0), sep));
    while i < s.len()
        invariant
            0 <= i <= s.len(),
            views(done@).push(cur@) == split(s@.take(i as int), sep),
        decreases s.len() - i,
    {
        let ghost prev = s@.take(i as int);
        assert(s@.take(i + 1).drop_last() =~= prev);
        assert(s@.take(i + 1).last() == s@[i as int]);
        proof {
            lemma_split_len(prev, sep);
        }
        let ghost old_done = views(done@);
        let ghost old_cur = cur@;
        if s[i] == sep {
            done.push(cur);
            cur = Vec::new();
            assert(views(done@) =~= old_done.push(old_cur));
            assert(views(done@).push(cur@) =~= split(s@.take(i + 1), sep));
        } else {
            cur.push(s[i]);
            assert(views(done@).push(cur@) =~= split(s@.take(i + 1), sep));
        }
        i += 1;
    }
    assert(s@.take(s.len() as int) =~= s@);
    let ghost old_done = views(done@);
    let ghost old_cur = cur@;
    done.push(cur);
    assert(views(done@) =~= old_done.push(old_cur));
    done
}

/// The lines of `s`.
pub fn lines_chars(s: &Vec<char>) -> (res: Vec<Vec<char>>)
    ensures
        views(res@) == lines(s@),
{
    let pieces = split_chars(s, '\n');
    proof {
        lemma_split_len(s@, '\n');
    }
    let n = pieces.len();
    let mut res: Vec<Vec<char>> = Vec::new();
    let ghost p = split(s@, '\n');
    let ghost ended = Seq::new((p.len() - 1) as nat, |k: int| strip_cr(p[k]));
    let mut k: usize = 0;
    while k + 1 < n
        invariant
            views(pieces@) == p,
            p == split(s@, '\n'),
            ended == Seq::new((p.len() - 1) as nat, |k: int| strip_cr(p[k])),
            n == p.len(),
            n >= 1,
            0 <= k < n,
            views(res@) == ended.take(k as int),
        decreases n - k,
    {
        let piece = &pieces[k];
        assert(piece@ == p[k as int]);
        let line = if piece.len() > 0 && piece[piece.len() - 1] == '\r' {
            slice(piece, 0, piece.len() - 1)
        } else {
            slice(piece, 0, piece.len())
        };
        assert(line@ =~= strip_cr(p[k as int]));
        assert(ended[k as int] == strip_cr(p[k as int]));
        let ghost old_res = views(res@);
        res.push(line);
        assert(views(res@) =~= old_res.push(line@));
        assert(views(res@) =~= ended.take(k + 1));
        k += 1;
    }
    assert(ended.take(k as int) =~= ended);
    let last = &pieces[n - 1];
    assert(last@ == p.last());
    if last.len() > 0 {
        let l = slice(last, 0, last.len());
        assert(l@ =~= p.last());
        let ghost old_res = views(res@);
        res.push(l);
        assert(views(res@) =~= old_res.push(l@));
        assert(views(res@) =~= ended.push(p.last()));
    }
    res
}

/// `s` with every occurrence of `pat` removed.
pub fn remove_all_chars(s: &Vec<char>, pat: &Vec<char>) -> (res: Vec<char>)
    ensures
        res@ == remove_all(s@, pat@),
{
    if pat.len() == 0 {
        return slice(s, 0, s.len());
    }
    let mut out: Vec<char> = Vec::new();
    let mut i: usize = 0;
    assert(s@.skip(0) =~= s@);
    while i < s.len()
        invariant
            pat@.len() > 0,
            0 <= i <= s.len(),
            remove_all(s@, pat@) == out@ + remove_all(s@.skip(i as int), pat@),
        decreases s.len() - i,
    {
        let ghost rest = s@.skip(i as int);
        if pat.len() <= s.len() - i && starts_at(s, i, pat) {
            assert(rest.take(pat@.len() as int) =~= pat@);
            assert(rest.skip(pat@.len() as int) =~= s@.skip(i + pat@.len()));
            i += pat.len();
        } else {
            proof {
                if pat@.len() <= rest.len() && rest.take(pat@.len() as int) == pat@ {
                    assert forall|k: int| 0 <= k < pat@.len() implies s@[i + k] == pat@[k] by {
                        assert(rest.take(pat@.len() as int)[k] == s@[i + k]);
                    }
                }
            }
            assert(rest.drop_first() =~= s@.skip(i + 1));
            out.push(s[i]);
            i += 1;
        }
    }
    assert(s@.skip(s.len() as int) =~= Seq::<char>::empty());
    assert(out@ + Seq::<char>::empty() =~= out@);
    out
}

/// Whether `pat` occurs in `s` at index `i`.
fn starts_at(s: &Vec<char>, i: usize, pat: &Vec<char>) -> (res: bool)
    requires
        i + pat.len() <= s.len(),
    ensures
        res == (forall|k: int| 0 <= k < pat@.len() ==> s@[i + k] == pat@[k]),
{
    let mut k: usize = 0;
    while k < pat.len()
        invariant
            i + pat.len() <= s.len(),
            0 <= k <= pat.len(),
            forall|j: int| 0 <= j < k ==> s@[i + j] == pat@[j],
        decreases pat.len() - k,
    {
        if s[i + k] != pat[k] {
            return false;
        }
        k += 1;
    }
    true
}

/// The digit character for `d`.
pub fn digit(d: u64) -> (c: char)
    requires
        d < 10,
    ensures
        c == digit_char(d as int),
{
    if d == 0 { '0' }
    else if d == 1 { '1' }
    else if d == 2 { '2' }
    else if d == 3 { '3' }
    else if d == 4 { '4' }
    else if d == 5 { '5' }
    else if d == 6 { '6' }
    else if d == 7 { '7' }
    else if d == 8 { '8' }
    else { '9' }
}

/// Appends the decimal text of `n` to `out`.
pub fn push_decimal(out: &mut Vec<char>, n: u64)
    ensures
        final(out)@ == old(out)@ + decimal(n as nat),
    decreases n,
{
    if n >= 10 {
        push_decimal(out, n / 10);
    }
    out.push(digit(n % 10));
    proof {
        if n < 10 {
            assert(n % 10 == n);
        }
    }
}

/// Reads an unsigned integer no larger than `max` from `s`.
pub fn parse_unsigned_chars(s: &Vec<char>, max: u64) -> (res: Result<u64, IntErrorKind>)
    ensures
        match res {
            Ok(v) => parse_unsigned(s@, max as int) == Ok::<int, IntErrorKind>(v as int),
            Err(k) => parse_unsigned(s@, max as int) == Err::<int, IntErrorKind>(k),
        },
{
    if s.len() == 0 {
        return Err(IntErrorKind::Empty);
    }
    if s.len() == 1 && (s[0] == '+' || s[0] == '-') {
        return Err(IntErrorKind::InvalidDigit);
    }
    let start: usize = if s[0] == '+' { 1 } else { 0 };
    assert(start == 1 ==> s@.skip(1) =~= s@.drop_first());
    assert(start == 0 ==> s@.skip(0) =~= s@);
    let mut acc: u64 = 0;
    let mut i = start;
    while i < s.len()
        invariant
            start <= i <= s.len(),
            acc <= max,
            parse_unsigned(s@, max as int) == scan_digits(s@.skip(i as int), acc as int, max as int),
        decreases s.len() - i,
    {
        let c = s[i];
        let ghost rest = s@.skip(i as int);
        assert(rest[0] == c);
        assert(rest.drop_first() =~= s@.skip(i + 1));
        if !('0' <= c && c <= '9') {
            return Err(IntErrorKind::InvalidDigit);
        }
        let v = digit_of(c);
        if v > max {
            return Err(IntErrorKind::PosOverflow);
        }
        if acc > (max - v) / 10 {
            assert(acc * 10 + v > max) by (nonlinear_arith)
                requires
                    acc > (max - v) / 10,
                    v <= max,
            ;
            return Err(IntErrorKind::PosOverflow);
        }
        assert(acc * 10 + v <= max) by (nonlinear_arith)
            requires
                acc <= (max - v) / 10,
                v <= max,
        ;
        acc = acc * 10 + v;
        i += 1;
    }
    assert(s@.skip(i as int) =~= Seq::<char>::empty());
    Ok(acc)
}

/// Reads an `i64` from `s`.
pub fn parse_i64_chars(s: &Vec<char>) -> (res: Result<i64, IntErrorKind>)
    ensures
        match res {
            Ok(v) => parse_signed(s@, i64::MIN as int, i64::MAX as int) == Ok::<int, IntErrorKind>(v as int),
            Err(k) => parse_signed(s@, i64::MIN as int, i64::MAX as int) == Err::<int, IntErrorKind>(k),
        },
{
    if s.len() == 0 {
        return Err(IntErrorKind::Empty);
    }
    if s.len() == 1 && (s[0] == '+' || s[0] == '-') {
        return Err(IntErrorKind::InvalidDigit);
    }
    let negative = s[0] == '-';
    let start: usize = if s[0] == '-' || s[0] == '+' { 1 } else { 0 };
    assert(start == 1 ==> s@.skip(1) =~= s@.drop_first());
    assert(start == 0 ==> s@.skip(0) =~= s@);
    let mut acc: i128 = 0;
    let mut i = start;
    while i < s.len()
        invariant
            start <= i <= s.len(),
            negative == (s@[0] == '-'),
            negative ==> i64::MIN <= acc <= 0,
            !negative ==> 0 <= acc <= i64::MAX,
            negative ==> parse_signed(s@, i64::MIN as int, i64::MAX as int) == scan_negative(
                s@.skip(i as int),
                acc as int,
                i64::MIN as int,
            ),
            !negative ==> parse_signed(s@, i64::MIN as int, i64::MAX as int) == scan_digits(
                s@.skip(i as int),
                acc as int,
                i64::MAX as int,
            ),
        decreases s.len() - i,
    {
        let c = s[i];
        let ghost rest = s@.skip(i as int);
        assert(rest[0] == c);
        assert(rest.drop_first() =~= s@.skip(i + 1));
        if !('0' <= c && c <= '9') {
            return Err(IntErrorKind::InvalidDigit);
        }
        let v = digit_of(c) as i128;
        let next = acc * 10 + if negative { -v } else { v };
        if negative && next < i64::MIN as i128 {
            return Err(IntErrorKind::NegOverflow);
        }
        if !negative && next > i64::MAX as i128 {
            return Err(IntErrorKind::PosOverflow);
        }
        acc = next;
        i += 1;
    }
    assert(s@.skip(i as int) =~= Seq::<char>::empty());
    Ok(acc as i64)
}

fn digit_of(c: char) -> (v: u64)
    requires
        is_digit(c),
    ensures
        v == digit_value(c),
        v < 10,
{
    if c == '0' { 0 }
    else if c == '1' { 1 }
    else if c == '2' { 2 }
    else if c == '3' { 3 }
    else if c == '4' { 4 }
    else if c == '5' { 5 }
    else if c == '6' { 6 }
    else if c == '7' { 7 }
    else if c == '8' { 8 }
    else { 9 }
}

} // verus!
