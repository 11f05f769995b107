//! The text files the backend keeps: the stock (`name,quantity`), the
//! groups (`name,value;value;...`), the products (`name,price[,group]`) and
//! the cache of saved comands. Writing and reading them back.
use vstd::prelude::*;
use crate::errors::InError;
use crate::groups::{find_group, find_group_index, lemma_find_group};
use crate::stock_state::{entries_view, Entry};
use crate::text::{
    chars_of, decimal, extend, free_of, int_error_message, join, join_strings, lemma_lines_of_text,
    lemma_parse_decimal, lemma_split_concat, lemma_split_free, lines,
    lines_chars, parse_unsigned, parse_unsigned_chars, plain_line, push_decimal, push_str, split,
    split_chars, string_of, strings_of, strings_view, text_of_lines, trim, trim_chars, views,
    IntErrorKind,
};

verus! {

// ---------------------------------------------------------------------------
// Stock file
// ---------------------------------------------------------------------------

/// The line a stock entry is saved as: `name,quantity`.
pub open spec fn stock_line(name: Seq<char>, q: u64) -> Seq<char> {
    name + seq![','] + decimal(q as nat)
}

/// The stock file: one line per entry, in order.
pub open spec fn stock_text(ps: Seq<(Seq<char>, u64)>) -> Seq<char> {
    text_of_lines(Seq::new(ps.len(), |i: int| stock_line(ps[i].0, ps[i].1)))
}

/// What reading the stock file keeps: each line of exactly two
/// comma-separated fields, its second field read as a `u64`; the first line
/// whose quantity is not a `u64` makes the whole read fail.
pub open spec fn stock_of_lines(ls: Seq<Seq<char>>) -> Result<Seq<(Seq<char>, u64)>, IntErrorKind>
    decreases ls.len(),
{
    if ls.len() == 0 {
        Ok(Seq::empty())
    } else {
        match stock_of_lines(ls.drop_last()) {
            Err(k) => Err(k),
            Ok(ps) => {
                let f = split(ls.last(), ',');
                if f.len() == 2 {
                    match parse_unsigned(f[1], u64::MAX as int) {
                        Ok(q) => Ok(ps.push((f[0], q as u64))),
                        Err(k) => Err(k),
                    }
                } else {
                    Ok(ps)
                }
            },
        }
    }
}

/// The stock file's text for these entries.
pub fn stock_to_csv(stock: &Vec<Entry>) -> (res: String)
    ensures
        res@ == stock_text(entries_view(stock@)),
{
    let ghost ps = entries_view(stock@);
    let ghost ls = Seq::new(ps.len(), |i: int| stock_line(ps[i].0, ps[i].1));
    let mut out: Vec<char> = Vec::new();
    assert(ls.take(0) =~= Seq::<Seq<char>>::empty());
    for k in 0..stock.len()
        invariant
            ps == entries_view(stock@),
            ls == Seq::new(ps.len(), |i: int| stock_line(ps[i].0, ps[i].1)),
            out@ == text_of_lines(ls.take(k as int)),
    {
        let ghost before = out@;
        assert(ls.take(k + 1).drop_last() =~= ls.take(k as int));
        assert(ls.take(k + 1).last() == stock_line(stock@[k as int].0@, stock@[k as int].1));
        push_str(&mut out, stock[k].0.as_str());
        out.push(',');
        push_decimal(&mut out, stock[k].1);
        out.push('\n');
        assert(out@ =~= before + stock_line(stock@[k as int].0@, stock@[k as int].1).push('\n'));
    }
    assert(ls.take(stock.len() as int) =~= ls);
    string_of(&out)
}

/// Reads the stock file: the entries in file order (a later entry of the
/// same name overrides an earlier one when they are put in a map), or the
/// error of the first quantity that is not a `u64`.
pub fn stock_from_csv(buffer: &str) -> (res: Result<Vec<Entry>, InError>)
    ensures
        match stock_of_lines(lines(buffer@)) {
            Ok(ps) => res matches Ok(v) && entries_view(v@) == ps,
            Err(k) => res matches Err(e) && e.a@ == int_error_message(k),
        },
{
    let c = chars_of(buffer);
    let ls = lines_chars(&c);
    let ghost lv = lines(buffer@);
    let mut out: Vec<Entry> = Vec::new();
    assert(lv.take(0) =~= Seq::<Seq<char>>::empty());
    assert(entries_view(out@) =~= Seq::<(Seq<char>, u64)>::empty());
    for k in 0..ls.len()
        invariant
            views(ls@) == lv,
            lv == lines(buffer@),
            stock_of_lines(lv.take(k as int)) == Ok::<Seq<(Seq<char>, u64)>, IntErrorKind>(
                entries_view(out@),
            ),
    {
        let ghost before = entries_view(out@);
        assert(lv.take(k + 1).drop_last() =~= lv.take(k as int));
        assert(lv.take(k + 1).last() == ls@[k as int]@);
        let f = split_chars(&ls[k], ',');
        if f.len() == 2 {
            match parse_unsigned_chars(&f[1], u64::MAX) {
                Ok(q) => {
                    let name = string_of(&f[0]);
                    out.push((name, q));
                    assert(entries_view(out@) =~= before.push((f@[0]@, q)));
                },
                Err(kind) => {
                    proof {
                        lemma_stock_error_stays(lv, k as int + 1);
                    }
                    return Err(InError::from_int_error(kind));
                },
            }
        }
    }
    assert(lv.take(ls.len() as int) =~= lv);
    Ok(out)
}

/// Once a prefix of the lines fails, the whole read fails the same way.
proof fn lemma_stock_error_stays(ls: Seq<Seq<char>>, k: int)
    requires
        0 <= k <= ls.len(),
        stock_of_lines(ls.take(k)) is Err,
    ensures
        stock_of_lines(ls) == stock_of_lines(ls.take(k)),
    decreases ls.len() - k,
{
    if k < ls.len() {
        assert(ls.take(k + 1).drop_last() =~= ls.take(k));
        lemma_stock_error_stays(ls, k + 1);
    } else {
        assert(ls.take(k) =~= ls);
    }
}

/// A name the stock file can hold and give back: no comma and no line break.
pub open spec fn storable_name(n: Seq<char>) -> bool {
    free_of(n, ',') && free_of(n, '\n')
}

/// Reading back the stock file written for some entries gives those
/// entries, when no name holds a comma or a line break.
pub proof fn law_stock_round_trip(ps: Seq<(Seq<char>, u64)>)
    requires
        forall|i: int| 0 <= i < ps.len() ==> storable_name(#[trigger] ps[i].0),
    ensures
        stock_of_lines(lines(stock_text(ps))) == Ok::<Seq<(Seq<char>, u64)>, IntErrorKind>(ps),
{
    let ls = Seq::new(ps.len(), |i: int| stock_line(ps[i].0, ps[i].1));
    assert forall|i: int| 0 <= i < ls.len() implies plain_line(#[trigger] ls[i]) by {
        lemma_stock_line(ps[i].0, ps[i].1);
    }
    lemma_lines_of_text(ls);
    lemma_stock_lines_read(ps);
}

proof fn lemma_stock_line(name: Seq<char>, q: u64)
    requires
        storable_name(name),
    ensures
        plain_line(stock_line(name, q)),
        split(stock_line(name, q), ',') == seq![name, decimal(q as nat)],
{
    crate::text::lemma_decimal_digits(q as nat);
    let l = stock_line(name, q);
    let d = decimal(q as nat);
    assert(free_of(d, ',') && free_of(d, '\n')) by {
        assert forall|i: int| 0 <= i < d.len() implies d[i] != ',' && d[i] != '\n' by {
            assert(crate::text::is_digit(d[i]));
        }
    }
    assert forall|i: int| 0 <= i < l.len() implies l[i] != '\n' by {
        if i < name.len() {
            assert(l[i] == name[i]);
        } else if i > name.len() {
            assert(l[i] == d[i - name.len() - 1]);
        }
    }
    assert(l.last() == d.last());
    assert(crate::text::is_digit(d[d.len() - 1]));
    assert(l =~= name.push(',') + d);
    lemma_split_concat(name, d, ',');
    lemma_split_free(name, ',');
    lemma_split_free(d, ',');
    assert(seq![name] + seq![d] =~= seq![name, d]);
}

proof fn lemma_stock_lines_read(ps: Seq<(Seq<char>, u64)>)
    requires
        forall|i: int| 0 <= i < ps.len() ==> storable_name(#[trigger] ps[i].0),
    ensures
        stock_of_lines(Seq::new(ps.len(), |i: int| stock_line(ps[i].0, ps[i].1)))
            == Ok::<Seq<(Seq<char>, u64)>, IntErrorKind>(ps),
    decreases ps.len(),
{
    let ls = Seq::new(ps.len(), |i: int| stock_line(ps[i].0, ps[i].1));
    if ps.len() > 0 {
        let prev = ps.drop_last();
        assert forall|i: int| 0 <= i < prev.len() implies storable_name(#[trigger] prev[i].0) by {
            assert(prev[i] == ps[i]);
        }
        lemma_stock_lines_read(prev);
        assert(ls.drop_last() =~= Seq::new(prev.len(), |i: int| stock_line(prev[i].0, prev[i].1)));
        let last = ps.last();
        assert(storable_name(ps[ps.len() - 1].0));
        lemma_stock_line(last.0, last.1);
        lemma_parse_decimal(last.1 as nat, u64::MAX as int);
        assert(prev.push(last) =~= ps);
    } else {
        assert(ps =~= Seq::<(Seq<char>, u64)>::empty());
    }
}

// ---------------------------------------------------------------------------
// Groups file
// ---------------------------------------------------------------------------

/// A group with its values, as text.
pub open spec fn groups_view(v: Seq<(String, Vec<String>)>) -> Seq<(Seq<char>, Seq<Seq<char>>)> {
    Seq::new(v.len(), |i: int| (v[i].0@, strings_view(v[i].1@)))
}

/// The line a group is saved as: `name,value;value;...`.
pub open spec fn group_line(name: Seq<char>, values: Seq<Seq<char>>) -> Seq<char> {
    name + seq![','] + join(values, seq![';'])
}

/// The groups file: one line per group, in order.
pub open spec fn groups_text(gs: Seq<(Seq<char>, Seq<Seq<char>>)>) -> Seq<char> {
    text_of_lines(Seq::new(gs.len(), |i: int| group_line(gs[i].0, gs[i].1)))
}

/// The groups with group `k` holding `vs`: a group of that name gets the
/// new values in its place, else the group is added at the end.
pub open spec fn put_group(gs: Seq<(Seq<char>, Seq<Seq<char>>)>, k: Seq<char>, vs: Seq<Seq<char>>) -> Seq<(Seq<char>, Seq<Seq<char>>)> {
    match find_group(gs, k) {
        Some(i) => gs.update(i, (k, vs)),
        None => gs.push((k, vs)),
    }
}

/// What reading the groups file keeps: each line with a comma, its first
/// field as the name and its second field cut at each `;` as the values; a
/// later line of a name replaces the values of an earlier one.
pub open spec fn groups_of_lines(ls: Seq<Seq<char>>) -> Seq<(Seq<char>, Seq<Seq<char>>)>
    decreases ls.len(),
{
    if ls.len() == 0 {
        Seq::empty()
    } else {
        let gs = groups_of_lines(ls.drop_last());
        let f = split(ls.last(), ',');
        if f.len() >= 2 {
            put_group(gs, f[0], split(f[1], ';'))
        } else {
            gs
        }
    }
}

/// The groups file's text for these groups.
pub fn groups_to_csv(groups: &Vec<(String, Vec<String>)>) -> (res: String)
    ensures
        res@ == groups_text(groups_view(groups@)),
{
    let ghost gs = groups_view(groups@);
    let ghost ls = Seq::new(gs.len(), |i: int| group_line(gs[i].0, gs[i].1));
    let mut out: Vec<char> = Vec::new();
    assert(ls.take(0) =~= Seq::<Seq<char>>::empty());
    for k in 0..groups.len()
        invariant
            gs == groups_view(groups@),
            ls == Seq::new(gs.len(), |i: int| group_line(gs[i].0, gs[i].1)),
            out@ == text_of_lines(ls.take(k as int)),
    {
        let ghost before = out@;
        assert(ls.take(k + 1).drop_last() =~= ls.take(k as int));
        assert(ls.take(k + 1).last() == group_line(gs[k as int].0, gs[k as int].1));
        push_str(&mut out, groups[k].0.as_str());
        out.push(',');
        let joined = join_strings(&groups[k].1, ';');
        extend(&mut out, &joined);
        out.push('\n');
        assert(out@ =~= before + group_line(gs[k as int].0, gs[k as int].1).push('\n'));
    }
    assert(ls.take(groups.len() as int) =~= ls);
    string_of(&out)
}

/// Reads the groups file: the groups in the order their names first come,
/// each with the values of its last line.
pub fn groups_from_csv(buffer: &str) -> (res: Vec<(String, Vec<String>)>)
    ensures
        groups_view(res@) == groups_of_lines(lines(buffer@)),
{
    let c = chars_of(buffer);
    let ls = lines_chars(&c);
    let ghost lv = lines(buffer@);
    let mut out: Vec<(String, Vec<String>)> = Vec::new();
    assert(lv.take(0) =~= Seq::<Seq<char>>::empty());
    assert(groups_view(out@) =~= Seq::<(Seq<char>, Seq<Seq<char>>)>::empty());
    for k in 0..ls.len()
        invariant
            views(ls@) == lv,
            groups_view(out@) == groups_of_lines(lv.take(k as int)),
    {
        let ghost before = groups_view(out@);
        assert(lv.take(k + 1).drop_last() =~= lv.take(k as int));
        assert(lv.take(k + 1).last() == ls@[k as int]@);
        let f = split_chars(&ls[k], ',');
        if f.len() >= 2 {
            let name = string_of(&f[0]);
            let values = split_chars(&f[1], ';');
            let vs = strings_of(&values);
            let ghost entry = (f@[0]@, split(f@[1]@, ';'));
            proof {
                lemma_find_group(before, f@[0]@);
            }
            match find_group_index(&out, &f[0]) {
                Some(i) => {
                    out[i] = (name, vs);
                    assert(groups_view(out@) =~= before.update(i as int, entry));
                },
                None => {
                    out.push((name, vs));
                    assert(groups_view(out@) =~= before.push(entry));
                },
            }
        }
    }
    assert(lv.take(ls.len() as int) =~= lv);
    out
}

/// A group the groups file can hold and give back: the name has no comma
/// and no line break, there is at least one value, the values hold no
/// comma, semicolon or line break, and the last value does not end in a
/// carriage return (which ends the line).
pub open spec fn storable_group(g: (Seq<char>, Seq<Seq<char>>)) -> bool {
    &&& storable_name(g.0)
    &&& g.1.len() >= 1
    &&& forall|j: int| 0 <= j < g.1.len() ==> storable_value(#[trigger] g.1[j])
    &&& (g.1.last().len() == 0 || g.1.last().last() != '\r')
}

pub open spec fn storable_value(v: Seq<char>) -> bool {
    free_of(v, ',') && free_of(v, ';') && free_of(v, '\n')
}

/// No two groups share a name.
pub open spec fn distinct_group_names(gs: Seq<(Seq<char>, Seq<Seq<char>>)>) -> bool {
    forall|i: int, j: int| 0 <= i < j < gs.len() ==> gs[i].0 != gs[j].0
}

/// Reading back the groups file written for some groups gives those groups,
/// when no two share a name and each can be stored (see `storable_group`).
pub proof fn law_groups_round_trip(gs: Seq<(Seq<char>, Seq<Seq<char>>)>)
    requires
        distinct_group_names(gs),
        forall|i: int| 0 <= i < gs.len() ==> storable_group(#[trigger] gs[i]),
    ensures
        groups_of_lines(lines(groups_text(gs))) == gs,
{
    let ls = Seq::new(gs.len(), |i: int| group_line(gs[i].0, gs[i].1));
    assert forall|i: int| 0 <= i < ls.len() implies plain_line(#[trigger] ls[i]) by {
        lemma_group_line(gs[i]);
    }
    lemma_lines_of_text(ls);
    lemma_groups_lines_read(gs);
}

/// Joining values that hold no separator and cutting again gives them back.
proof fn lemma_join_split(vs: Seq<Seq<char>>, sep: char)
    requires
        vs.len() >= 1,
        forall|j: int| 0 <= j < vs.len() ==> free_of(#[trigger] vs[j], sep),
    ensures
        split(join(vs, seq![sep]), sep) == vs,
    decreases vs.len(),
{
    if vs.len() == 1 {
        lemma_split_free(vs[0], sep);
        assert(seq![vs[0]] =~= vs);
    } else {
        let prev = vs.drop_last();
        assert forall|j: int| 0 <= j < prev.len() implies free_of(#[trigger] prev[j], sep) by {
            assert(prev[j] == vs[j]);
        }
        lemma_join_split(prev, sep);
        assert(join(vs, seq![sep]) =~= join(prev, seq![sep]).push(sep) + vs.last());
        lemma_split_concat(join(prev, seq![sep]), vs.last(), sep);
        assert(free_of(vs[vs.len() - 1], sep));
        lemma_split_free(vs.last(), sep);
        assert(prev + seq![vs.last()] =~= vs);
    }
}

/// The characters of a join are those of its pieces and separators.
proof fn lemma_join_free(vs: Seq<Seq<char>>, sep: char, c: char)
    requires
        sep != c,
        forall|j: int| 0 <= j < vs.len() ==> free_of(#[trigger] vs[j], c),
    ensures
        free_of(join(vs, seq![sep]), c),
    decreases vs.len(),
{
    if vs.len() > 1 {
        let prev = vs.drop_last();
        assert forall|j: int| 0 <= j < prev.len() implies free_of(#[trigger] prev[j], c) by {
            assert(prev[j] == vs[j]);
        }
        lemma_join_free(prev, sep, c);
        let a = join(prev, seq![sep]);
        let l = vs.last();
        assert(free_of(vs[vs.len() - 1], c));
        let r = join(vs, seq![sep]);
        assert(r =~= a + seq![sep] + l);
        assert forall|i: int| 0 <= i < r.len() implies r[i] != c by {
            if i < a.len() {
                assert(r[i] == a[i]);
            } else if i > a.len() {
                assert(r[i] == l[i - a.len() - 1]);
            }
        }
    } else if vs.len() == 1 {
        assert(free_of(vs[0], c));
    }
}

/// The last character of a join is that of its last piece, when that piece
/// is not empty.
proof fn lemma_join_last(vs: Seq<Seq<char>>, sep: char)
    requires
        vs.len() >= 1,
    ensures
        vs.last().len() > 0 ==> join(vs, seq![sep]).len() > 0 && join(vs, seq![sep]).last()
            == vs.last().last(),
        vs.last().len() == 0 && vs.len() >= 2 ==> join(vs, seq![sep]).len() > 0 && join(
            vs,
            seq![sep],
        ).last() == sep,
        vs.last().len() == 0 && vs.len() == 1 ==> join(vs, seq![sep]).len() == 0,
{
    if vs.len() > 1 {
        let a = join(vs.drop_last(), seq![sep]);
        assert(join(vs, seq![sep]) =~= a + seq![sep] + vs.last());
    }
}

proof fn lemma_group_line(g: (Seq<char>, Seq<Seq<char>>))
    requires
        storable_group(g),
    ensures
        plain_line(group_line(g.0, g.1)),
        split(group_line(g.0, g.1), ',') == seq![g.0, join(g.1, seq![';'])],
        split(join(g.1, seq![';']), ';') == g.1,
{
    let name = g.0;
    let vs = g.1;
    assert forall|j: int| 0 <= j < vs.len() implies free_of(#[trigger] vs[j], ';') by {
        assert(storable_value(vs[j]));
    }
    assert forall|j: int| 0 <= j < vs.len() implies free_of(#[trigger] vs[j], ',') by {
        assert(storable_value(vs[j]));
    }
    assert forall|j: int| 0 <= j < vs.len() implies free_of(#[trigger] vs[j], '\n') by {
        assert(storable_value(vs[j]));
    }
    lemma_join_split(vs, ';');
    lemma_join_free(vs, ';', ',');
    lemma_join_free(vs, ';', '\n');
    lemma_join_last(vs, ';');
    let d = join(vs, seq![';']);
    let l = group_line(name, vs);
    assert(l =~= name.push(',') + d);
    assert forall|i: int| 0 <= i < l.len() implies l[i] != '\n' by {
        if i < name.len() {
            assert(l[i] == name[i]);
        } else if i > name.len() {
            assert(l[i] == d[i - name.len() - 1]);
        }
    }
    assert(storable_value(vs[vs.len() - 1]));
    if vs.last().len() > 0 {
        assert(vs.last().last() == vs.last()[vs.last().len() - 1]);
        assert(l.last() == d.last());
    } else if vs.len() >= 2 {
        assert(l.last() == d.last());
    } else {
        assert(l.last() == ',');
    }
    lemma_split_concat(name, d, ',');
    lemma_split_free(name, ',');
    lemma_split_free(d, ',');
    assert(seq![name] + seq![d] =~= seq![name, d]);
}

proof fn lemma_groups_lines_read(gs: Seq<(Seq<char>, Seq<Seq<char>>)>)
    requires
        distinct_group_names(gs),
        forall|i: int| 0 <= i < gs.len() ==> storable_group(#[trigger] gs[i]),
    ensures
        groups_of_lines(Seq::new(gs.len(), |i: int| group_line(gs[i].0, gs[i].1))) == gs,
    decreases gs.len(),
{
    let ls = Seq::new(gs.len(), |i: int| group_line(gs[i].0, gs[i].1));
    if gs.len() > 0 {
        let prev = gs.drop_last();
        assert forall|i: int| 0 <= i < prev.len() implies storable_group(#[trigger] prev[i]) by {
            assert(prev[i] == gs[i]);
        }
        lemma_groups_lines_read(prev);
        lemma_find_group(prev, gs.last().0);
        if find_group(prev, gs.last().0) is Some {
            let k = find_group(prev, gs.last().0)->0;
            assert(gs[k].0 == prev[k].0);
        }
        assert(ls.drop_last() =~= Seq::new(prev.len(), |i: int| group_line(prev[i].0, prev[i].1)));
        assert(storable_group(gs[gs.len() - 1]));
        lemma_group_line(gs.last());
        assert(prev.push(gs.last()) =~= gs);
    } else {
        assert(gs =~= Seq::<(Seq<char>, Seq<Seq<char>>)>::empty());
    }
}

// ---------------------------------------------------------------------------
// Products file
// ---------------------------------------------------------------------------

/// A line of the products file, before its price is read as a number.
#[derive(Debug)]
pub struct ProductLine {
    pub name: String,
    /// The price field, trimmed.
    pub price: String,
    /// The third field, when there is one.
    pub group: Option<String>,
}

/// A product line as text.
pub open spec fn product_view(p: ProductLine) -> (Seq<char>, Seq<char>, Option<Seq<char>>) {
    (
        p.name@,
        p.price@,
        match p.group {
            Some(g) => Some(g@),
            None => None,
        },
    )
}

/// What reading the products file keeps: each line with a comma: its first
/// field as the name, its second field trimmed as the price, and its third
/// field, if any, as the group.
pub open spec fn products_of_lines(ls: Seq<Seq<char>>) -> Seq<(Seq<char>, Seq<char>, Option<Seq<char>>)>
    decreases ls.len(),
{
    if ls.len() == 0 {
        Seq::empty()
    } else {
        let ps = products_of_lines(ls.drop_last());
        let f = split(ls.last(), ',');
        if f.len() >= 2 {
            ps.push((f[0], trim(f[1]), if f.len() >= 3 { Some(f[2]) } else { None }))
        } else {
            ps
        }
    }
}

/// Reads the products file: one entry per line with a comma, in file order.
pub fn products_from_csv(buffer: &str) -> (res: Vec<ProductLine>)
    ensures
        Seq::new(res@.len(), |i: int| product_view(res@[i])) == products_of_lines(lines(buffer@)),
{
    let c = chars_of(buffer);
    let ls = lines_chars(&c);
    let ghost lv = lines(buffer@);
    let mut out: Vec<ProductLine> = Vec::new();
    assert(lv.take(0) =~= Seq::<Seq<char>>::empty());
    assert(Seq::new(out@.len(), |i: int| product_view(out@[i])) =~= Seq::<(Seq<char>, Seq<char>, Option<Seq<char>>)>::empty());
    for k in 0..ls.len()
        invariant
            views(ls@) == lv,
            Seq::new(out@.len(), |i: int| product_view(out@[i])) == products_of_lines(lv.take(k as int)),
    {
        let ghost before = Seq::new(out@.len(), |i: int| product_view(out@[i]));
        assert(lv.take(k + 1).drop_last() =~= lv.take(k as int));
        assert(lv.take(k + 1).last() == ls@[k as int]@);
        let f = split_chars(&ls[k], ',');
        if f.len() >= 2 {
            let name = string_of(&f[0]);
            let t = trim_chars(&f[1]);
            let price = string_of(&t);
            let group = if f.len() >= 3 { Some(string_of(&f[2])) } else { None };
            let line = ProductLine { name, price, group };
            let ghost lvw = product_view(line);
            out.push(line);
            assert(Seq::new(out@.len(), |i: int| product_view(out@[i])) =~= before.push(lvw));
        }
    }
    assert(lv.take(ls.len() as int) =~= lv);
    out
}

/// The text that `str::to_lowercase` gives for a text.
pub uninterp spec fn lowercase(s: Seq<char>) -> Seq<char>;

/// std's `str::to_lowercase`, which vstd does not specify. Trusted: the
/// contract names its result `lowercase` of the text, a function of the
/// text alone; the Unicode case mappings it applies are not stated.
#[verifier::external_body]
fn to_lowercase(s: &str) -> (res: String)
    ensures
        res@ == lowercase(s@),
{
    s.to_lowercase()
}

/// A product as text: its name, its price already written, its group.
pub type ProductModel = (Seq<char>, Seq<char>, Option<Seq<char>>);

pub open spec fn products_model(v: Seq<(String, String, Option<String>)>) -> Seq<ProductModel> {
    Seq::new(
        v.len(),
        |i: int|
            (
                v[i].0@,
                v[i].1@,
                match v[i].2 {
                    Some(g) => Some(g@),
                    None => None,
                },
            ),
    )
}

/// The line a product is saved as: `name,price` or `name,price,group`.
pub open spec fn product_line(name: Seq<char>, price: Seq<char>, group: Option<Seq<char>>) -> Seq<char> {
    match group {
        Some(g) => name + seq![','] + price + seq![','] + g,
        None => name + seq![','] + price,
    }
}

/// The name a product is saved under: trimmed and lowercased.
pub open spec fn saved_product_name(name: Seq<char>) -> Seq<char> {
    lowercase(trim(name))
}

/// The products file: one line per product, in order.
pub open spec fn products_text(ps: Seq<ProductModel>) -> Seq<char> {
    text_of_lines(Seq::new(ps.len(), |i: int| product_line(saved_product_name(ps[i].0), ps[i].1, ps[i].2)))
}

/// The products file's text for products already under their saved names,
/// with their prices already written: their lines as given.
pub fn product_lines_text(products: &Vec<(String, String, Option<String>)>) -> (res: String)
    ensures
        res@ == text_of_lines(
            Seq::new(
                products@.len(),
                |i: int|
                    product_line(
                        products_model(products@)[i].0,
                        products_model(products@)[i].1,
                        products_model(products@)[i].2,
                    ),
            ),
        ),
{
    let ghost ps = products_model(products@);
    let ghost ls = Seq::new(ps.len(), |i: int| product_line(ps[i].0, ps[i].1, ps[i].2));
    let mut out: Vec<char> = Vec::new();
    assert(ls.take(0) =~= Seq::<Seq<char>>::empty());
    for k in 0..products.len()
        invariant
            ps == products_model(products@),
            ls == Seq::new(ps.len(), |i: int| product_line(ps[i].0, ps[i].1, ps[i].2)),
            out@ == text_of_lines(ls.take(k as int)),
    {
        let ghost before = out@;
        assert(ls.take(k + 1).drop_last() =~= ls.take(k as int));
        let p = &products[k];
        push_str(&mut out, p.0.as_str());
        out.push(',');
        push_str(&mut out, p.1.as_str());
        match &p.2 {
            Some(g) => {
                out.push(',');
                push_str(&mut out, g.as_str());
            },
            None => {},
        }
        out.push('\n');
        assert(out@ =~= before + ls[k as int].push('\n'));
    }
    assert(ls.take(products.len() as int) =~= ls);
    string_of(&out)
}

/// The products file's text for these products, whose prices are already
/// written as text: each under its saved name (see `saved_product_name`).
pub fn products_to_csv(products: &Vec<(String, String, Option<String>)>) -> (res: String)
    ensures
        res@ == products_text(products_model(products@)),
{
    let ghost ps = products_model(products@);
    let mut named: Vec<(String, String, Option<String>)> = Vec::new();
    for k in 0..products.len()
        invariant
            ps == products_model(products@),
            named@.len() == k,
            forall|i: int| 0 <= i < k ==> #[trigger] products_model(named@)[i] == (
                saved_product_name(ps[i].0),
                ps[i].1,
                ps[i].2,
            ),
    {
        let p = &products[k];
        let trimmed = trim_chars(&chars_of(p.0.as_str()));
        let name = to_lowercase(string_of(&trimmed).as_str());
        let group = match &p.2 {
            Some(g) => Some(g.clone()),
            None => None,
        };
        let ghost prev = named@;
        named.push((name, p.1.clone(), group));
        assert forall|i: int| 0 <= i < k + 1 implies #[trigger] products_model(named@)[i] == (
            saved_product_name(ps[i].0),
            ps[i].1,
            ps[i].2,
        ) by {
            if i < k {
                assert(named@[i] == prev[i]);
                assert(products_model(prev)[i] == (saved_product_name(ps[i].0), ps[i].1, ps[i].2));
            }
        }
    }
    let res = product_lines_text(&named);
    assert(Seq::new(
        named@.len(),
        |i: int| product_line(products_model(named@)[i].0, products_model(named@)[i].1, products_model(named@)[i].2),
    ) =~= Seq::new(ps.len(), |i: int| product_line(saved_product_name(ps[i].0), ps[i].1, ps[i].2)));
    res
}

/// A product the products file gives back as written: its saved name and
/// its price hold no comma and no line break, the price has no whitespace
/// at its ends, and the group, if any, holds no comma and no line break and
/// does not end in a carriage return.
pub open spec fn storable_product(name: Seq<char>, price: Seq<char>, group: Option<Seq<char>>) -> bool {
    &&& free_of(name, ',')
    &&& free_of(name, '\n')
    &&& free_of(price, ',')
    &&& free_of(price, '\n')
    &&& trim(price) == price
    &&& match group {
        Some(g) => free_of(g, ',') && free_of(g, '\n') && (g.len() == 0 || g.last() != '\r'),
        None => true,
    }
}

proof fn lemma_product_line(name: Seq<char>, price: Seq<char>, group: Option<Seq<char>>)
    requires
        storable_product(name, price, group),
    ensures
        plain_line(product_line(name, price, group)),
        split(product_line(name, price, group), ',') == match group {
            Some(g) => seq![name, price, g],
            None => seq![name, price],
        },
{
    let l = product_line(name, price, group);
    lemma_split_free(name, ',');
    lemma_split_free(price, ',');
    let np = name.push(',') + price;
    lemma_split_concat(name, price, ',');
    assert(seq![name] + seq![price] =~= seq![name, price]);
    assert forall|i: int| 0 <= i < np.len() implies np[i] != '\n' by {
        if i < name.len() {
            assert(np[i] == name[i]);
        } else if i > name.len() {
            assert(np[i] == price[i - name.len() - 1]);
        }
    }
    if price.len() > 0 {
        assert(np.last() == price.last());
        crate::text::lemma_trimmed_ends(price);
    }
    match group {
        Some(g) => {
            assert(l =~= np.push(',') + g);
            lemma_split_concat(np, g, ',');
            lemma_split_free(g, ',');
            assert(seq![name, price] + seq![g] =~= seq![name, price, g]);
            assert forall|i: int| 0 <= i < l.len() implies l[i] != '\n' by {
                if i < np.len() {
                    assert(l[i] == np[i]);
                } else if i > np.len() {
                    assert(l[i] == g[i - np.len() - 1]);
                }
            }
            if g.len() > 0 {
                assert(l.last() == g.last());
            }
        },
        None => {
            assert(l =~= np);
        },
    }
}

proof fn lemma_product_lines_read(ps: Seq<ProductModel>)
    requires
        forall|i: int| 0 <= i < ps.len() ==> storable_product(#[trigger] ps[i].0, ps[i].1, ps[i].2),
    ensures
        products_of_lines(Seq::new(ps.len(), |i: int| product_line(ps[i].0, ps[i].1, ps[i].2))) == ps,
    decreases ps.len(),
{
    let ls = Seq::new(ps.len(), |i: int| product_line(ps[i].0, ps[i].1, ps[i].2));
    if ps.len() > 0 {
        let prev = ps.drop_last();
        assert forall|i: int| 0 <= i < prev.len() implies storable_product(#[trigger] prev[i].0, prev[i].1, prev[i].2) by {
            assert(prev[i] == ps[i]);
        }
        lemma_product_lines_read(prev);
        assert(ls.drop_last() =~= Seq::new(prev.len(), |i: int| product_line(prev[i].0, prev[i].1, prev[i].2)));
        let last = ps.last();
        assert(storable_product(ps[ps.len() - 1].0, ps[ps.len() - 1].1, ps[ps.len() - 1].2));
        lemma_product_line(last.0, last.1, last.2);
        assert(prev.push(last) =~= ps);
    } else {
        assert(ps =~= Seq::<ProductModel>::empty());
    }
}

/// Reading back the products file written for some products gives each
/// product under its saved name (trimmed and lowercased), with its price
/// and group, whenever each can be stored (see `storable_product`).
pub proof fn law_products_round_trip(ps: Seq<ProductModel>)
    ensures
        (forall|i: int| 0 <= i < ps.len() ==> storable_product(
            #[trigger] saved_product_name(ps[i].0),
            ps[i].1,
            ps[i].2,
        )) ==> products_of_lines(lines(products_text(ps))) == Seq::new(
            ps.len(),
            |i: int| (saved_product_name(ps[i].0), ps[i].1, ps[i].2),
        ),
{
    let qs = Seq::new(ps.len(), |i: int| (saved_product_name(ps[i].0), ps[i].1, ps[i].2));
    if forall|i: int| 0 <= i < ps.len() ==> storable_product(#[trigger] saved_product_name(ps[i].0), ps[i].1, ps[i].2) {
        let ls = Seq::new(qs.len(), |i: int| product_line(qs[i].0, qs[i].1, qs[i].2));
        assert forall|i: int| 0 <= i < qs.len() implies storable_product(#[trigger] qs[i].0, qs[i].1, qs[i].2) by {
            assert(storable_product(saved_product_name(ps[i].0), ps[i].1, ps[i].2));
        }
        assert forall|i: int| 0 <= i < ls.len() implies plain_line(#[trigger] ls[i]) by {
            lemma_product_line(qs[i].0, qs[i].1, qs[i].2);
        }
        assert(ls =~= Seq::new(ps.len(), |i: int| product_line(saved_product_name(ps[i].0), ps[i].1, ps[i].2)));
        lemma_lines_of_text(ls);
        lemma_product_lines_read(qs);
    }
}

// ---------------------------------------------------------------------------
// Cache of saved comands
// ---------------------------------------------------------------------------

/// Whether the cache of saved comands holds nothing but empty lines.
pub fn is_cache_empty(contents: &str) -> (res: bool)
    ensures
        res == (forall|i: int| 0 <= i < lines(contents@).len() ==> #[trigger] lines(contents@)[i].len() == 0),
{
    let c = chars_of(contents);
    let ls = lines_chars(&c);
    let ghost lv = lines(contents@);
    for k in 0..ls.len()
        invariant
            views(ls@) == lv,
            lv == lines(contents@),
            forall|i: int| 0 <= i < k ==> #[trigger] lv[i].len() == 0,
    {
        assert(ls@[k as int]@ == lv[k as int]);
        if ls[k].len() != 0 {
            return false;
        }
    }
    true
}

} // verus!
