//! The backups screen: which saved days there are, in which order they are
//! listed (latest first), where a new month starts, and which are selected
//! for a joint report.
use vstd::prelude::*;
use std::cmp::Ordering;
use crate::export::export_stem;
use crate::sort_dates::{FileDate, FileDateError, date_rank, file_date_of};
use crate::text::{
    chars_of, decimal, lemma_decimal_digits, lemma_parse_decimal, lemma_split_concat,
    lemma_split_free, parse_unsigned, push_str, same_chars, slice, split, string_of,
    strings_view, free_of, is_digit,
};

verus! {

/// The index of the last `'.'` in `s`.
pub open spec fn last_dot(s: Seq<char>) -> int
    decreases s.len(),
{
    if s.len() == 0 {
        -1
    } else if s.last() == '.' {
        s.len() - 1
    } else {
        last_dot(s.drop_last())
    }
}

/// A name with an extension: it holds a `'.'`.
pub open spec fn has_dot(s: Seq<char>) -> bool {
    exists|i: int| 0 <= i < s.len() && s[i] == '.'
}

/// The name before its last `'.'`.
pub open spec fn without_extension(s: Seq<char>) -> Seq<char> {
    s.take(last_dot(s))
}

proof fn lemma_last_dot(s: Seq<char>)
    ensures
        -1 <= last_dot(s) < s.len(),
        has_dot(s) ==> 0 <= last_dot(s) && s[last_dot(s)] == '.',
        0 <= last_dot(s) ==> s[last_dot(s)] == '.',
        forall|i: int| last_dot(s) < i < s.len() ==> s[i] != '.',
    decreases s.len(),
{
    if s.len() > 0 {
        lemma_last_dot(s.drop_last());
        if s.last() != '.' && 0 <= last_dot(s) {
            assert(s.drop_last()[last_dot(s)] == s[last_dot(s)]);
        }
        if s.last() != '.' && has_dot(s) {
            let i = choose|i: int| 0 <= i < s.len() && s[i] == '.';
            assert(s.drop_last()[i] == '.');
        }
        assert forall|i: int| last_dot(s) < i < s.len() implies s[i] != '.' by {
            if i < s.len() - 1 {
                assert(s.drop_last()[i] == s[i]);
            }
        }
    }
}

/// The name of a backup without its extension.
pub fn strip_extension(name: &str) -> (res: String)
    requires
        has_dot(name@),
    ensures
        res@ == without_extension(name@),
{
    proof {
        lemma_last_dot(name@);
    }
    let c = chars_of(name);
    let mut n = c.len();
    while c[n - 1] != '.'
        invariant
            0 < n <= c.len(),
            c@ == name@,
            0 <= last_dot(name@) < n,
            name@[last_dot(name@)] == '.',
            forall|i: int| n <= i < c.len() ==> c@[i] != '.',
        decreases n,
    {
        n -= 1;
    }
    assert(last_dot(name@) == n - 1) by {
        if last_dot(name@) < n - 1 {
            assert(c@[n - 1] != '.');
        }
    }
    let stem = slice(&c, 0, n - 1);
    string_of(&stem)
}

/// A file the backups folder lists: its extension (the text after the last
/// `'.'`, when something comes before that dot) is `csv`.
pub open spec fn is_backup_file(s: Seq<char>) -> bool {
    last_dot(s) > 0 && s.skip(last_dot(s) + 1) == "csv"@
}

/// Whether the backups screen lists a file of this name.
pub fn is_csv_backup(name: &str) -> (res: bool)
    ensures
        res == is_backup_file(name@),
        res ==> has_dot(name@),
{
    proof {
        lemma_last_dot(name@);
        reveal_strlit("csv");
    }
    let c = chars_of(name);
    let mut n = c.len();
    while n > 0 && c[n - 1] != '.'
        invariant
            n <= c.len(),
            c@ == name@,
            last_dot(name@) < n,
            0 <= last_dot(name@) ==> name@[last_dot(name@)] == '.',
            forall|i: int| n <= i < c.len() ==> c@[i] != '.',
        decreases n,
    {
        n -= 1;
    }
    if n == 0 {
        assert(last_dot(name@) <= 0);
        return false;
    }
    assert(last_dot(name@) == n - 1) by {
        if last_dot(name@) < n - 1 {
            assert(c@[n - 1] != '.');
        }
    }
    if n == 1 {
        return false;
    }
    let ext = slice(&c, n, c.len());
    assert(ext@ =~= name@.skip(last_dot(name@) + 1));
    same_chars(&ext, &chars_of("csv"))
}

/// A backup listed by its date.
pub type DatedBackup = (String, FileDate);

pub open spec fn dated_view(v: Seq<DatedBackup>) -> Seq<(Seq<char>, FileDate)> {
    Seq::new(v.len(), |i: int| (v[i].0@, v[i].1))
}

/// Where `x` goes among `s`: after every entry not earlier than it.
pub open spec fn insert_pos(s: Seq<(Seq<char>, FileDate)>, x: (Seq<char>, FileDate)) -> int
    decreases s.len(),
{
    if s.len() == 0 {
        0
    } else if date_rank(s[0].1) >= date_rank(x.1) {
        1 + insert_pos(s.drop_first(), x)
    } else {
        0
    }
}

/// The backups in listing order: latest date first, and backups of the same
/// date in the order they came.
pub open spec fn by_date(s: Seq<(Seq<char>, FileDate)>) -> Seq<(Seq<char>, FileDate)>
    decreases s.len(),
{
    if s.len() == 0 {
        Seq::empty()
    } else {
        let r = by_date(s.drop_last());
        r.insert(insert_pos(r, s.last()), s.last())
    }
}

/// Latest first.
pub open spec fn latest_first(s: Seq<(Seq<char>, FileDate)>) -> bool {
    forall|i: int, j: int| 0 <= i < j < s.len() ==> date_rank(s[i].1) >= date_rank(s[j].1)
}

/// The stems of the backups that name a date, with their dates, in order.
pub open spec fn dated_of(names: Seq<Seq<char>>) -> Seq<(Seq<char>, FileDate)>
    decreases names.len(),
{
    if names.len() == 0 {
        Seq::empty()
    } else {
        let d = dated_of(names.drop_last());
        let stem = without_extension(names.last());
        match file_date_of(stem) {
            Ok(date) => d.push((stem, date)),
            Err(_) => d,
        }
    }
}

/// The stems of the backups that name no date, in order.
pub open spec fn undated_of(names: Seq<Seq<char>>) -> Seq<Seq<char>>
    decreases names.len(),
{
    if names.len() == 0 {
        Seq::empty()
    } else {
        let d = undated_of(names.drop_last());
        let stem = without_extension(names.last());
        match file_date_of(stem) {
            Ok(_) => d,
            Err(_) => d.push(stem),
        }
    }
}

proof fn lemma_insert_pos_bounds(s: Seq<(Seq<char>, FileDate)>, x: (Seq<char>, FileDate))
    ensures
        0 <= insert_pos(s, x) <= s.len(),
        forall|i: int| 0 <= i < insert_pos(s, x) ==> date_rank(#[trigger] s[i].1) >= date_rank(x.1),
        insert_pos(s, x) < s.len() ==> date_rank(s[insert_pos(s, x)].1) < date_rank(x.1),
    decreases s.len(),
{
    if s.len() > 0 && date_rank(s[0].1) >= date_rank(x.1) {
        lemma_insert_pos_bounds(s.drop_first(), x);
        assert forall|i: int| 0 <= i < insert_pos(s, x) implies date_rank(#[trigger] s[i].1)
            >= date_rank(x.1) by {
            if i > 0 {
                assert(s[i] == s.drop_first()[i - 1]);
            }
        }
    }
}

/// Whether `a` lists before `b` or ties with it: `a` is not earlier.
fn not_earlier(a: &FileDate, b: &FileDate) -> (res: bool)
    ensures
        res == (date_rank(*a) >= date_rank(*b)),
{
    match a.cmp(b) {
        Ordering::Greater => false,
        _ => true,
    }
}

/// Sorts the backups into listing order (see `by_date`).
fn sort_by_date(items: &Vec<DatedBackup>) -> (res: Vec<DatedBackup>)
    ensures
        dated_view(res@) == by_date(dated_view(items@)),
{
    let ghost s = dated_view(items@);
    let mut res: Vec<DatedBackup> = Vec::new();
    assert(s.take(0) =~= Seq::<(Seq<char>, FileDate)>::empty());
    assert(dated_view(res@) =~= by_date(s.take(0)));
    for k in 0..items.len()
        invariant
            s == dated_view(items@),
            dated_view(res@) == by_date(s.take(k as int)),
    {
        let x = (items[k].0.clone(), items[k].1);
        assert((x.0@, x.1) == s[k as int]);
        let ghost r = dated_view(res@);
        proof {
            lemma_insert_pos_bounds(r, s[k as int]);
        }
        let mut p: usize = 0;
        assert(r.skip(0) =~= r);
        while p < res.len() && not_earlier(&res[p].1, &x.1)
            invariant
                0 <= p <= res.len(),
                r == dated_view(res@),
                (x.0@, x.1) == s[k as int],
                insert_pos(r, s[k as int]) == p + insert_pos(r.skip(p as int), s[k as int]),
            decreases res.len() - p,
        {
            assert(r.skip(p as int)[0] == r[p as int]);
            assert(r.skip(p as int).drop_first() =~= r.skip(p + 1));
            p += 1;
        }
        proof {
            if p < res.len() {
                assert(r.skip(p as int)[0] == r[p as int]);
            }
            assert(insert_pos(r.skip(p as int), s[k as int]) == 0);
        }
        res.insert(p, x);
        assert(s.take(k + 1).drop_last() =~= s.take(k as int));
        assert(s.take(k + 1).last() == s[k as int]);
        assert(dated_view(res@) =~= r.insert(p as int, s[k as int]));
    }
    assert(s.take(items.len() as int) =~= s);
    res
}

/// The backups' stems that name a date, in listing order, and the stems
/// that name none, in the order they came. Every name must have an
/// extension.
pub fn sort_backups(names: &Vec<String>) -> (res: (Vec<DatedBackup>, Vec<String>))
    requires
        forall|i: int| 0 <= i < names@.len() ==> has_dot(#[trigger] names@[i]@),
    ensures
        dated_view(res.0@) == by_date(dated_of(strings_view(names@))),
        strings_view(res.1@) == undated_of(strings_view(names@)),
{
    let ghost ns = strings_view(names@);
    let mut dated: Vec<DatedBackup> = Vec::new();
    let mut unknown: Vec<String> = Vec::new();
    assert(ns.take(0) =~= Seq::<Seq<char>>::empty());
    assert(dated_view(dated@) =~= Seq::<(Seq<char>, FileDate)>::empty());
    assert(strings_view(unknown@) =~= Seq::<Seq<char>>::empty());
    for k in 0..names.len()
        invariant
            ns == strings_view(names@),
            forall|i: int| 0 <= i < names@.len() ==> has_dot(#[trigger] names@[i]@),
            dated_view(dated@) == dated_of(ns.take(k as int)),
            strings_view(unknown@) == undated_of(ns.take(k as int)),
    {
        assert(ns.take(k + 1).drop_last() =~= ns.take(k as int));
        assert(ns.take(k + 1).last() == names@[k as int]@);
        assert(has_dot(names@[k as int]@));
        let stem = strip_extension(names[k].as_str());
        let ghost st = stem@;
        match FileDate::try_from(stem.as_str()) {
            Ok(date) => {
                let ghost before = dated_view(dated@);
                dated.push((stem, date));
                assert(dated_view(dated@) =~= before.push((st, date)));
            },
            Err(_) => {
                let ghost before = strings_view(unknown@);
                unknown.push(stem);
                assert(strings_view(unknown@) =~= before.push(st));
            },
        }
    }
    assert(ns.take(names.len() as int) =~= ns);
    (sort_by_date(&dated), unknown)
}

/// The listing order puts later dates first.
pub proof fn law_listing_latest_first(s: Seq<(Seq<char>, FileDate)>)
    ensures
        latest_first(by_date(s)),
    decreases s.len(),
{
    if s.len() > 0 {
        let r = by_date(s.drop_last());
        let x = s.last();
        law_listing_latest_first(s.drop_last());
        lemma_insert_pos_bounds(r, x);
        let p = insert_pos(r, x);
        let t = r.insert(p, x);
        assert forall|i: int, j: int| 0 <= i < j < t.len() implies date_rank(t[i].1) >= date_rank(
            t[j].1,
        ) by {
            if j < p {
                assert(t[i] == r[i] && t[j] == r[j]);
            } else if j == p {
                assert(t[i] == r[i]);
            } else if i < p {
                assert(t[i] == r[i] && t[j] == r[j - 1]);
            } else if i == p {
                assert(t[j] == r[j - 1]);
                assert(date_rank(r[p].1) >= date_rank(r[j - 1].1));
            } else {
                assert(t[i] == r[i - 1] && t[j] == r[j - 1]);
            }
        }
    }
}

/// The listing holds exactly the backups it was given.
pub proof fn law_listing_keeps_backups(s: Seq<(Seq<char>, FileDate)>)
    ensures
        by_date(s).to_multiset() == s.to_multiset(),
    decreases s.len(),
{
    if s.len() > 0 {
        let r = by_date(s.drop_last());
        let x = s.last();
        law_listing_keeps_backups(s.drop_last());
        lemma_insert_pos_bounds(r, x);
        vstd::seq_lib::to_multiset_insert(r, insert_pos(r, x), x);
        vstd::seq_lib::to_multiset_build(s.drop_last(), x);
        assert(s.drop_last().push(x) =~= s);
        assert(by_date(s).to_multiset() == r.to_multiset().insert(x));
        assert(s.to_multiset() == s.drop_last().to_multiset().insert(x));
    } else {
        assert(s =~= Seq::<(Seq<char>, FileDate)>::empty());
        assert(by_date(s) =~= Seq::<(Seq<char>, FileDate)>::empty());
    }
}

proof fn lemma_digits_free(n: nat, c: char)
    requires
        !is_digit(c),
    ensures
        free_of(decimal(n), c),
{
    lemma_decimal_digits(n);
}

/// The report of a day is backed up under a name that the backups screen
/// reads back as that day: for a four-digit year and a day and month that
/// fit a byte, stripping `.csv` gives the report's stem, and the stem reads
/// as the day, the month and the year's last two digits.
pub proof fn law_report_name_reads_back(day: u32, month: u32, year: i32)
    requires
        1000 <= year <= 9999,
        day <= 255,
        month <= 255,
    ensures
        without_extension(backup_file(export_stem(day, month, year))) == export_stem(day, month, year),
        file_date_of(export_stem(day, month, year)) == Ok::<FileDate, FileDateError>(
            FileDate { day: day as u8, month: month as u8, year: (year % 100) as u8 },
        ),
{
    let y = year as nat;
    let dd = decimal(day as nat);
    let dm = decimal(month as nat);
    // the year's digits
    assert(decimal(y) == decimal(y / 10).push(crate::text::digit_char((y % 10) as int)));
    assert(decimal(y / 10) == decimal(y / 100).push(crate::text::digit_char(((y / 10) % 10) as int)));
    assert(y / 10 / 10 == y / 100);
    assert(decimal(y / 100) == decimal(y / 1000).push(crate::text::digit_char(((y / 100) % 10) as int)));
    assert(y / 100 / 10 == y / 1000);
    assert(decimal(y / 1000) == seq![crate::text::digit_char((y / 1000) as int)]);
    let a = crate::text::digit_char(((y / 10) % 10) as int);
    let b = crate::text::digit_char((y % 10) as int);
    let yy = seq![a, b];
    assert(decimal(y).skip(2) =~= yy);
    assert(crate::export::signed_decimal(year as int) == decimal(y));
    let stem = export_stem(day, month, year);
    assert(stem =~= dd.push('-') + (dm.push('-') + yy));
    // no dot and no dash inside the numbers
    lemma_digits_free(day as nat, '-');
    lemma_digits_free(month as nat, '-');
    lemma_digits_free(day as nat, '.');
    lemma_digits_free(month as nat, '.');
    assert(free_of(yy, '-') && free_of(yy, '.'));
    // the pieces
    lemma_split_concat(dm, yy, '-');
    lemma_split_free(dm, '-');
    lemma_split_free(yy, '-');
    lemma_split_concat(dd, dm.push('-') + yy, '-');
    lemma_split_free(dd, '-');
    let p = split(stem, '-');
    assert(p =~= seq![dd, dm, yy]);
    lemma_parse_decimal(day as nat, 255);
    lemma_parse_decimal(month as nat, 255);
    assert(((y / 10) % 10) * 10 + y % 10 == y % 100);
    crate::text::lemma_digit_char(((y / 10) % 10) as int);
    crate::text::lemma_digit_char((y % 10) as int);
    assert(yy[0] == a && yy[1] == b);
    assert(yy.drop_first() =~= seq![b]);
    assert(seq![b].drop_first() =~= Seq::<char>::empty());
    let va = ((y / 10) % 10) as int;
    let vb = (y % 10) as int;
    assert(crate::text::scan_digits(Seq::<char>::empty(), va * 10 + vb, 255)
        == Ok::<int, crate::text::IntErrorKind>(va * 10 + vb));
    assert(crate::text::scan_digits(seq![b], va, 255) == crate::text::scan_digits(
        Seq::<char>::empty(),
        va * 10 + vb,
        255,
    ));
    assert(crate::text::scan_digits(yy, 0, 255) == crate::text::scan_digits(seq![b], va, 255));
    assert(yy[0] != '+' && yy[0] != '-');
    assert(parse_unsigned(yy, 255) == crate::text::scan_digits(yy, 0, 255));
    assert(parse_unsigned(yy, 255) == Ok::<int, crate::text::IntErrorKind>((y % 100) as int));
    // stripping the extension
    reveal_strlit(".csv");
    let f = backup_file(stem);
    assert(f.drop_last().drop_last().drop_last() =~= stem.push('.'));
    assert(f.drop_last().drop_last() =~= stem.push('.').push('c'));
    assert(f.drop_last() =~= stem.push('.').push('c').push('s'));
    assert(f =~= stem.push('.').push('c').push('s').push('v'));
    assert(last_dot(stem.push('.')) == stem.len());
    assert(last_dot(stem.push('.').push('c')) == stem.len());
    assert(last_dot(stem.push('.').push('c').push('s')) == stem.len());
    assert(last_dot(f) == stem.len());
    assert(f.take(stem.len() as int) =~= stem);
}

/// Whether the backup at `i` starts a new month in the list: the first one,
/// or one whose month or year differs from the one before it.
pub fn starts_month(list: &Vec<DatedBackup>, i: usize) -> (res: bool)
    requires
        i < list.len(),
    ensures
        res == (i == 0 || list@[i - 1].1.month != list@[i as int].1.month || list@[i - 1].1.year
            != list@[i as int].1.year),
{
    if i == 0 {
        true
    } else {
        list[i - 1].1.month != list[i].1.month || list[i - 1].1.year != list[i].1.year
    }
}

/// The file name of a backup: its stem and `.csv`.
pub open spec fn backup_file(stem: Seq<char>) -> Seq<char> {
    stem + ".csv"@
}

fn backup_file_name(stem: &str) -> (res: String)
    ensures
        res@ == backup_file(stem@),
{
    let mut out = chars_of(stem);
    push_str(&mut out, ".csv");
    string_of(&out)
}

/// Ticking a backup adds its file to the selection; unticking removes every
/// occurrence of it.
pub open spec fn toggled(selected: Seq<Seq<char>>, stem: Seq<char>, checked: bool) -> Seq<Seq<char>> {
    if checked {
        selected.filter(|s: Seq<char>| s != backup_file(stem))
    } else {
        selected.push(backup_file(stem))
    }
}

/// The selection after the backup's box is clicked (`checked` says whether
/// it was ticked).
pub fn toggle_selection(selected: &Vec<String>, stem: &str, checked: bool) -> (res: Vec<String>)
    ensures
        strings_view(res@) == toggled(strings_view(selected@), stem@, checked),
{
    let file = backup_file_name(stem);
    let fc = chars_of(file.as_str());
    let ghost sv = strings_view(selected@);
    let ghost f = |s: Seq<char>| s != backup_file(stem@);
    let mut res: Vec<String> = Vec::new();
    if !checked {
        for k in 0..selected.len()
            invariant
                sv == strings_view(selected@),
                strings_view(res@) == sv.take(k as int),
        {
            let ghost before = strings_view(res@);
            let item = selected[k].clone();
            assert(item@ == sv[k as int]);
            res.push(item);
            assert(strings_view(res@) =~= before.push(sv[k as int]));
            assert(sv.take(k + 1) =~= sv.take(k as int).push(sv[k as int]));
        }
        assert(sv.take(selected.len() as int) =~= sv);
        let ghost before = strings_view(res@);
        res.push(file);
        assert(strings_view(res@) =~= before.push(backup_file(stem@)));
        return res;
    }
    assert(sv.take(0) =~= Seq::<Seq<char>>::empty());
    assert(strings_view(res@) =~= Seq::<Seq<char>>::empty());
    for k in 0..selected.len()
        invariant
            sv == strings_view(selected@),
            fc@ == backup_file(stem@),
            f == (|s: Seq<char>| s != backup_file(stem@)),
            strings_view(res@) == sv.take(k as int).filter(f),
    {
        assert(sv.take(k + 1).drop_last() =~= sv.take(k as int));
        assert(sv.take(k + 1).last() == selected@[k as int]@);
        reveal_with_fuel(Seq::<Seq<char>>::filter, 1);
        let c = chars_of(selected[k].as_str());
        if !same_chars(&c, &fc) {
            let ghost before = strings_view(res@);
            res.push(selected[k].clone());
            assert(strings_view(res@) =~= before.push(selected@[k as int]@));
        }
    }
    assert(sv.take(selected.len() as int) =~= sv);
    res
}

/// The files of the listed backups of the given month and year.
pub open spec fn month_files(list: Seq<(Seq<char>, FileDate)>, month: u8, year: u8) -> Seq<Seq<char>>
    decreases list.len(),
{
    if list.len() == 0 {
        Seq::empty()
    } else {
        let r = month_files(list.drop_last(), month, year);
        if list.last().1.month == month && list.last().1.year == year {
            r.push(backup_file(list.last().0))
        } else {
            r
        }
    }
}

/// Clicking a month's box: when every backup of the month is selected, all
/// of them are unselected; otherwise all of them are added to the selection
/// (at its end, even those already in it).
pub open spec fn month_toggled(selected: Seq<Seq<char>>, all: Seq<Seq<char>>) -> Seq<Seq<char>> {
    if forall|i: int| 0 <= i < all.len() ==> selected.contains(#[trigger] all[i]) {
        selected.filter(|s: Seq<char>| !all.contains(s))
    } else {
        selected + all
    }
}

fn contains_text(v: &Vec<String>, x: &Vec<char>) -> (res: bool)
    ensures
        res == strings_view(v@).contains(x@),
{
    let ghost sv = strings_view(v@);
    for k in 0..v.len()
        invariant
            sv == strings_view(v@),
            forall|i: int| 0 <= i < k ==> sv[i] != x@,
    {
        let c = chars_of(v[k].as_str());
        if same_chars(&c, x) {
            assert(sv[k as int] == x@);
            return true;
        }
    }
    false
}

/// The selection after the box of the month of `current` is clicked.
pub fn month_selection(list: &Vec<DatedBackup>, selected: &Vec<String>, current: FileDate) -> (res: Vec<String>)
    ensures
        strings_view(res@) == month_toggled(
            strings_view(selected@),
            month_files(dated_view(list@), current.month, current.year),
        ),
{
    let ghost lv = dated_view(list@);
    let mut all: Vec<String> = Vec::new();
    assert(lv.take(0) =~= Seq::<(Seq<char>, FileDate)>::empty());
    assert(strings_view(all@) =~= Seq::<Seq<char>>::empty());
    for k in 0..list.len()
        invariant
            lv == dated_view(list@),
            strings_view(all@) == month_files(lv.take(k as int), current.month, current.year),
    {
        assert(lv.take(k + 1).drop_last() =~= lv.take(k as int));
        assert(lv.take(k + 1).last() == lv[k as int]);
        if list[k].1.month == current.month && list[k].1.year == current.year {
            let f = backup_file_name(list[k].0.as_str());
            let ghost before = strings_view(all@);
            all.push(f);
            assert(strings_view(all@) =~= before.push(backup_file(lv[k as int].0)));
        }
    }
    assert(lv.take(list.len() as int) =~= lv);
    let ghost av = strings_view(all@);
    let ghost sv = strings_view(selected@);
    let mut all_in = true;
    for k in 0..all.len()
        invariant
            av == strings_view(all@),
            sv == strings_view(selected@),
            all_in == (forall|i: int| 0 <= i < k ==> sv.contains(#[trigger] av[i])),
    {
        let c = chars_of(all[k].as_str());
        assert(c@ == av[k as int]);
        let inside = contains_text(selected, &c);
        all_in = inside && all_in;
        assert(all_in == (forall|i: int| 0 <= i < k + 1 ==> sv.contains(#[trigger] av[i]))) by {
            if all_in {
                assert forall|i: int| 0 <= i < k + 1 implies sv.contains(#[trigger] av[i]) by {
                    if i == k {
                        assert(sv.contains(av[k as int]));
                    }
                }
            }
        }
    }
    let mut res: Vec<String> = Vec::new();
    if all_in {
        let ghost f = |s: Seq<char>| !av.contains(s);
        assert(sv.take(0) =~= Seq::<Seq<char>>::empty());
        assert(strings_view(res@) =~= Seq::<Seq<char>>::empty());
        for k in 0..selected.len()
            invariant
                av == strings_view(all@),
                sv == strings_view(selected@),
                f == (|s: Seq<char>| !av.contains(s)),
                strings_view(res@) == sv.take(k as int).filter(f),
        {
            assert(sv.take(k + 1).drop_last() =~= sv.take(k as int));
            assert(sv.take(k + 1).last() == selected@[k as int]@);
            reveal_with_fuel(Seq::<Seq<char>>::filter, 1);
            let c = chars_of(selected[k].as_str());
            if !contains_text(&all, &c) {
                let ghost before = strings_view(res@);
                res.push(selected[k].clone());
                assert(strings_view(res@) =~= before.push(selected@[k as int]@));
            }
        }
        assert(sv.take(selected.len() as int) =~= sv);
    } else {
        for k in 0..selected.len()
            invariant
                sv == strings_view(selected@),
                strings_view(res@) == sv.take(k as int),
        {
            let ghost before = strings_view(res@);
            let item = selected[k].clone();
            assert(item@ == sv[k as int]);
            res.push(item);
            assert(strings_view(res@) =~= before.push(sv[k as int]));
            assert(sv.take(k + 1) =~= sv.take(k as int).push(sv[k as int]));
        }
        assert(sv.take(selected.len() as int) =~= sv);
        for k in 0..all.len()
            invariant
                av == strings_view(all@),
                strings_view(res@) == sv + av.take(k as int),
        {
            let ghost before = strings_view(res@);
            let item = all[k].clone();
            assert(item@ == av[k as int]);
            res.push(item);
            assert(strings_view(res@) =~= before.push(av[k as int]));
            assert(sv + av.take(k + 1) =~= (sv + av.take(k as int)).push(av[k as int]));
        }
        assert(av.take(all.len() as int) =~= av);
    }
    res
}

} // verus!
