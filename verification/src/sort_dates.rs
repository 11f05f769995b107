//! Dates read from backup file names (`day-month-year`), their labels, and
//! the order in which the backups screen lists them (latest first).
use vstd::prelude::*;
use std::cmp::Ordering;
use crate::text::{chars_of, decimal, free_of, is_digit, lemma_decimal_digits, lemma_parse_decimal, lemma_split_concat, lemma_split_free, lemma_split_len, parse_unsigned, parse_unsigned_chars, push_decimal, split, split_chars, string_of};

verus! {

/// A date as written in a backup's file name: the year is the last two
/// digits of the year.
#[derive(PartialEq, Eq, Structural, Debug, PartialOrd, Copy, Clone)]
pub struct FileDate {
    pub day: u8,
    pub month: u8,
    pub year: u8,
}

/// Which part of a backup's file name is not a date field.
#[derive(Clone, Copy, Debug, PartialEq, Eq, Structural)]
pub enum FileDateError {
    FailedToParseMonth,
    FailedToParseDay,
    FailedToParseYear,
}

/// The Portuguese name of month number `i + 1`, for `i` in `0..12`.
pub open spec fn month_label(i: int) -> Seq<char> {
    if i == 0 { "Janeiro"@ }
    else if i == 1 { "Fevereiro"@ }
    else if i == 2 { "Março"@ }
    else if i == 3 { "Abril"@ }
    else if i == 4 { "Maio"@ }
    else if i == 5 { "Junho"@ }
    else if i == 6 { "Julho"@ }
    else if i == 7 { "Agosto"@ }
    else if i == 8 { "Setembro"@ }
    else if i == 9 { "Outubro"@ }
    else if i == 10 { "Novembro"@ }
    else { "Dezembro"@ }
}

/// The month number that `get_month_string` names: the month, held to the
/// range `1..=11`.
pub open spec fn shown_month(month: u8) -> int {
    if month > 11 { 11 } else if month < 1 { 1 } else { month as int }
}

/// The text `get_year_string` gives for a stored year.
pub open spec fn year_label(year: u8) -> Seq<char> {
    if year > 100 {
        decimal(year as nat)
    } else {
        "20"@ + decimal(year as nat)
    }
}

/// The value of an optional date field, or `err`.
pub open spec fn field_value<T>(op: Option<Seq<char>>, err: T) -> Result<u8, T> {
    match op {
        None => Err(err),
        Some(s) => match parse_unsigned(s, 255) {
            Ok(v) => Ok(v as u8),
            Err(_) => Err(err),
        },
    }
}

/// The `i`-th piece of `p`, if there is one.
pub open spec fn piece(p: Seq<Seq<char>>, i: int) -> Option<Seq<char>> {
    if 0 <= i < p.len() {
        Some(p[i])
    } else {
        None
    }
}

/// The date that a name `day-month-year` denotes; the pieces are read in
/// that order and the first that fails names the error; pieces after the
/// third are ignored.
pub open spec fn file_date_of(s: Seq<char>) -> Result<FileDate, FileDateError> {
    let p = split(s, '-');
    match field_value(piece(p, 0), FileDateError::FailedToParseDay) {
        Err(e) => Err(e),
        Ok(day) => match field_value(piece(p, 1), FileDateError::FailedToParseMonth) {
            Err(e) => Err(e),
            Ok(month) => match field_value(piece(p, 2), FileDateError::FailedToParseYear) {
                Err(e) => Err(e),
                Ok(year) => Ok(FileDate { day, month, year }),
            },
        },
    }
}

/// A number that grows with the date: year first, then month, then day.
pub open spec fn date_rank(d: FileDate) -> int {
    d.year as int * 65536 + d.month as int * 256 + d.day as int
}

/// The order of the backups list: a later date comes first.
pub open spec fn later_first(a: FileDate, b: FileDate) -> Ordering {
    if date_rank(a) > date_rank(b) {
        Ordering::Less
    } else if date_rank(a) == date_rank(b) {
        Ordering::Equal
    } else {
        Ordering::Greater
    }
}

impl FileDate {
    /// Reads an optional text as a date field: `err` when it is absent or
    /// is not a `u8`.
    pub fn convert_option<T: Copy>(op: Option<&str>, err: T) -> (res: Result<u8, T>)
        ensures
            res == field_value(
                match op {
                    None => None,
                    Some(s) => Some(s@),
                },
                err,
            ),
    {
        match op {
            None => Err(err),
            Some(s) => {
                let c = chars_of(s);
                match parse_unsigned_chars(&c, 255) {
                    Ok(v) => Ok(v as u8),
                    Err(_) => Err(err),
                }
            },
        }
    }

    /// The name of the month, with the month held to `1..=11`.
    pub fn get_month_string(&self) -> (res: &'static str)
        ensures
            res@ == month_label(shown_month(self.month) - 1),
    {
        let m = if self.month > 11 { 11 } else if self.month < 1 { 1 } else { self.month };
        if m == 1 { "Janeiro" }
        else if m == 2 { "Fevereiro" }
        else if m == 3 { "Março" }
        else if m == 4 { "Abril" }
        else if m == 5 { "Maio" }
        else if m == 6 { "Junho" }
        else if m == 7 { "Julho" }
        else if m == 8 { "Agosto" }
        else if m == 9 { "Setembro" }
        else if m == 10 { "Outubro" }
        else { "Novembro" }
    }

    /// The year for display: the stored number when above 100, else the
    /// stored number after "20".
    pub fn get_year_string(&self) -> (res: String)
        ensures
            res@ == year_label(self.year),
    {
        let mut out: Vec<char> = Vec::new();
        if self.year <= 100 {
            out.push('2');
            out.push('0');
        }
        push_decimal(&mut out, self.year as u64);
        proof {
            reveal_strlit("20");
            if self.year <= 100 {
                assert(seq!['2', '0'] =~= "20"@);
            }
        }
        assert(self.year > 100 ==> out@ =~= decimal(self.year as nat));
        assert(self.year <= 100 ==> out@ =~= "20"@ + decimal(self.year as nat));
        string_of(&out)
    }

    /// Reads a date from a name `day-month-year`.
    pub fn try_from(value: &str) -> (res: Result<FileDate, FileDateError>)
        ensures
            res == file_date_of(value@),
    {
        let c = chars_of(value);
        let pieces = split_chars(&c, '-');
        let ghost p = split(value@, '-');
        proof {
            lemma_split_len(value@, '-');
        }
        let first = string_of(&pieces[0]);
        let day = match Self::convert_option(Some(first.as_str()), FileDateError::FailedToParseDay) {
            Ok(v) => v,
            Err(e) => return Err(e),
        };
        let month = if pieces.len() > 1 {
            let second = string_of(&pieces[1]);
            Self::convert_option(Some(second.as_str()), FileDateError::FailedToParseMonth)
        } else {
            Self::convert_option(None, FileDateError::FailedToParseMonth)
        };
        let month = match month {
            Ok(v) => v,
            Err(e) => return Err(e),
        };
        let year = if pieces.len() > 2 {
            let third = string_of(&pieces[2]);
            Self::convert_option(Some(third.as_str()), FileDateError::FailedToParseYear)
        } else {
            Self::convert_option(None, FileDateError::FailedToParseYear)
        };
        let year = match year {
            Ok(v) => v,
            Err(e) => return Err(e),
        };
        Ok(FileDate { day, month, year })
    }

    /// Orders dates with the later one first: by year, then month, then
    /// day, each compared the other way round.
    pub fn cmp(&self, other: &FileDate) -> (res: Ordering)
        ensures
            res == later_first(*self, *other),
    {
        if self.year != other.year {
            if self.year > other.year { Ordering::Less } else { Ordering::Greater }
        } else if self.month != other.month {
            if self.month > other.month { Ordering::Less } else { Ordering::Greater }
        } else if self.day != other.day {
            if self.day > other.day { Ordering::Less } else { Ordering::Greater }
        } else {
            Ordering::Equal
        }
    }
}

/// Two dates compare equal exactly when they are the same date.
pub proof fn law_order_equal_iff_same(a: FileDate, b: FileDate)
    ensures
        (later_first(a, b) == Ordering::Equal) <==> a == b,
{
}

/// Swapping the two dates reverses the answer.
pub proof fn law_order_antisymmetric(a: FileDate, b: FileDate)
    ensures
        later_first(a, b) == Ordering::Less <==> later_first(b, a) == Ordering::Greater,
{
}

/// The order is transitive.
pub proof fn law_order_transitive(a: FileDate, b: FileDate, c: FileDate)
    requires
        later_first(a, b) != Ordering::Greater,
        later_first(b, c) != Ordering::Greater,
    ensures
        later_first(a, c) != Ordering::Greater,
        later_first(a, b) == Ordering::Less || later_first(b, c) == Ordering::Less ==> later_first(a, c)
            == Ordering::Less,
{
}

/// A later year always comes first, whatever the month and day.
pub proof fn law_later_year_first(a: FileDate, b: FileDate)
    requires
        a.year > b.year,
    ensures
        later_first(a, b) == Ordering::Less,
{
}

/// The text `day-month-year` of a date, each field in decimal.
pub open spec fn date_text(d: FileDate) -> Seq<char> {
    decimal(d.day as nat) + seq!['-'] + decimal(d.month as nat) + seq!['-'] + decimal(d.year as nat)
}

proof fn lemma_decimal_no_dash(n: nat)
    ensures
        free_of(decimal(n), '-'),
{
    lemma_decimal_digits(n);
    assert forall|i: int| 0 <= i < decimal(n).len() implies decimal(n)[i] != '-' by {
        assert(is_digit(decimal(n)[i]));
    }
}

/// Reading the text `day-month-year` of any date gives that date back.
pub proof fn law_date_text_round_trip(d: FileDate)
    ensures
        file_date_of(date_text(d)) == Ok::<FileDate, FileDateError>(d),
{
    let a = decimal(d.day as nat);
    let b = decimal(d.month as nat);
    let c = decimal(d.year as nat);
    lemma_decimal_no_dash(d.day as nat);
    lemma_decimal_no_dash(d.month as nat);
    lemma_decimal_no_dash(d.year as nat);
    assert(date_text(d) =~= a.push('-') + (b.push('-') + c));
    lemma_split_concat(b, c, '-');
    lemma_split_free(b, '-');
    lemma_split_free(c, '-');
    lemma_split_concat(a, b.push('-') + c, '-');
    lemma_split_free(a, '-');
    assert(split(date_text(d), '-') =~= seq![a, b, c]);
    lemma_parse_decimal(d.day as nat, 255);
    lemma_parse_decimal(d.month as nat, 255);
    lemma_parse_decimal(d.year as nat, 255);
}

} // verus!
