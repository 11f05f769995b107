use rs_grill::payment::Payment;
use rs_grill::sort_dates::{FileDate, FileDateError};
use std::cmp::Ordering;

#[test]
fn payment_iter_lists_every_method_in_screen_order() {
    let all = Payment::iter();
    assert_eq!(
        all,
        vec![Payment::NotSelected, Payment::Debit, Payment::Credit, Payment::Money, Payment::Pix]
    );
}

#[test]
fn payment_labels() {
    assert_eq!(Payment::NotSelected.to_string(), "Metodo de pagamento");
    assert_eq!(Payment::Debit.to_string(), "Débito");
    assert_eq!(Payment::Credit.to_string(), "Crédito");
    assert_eq!(Payment::Pix.to_string(), "Pix");
    assert_eq!(Payment::Money.to_string(), "Dinheiro");
}

#[test]
fn payment_from_label_reads_each_label_back() {
    for p in Payment::iter() {
        assert_eq!(Payment::from_label(p.to_string()), p);
        let owned: Payment = p.to_string().to_string().into();
        assert_eq!(owned, p);
    }
}

#[test]
fn payment_unknown_label_is_not_selected() {
    assert_eq!(Payment::from_label("debito"), Payment::NotSelected);
    assert_eq!(Payment::from_label(""), Payment::NotSelected);
    assert_eq!(Payment::from_label(" Pix"), Payment::NotSelected);
    assert_eq!(Payment::default(), Payment::NotSelected);
}

#[test]
fn file_date_reads_day_month_year() {
    assert_eq!(FileDate::try_from("12-5-24"), Ok(FileDate { day: 12, month: 5, year: 24 }));
    assert_eq!(FileDate::try_from("01-02-03"), Ok(FileDate { day: 1, month: 2, year: 3 }));
    assert_eq!(FileDate::try_from("+1-2-3"), Ok(FileDate { day: 1, month: 2, year: 3 }));
}

#[test]
fn file_date_ignores_pieces_after_the_year() {
    assert_eq!(FileDate::try_from("1-2-3-4"), Ok(FileDate { day: 1, month: 2, year: 3 }));
    assert_eq!(FileDate::try_from("1-2-3-x"), Ok(FileDate { day: 1, month: 2, year: 3 }));
}

#[test]
fn file_date_errors_name_the_first_bad_field() {
    assert_eq!(FileDate::try_from("x-2-3"), Err(FileDateError::FailedToParseDay));
    assert_eq!(FileDate::try_from(""), Err(FileDateError::FailedToParseDay));
    assert_eq!(FileDate::try_from("256-2-3"), Err(FileDateError::FailedToParseDay));
    assert_eq!(FileDate::try_from("1"), Err(FileDateError::FailedToParseMonth));
    assert_eq!(FileDate::try_from("1-x-3"), Err(FileDateError::FailedToParseMonth));
    assert_eq!(FileDate::try_from("1-2"), Err(FileDateError::FailedToParseYear));
    assert_eq!(FileDate::try_from("1-2-"), Err(FileDateError::FailedToParseYear));
    assert_eq!(FileDate::try_from("1-2- 3"), Err(FileDateError::FailedToParseYear));
}

#[test]
fn convert_option_reports_the_given_error() {
    assert_eq!(FileDate::convert_option(None, 7u8), Err(7));
    assert_eq!(FileDate::convert_option(Some("x"), 7u8), Err(7));
    assert_eq!(FileDate::convert_option(Some("255"), 7u8), Ok(255));
    assert_eq!(FileDate::convert_option(Some("256"), 7u8), Err(7));
    assert_eq!(FileDate::convert_option(Some("-0"), 7u8), Err(7));
}

#[test]
fn month_names_are_held_to_january_through_november() {
    let d = |month| FileDate { day: 1, month, year: 24 };
    assert_eq!(d(1).get_month_string(), "Janeiro");
    assert_eq!(d(3).get_month_string(), "Março");
    assert_eq!(d(11).get_month_string(), "Novembro");
    assert_eq!(d(12).get_month_string(), "Novembro");
    assert_eq!(d(0).get_month_string(), "Janeiro");
}

#[test]
fn year_strings() {
    let d = |year| FileDate { day: 1, month: 1, year };
    assert_eq!(d(24).get_year_string(), "2024");
    assert_eq!(d(5).get_year_string(), "205");
    assert_eq!(d(100).get_year_string(), "20100");
    assert_eq!(d(101).get_year_string(), "101");
    assert_eq!(d(0).get_year_string(), "200");
}

#[test]
fn later_dates_come_first() {
    let a = FileDate { day: 1, month: 1, year: 24 };
    let b = FileDate { day: 31, month: 12, year: 23 };
    let c = FileDate { day: 2, month: 1, year: 24 };
    assert_eq!(a.cmp(&b), Ordering::Less);
    assert_eq!(b.cmp(&a), Ordering::Greater);
    assert_eq!(c.cmp(&a), Ordering::Less);
    assert_eq!(a.cmp(&a), Ordering::Equal);
    let d = FileDate { day: 1, month: 2, year: 24 };
    assert_eq!(d.cmp(&c), Ordering::Less);
}

fn hash_of<T: std::hash::Hash + ?Sized>(t: &T) -> u64 {
    let mut s = std::collections::hash_map::DefaultHasher::new();
    t.hash(&mut s);
    std::hash::Hasher::finish(&s)
}

#[test]
fn a_payment_hashes_as_its_label() {
    for p in Payment::iter() {
        assert_eq!(hash_of(&p), hash_of(p.to_string()));
    }
    assert_ne!(hash_of(&Payment::Pix), hash_of(&Payment::Money));
}

#[test]
fn any_date_reads_back_from_its_text() {
    for (day, month, year) in [(0u8, 0u8, 0u8), (1, 2, 3), (31, 12, 99), (255, 255, 255), (9, 10, 100)] {
        let d = FileDate { day, month, year };
        let text = format!("{}-{}-{}", day, month, year);
        assert_eq!(FileDate::try_from(text.as_str()), Ok(d));
    }
}
