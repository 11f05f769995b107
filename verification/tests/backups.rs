use rs_grill::backups::{is_csv_backup, month_selection, sort_backups, starts_month, strip_extension, toggle_selection};
use rs_grill::export::export_file_name;
use rs_grill::sort_dates::FileDate;

fn s(v: &[&str]) -> Vec<String> {
    v.iter().map(|x| x.to_string()).collect()
}

#[test]
fn extension_is_what_follows_the_last_dot() {
    assert_eq!(strip_extension("5-3-24.csv"), "5-3-24");
    assert_eq!(strip_extension("a.b.csv"), "a.b");
    assert_eq!(strip_extension(".csv"), "");
    assert_eq!(strip_extension("x."), "x");
}

#[test]
fn backups_are_listed_latest_first() {
    let (dated, unknown) = sort_backups(&s(&["1-3-24.csv", "notas.csv", "15-2-24.csv", "2-3-24.csv", "31-12-23.csv"]));
    let stems: Vec<&str> = dated.iter().map(|d| d.0.as_str()).collect();
    assert_eq!(stems, vec!["2-3-24", "1-3-24", "15-2-24", "31-12-23"]);
    assert_eq!(dated[0].1, FileDate { day: 2, month: 3, year: 24 });
    assert_eq!(unknown, s(&["notas"]));
}

#[test]
fn backups_of_the_same_day_keep_their_order() {
    let (dated, _) = sort_backups(&s(&["01-3-24.csv", "1-3-24.csv", "1-03-24.csv"]));
    let stems: Vec<&str> = dated.iter().map(|d| d.0.as_str()).collect();
    assert_eq!(stems, vec!["01-3-24", "1-3-24", "1-03-24"]);
}

#[test]
fn a_report_name_lists_as_its_day() {
    let name = export_file_name(7, 11, 2023);
    let stem = name.strip_suffix(".xlsx").unwrap().to_string();
    let (dated, _) = sort_backups(&vec![format!("{stem}.csv")]);
    assert_eq!(dated[0].0, stem);
    assert_eq!(dated[0].1, FileDate { day: 7, month: 11, year: 23 });
}

#[test]
fn month_headers() {
    let (dated, _) = sort_backups(&s(&["2-3-24.csv", "1-3-24.csv", "15-2-24.csv", "15-2-23.csv"]));
    assert!(starts_month(&dated, 0));
    assert!(!starts_month(&dated, 1));
    assert!(starts_month(&dated, 2));
    assert!(starts_month(&dated, 3));
}

#[test]
fn ticking_and_unticking_a_backup() {
    let sel = toggle_selection(&s(&["1-3-24.csv"]), "2-3-24", false);
    assert_eq!(sel, s(&["1-3-24.csv", "2-3-24.csv"]));
    let sel = toggle_selection(&s(&["2-3-24.csv", "1-3-24.csv", "2-3-24.csv"]), "2-3-24", true);
    assert_eq!(sel, s(&["1-3-24.csv"]));
}

#[test]
fn ticking_a_month() {
    let (dated, _) = sort_backups(&s(&["2-3-24.csv", "1-3-24.csv", "15-2-24.csv"]));
    let march = FileDate { day: 9, month: 3, year: 24 };
    let sel = month_selection(&dated, &s(&["15-2-24.csv", "1-3-24.csv"]), march);
    assert_eq!(sel, s(&["15-2-24.csv", "1-3-24.csv", "2-3-24.csv", "1-3-24.csv"]));
    let sel = month_selection(&dated, &sel, march);
    assert_eq!(sel, s(&["15-2-24.csv"]));
}

#[test]
fn only_csv_files_are_backups() {
    assert!(is_csv_backup("5-3-24.csv"));
    assert!(is_csv_backup("a.b.csv"));
    assert!(is_csv_backup("..csv"));
    assert!(!is_csv_backup(".csv"));
    assert!(!is_csv_backup("5-3-24.xlsx"));
    assert!(!is_csv_backup("csv"));
    assert!(!is_csv_backup("5-3-24.csv.bak"));
    assert!(!is_csv_backup("x.CSV"));
    assert!(!is_csv_backup(""));
}
