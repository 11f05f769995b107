use rs_grill::export::Position;
use rs_grill::layout::export_layout;

#[test]
fn report_layout() {
    let names = vec![
        vec!["coca".to_string(), "agua".to_string()],
        vec![],
        vec!["coca".to_string()],
    ];
    let l = export_layout(&names);
    assert_eq!(l.comands.len(), 3);
    assert_eq!((l.comands[0].title_row, l.comands[0].first_line_row, l.comands[0].total_row), (1, 3, 5));
    assert_eq!(l.comands[0].line_totals.vec, vec![Position { col: 4, row: 3 }, Position { col: 4, row: 4 }]);
    assert_eq!((l.comands[1].title_row, l.comands[1].first_line_row, l.comands[1].total_row), (7, 9, 9));
    assert!(l.comands[1].line_totals.vec.is_empty());
    assert_eq!((l.comands[2].title_row, l.comands[2].first_line_row, l.comands[2].total_row), (11, 13, 14));
    assert_eq!(
        l.totals.vec,
        vec![Position { col: 3, row: 5 }, Position { col: 3, row: 9 }, Position { col: 3, row: 14 }]
    );
    let products: Vec<&str> = l.products.iter().map(|p| p.name.as_str()).collect();
    assert_eq!(products, vec!["agua", "coca"]);
    assert_eq!(l.products[1].cells.vec, vec![Position { col: 2, row: 3 }, Position { col: 2, row: 13 }]);
    assert_eq!(l.products[1].lines, vec![(0, 0), (2, 0)]);
    assert_eq!(l.products[0].lines, vec![(0, 1)]);
}
