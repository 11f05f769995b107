use rs_grill::export::{
    export_file_name, get_comands, payment_formula, product_formula, sum_formula, Position, Positions,
};
use rs_grill::payment::Payment;

const CACHE: &str = "mesa 1\nPedido,Unidades,Unitario,Total\ncoca,2,R$5.00,R$10.00\npicanha(mal),1,R$40.00,R$40.00\ntotal,Pix,R$50.00\n\n  mesa 2  \nPedido,Unidades,Unitario,Total\nagua,1,R$3.00,R$3.00\ntotal,Dinheiro,R$3.00\n\n";

#[test]
fn cache_is_read_into_comands() {
    let cs = get_comands(CACHE);
    assert_eq!(cs.len(), 2);
    assert_eq!(cs[0].name, "mesa 1");
    assert_eq!(cs[0].payment, Payment::Pix);
    assert_eq!(cs[0].totals, vec!["50.00".to_string()]);
    assert_eq!(cs[0].values.len(), 2);
    assert_eq!(cs[0].values[1].name, "picanha(mal)");
    assert_eq!(cs[0].values[1].quantity, "1");
    assert_eq!(cs[0].values[1].unit_price, "40.00");
    assert_eq!(cs[0].values[1].total, "40.00");
    assert_eq!(cs[1].name, "mesa 2");
    assert_eq!(cs[1].payment, Payment::Money);
}

#[test]
fn a_comand_without_a_closing_empty_line_is_not_read() {
    let cs = get_comands("mesa 1\ncoca,1,R$1,R$1\ntotal,Pix,R$1");
    assert_eq!(cs.len(), 0);
    let cs = get_comands("\n\n");
    assert_eq!(cs.len(), 2);
    assert_eq!(cs[0].name, "");
    assert_eq!(cs[0].payment, Payment::NotSelected);
    assert!(cs[0].totals.is_empty());
}

#[test]
fn cells_are_named_by_letter_and_row() {
    assert_eq!(Position { col: 1, row: 2 }.to_string(), "B3");
    assert_eq!(Position { col: 0, row: 0 }.to_string(), "A1");
    let p: Position = (258u16, 7u32).into();
    assert_eq!(p, Position { col: 2, row: 7 });
    let mut ps = Positions::default();
    assert_eq!(ps.to_string(), "");
    ps.push(Position { col: 2, row: 1 });
    ps.push(Position { col: 3, row: 9 });
    assert_eq!(ps.to_string(), "C2,D10");
}

#[test]
fn formulas() {
    let mut ps = Positions::default();
    ps.push(Position { col: 3, row: 4 });
    ps.push(Position { col: 3, row: 9 });
    assert_eq!(sum_formula(&ps), "=SUM(D5,D10)");
    assert_eq!(product_formula(Position { col: 2, row: 3 }, Position { col: 3, row: 3 }), "=C4*D4");
    assert_eq!(
        payment_formula(&ps, Payment::Pix),
        "=SUMIF(C5,\"Pix\",D5)+SUMIF(C10,\"Pix\",D10)"
    );
    assert_eq!(payment_formula(&Positions::default(), Payment::Pix), "");
}

#[test]
fn report_file_name() {
    assert_eq!(export_file_name(5, 3, 2024), "5-3-24.xlsx");
    assert_eq!(export_file_name(31, 12, 2005), "31-12-05.xlsx");
    assert_eq!(export_file_name(1, 1, 99), "1-1-.xlsx");
    assert_eq!(export_file_name(1, 1, -5), "1-1-.xlsx");
}
