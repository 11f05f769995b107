use rs_grill::cache::{saved_comand_text, SavedLine};
use rs_grill::export::get_comands;
use rs_grill::payment::Payment;

fn line(name: &str, quantity: u32, unit: &str, total: &str) -> SavedLine {
    SavedLine { name: name.to_string(), quantity, unit_price: unit.to_string(), total: total.to_string() }
}

#[test]
fn a_saved_comand_is_written_as_its_block_of_lines() {
    let lines = vec![line("coca", 2, "5.00", "10.00"), line("picanha(mal)", 1, "40.00", "40.00")];
    let text = saved_comand_text("mesa 1", &lines, Payment::Pix, "50.00");
    assert_eq!(
        text,
        "mesa 1\nPedido,Unidades,Unitario,Total\ncoca,2,R$5.00,R$10.00\npicanha(mal),1,R$40.00,R$40.00\ntotal,Pix,R$50.00\n\n"
    );
}

#[test]
fn a_comand_without_lines_keeps_its_heading_and_total() {
    let text = saved_comand_text("balcão", &Vec::new(), Payment::NotSelected, "0.00");
    assert_eq!(text, "balcão\nPedido,Unidades,Unitario,Total\ntotal,Metodo de pagamento,R$0.00\n\n");
}

#[test]
fn saved_comands_read_back_in_order() {
    let mut cache = String::new();
    cache.push_str(&saved_comand_text("mesa 1", &vec![line("coca", 2, "5.00", "10.00")], Payment::Debit, "10.00"));
    cache.push_str(&saved_comand_text("  mesa 2 ", &vec![line("agua", 3, "3.00", "9.00"), line("suco", 1, "7.50", "7.50")], Payment::Credit, "16.50"));
    let cs = get_comands(&cache);
    assert_eq!(cs.len(), 2);
    assert_eq!(cs[0].name, "mesa 1");
    assert_eq!(cs[0].payment, Payment::Debit);
    assert_eq!(cs[0].totals, vec!["10.00".to_string()]);
    assert_eq!(cs[0].values.len(), 1);
    assert_eq!(cs[0].values[0].name, "coca");
    assert_eq!(cs[0].values[0].quantity, "2");
    assert_eq!(cs[0].values[0].unit_price, "5.00");
    assert_eq!(cs[0].values[0].total, "10.00");
    assert_eq!(cs[1].name, "mesa 2");
    assert_eq!(cs[1].payment, Payment::Credit);
    assert_eq!(cs[1].totals, vec!["16.50".to_string()]);
    assert_eq!(cs[1].values.len(), 2);
    assert_eq!(cs[1].values[1].name, "suco");
    assert_eq!(cs[1].values[1].quantity, "1");
    assert_eq!(cs[1].values[1].unit_price, "7.50");
}

#[test]
fn a_comand_name_with_two_commas_does_not_read_back_as_a_name() {
    let cache = saved_comand_text("a,b,c", &Vec::new(), Payment::Pix, "0.00");
    let cs = get_comands(&cache);
    assert_eq!(cs.len(), 1);
    assert_eq!(cs[0].name, "");
    assert_eq!(cs[0].totals, vec!["c".to_string(), "0.00".to_string()]);
}
