use rs_grill::autocomplete::{candidates, highlighted, next_highlight, previous_highlight, suggestions_height};

#[test]
fn candidates_contain_the_trimmed_text() {
    let c = vec!["coca".to_string(), "picanha".to_string(), "cocada".to_string()];
    assert_eq!(candidates(&c, " coc "), vec!["coca".to_string(), "cocada".to_string()]);
    assert_eq!(candidates(&c, ""), Vec::<String>::new());
    assert_eq!(candidates(&c, "  "), c);
}

#[test]
fn highlight_moves_within_the_list() {
    assert_eq!(highlighted(5, 3), 2);
    assert_eq!(highlighted(1, 3), 1);
    assert_eq!(highlighted(4, 0), 0);
    assert_eq!(next_highlight(1, 3), 2);
    assert_eq!(next_highlight(2, 3), 2);
    assert_eq!(previous_highlight(2), 1);
    assert_eq!(previous_highlight(0), 0);
    assert_eq!(suggestions_height(1), 95);
    assert_eq!(suggestions_height(4), 300);
    assert_eq!(suggestions_height(0), 25);
}
