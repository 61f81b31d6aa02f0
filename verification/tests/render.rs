use list_zipper::{render, Zipper};

#[test]
fn render_of_nothing_is_an_empty_pair_of_brackets() {
    assert_eq!(render(&Vec::new()), "[]");
}

#[test]
fn render_of_one_part_has_no_separator() {
    assert_eq!(render(&vec!["x".to_string()]), "[x]");
}

#[test]
fn render_separates_with_comma_and_space() {
    let parts = vec!["a".to_string(), "b".to_string(), "c".to_string()];
    assert_eq!(render(&parts), "[a, b, c]");
}

#[test]
fn render_keeps_empty_parts() {
    let parts = vec![String::new(), String::new()];
    assert_eq!(render(&parts), "[, ]");
}

#[test]
fn render_counts_in_characters_not_bytes() {
    let parts = vec!["é".to_string(), "日本".to_string()];
    assert_eq!(render(&parts), "[é, 日本]");
}

#[test]
fn to_string_starts_at_the_focus() {
    let mut zipper = Zipper::from_vec(vec!["a", "b", "c"]);
    assert_eq!(zipper.to_string(), "[a, b, c]");
    zipper.step_backwards();
    assert_eq!(zipper.to_string(), "[c, a, b]");
    zipper.take_current_focus();
    assert_eq!(zipper.to_string(), "[a, b]");
}

#[test]
fn to_string_of_one_element() {
    let zipper = Zipper::from_vec(vec![42u8]);
    assert_eq!(zipper.to_string(), "[42]");
}
