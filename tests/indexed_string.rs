use motto::IndexedString;
use std::collections::BTreeSet;

fn get_linebreaks(text: IndexedString) -> Vec<usize> {
    text.linebreaks().iter().cloned().collect()
}

fn get_first_linebreak(text: IndexedString) -> usize {
    let linebreaks = get_linebreaks(text);

    *linebreaks.first().expect("Linebreaks set was empty.")
}

#[test]
fn indexed_string_test_construction() {
    let text = IndexedString::new();

    assert_eq!(text.as_bytes().len(), 0);
}

#[test]
fn test_populated_construction() {
    let text = IndexedString::from("slice");

    assert_eq!(text.render(), "slice".to_owned());
}

#[test]
fn test_no_newlines() {
    let text = IndexedString::from("single line");

    assert_eq!(*text.linebreaks(), BTreeSet::new());
}

#[test]
fn test_single_newline() {
    let text = IndexedString::from("first\nsecond");

    assert_eq!(text.linebreaks().len(), 1);
}

#[test]
fn test_multiple_newlines() {
    let text = IndexedString::from("first\nsecond\n\nfourth");

    assert_eq!(text.linebreaks().len(), 3);
}

#[test]
fn test_dangling_newline() {
    let text = IndexedString::from("line\n");

    assert_eq!(text.linebreaks().len(), 1);
}

#[test]
fn test_byte_indexing() {
    let text = IndexedString::from("line\n");

    assert_eq!(get_first_linebreak(text), 4);
}

#[test]
fn test_emoji_ignorance() {
    let elf_emoji = String::from_utf8(vec![
        240, 159, 167, 157, 226, 128, 141, 226, 153, 130, 239, 184, 143,
    ])
    .unwrap();

    let mut source = elf_emoji.clone();
    source.push('\n');

    let text = IndexedString::from(&source);

    let expected_offset = elf_emoji.bytes().len();
    assert_eq!(get_first_linebreak(text), expected_offset);
}

#[test]
fn test_string_append() {
    let mut text = IndexedString::from("hello");
    text.append(" world");

    assert_eq!(text.render(), "hello world".to_owned());
}

#[test]
fn test_line_append() {
    let mut text = IndexedString::from("first line");
    text.append("\nsecond line");

    assert_eq!(text.linebreaks().len(), 1);
    assert_eq!(get_first_linebreak(text), 10);
}

#[test]
fn test_line_length() {
    let text = IndexedString::from("value");

    assert_eq!(text.len(), text.as_bytes().len());
}

#[test]
fn test_to_string() {
    let text = IndexedString::from("value");

    assert_eq!(text.render(), "value".to_owned());
}

#[test]
fn append_keeps_earlier_linebreaks_and_adds_shifted_ones() {
    let mut text = IndexedString::from("a\nb\n");
    text.append("c\n\nd");

    assert_eq!(get_linebreaks(text), vec![1, 3, 5, 6]);
}

#[test]
fn carriage_return_is_not_indexed() {
    let text = IndexedString::from("a\r\nb\rc");

    assert_eq!(get_linebreaks(text), vec![2]);
}

#[test]
fn relative_linebreaks_of_a_window() {
    let text = IndexedString::from("ab\ncd\nef\n");

    assert_eq!(text.select_relative_linebreaks(1, 7), vec![1, 4]);
    assert_eq!(text.select_relative_linebreaks(3, 5), Vec::<usize>::new());
    assert_eq!(text.select_relative_linebreaks(0, 9), vec![2, 5, 8]);
}
