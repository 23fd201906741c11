use motto::SourceText;

#[test]
fn source_text_test_empty_text_construction() {
    let text = SourceText::new();

    assert_eq!(text.source().len(), 0);
    assert_eq!(text.insertions().len(), 0);
}

#[test]
fn source_text_test_filled_construction() {
    let text = "Initial value";
    let st = SourceText::from(text);

    assert_eq!(st.source().len(), text.len());
    assert_eq!(st.insertions().len(), 0);
}

#[test]
fn source_text_test_simple_initial_fragment_list() {
    let text = SourceText::from("value");

    assert_eq!(text.fragments().len(), 1);

    let fragment = &text.fragments()[0];
    assert_eq!(fragment.byte_offset, 0);
    assert_eq!(fragment.byte_length, text.source().len());
    assert_eq!(fragment.is_new, false);
}

#[test]
fn source_text_test_simple_empty_fragment_list() {
    let text = SourceText::new();

    assert_eq!(text.fragments().len(), 1);

    let fragment = &text.fragments()[0];
    assert_eq!(fragment.byte_offset, 0);
    assert_eq!(fragment.byte_length, 0);
    assert_eq!(fragment.is_new, false);
}

#[test]
fn source_fragment_records_its_line_breaks() {
    let text = SourceText::from("one\ntwo\nthree");

    assert_eq!(text.fragments()[0].lines, vec![3, 7]);
}
