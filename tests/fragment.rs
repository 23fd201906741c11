use motto::{Fragment, IndexedString, Source};

#[test]
fn test_from_string() {
    let source = IndexedString::from("content");
    let frag = Fragment::from_string(&source);

    assert_eq!(frag.source, Source::Original);
    assert_eq!(frag.byte_length, source.len());
    assert_eq!(frag.byte_offset, 0);
}

#[test]
fn test_get_slice() {
    let source = IndexedString::from("content");
    let frag = Fragment::from_string(&source);

    assert_eq!(frag.get_slice(&source), "content");
}

#[test]
fn test_original_constructor() {
    let frag = Fragment::of_original(1, 5);

    assert_eq!(frag.source, Source::Original);
    assert_eq!(frag.byte_offset, 1);
    assert_eq!(frag.byte_length, 5);
}

#[test]
fn test_insertion_constructor() {
    let frag = Fragment::of_insertion(5, 10);

    assert_eq!(frag.source, Source::Insertion);
    assert_eq!(frag.byte_offset, 5);
    assert_eq!(frag.byte_length, 10);
}

#[test]
fn test_fragment_substring_slice() {
    let frag = Fragment::of_original(2, 5);
    let source = IndexedString::from("first second third");
    let slice = frag.get_slice(&source);

    assert_eq!(slice, "rst s");
}

#[test]
fn slice_bytes_of_a_window() {
    let frag = Fragment::of_insertion(3, 4);
    let source = IndexedString::from("0123456789");

    assert_eq!(frag.slice_bytes(&source), b"3456".to_vec());
}

#[test]
fn resize_moves_the_window() {
    let mut frag = Fragment::of_original(2, 5);
    frag.resize(4, 1);

    assert_eq!(frag, Fragment::of_original(4, 1));
}
