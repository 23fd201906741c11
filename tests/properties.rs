use motto::{Document, Fragment, Source};

fn store_of<'a>(text: &'a Document, fragment: &Fragment) -> &'a motto::IndexedString {
    match fragment.source {
        Source::Original => text.original(),
        Source::Insertion => text.insertions(),
    }
}

fn assert_partition(text: &Document) {
    let mut expected_key = 0;
    for (key, fragment) in text.fragments().iter() {
        assert_eq!(*key, expected_key);
        expected_key += fragment.byte_length;
    }
    assert_eq!(text.len(), expected_key);
    assert!(!text.fragments().is_empty());
}

fn concatenated_slices(text: &Document) -> String {
    text.fragments()
        .iter()
        .map(|(_, fragment)| fragment.get_slice(store_of(text, fragment)))
        .collect()
}

fn assert_linebreaks_exact(store: &motto::IndexedString) {
    let expected: Vec<usize> = store
        .as_bytes()
        .iter()
        .enumerate()
        .filter(|(_, byte)| **byte == b'\n')
        .map(|(index, _)| index)
        .collect();
    let indexed: Vec<usize> = store.linebreaks().iter().cloned().collect();
    assert_eq!(indexed, expected);
}

fn edited() -> Document {
    let mut text = Document::from("alpha\nbeta");
    text.insert(5, " one");
    text.insert(0, ">> ");
    text.delete(&(4..9));
    text.insert(7, "\ntwo\n");
    text.delete(&(1..2));
    text
}

#[test]
fn keys_partition_the_text_after_edits() {
    let text = edited();
    assert_partition(&text);
}

#[test]
fn render_is_the_concatenation_of_slices() {
    let text = edited();
    assert_eq!(text.render(), concatenated_slices(&text));
    assert_eq!(text.render(), "> aone\ntwo\n\nbeta");
}

#[test]
fn stores_only_grow() {
    let mut text = Document::from("abc");
    let original = text.original().render();
    let mut inserted = text.insertions().len();

    text.insert(1, "xy");
    assert!(text.insertions().len() >= inserted);
    inserted = text.insertions().len();
    text.delete(&(0..4));
    assert_eq!(text.insertions().len(), inserted);
    text.insert(0, "z");
    assert!(text.insertions().len() >= inserted);
    assert_eq!(text.original().render(), original);
    assert_eq!(text.insertions().render(), "xyz");
}

#[test]
fn delete_length_law() {
    let mut text = Document::from("0123456789");
    text.delete(&(2..5));
    assert_eq!(text.len(), 7);
    assert_eq!(text.render(), "0156789");

    let mut clamped = Document::from("0123456789");
    clamped.delete(&(6..40));
    assert_eq!(clamped.len(), 6);
    assert_eq!(clamped.render(), "012345");
}

#[test]
fn insert_length_law() {
    let mut text = Document::from("0123456789");
    text.insert(4, "abc");
    assert_eq!(text.len(), 13);
    assert_eq!(&text.render()[4..7], "abc");
}

#[test]
fn insert_then_delete_round_trip() {
    let mut text = edited();
    let before = text.render();
    text.insert(3, "temporary");
    text.delete(&(3..12));
    assert_eq!(text.render(), before);
    assert_partition(&text);
}

#[test]
fn linebreak_indexes_stay_exact() {
    let text = edited();
    assert_linebreaks_exact(text.original());
    assert_linebreaks_exact(text.insertions());
}

#[test]
fn scenario_three_fragments_keys() {
    let mut text = Document::from("original");
    text.insert(8, " with");
    text.insert(13, " insertions");
    let keys: Vec<usize> = text.fragments().iter().map(|(key, _)| *key).collect();
    assert_eq!(keys, vec![0, 8, 13]);
}

#[test]
fn split_keeps_keys_contiguous() {
    let mut text = Document::from("original");
    text.insert(8, " with");
    text.insert(13, " insertions");
    text.delete(&(14..20));
    assert_eq!(text.render(), "original with ions");
    assert_eq!(text.len(), 18);
    assert_partition(&text);

    let mut early = Document::from("0123456789");
    early.insert(10, "abc");
    early.delete(&(1..9));
    assert_eq!(early.render(), "09abc");
    assert_partition(&early);
}

#[test]
fn empty_range_deletes_nothing() {
    let mut text = Document::from("abcdef");
    text.insert(3, "XY");
    text.delete(&(4..4));
    assert_eq!(text.render(), "abcXYdef");
    assert_partition(&text);
}

#[test]
fn deleting_everything_leaves_an_empty_document() {
    let mut text = Document::from("abc");
    text.insert(3, "def");
    text.delete(&(0..6));
    assert_eq!(text.render(), "");
    assert_eq!(text.len(), 0);
    assert_eq!(text.fragments().len(), 1);

    text.insert(0, "again");
    assert_eq!(text.render(), "again");
    assert_partition(&text);
}

#[test]
fn inserting_into_an_empty_document_replaces_the_empty_fragment() {
    let mut text = Document::new();
    text.insert(0, "first");
    assert_eq!(text.fragments().to_vec(), vec![(0, Fragment::of_insertion(0, 5))]);
    assert_eq!(text.render(), "first");
}

#[test]
fn inserting_nothing_changes_nothing() {
    let mut text = Document::from("abc");
    text.insert(1, "");
    assert_eq!(text.render(), "abc");
    assert_eq!(text.fragments().len(), 1);
}

#[test]
fn insert_at_the_end_appends() {
    let mut text = Document::from("head");
    text.insert(4, " tail");
    text.insert(9, "!");
    assert_eq!(text.render(), "head tail!");
    assert_partition(&text);
}

#[test]
fn multibyte_text_renders_when_aligned() {
    let mut text = Document::from("h\u{e9}llo");
    text.insert(3, "\u{1f600}");
    assert_eq!(text.render(), "h\u{e9}\u{1f600}llo");
    assert_eq!(text.render_bytes().len(), 10);
}

#[test]
fn operation_for_fragment_classifies_each_case() {
    let text = Document::new();
    let covers = text.get_operation_for_fragment(motto::DeletionRange { fragment: 5..9, deletion: 2..12 });
    assert_eq!(covers.operation, motto::FragmentOperation::Delete(4));
    let inside = text.get_operation_for_fragment(motto::DeletionRange { fragment: 5..9, deletion: 6..8 });
    assert_eq!(inside.operation, motto::FragmentOperation::Split(6, 8));
    let right = text.get_operation_for_fragment(motto::DeletionRange { fragment: 5..9, deletion: 7..12 });
    assert_eq!(right.operation, motto::FragmentOperation::Trim(0, 2));
    let left = text.get_operation_for_fragment(motto::DeletionRange { fragment: 5..9, deletion: 1..6 });
    assert_eq!(left.operation, motto::FragmentOperation::Trim(1, 0));
    let apart = text.get_operation_for_fragment(motto::DeletionRange { fragment: 5..9, deletion: 9..12 });
    assert_eq!(apart.operation, motto::FragmentOperation::Keep);
    assert_eq!(apart.key, 5);
    assert_eq!(apart.move_to, 5);
}

#[test]
fn deleted_byte_counts() {
    let text = Document::new();
    assert_eq!(text.calc_deleted_bytes(&motto::FragmentOperation::Split(3, 7)), 4);
    assert_eq!(text.calc_deleted_bytes(&motto::FragmentOperation::Trim(2, 5)), 7);
    assert_eq!(text.calc_deleted_bytes(&motto::FragmentOperation::Delete(9)), 9);
    assert_eq!(text.calc_deleted_bytes(&motto::FragmentOperation::Keep), 0);
}
