use motto::{Document, Fragment, FragmentOperation, FragmentUpdate, Source};

fn get_fragment_tuple(text: &Document, index: usize) -> (usize, Fragment) {
    text.fragments()[index]
}

fn get_fragment(text: &Document, index: usize) -> Fragment {
    get_fragment_tuple(text, index).1
}

#[test]
fn lib_test_empty_text_construction() {
    let text = Document::new();

    assert_eq!(text.original().len(), 0);
    assert_eq!(text.insertions().len(), 0);
}

#[test]
fn lib_test_filled_construction() {
    let text = "Initial value";
    let st = Document::from(text);

    assert_eq!(st.original().len(), text.len());
    assert_eq!(st.insertions().len(), 0);
}

#[test]
fn lib_test_simple_initial_fragment_list() {
    let text = Document::from("value");

    assert_eq!(text.fragments().len(), 1);

    let fragment = get_fragment(&text, 0);
    assert_eq!(fragment.byte_offset, 0);
    assert_eq!(fragment.byte_length, text.original().len());
    assert_eq!(fragment.source, Source::Original);
}

#[test]
fn lib_test_simple_empty_fragment_list() {
    let text = Document::new();

    assert_eq!(text.fragments().len(), 1);

    let fragment = get_fragment(&text, 0);
    assert_eq!(fragment.byte_offset, 0);
    assert_eq!(fragment.byte_length, 0);
    assert_eq!(fragment.source, Source::Original);
}

#[test]
fn lib_test_length() {
    let source = "hello world";
    let text = Document::from(&source);

    assert_eq!(text.len(), source.len());
}

#[test]
fn lib_test_display() {
    let source = "source text";
    let text = Document::from(&source);

    assert_eq!(text.render(), source);
}

#[test]
fn lib_test_insert_adds_insertion_string() {
    let mut text = Document::from("hello");
    text.insert(0, "first ");
    text.insert(0, "second ");
    text.insert(0, "third");

    assert_eq!(text.insertions().render(), "first second third");
}

#[test]
fn lib_test_appending_insert_fragment_construction() {
    let mut text = Document::from("hello");
    text.insert(5, " world!");

    let expected = (5, Fragment::of_insertion(0, 7));
    assert_eq!(text.fragments().len(), 2);
    assert_eq!(get_fragment_tuple(&text, 1), expected);
}

#[test]
fn lib_test_display_with_fragments() {
    let mut text = Document::from("original");
    text.insert(8, " with");
    text.insert(13, " insertions");

    assert_eq!(text.render(), "original with insertions");
}

#[test]
fn lib_test_find_affected_fragments() {
    let mut text = Document::from("original");
    text.insert(8, " with");
    text.insert(13, " insertions");

    assert_eq!(text.find_affected_fragments(&0).len(), 3);
    assert_eq!(text.find_affected_fragments(&1).len(), 3);
    assert_eq!(text.find_affected_fragments(&7).len(), 3);
    assert_eq!(text.find_affected_fragments(&8).len(), 2);
    assert_eq!(text.find_affected_fragments(&13).len(), 1);
}

#[test]
fn lib_test_fragment_delete_at_end_operation() {
    let mut text = Document::from("original");
    text.insert(8, " with");
    text.insert(13, " insertions");

    assert_eq!(
        text.get_changes_for_deletion(&(15..24)),
        vec![FragmentUpdate {
            operation: FragmentOperation::Trim(0, 9),
            move_to: 13,
            key: 13,
        }]
    );
}

#[test]
fn lib_test_fragment_delete_at_beginning() {
    let mut text = Document::from("original");
    text.insert(8, " with");
    text.insert(13, " insertions");

    assert_eq!(
        text.get_changes_for_deletion(&(13..22)),
        vec![FragmentUpdate {
            operation: FragmentOperation::Trim(9, 0),
            move_to: 13,
            key: 13,
        }]
    );
}

#[test]
fn lib_test_fragment_delete_entire_fragment() {
    let mut text = Document::from("original");
    text.insert(8, " with");
    text.insert(13, " insertions");

    assert_eq!(
        text.get_changes_for_deletion(&(13..24)),
        vec![FragmentUpdate {
            operation: FragmentOperation::Delete(11),
            move_to: 13,
            key: 13,
        }]
    );
}

#[test]
fn lib_test_delete_multiple_fragments() {
    let mut text = Document::from("original");
    text.insert(8, " with");
    text.insert(13, " insertions");

    assert_eq!(
        text.get_changes_for_deletion(&(8..32)),
        vec![
            FragmentUpdate {
                operation: FragmentOperation::Delete(5),
                move_to: 8,
                key: 8,
            },
            FragmentUpdate {
                operation: FragmentOperation::Delete(11),
                move_to: 8,
                key: 13,
            }
        ]
    );
}

#[test]
fn lib_test_delete_middle_of_fragment() {
    let mut text = Document::from("original");
    text.insert(8, " with");
    text.insert(13, " insertions");

    assert_eq!(
        text.get_changes_for_deletion(&(15..20)),
        vec![FragmentUpdate {
            operation: FragmentOperation::Split(15, 20),
            move_to: 13,
            key: 13,
        }]
    );
}

#[test]
fn lib_test_delete_fragment_beginning() {
    let mut text = Document::from("text");
    text.insert(4, " with fragments");
    text.delete(&(4..9));

    assert_eq!(text.render(), "text fragments");
}

#[test]
fn lib_test_deletion_adjusts_later_elements() {
    let mut text = Document::from("original");
    text.insert(8, " with");
    text.insert(13, " insertions");

    assert_eq!(
        text.get_changes_for_deletion(&(10..13)),
        vec![
            FragmentUpdate {
                operation: FragmentOperation::Trim(0, 3),
                move_to: 8,
                key: 8,
            },
            FragmentUpdate {
                operation: FragmentOperation::Keep,
                move_to: 10,
                key: 13,
            }
        ]
    );
}

#[test]
fn lib_test_deletion_split_adjusts_later_elements() {
    let mut text = Document::from("original");
    text.insert(8, " with");
    text.insert(13, " insertions");

    assert_eq!(
        text.get_changes_for_deletion(&(1..3)),
        vec![
            FragmentUpdate {
                operation: FragmentOperation::Split(1, 3),
                move_to: 0,
                key: 0,
            },
            FragmentUpdate {
                operation: FragmentOperation::Keep,
                move_to: 6,
                key: 8,
            },
            FragmentUpdate {
                operation: FragmentOperation::Keep,
                move_to: 11,
                key: 13,
            },
        ]
    );
}

#[test]
fn lib_test_delete_removes_deleted_fragments() {
    let mut text = Document::from("original");
    text.insert(8, " with");
    text.insert(13, " insertions");
    text.delete(&(13..24));

    assert_eq!(text.render(), "original with");
}

#[test]
fn lib_test_delete_trims_truncated_fragments() {
    let mut text = Document::from("original");
    text.insert(8, " with");
    text.insert(13, " insertions");
    text.delete(&(15..24));

    assert_eq!(text.render(), "original with i");
}

#[test]
fn lib_test_delete_can_split_fragments() {
    let mut text = Document::from("original");
    text.insert(8, " with");
    text.insert(13, " insertions");

    text.delete(&(14..20));

    assert_eq!(text.render(), "original with ions");
}

#[test]
fn lib_test_delete_works_across_fragments() {
    let mut text = Document::from("original");
    text.insert(8, " with");
    text.insert(13, " insertions");

    text.delete(&(7..19));

    assert_eq!(text.render(), "originations");
}

#[test]
fn test_insertion_fragment_creation() {
    let mut text = Document::new();

    assert_eq!(text.insertions().len(), 0);
    let insertion = text.create_insertion_fragment("content");
    assert_eq!(text.insertions().len(), insertion.byte_length);
}

#[test]
fn test_appending_insert_fragment_operations() {
    let mut text = Document::from("hello");
    let insert = text.create_insertion_fragment(" world!");

    assert_eq!(
        text.get_changes_for_insertion(6, insert.clone()),
        vec![FragmentUpdate {
            operation: FragmentOperation::Insert(6, insert),
            move_to: 0,
            key: 0,
        }]
    );
}

#[test]
fn test_insertions_adjust_later_elements() {
    let mut text = Document::new();
    text.insert(0, "original ");
    text.insert(9, "insertions");
    let insert = text.create_insertion_fragment("with ");

    assert_eq!(
        text.get_changes_for_insertion(8, insert.clone()),
        vec![
            FragmentUpdate {
                operation: FragmentOperation::Insert(8, insert.clone()),
                move_to: 0,
                key: 0,
            },
            FragmentUpdate {
                operation: FragmentOperation::Keep,
                move_to: 9 + insert.byte_length,
                key: 9,
            }
        ]
    )
}

#[test]
fn test_len_after_insertion_and_deletion() {
    let mut text = Document::from("origin");
    text.insert(6, "al");
    text.insert(8, " insertion");
    text.delete(&(15..18));

    assert_eq!(text.render(), "original insert");
    assert_eq!(text.len(), 15);
}

#[test]
fn test_prepending_insert() {
    let mut text = Document::from("text");
    text.insert(0, "prepended ");

    assert_eq!(text.render(), "prepended text");
}

#[test]
fn test_insert_middle_of_fragment() {
    let mut text = Document::from("text");
    text.insert(2, "-INSERTED-");

    assert_eq!(text.render(), "te-INSERTED-xt");
}
