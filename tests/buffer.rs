use motto::{Buffer, Editor};

#[test]
fn test_construction_from_string() {
    let buffer = Buffer::from_string("content");

    assert_eq!(buffer.render(), "content".to_owned());
}

#[test]
fn test_generates_uuid() {
    let buf1 = Buffer::from_string("content");
    let buf2 = Buffer::from_string("content");

    assert_ne!(buf1.id, buf2.id);
}

#[test]
fn buffer_id_is_a_hyphenated_uuid() {
    let buffer = Buffer::from_string("");

    assert_eq!(buffer.id.chars().count(), 36);
    for (i, c) in buffer.id.chars().enumerate() {
        if i == 8 || i == 13 || i == 18 || i == 23 {
            assert_eq!(c, '-');
        } else {
            assert!(c.is_ascii_digit() || ('a'..='f').contains(&c));
        }
    }
}

#[test]
fn test_editor_construction() {
    Editor::new();
}

#[test]
fn test_creates_new_buffer() {
    let editor = Editor::new();

    assert_eq!(editor.buffer_count(), 1);
}
