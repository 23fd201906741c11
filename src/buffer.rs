//! An open document together with the identifier it is known by.

use crate::document::Document;
use vstd::prelude::*;
use vstd::string::StringSliceAdditionalSpecFns;

verus! {

/// The character at position `i` of a hyphenated lower-case UUID.
pub open spec fn is_uuid_char(i: int, c: char) -> bool {
    if i == 8 || i == 13 || i == 18 || i == 23 {
        c == '-'
    } else {
        ('0' <= c && c <= '9') || ('a' <= c && c <= 'f')
    }
}

/// A document and its identifier.
pub struct Buffer {
    document: Document,
    pub id: String,
}

impl Buffer {
    /// The document held.
    pub closed spec fn doc(&self) -> Document {
        self.document
    }

    /// The identifier.
    pub closed spec fn ident(&self) -> Seq<char> {
        self.id@
    }

    /// Relies on `uuid::Uuid::new_v4` for a random identifier, written by its
    /// `Display` impl in the lower-case hyphenated form: 36 characters, hyphens
    /// at 8, 13, 18 and 23, lower-case hex digits elsewhere.
    #[verifier::external_body]
    fn create_id() -> (r: String)
        ensures
            r@.len() == 36,
            forall|i: int| 0 <= i < 36 ==> #[trigger] is_uuid_char(i, r@[i]),
    {
        uuid::Uuid::new_v4().to_string()
    }

    /// A buffer over a new document holding `content`, under a fresh identifier.
    pub fn from_string(content: &str) -> (r: Self)
        ensures
            r.doc().wf(),
            r.doc()@ == content.spec_bytes(),
            r.ident().len() == 36,
            forall|i: int| 0 <= i < 36 ==> #[trigger] is_uuid_char(i, r.ident()[i]),
    {
        Buffer { document: Document::from(content), id: Buffer::create_id() }
    }

    /// The document held.
    pub fn document(&self) -> (r: &Document)
        ensures
            *r == self.doc(),
    {
        &self.document
    }

    /// The document's text.
    pub fn render(&self) -> (r: String)
        requires
            self.doc().wf(),
        ensures
            vstd::utf8::valid_utf8(self.doc()@) ==> vstd::utf8::encode_utf8(r@) == self.doc()@,
    {
        self.document.render()
    }
}

} // verus!
