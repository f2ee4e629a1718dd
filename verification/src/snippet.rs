//! Snippet extraction: a bounded-length preview of a document's raw text.

use vstd::prelude::*;

verus! {

/// Number of leading characters of a document shown in a snippet.
pub const SNIPPET_LEN: usize = 80;

/// Why no snippet could be produced for a document.
#[derive(Debug, PartialEq, Eq, Structural, Clone, Copy)]
pub enum SnippetError {
    /// The document has fewer characters than a snippet needs.
    DocumentTooShort,
    /// The document could no longer be read from the store.
    DocumentUnavailable,
}

/// Builds the snippet for a document whose raw text was fetched from the
/// store: its first `SNIPPET_LEN` characters followed by an ellipsis marker.
///
/// `text` is `None` when the store could not deliver the document (for
/// example because it vanished between indexing and querying).
pub fn get_snippet(text: Option<&String>) -> (r: Result<String, SnippetError>)
    ensures
        match r {
            Ok(s) => text matches Some(t) && t@.len() >= SNIPPET_LEN && s@ == t@.subrange(
                0,
                SNIPPET_LEN as int,
            ) + "..."@,
            Err(SnippetError::DocumentUnavailable) => text is None,
            Err(SnippetError::DocumentTooShort) => (text matches Some(t)
                && t@.len() < SNIPPET_LEN),
        },
{
    match text {
        None => Err(SnippetError::DocumentUnavailable),
        Some(t) => {
            if t.as_str().unicode_len() < SNIPPET_LEN {
                Err(SnippetError::DocumentTooShort)
            } else {
                let prefix = t.as_str().substring_char(0, SNIPPET_LEN);
                Ok(String::from_str(prefix).concat("..."))
            }
        },
    }
}

} // verus!
