//! Text export of a PDF: what becomes of the text that lopdf extracts from
//! every page. A document with no text (only scanned images) is refused.
//!
//! The parse and the extraction themselves are made by the caller: lopdf
//! can panic (an object-stream index past the end of its data) or recurse
//! without end (a page tree whose `/Parent` links loop) on a malformed
//! file, and no condition on the bytes short of running it says which
//! files do so.

use vstd::prelude::*;

use crate::chars::all_ws;
use crate::pdf::check_extracted_text;

verus! {

/// A `Result` of strings seen as character sequences.
pub open spec fn text_result(r: Result<String, String>) -> Result<Seq<char>, Seq<char>> {
    match r {
        Ok(s) => Ok(s@),
        Err(e) => Err(e@),
    }
}

/// The message given for a document without text.
pub open spec fn no_text_message() -> Seq<char> {
    "Nenhum texto encontrado (o PDF pode ser apenas imagens escaneadas)."@
}

/// What becomes of an extraction: its error stays; blank text is refused;
/// other text is kept.
pub open spec fn kept_text(extracted: Result<Seq<char>, Seq<char>>) -> Result<Seq<char>, Seq<char>> {
    match extracted {
        Err(e) => Err(e),
        Ok(t) => if all_ws(t) {
            Err(no_text_message())
        } else {
            Ok(t)
        },
    }
}

/// Keeps extracted text unless it is blank; an error of the parse or of the
/// extraction is passed on.
pub fn keep_extracted_text(extracted: Result<String, String>) -> (r: Result<String, String>)
    ensures
        text_result(r) == kept_text(text_result(extracted)),
{
    match extracted {
        Err(e) => Err(e),
        Ok(text) => match check_extracted_text(text.as_str()) {
            Ok(()) => Ok(text),
            Err(e) => Err(e),
        },
    }
}

} // verus!
