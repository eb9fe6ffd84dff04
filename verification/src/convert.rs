//! How a file is converted: which tool handles it, and the name of the
//! output when it would overwrite the input.

use vstd::prelude::*;
use crate::chars::str_equals;

verus! {

/// The kind of a file to convert.
#[derive(Clone, Copy, Debug, PartialEq, Eq, Structural)]
pub enum FileCategory {
    /// A PDF document.
    Document,
    /// A word-processor, spreadsheet or presentation file.
    Office,
    /// Audio, video or an image.
    Media,
}

/// The conversion that handles a file.
#[derive(Clone, Copy, Debug, PartialEq, Eq, Structural)]
pub enum ConvertRoute {
    PdfToText,
    PdfToImages,
    Office,
    ImageToPdf,
    TranscodeAudio,
    TranscodeMedia,
}

/// The conversion for a file of `category` to `format`: documents become
/// text or page images, office files go to the office converter, media
/// becomes a PDF, an audio file or another media file.
pub open spec fn route_for(category: FileCategory, format: Seq<char>, audio_format: bool) -> ConvertRoute {
    match category {
        FileCategory::Document => if format == "txt"@ {
            ConvertRoute::PdfToText
        } else {
            ConvertRoute::PdfToImages
        },
        FileCategory::Office => ConvertRoute::Office,
        FileCategory::Media => if format == "pdf"@ {
            ConvertRoute::ImageToPdf
        } else if audio_format {
            ConvertRoute::TranscodeAudio
        } else {
            ConvertRoute::TranscodeMedia
        },
    }
}

/// Picks the conversion `convert_file` runs; `audio_format` tells whether
/// `format` is an audio format.
pub fn conversion_route(category: FileCategory, format: &str, audio_format: bool) -> (r: ConvertRoute)
    ensures
        r == route_for(category, format@, audio_format),
        category == FileCategory::Office <==> r == ConvertRoute::Office,
        r == ConvertRoute::PdfToText <==> category == FileCategory::Document && format@ == "txt"@,
        r == ConvertRoute::PdfToImages ==> category == FileCategory::Document,
        r == ConvertRoute::ImageToPdf <==> category == FileCategory::Media && format@ == "pdf"@,
{
    match category {
        FileCategory::Document => if str_equals(format, "txt") {
            ConvertRoute::PdfToText
        } else {
            ConvertRoute::PdfToImages
        },
        FileCategory::Office => ConvertRoute::Office,
        FileCategory::Media => if str_equals(format, "pdf") {
            ConvertRoute::ImageToPdf
        } else if audio_format {
            ConvertRoute::TranscodeAudio
        } else {
            ConvertRoute::TranscodeMedia
        },
    }
}

/// Each tool gets exactly its own files: every office file goes to the
/// office converter whatever the format, and nothing else does; a PDF is
/// read as text only when text is asked for, and otherwise rendered to
/// images; media becomes a PDF only when a PDF is asked for, and is
/// otherwise transcoded, as audio exactly when the format is an audio one.
pub proof fn routes_by_category(category: FileCategory, format: Seq<char>, audio_format: bool)
    ensures
        ({
            let r = route_for(category, format, audio_format);
            &&& (r == ConvertRoute::Office <==> category == FileCategory::Office)
            &&& (r == ConvertRoute::PdfToText <==> category == FileCategory::Document && format
                == "txt"@)
            &&& (r == ConvertRoute::PdfToImages <==> category == FileCategory::Document && format
                != "txt"@)
            &&& (r == ConvertRoute::ImageToPdf <==> category == FileCategory::Media && format
                == "pdf"@)
            &&& (r == ConvertRoute::TranscodeAudio <==> category == FileCategory::Media && format
                != "pdf"@ && audio_format)
            &&& (r == ConvertRoute::TranscodeMedia <==> category == FileCategory::Media && format
                != "pdf"@ && !audio_format)
        }),
{
}

/// File name of a conversion that would overwrite its input:
/// `{stem}_convertido.{format}`, the stem being "convertido" when the path
/// has none.
pub fn converted_file_name(stem: Option<&str>, format: &str) -> (r: String)
    ensures
        r@ == match stem {
            Some(s) => s@,
            None => "convertido"@,
        } + "_convertido."@ + format@,
{
    let mut s = match stem {
        Some(st) => String::from_str(st),
        None => String::from_str("convertido"),
    };
    s.append("_convertido.");
    s.append(format);
    s
}

} // verus!
