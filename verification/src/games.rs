//! Games whose custom radio the downloads can feed, and the audio formats
//! each one plays without conversion.

use vstd::prelude::*;
use std::path::PathBuf;
use crate::chars::{chars_of, equals_literal, lowercase, to_lowercase};

verus! {

#[verifier::external_type_specification]
#[verifier::external_body]
pub struct ExPathBuf(std::path::PathBuf);

/// Games supported by the music sync. Each reads audio from a folder of its
/// own; for now only GTA V.
#[derive(Clone, Copy, Debug, PartialEq, Eq, Structural)]
pub enum GameTarget {
    GtaV,
}

/// Extensions that the "User Music" radio of GTA V plays directly; any other
/// format is converted to MP3 before copying.
pub open spec fn gtav_format(ext: Seq<char>) -> bool {
    ext == "mp3"@ || ext == "m4a"@ || ext == "aac"@ || ext == "wma"@
}

/// `Path::extension` as UTF-8: the part of the file name after its last
/// dot, `None` where the name has no dot but a leading one, and where the
/// extension is not valid UTF-8. How a path splits into components depends
/// on the platform, so nothing is claimed of the value but that it holds no
/// dot.
#[verifier::external_body]
fn path_extension(path: &PathBuf) -> (r: Option<String>)
    ensures
        r matches Some(e) ==> forall|i: int| 0 <= i < e@.len() ==> e@[i] != '.',
{
    match path.extension() {
        Some(e) => match e.to_str() {
            Some(s) => Some(s.to_string()),
            None => None,
        },
        None => None,
    }
}

/// An extension, in any case, that GTA V plays without conversion.
pub fn is_gtav_extension(ext: &str) -> (r: bool)
    ensures
        r == gtav_format(lowercase(ext@)),
{
    let lower = to_lowercase(ext);
    let l = chars_of(lower.as_str());
    equals_literal(&l, "mp3") || equals_literal(&l, "m4a") || equals_literal(&l, "aac")
        || equals_literal(&l, "wma")
}

/// The file is already in a format GTA V plays without conversion: its
/// extension, as `Path::extension` finds it, passes `is_gtav_extension`.
/// Which extension that is depends on the platform's path syntax, so the
/// contract cannot name it; `is_gtav_extension` states the decision exactly.
pub fn is_gtav_supported(path: &PathBuf) -> (r: bool)
    ensures
        r ==> exists|e: Seq<char>| gtav_format(lowercase(e)),
{
    match path_extension(path) {
        Some(ext) => is_gtav_extension(ext.as_str()),
        None => false,
    }
}

} // verus!
