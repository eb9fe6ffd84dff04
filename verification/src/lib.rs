//! Verified core of the Lumen media downloader: text cleanup of titles and
//! file names, the download queue, page layout and naming for PDF tools, and
//! the decisions around audio tags, thumbnails and folders.

pub mod chars;
pub mod text_utils;
pub mod pdf;
pub mod pdf_text;
pub mod queue;
pub mod thumbnail;
pub mod games;
pub mod audio_tags;
pub mod convert;
pub mod paths;
pub mod recents;
