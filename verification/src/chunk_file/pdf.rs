//! PDF files.

use crate::chunk_file::chunker::chunk;
use crate::chunk_file::chunker::countable;
use crate::chunk_file::chunker::lines_of;
use crate::chunk_file::chunker::packed;
use crate::chunk_file::UnLearnedKnowledge;
use crate::chunk_file::UnlearnedFile;
use vstd::prelude::*;

verus! {

/// Turns the text of the pages of a PDF file into a document; each page is a unit.
/// There is no document where a line of a page is too long to be counted.
pub fn parse_pdf(file: UnlearnedFile, pages: Vec<String>, chunk_tokens: usize) -> (knowledge:
    Option<UnLearnedKnowledge>)
    ensures
        knowledge is Some <==> countable(pages.deep_view()),
        knowledge matches Some(document) ==> {
            &&& document.file_name == file.file_name
            &&& document.uploader == file.uploader
            &&& document.chunks.deep_view() == packed(
                lines_of(pages.deep_view()),
                chunk_tokens as nat,
            )
        },
{
    match chunk(pages, chunk_tokens) {
        Some(chunks) => Some(
            UnLearnedKnowledge { file_name: file.file_name, uploader: file.uploader, chunks },
        ),
        None => None,
    }
}

} // verus!
