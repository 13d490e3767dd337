//! Uploaded files and the documents that are made of them.

pub mod chunker;
pub mod docx;
pub mod normal;
pub mod pdf;

use crate::text::ends_with;
use crate::text::has_suffix;
use std::path::PathBuf;
use vstd::prelude::*;
use vstd::string::StringExecFns;

verus! {

/// `PathBuf` of std: the place of a file. The library carries a path along and never
/// looks into it.
#[verifier::external_type_specification]
#[verifier::external_body]
pub struct ExPathBuf(PathBuf);

/// `PathBuf::clone` gives a path equal to the one cloned.
pub assume_specification[ <PathBuf as Clone>::clone ](path: &PathBuf) -> (copy: PathBuf)
    ensures
        copy == *path,
;

/// How the text of an uploaded file is extracted.
#[derive(PartialEq, Eq, Structural, Clone, Copy, Debug)]
pub enum FileType {
    Pdf,
    Normal,
}

/// The suffix of a file name that marks a PDF file.
pub open spec fn pdf_suffix() -> Seq<char> {
    seq!['.', 'p', 'd', 'f']
}

/// The type that a file of this name has.
pub open spec fn file_type_of(file_name: Seq<char>) -> FileType {
    if has_suffix(file_name, pdf_suffix()) {
        FileType::Pdf
    } else {
        FileType::Normal
    }
}

impl FileType {
    /// The label of the type: `PDF` or `NORMAL`.
    pub open spec fn label(self) -> Seq<char> {
        match self {
            FileType::Pdf => seq!['P', 'D', 'F'],
            FileType::Normal => seq!['N', 'O', 'R', 'M', 'A', 'L'],
        }
    }

    /// The label of the type, as text.
    pub fn to_string(&self) -> (s: String)
        ensures
            s@ == self.label(),
    {
        match self {
            FileType::Pdf => {
                proof {
                    reveal_strlit("PDF");
                }
                assert("PDF"@ =~= self.label());
                String::from_str("PDF")
            },
            FileType::Normal => {
                proof {
                    reveal_strlit("NORMAL");
                }
                assert("NORMAL"@ =~= self.label());
                String::from_str("NORMAL")
            },
        }
    }
}

/// A file that was uploaded and is not indexed yet.
#[derive(Clone, Debug)]
pub struct UnlearnedFile {
    pub file_name: String,
    pub uploader: String,
    pub path: PathBuf,
    pub file_type: FileType,
}

/// The line that describes a file whose path reads `path`.
pub open spec fn description_of(
    file_type: FileType,
    file_name: Seq<char>,
    uploader: Seq<char>,
    path: Seq<char>,
) -> Seq<char> {
    file_type.label() + " { file_name: "@ + file_name + ", uploader: "@ + uploader + ", path: "@
        + path + " }"@
}

/// Writes the line that describes a file whose path reads `path`.
pub fn describe(file_type: FileType, file_name: &str, uploader: &str, path: &str) -> (line: String)
    ensures
        line@ == description_of(file_type, file_name@, uploader@, path@),
{
    let mut line = file_type.to_string();
    line.append(" { file_name: ");
    line.append(file_name);
    line.append(", uploader: ");
    line.append(uploader);
    line.append(", path: ");
    line.append(path);
    line.append(" }");
    line
}

/// `Path::display` of std, as a string: the path as text, with U+FFFD in place of what
/// is not Unicode. Nothing is claimed of the text.
#[verifier::external_body]
fn path_text(path: &PathBuf) -> (text: String) {
    path.display().to_string()
}

impl UnlearnedFile {
    /// The line that describes the file: its type, its name, its uploader, its path.
    pub fn to_string(&self) -> (line: String)
        ensures
            exists|path: Seq<char>|
                line@ == description_of(self.file_type, self.file_name@, self.uploader@, path),
    {
        let path = path_text(&self.path);
        describe(self.file_type, self.file_name.as_str(), self.uploader.as_str(), path.as_str())
    }
}

/// Describes an uploaded file; its type follows from the suffix of its name.
pub fn match_file(file_name: String, uploader: String, path: PathBuf) -> (file: UnlearnedFile)
    ensures
        file.file_name == file_name,
        file.uploader == uploader,
        file.path == path,
        file.file_type == file_type_of(file_name@),
{
    proof {
        reveal_strlit(".pdf");
    }
    assert(".pdf"@ =~= pdf_suffix());
    let file_type = if ends_with(file_name.as_str(), ".pdf") {
        FileType::Pdf
    } else {
        FileType::Normal
    };
    UnlearnedFile { file_name, uploader, path, file_type }
}

/// What a chunk holds: its text, and the 1-based number of the unit in which it began.
pub struct ChunkView {
    pub content: Seq<char>,
    pub page: nat,
}

/// A slice of a document's text, cut at line boundaries.
#[derive(Clone, Debug)]
pub struct UnLearnedChunk {
    pub content: String,
    pub page: usize,
}

impl View for UnLearnedChunk {
    type V = ChunkView;

    open spec fn view(&self) -> ChunkView {
        ChunkView { content: self.content@, page: self.page as nat }
    }
}

impl DeepView for UnLearnedChunk {
    type V = ChunkView;

    open spec fn deep_view(&self) -> ChunkView {
        self@
    }
}

impl Default for UnLearnedChunk {
    fn default() -> (chunk: Self)
        ensures
            chunk@ == (ChunkView { content: Seq::empty(), page: 0 }),
    {
        UnLearnedChunk { content: String::new(), page: 0 }
    }
}

/// What a document holds.
pub struct KnowledgeView {
    pub file_name: Seq<char>,
    pub uploader: Seq<char>,
    pub chunks: Seq<ChunkView>,
}

/// A document cut into chunks; adjacent chunks are adjacent in the document.
#[derive(Clone, Debug)]
pub struct UnLearnedKnowledge {
    pub file_name: String,
    pub uploader: String,
    pub chunks: Vec<UnLearnedChunk>,
}

impl View for UnLearnedKnowledge {
    type V = KnowledgeView;

    open spec fn view(&self) -> KnowledgeView {
        KnowledgeView {
            file_name: self.file_name@,
            uploader: self.uploader@,
            chunks: self.chunks.deep_view(),
        }
    }
}

} // verus!
