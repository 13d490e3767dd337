//! Plain-text files.

use crate::chunk_file::chunker::chunk;
use crate::chunk_file::chunker::countable;
use crate::chunk_file::chunker::lines_of;
use crate::chunk_file::chunker::packed;
use crate::chunk_file::UnLearnedKnowledge;
use crate::chunk_file::UnlearnedFile;
use crate::text::lines;
use crate::text::split_lines;
use vstd::prelude::*;
use vstd::string::StringExecFns;

verus! {

/// The paragraphs of a plain text: its lines that are not empty.
pub open spec fn paragraphs_of(content: Seq<char>) -> Seq<Seq<char>> {
    split_lines(content).filter(|line: Seq<char>| line.len() > 0)
}

/// `paragraphs` with a line feed between each two neighbours.
pub open spec fn joined(paragraphs: Seq<Seq<char>>) -> Seq<char>
    decreases paragraphs.len(),
{
    if paragraphs.len() == 0 {
        Seq::empty()
    } else if paragraphs.len() == 1 {
        paragraphs[0]
    } else {
        joined(paragraphs.drop_last()).push('\n') + paragraphs.last()
    }
}

/// Splits a plain text into paragraphs. A paragraph ends at a line feed, or at a
/// carriage return followed by a line feed; empty paragraphs are left out.
pub fn paragraphs(content: &str) -> (paras: Vec<String>)
    ensures
        paras.deep_view() == paragraphs_of(content@),
{
    let all = lines(content);
    let mut paras: Vec<String> = Vec::new();
    let mut i: usize = 0;
    let ghost not_empty = |line: Seq<char>| line.len() > 0;
    proof {
        reveal(Seq::filter);
        assert(all.deep_view().take(0) =~= Seq::<Seq<char>>::empty());
    }
    while i < all.len()
        invariant
            i <= all.len(),
            not_empty == |line: Seq<char>| line.len() > 0,
            paras.deep_view() == all.deep_view().take(i as int).filter(not_empty),
        decreases all.len() - i,
    {
        proof {
            reveal(Seq::filter);
            assert(all.deep_view().take(i + 1).drop_last() =~= all.deep_view().take(i as int));
            assert(all.deep_view().take(i + 1).last() == all[i as int]@);
        }
        if !all[i].as_str().is_empty() {
            let ghost shown = paras.deep_view();
            paras.push(all[i].clone());
            assert(paras.deep_view() =~= shown.push(all[i as int]@));
        }
        i += 1;
    }
    assert(all.deep_view().take(all.len() as int) =~= all.deep_view());
    paras
}

/// Joins paragraphs into one unit of text, with a line feed between each two
/// neighbours, so that the chunker sees each paragraph as a line.
pub fn insert_newlines(paras: Vec<String>) -> (units: Vec<String>)
    ensures
        units.deep_view() == seq![joined(paras.deep_view())],
{
    let mut unit = String::new();
    let mut i: usize = 0;
    let ghost texts = paras.deep_view();
    assert(texts.take(0) =~= Seq::<Seq<char>>::empty());
    while i < paras.len()
        invariant
            i <= paras.len(),
            texts == paras.deep_view(),
            unit@ == joined(texts.take(i as int)),
        decreases paras.len() - i,
    {
        proof {
            assert(texts.take(i + 1).drop_last() =~= texts.take(i as int));
            assert(texts.take(i + 1).last() == paras[i as int]@);
            if i == 0 {
                assert(Seq::<char>::empty() + paras[i as int]@ =~= paras[i as int]@);
            }
        }
        if i > 0 {
            unit.push('\n');
        }
        unit.append(paras[i].as_str());
        i += 1;
    }
    assert(texts.take(paras.len() as int) =~= texts);
    let mut units: Vec<String> = Vec::new();
    units.push(unit);
    assert(units.deep_view() =~= seq![joined(texts)]);
    units
}

/// The document that the paragraphs `paras` of `file` make: they are joined into one
/// unit and cut into chunks of `chunk_tokens` tokens. There is no document where a
/// line of the unit is too long to be counted.
pub fn chunk_paragraphs(file: UnlearnedFile, paras: Vec<String>, chunk_tokens: usize) -> (knowledge:
    Option<UnLearnedKnowledge>)
    ensures
        knowledge is Some <==> countable(seq![joined(paras.deep_view())]),
        knowledge matches Some(document) ==> {
            &&& document.file_name == file.file_name
            &&& document.uploader == file.uploader
            &&& document.chunks.deep_view() == packed(
                lines_of(seq![joined(paras.deep_view())]),
                chunk_tokens as nat,
            )
        },
{
    let units = insert_newlines(paras);
    match chunk(units, chunk_tokens) {
        Some(chunks) => Some(
            UnLearnedKnowledge { file_name: file.file_name, uploader: file.uploader, chunks },
        ),
        None => None,
    }
}

/// Turns the content of a plain-text file into a document. There is no document where
/// a paragraph is too long to be counted.
pub fn parse_normal(file: UnlearnedFile, content: &str, chunk_tokens: usize) -> (knowledge: Option<
    UnLearnedKnowledge,
>)
    ensures
        knowledge is Some <==> countable(seq![joined(paragraphs_of(content@))]),
        knowledge matches Some(document) ==> {
            &&& document.file_name == file.file_name
            &&& document.uploader == file.uploader
            &&& document.chunks.deep_view() == packed(
                lines_of(seq![joined(paragraphs_of(content@))]),
                chunk_tokens as nat,
            )
        },
{
    let paras = paragraphs(content);
    chunk_paragraphs(file, paras, chunk_tokens)
}

} // verus!
