//! Word-processor files.

use crate::chunk_file::chunker::countable;
use crate::chunk_file::chunker::lines_of;
use crate::chunk_file::chunker::packed;
use crate::chunk_file::normal::chunk_paragraphs;
use crate::chunk_file::normal::joined;
use crate::chunk_file::UnLearnedKnowledge;
use crate::chunk_file::UnlearnedFile;
use vstd::prelude::*;
use vstd::string::StringExecFns;

verus! {

/// What a block of a word-processor document holds.
pub enum BlockView {
    Paragraph(Seq<char>),
    Table(Seq<Seq<Seq<char>>>),
    Other,
}

/// A block of the body of a word-processor document: a paragraph with its text, a table
/// with the texts of the paragraphs of each row's cells, or anything else.
#[derive(Clone, Debug)]
pub enum DocxBlock {
    Paragraph(String),
    Table(Vec<Vec<String>>),
    Other,
}

impl DeepView for DocxBlock {
    type V = BlockView;

    open spec fn deep_view(&self) -> BlockView {
        match self {
            DocxBlock::Paragraph(text) => BlockView::Paragraph(text@),
            DocxBlock::Table(rows) => BlockView::Table(rows.deep_view()),
            DocxBlock::Other => BlockView::Other,
        }
    }
}

/// The line that a table row makes: its texts that are not empty, each with a tab after
/// it.
pub open spec fn row_line(cells: Seq<Seq<char>>) -> Seq<char>
    decreases cells.len(),
{
    if cells.len() == 0 {
        Seq::empty()
    } else if cells.last().len() > 0 {
        row_line(cells.drop_last()) + cells.last().push('\t')
    } else {
        row_line(cells.drop_last())
    }
}

/// The paragraphs that one block gives: a paragraph gives its text unless it is empty,
/// a table gives one line for each row, anything else gives nothing.
pub open spec fn block_paragraphs(block: BlockView) -> Seq<Seq<char>> {
    match block {
        BlockView::Paragraph(text) => if text.len() > 0 {
            seq![text]
        } else {
            Seq::empty()
        },
        BlockView::Table(rows) => rows.map_values(|cells: Seq<Seq<char>>| row_line(cells)),
        BlockView::Other => Seq::empty(),
    }
}

/// The paragraphs that the blocks give, in order.
pub open spec fn docx_paragraphs_of(blocks: Seq<BlockView>) -> Seq<Seq<char>>
    decreases blocks.len(),
{
    if blocks.len() == 0 {
        Seq::empty()
    } else {
        docx_paragraphs_of(blocks.drop_last()) + block_paragraphs(blocks.last())
    }
}

fn row_text(cells: &Vec<String>) -> (line: String)
    ensures
        line@ == row_line(cells.deep_view()),
{
    let mut line = String::new();
    let mut i: usize = 0;
    let ghost texts = cells.deep_view();
    assert(texts.take(0) =~= Seq::<Seq<char>>::empty());
    while i < cells.len()
        invariant
            i <= cells.len(),
            texts == cells.deep_view(),
            line@ == row_line(texts.take(i as int)),
        decreases cells.len() - i,
    {
        proof {
            assert(texts.take(i + 1).drop_last() =~= texts.take(i as int));
            assert(texts.take(i + 1).last() == cells[i as int]@);
        }
        if !cells[i].as_str().is_empty() {
            line.append(cells[i].as_str());
            line.push('\t');
            assert(line@ =~= row_line(texts.take(i as int)) + cells[i as int]@.push('\t'));
        }
        i += 1;
    }
    assert(texts.take(cells.len() as int) =~= texts);
    line
}

fn push_block(paras: &mut Vec<String>, block: &DocxBlock)
    ensures
        final(paras).deep_view() == old(paras).deep_view() + block_paragraphs(block.deep_view()),
{
    let ghost shown = paras.deep_view();
    match block {
        DocxBlock::Paragraph(text) => {
            if !text.as_str().is_empty() {
                paras.push(text.clone());
                assert(paras.deep_view() =~= shown + seq![text@]);
            } else {
                assert(paras.deep_view() =~= shown + Seq::<Seq<char>>::empty());
            }
        },
        DocxBlock::Table(rows) => {
            let mut r: usize = 0;
            let ghost row_lines = block_paragraphs(block.deep_view());
            assert(paras.deep_view() =~= shown + row_lines.take(0));
            while r < rows.len()
                invariant
                    r <= rows.len(),
                    row_lines == rows.deep_view().map_values(
                        |cells: Seq<Seq<char>>| row_line(cells),
                    ),
                    paras.deep_view() == shown + row_lines.take(r as int),
                decreases rows.len() - r,
            {
                let line = row_text(&rows[r]);
                let ghost before = paras.deep_view();
                paras.push(line);
                assert(rows.deep_view()[r as int] == rows[r as int].deep_view());
                assert(paras.deep_view() =~= before.push(row_lines[r as int]));
                assert(paras.deep_view() =~= shown + row_lines.take(r + 1));
                r += 1;
            }
            assert(row_lines.take(rows.len() as int) =~= row_lines);
        },
        DocxBlock::Other => {
            assert(paras.deep_view() =~= shown + Seq::<Seq<char>>::empty());
        },
    }
}

/// Collects the paragraphs of the body of a word-processor document. Empty paragraphs
/// are left out; a table row is one paragraph, also where all its cells are empty.
pub fn docx_paragraphs(blocks: &Vec<DocxBlock>) -> (paras: Vec<String>)
    ensures
        paras.deep_view() == docx_paragraphs_of(blocks.deep_view()),
{
    let mut paras: Vec<String> = Vec::new();
    let mut i: usize = 0;
    let ghost views = blocks.deep_view();
    assert(views.take(0) =~= Seq::<BlockView>::empty());
    while i < blocks.len()
        invariant
            i <= blocks.len(),
            views == blocks.deep_view(),
            paras.deep_view() == docx_paragraphs_of(views.take(i as int)),
        decreases blocks.len() - i,
    {
        proof {
            assert(views.take(i + 1).drop_last() =~= views.take(i as int));
            assert(views.take(i + 1).last() == blocks[i as int].deep_view());
        }
        push_block(&mut paras, &blocks[i]);
        i += 1;
    }
    assert(views.take(blocks.len() as int) =~= views);
    paras
}

/// Turns the body of a word-processor document into a document of chunks. There is no
/// document where a paragraph is too long to be counted.
pub fn parse_docx(file: UnlearnedFile, blocks: Vec<DocxBlock>, chunk_tokens: usize) -> (knowledge:
    Option<UnLearnedKnowledge>)
    ensures
        knowledge is Some <==> countable(seq![joined(docx_paragraphs_of(blocks.deep_view()))]),
        knowledge matches Some(document) ==> {
            &&& document.file_name == file.file_name
            &&& document.uploader == file.uploader
            &&& document.chunks.deep_view() == packed(
                lines_of(seq![joined(docx_paragraphs_of(blocks.deep_view()))]),
                chunk_tokens as nat,
            )
        },
{
    let paras = docx_paragraphs(&blocks);
    chunk_paragraphs(file, paras, chunk_tokens)
}

} // verus!
