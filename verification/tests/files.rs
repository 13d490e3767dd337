use qai::chunk_file::docx::{docx_paragraphs, parse_docx, DocxBlock};
use qai::chunk_file::normal::{insert_newlines, paragraphs, parse_normal};
use qai::chunk_file::pdf::parse_pdf;
use qai::chunk_file::{describe, match_file, FileType, UnLearnedChunk};
use std::path::PathBuf;

#[test]
fn pdf_suffix_selects_pdf() {
    let file = match_file("a.pdf".to_string(), "u".to_string(), PathBuf::from("./files/a.pdf"));
    assert!(file.file_type == FileType::Pdf);
    assert_eq!(file.file_name, "a.pdf");
    assert_eq!(file.uploader, "u");
    assert_eq!(file.path, PathBuf::from("./files/a.pdf"));
    assert_eq!(file.file_type.to_string(), "PDF");
}

#[test]
fn other_names_are_normal() {
    let file = match_file("a.pdf.txt".to_string(), "".to_string(), PathBuf::from("a.pdf.txt"));
    assert!(file.file_type == FileType::Normal);
    assert_eq!(file.file_type.to_string(), "NORMAL");
    let short = match_file("pdf".to_string(), "".to_string(), PathBuf::from("pdf"));
    assert!(short.file_type == FileType::Normal);
    let upper = match_file("A.PDF".to_string(), "".to_string(), PathBuf::from("A.PDF"));
    assert!(upper.file_type == FileType::Normal);
}

#[test]
fn a_file_is_described_on_one_line() {
    let file = match_file("a.pdf".to_string(), "me".to_string(), PathBuf::from("./files/a.pdf"));
    assert_eq!(file.to_string(), "PDF { file_name: a.pdf, uploader: me, path: ./files/a.pdf }");
    assert_eq!(
        describe(FileType::Normal, "n.txt", "", "p"),
        "NORMAL { file_name: n.txt, uploader: , path: p }"
    );
}

#[test]
fn default_chunk_is_empty() {
    let chunk = UnLearnedChunk::default();
    assert_eq!(chunk.content, "");
    assert_eq!(chunk.page, 0);
}

#[test]
fn paragraphs_are_the_lines_that_are_not_empty() {
    assert_eq!(paragraphs("one\r\ntwo\n\n\nthree"), vec!["one", "two", "three"]);
    assert_eq!(paragraphs(""), Vec::<String>::new());
    assert_eq!(paragraphs("\n\r\n\n"), Vec::<String>::new());
    assert_eq!(paragraphs("\r\r\n"), vec!["\r"]);
}

#[test]
fn paragraphs_are_joined_into_one_unit() {
    let units = insert_newlines(vec!["a".to_string(), "b".to_string(), "c".to_string()]);
    assert_eq!(units, vec!["a\nb\nc"]);
    assert_eq!(insert_newlines(vec!["only".to_string()]), vec!["only"]);
    assert_eq!(insert_newlines(Vec::new()), vec![""]);
}

#[test]
fn plain_text_becomes_a_document() {
    let file = match_file("n.txt".to_string(), "me".to_string(), PathBuf::from("n.txt"));
    let knowledge = parse_normal(file, "first\r\n\r\nsecond\nthird\n", 1000).unwrap();
    assert_eq!(knowledge.file_name, "n.txt");
    assert_eq!(knowledge.uploader, "me");
    assert_eq!(knowledge.chunks.len(), 1);
    assert_eq!(knowledge.chunks[0].content, "first\nsecond\nthird\n");
    assert_eq!(knowledge.chunks[0].page, 1);
}

#[test]
fn plain_text_is_cut_at_paragraphs() {
    let file = match_file("n.txt".to_string(), "".to_string(), PathBuf::from("n.txt"));
    let knowledge = parse_normal(file, "first\nsecond", 0).unwrap();
    assert_eq!(knowledge.chunks.len(), 2);
    assert_eq!(knowledge.chunks[0].content, "first\n");
    assert_eq!(knowledge.chunks[1].content, "second\n");
    assert_eq!(knowledge.chunks[1].page, 1);
}

#[test]
fn pdf_pages_are_units() {
    let file = match_file("a.pdf".to_string(), "me".to_string(), PathBuf::from("a.pdf"));
    let pages = vec!["page one".to_string(), "page two\nmore".to_string()];
    let knowledge = parse_pdf(file, pages, 0).unwrap();
    assert_eq!(knowledge.file_name, "a.pdf");
    assert_eq!(knowledge.chunks.len(), 3);
    assert_eq!(knowledge.chunks[0].content, "page one\n");
    assert_eq!(knowledge.chunks[0].page, 1);
    assert_eq!(knowledge.chunks[1].content, "page two\n");
    assert_eq!(knowledge.chunks[1].page, 2);
    assert_eq!(knowledge.chunks[2].content, "more\n");
    assert_eq!(knowledge.chunks[2].page, 2);
}

#[test]
fn table_rows_become_lines() {
    let blocks = vec![
        DocxBlock::Paragraph("title".to_string()),
        DocxBlock::Paragraph(String::new()),
        DocxBlock::Other,
        DocxBlock::Table(vec![
            vec!["a".to_string(), String::new(), "b".to_string()],
            vec![String::new()],
            Vec::new(),
            vec!["c".to_string()],
        ]),
        DocxBlock::Paragraph("end".to_string()),
    ];
    assert_eq!(docx_paragraphs(&blocks), vec!["title", "a\tb\t", "", "", "c\t", "end"]);
    assert_eq!(docx_paragraphs(&Vec::new()), Vec::<String>::new());
}

#[test]
fn word_documents_become_documents() {
    let file = match_file("d.docx".to_string(), "me".to_string(), PathBuf::from("d.docx"));
    let blocks = vec![
        DocxBlock::Paragraph("title".to_string()),
        DocxBlock::Table(vec![vec!["a".to_string(), "b".to_string()]]),
    ];
    let knowledge = parse_docx(file, blocks, 1000).unwrap();
    assert_eq!(knowledge.file_name, "d.docx");
    assert_eq!(knowledge.uploader, "me");
    assert_eq!(knowledge.chunks.len(), 1);
    assert_eq!(knowledge.chunks[0].content, "title\na\tb\t\n");
    assert_eq!(knowledge.chunks[0].page, 1);
}

#[test]
fn a_file_with_a_line_that_is_too_long_makes_no_document() {
    let long = "ab ".repeat(40_000);
    let file = || match_file("f".to_string(), "me".to_string(), PathBuf::from("f"));
    assert!(parse_normal(file(), &format!("first\n{}\nlast", long), 10).is_none());
    assert!(parse_pdf(file(), vec!["page".to_string(), long.clone()], 10).is_none());
    let blocks = vec![DocxBlock::Paragraph("title".to_string()), DocxBlock::Paragraph(long)];
    assert!(parse_docx(file(), blocks, 10).is_none());
    let cells = vec!["ab ".repeat(20_000), "cd ".repeat(20_000)];
    assert!(parse_docx(file(), vec![DocxBlock::Table(vec![cells])], 10).is_none());
}
