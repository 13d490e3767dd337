use qai::chunk_file::{UnLearnedChunk, UnLearnedKnowledge};
use qai::knowledge::storage::{
    count_keys, document_vectors, get_list, get_vectors, list_keys, load, load_keys,
    published_count, read_usize, store, string_decode, string_encode, usize_decode, usize_encode,
    vector_decode, vector_encode, vector_keys, Key, StoreError, Write,
};
use std::collections::HashMap;

fn document(chunks: &[(&str, usize)]) -> UnLearnedKnowledge {
    UnLearnedKnowledge {
        file_name: "книга.pdf".to_string(),
        uploader: "reader".to_string(),
        chunks: chunks
            .iter()
            .map(|(content, page)| UnLearnedChunk { content: content.to_string(), page: *page })
            .collect(),
    }
}

fn bits(values: &[f32]) -> Vec<u32> {
    values.iter().map(|v| v.to_bits()).collect()
}

fn apply(backend: &mut HashMap<String, Vec<u8>>, writes: &[Write]) {
    for write in writes {
        backend.insert(write.key.path(), write.value.clone());
    }
}

fn read(backend: &HashMap<String, Vec<u8>>, keys: &[Key]) -> Vec<Vec<u8>> {
    keys.iter().map(|key| backend.get(&key.path()).unwrap().clone()).collect()
}

fn count_of(backend: &HashMap<String, Vec<u8>>) -> usize {
    published_count(backend.get(&Key::Count.path()).map(|v| v.as_slice())).unwrap()
}

#[test]
fn different_keys_have_different_paths() {
    let mut keys = vec![Key::Count];
    for id in [0usize, 1, 10, 11, 101] {
        keys.push(Key::Name(id));
        keys.push(Key::Uploader(id));
        keys.push(Key::ChunkCount(id));
        for chunk in [0usize, 1, 10, 11, 101] {
            keys.push(Key::Vector(id, chunk));
            keys.push(Key::Content(id, chunk));
            keys.push(Key::Page(id, chunk));
        }
    }
    let paths: std::collections::HashSet<String> = keys.iter().map(|k| k.path()).collect();
    assert_eq!(paths.len(), keys.len());
}

#[test]
fn numbers_are_stored_on_eight_bytes_big_end_first() {
    assert_eq!(usize_encode(0), vec![0, 0, 0, 0, 0, 0, 0, 0]);
    assert_eq!(usize_encode(1), vec![0, 0, 0, 0, 0, 0, 0, 1]);
    assert_eq!(usize_encode(258), vec![0, 0, 0, 0, 0, 0, 1, 2]);
    assert_eq!(usize_encode(0x0102030405060708), vec![1, 2, 3, 4, 5, 6, 7, 8]);
    assert_eq!(usize_encode(usize::MAX), usize::MAX.to_be_bytes().to_vec());
}

#[test]
fn stored_numbers_are_read_back() {
    assert_eq!(usize_decode(&[0, 0, 0, 0, 0, 0, 0, 0]), 0);
    assert_eq!(usize_decode(&[0, 0, 0, 0, 0, 0, 1, 2]), 258);
    assert_eq!(usize_decode(&[1, 2, 3, 4, 5, 6, 7, 8]), 0x0102030405060708);
    for n in [0usize, 1, 255, 256, 65535, 1 << 40, usize::MAX - 1, usize::MAX] {
        assert_eq!(usize_decode(&usize_encode(n)), n);
        assert_eq!(read_usize(&n.to_be_bytes()), Some(n));
    }
}

#[test]
fn a_number_of_another_width_is_not_read() {
    assert_eq!(read_usize(&[]), None);
    assert_eq!(read_usize(&[0, 0, 0, 1]), None);
    assert_eq!(read_usize(&[0, 0, 0, 0, 0, 0, 0, 0, 1]), None);
    assert_eq!(read_usize(&[0, 0, 0, 0, 0, 0, 0, 9]), Some(9));
}

#[test]
fn an_absent_count_means_no_documents() {
    assert_eq!(published_count(None), Ok(0));
    assert_eq!(published_count(Some(&[0, 0, 0, 0, 0, 0, 0, 5])), Ok(5));
    assert_eq!(published_count(Some(&[5])), Err(StoreError::Corrupt));
}

#[test]
fn vectors_are_stored_little_end_first() {
    assert_eq!(vector_encode(&vec![0x3f80_0000]), vec![0x00, 0x00, 0x80, 0x3f]);
    assert_eq!(
        vector_encode(&vec![0x0102_0304, 0xffee_ddcc]),
        vec![0x04, 0x03, 0x02, 0x01, 0xcc, 0xdd, 0xee, 0xff]
    );
    assert_eq!(vector_encode(&Vec::new()), Vec::<u8>::new());
    let values = [1.0f32, -2.5, 0.0, 3.4e38, f32::MIN_POSITIVE];
    let mut expected = Vec::new();
    for value in values {
        expected.extend_from_slice(&value.to_le_bytes());
    }
    assert_eq!(vector_encode(&bits(&values)), expected);
}

#[test]
fn stored_vectors_are_read_back() {
    assert_eq!(vector_decode(&[0x00, 0x00, 0x80, 0x3f]), vec![0x3f80_0000]);
    assert_eq!(
        vector_decode(&[0x04, 0x03, 0x02, 0x01, 0xcc, 0xdd, 0xee, 0xff]),
        vec![0x0102_0304, 0xffee_ddcc]
    );
    let vector = bits(&[0.25, -1.0, 1e-7, 123456.0]);
    assert_eq!(vector_decode(&vector_encode(&vector)), vector);
    let floats: Vec<f32> =
        vector_decode(&vector_encode(&vector)).iter().map(|b| f32::from_bits(*b)).collect();
    assert_eq!(floats, vec![0.25, -1.0, 1e-7, 123456.0]);
}

#[test]
fn bytes_that_fill_no_component_are_left_out() {
    assert_eq!(vector_decode(&[]), Vec::<u32>::new());
    assert_eq!(vector_decode(&[1, 2, 3]), Vec::<u32>::new());
    assert_eq!(vector_decode(&[1, 0, 0, 0, 9, 9]), vec![1]);
}

#[test]
fn text_is_stored_as_utf8() {
    assert_eq!(string_encode("héllo"), "héllo".as_bytes().to_vec());
    assert_eq!(string_decode("héllo".as_bytes()), "héllo");
    assert_eq!(string_decode(&[]), "");
    assert_eq!(string_decode(&string_encode("漢字 and more")), "漢字 and more");
}

#[test]
fn bytes_that_are_no_utf8_are_read_all_the_same() {
    assert_eq!(string_decode(&[b'a', 0xff, b'b']), "a\u{fffd}b");
    assert_eq!(string_decode(&[0xc3]), "\u{fffd}");
}

#[test]
fn keys_have_stable_paths() {
    assert_eq!(Key::Count.path(), "count");
    assert_eq!(Key::Name(0).path(), "0/name");
    assert_eq!(Key::Uploader(12).path(), "12/uploader");
    assert_eq!(Key::ChunkCount(3).path(), "3/count");
    assert_eq!(Key::Vector(3, 14).path(), "3/14/vector");
    assert_eq!(Key::Content(0, 0).path(), "0/0/content");
    assert_eq!(Key::Page(100, 7).path(), "100/7/page");
}

#[test]
fn a_document_is_written_before_it_is_published() {
    let knowledge = document(&[("one\n", 1), ("two\n", 3)]);
    let vectors = vec![bits(&[1.0, 2.0]), bits(&[3.0, 4.0])];
    let writes = store(&knowledge, &vectors, 5).unwrap();
    let keys: Vec<Key> = writes.iter().map(|w| w.key).collect();
    assert_eq!(
        keys,
        vec![
            Key::Name(5),
            Key::Uploader(5),
            Key::ChunkCount(5),
            Key::Vector(5, 0),
            Key::Content(5, 0),
            Key::Page(5, 0),
            Key::Vector(5, 1),
            Key::Content(5, 1),
            Key::Page(5, 1),
            Key::Count,
        ]
    );
    assert_eq!(writes[0].value, "книга.pdf".as_bytes());
    assert_eq!(writes[1].value, b"reader");
    assert_eq!(writes[2].value, vec![0, 0, 0, 0, 0, 0, 0, 2]);
    assert_eq!(writes[3].value, vec![0, 0, 0x80, 0x3f, 0, 0, 0, 0x40]);
    assert_eq!(writes[4].value, b"one\n");
    assert_eq!(writes[5].value, vec![0, 0, 0, 0, 0, 0, 0, 1]);
    assert_eq!(writes[8].value, vec![0, 0, 0, 0, 0, 0, 0, 3]);
    assert_eq!(writes[9].value, vec![0, 0, 0, 0, 0, 0, 0, 6]);
}

#[test]
fn a_document_without_chunks_is_stored() {
    let writes = store(&document(&[]), &Vec::new(), 0).unwrap();
    assert_eq!(writes.len(), 4);
    assert_eq!(writes[2].key, Key::ChunkCount(0));
    assert_eq!(writes[2].value, vec![0; 8]);
    assert_eq!(writes[3].key, Key::Count);
    assert_eq!(writes[3].value, vec![0, 0, 0, 0, 0, 0, 0, 1]);
}

#[test]
fn chunks_and_vectors_must_match_in_number() {
    let knowledge = document(&[("one\n", 1), ("two\n", 3)]);
    let error = store(&knowledge, &vec![bits(&[1.0])], 0).unwrap_err();
    assert_eq!(error, StoreError::ChunkIndexNotMatch);
    assert_eq!(error.to_string(), "chunk index not match");
    assert!(store(&document(&[]), &vec![bits(&[1.0])], 0).is_err());
}

#[test]
fn the_count_of_documents_cannot_pass_the_machine_word() {
    let error = store(&document(&[]), &Vec::new(), usize::MAX).unwrap_err();
    assert_eq!(error, StoreError::Full);
    let mismatch = store(&document(&[("x", 1)]), &Vec::new(), usize::MAX).unwrap_err();
    assert_eq!(mismatch, StoreError::ChunkIndexNotMatch);
}

#[test]
fn load_asks_for_the_chunks_in_the_order_given() {
    assert_eq!(
        load_keys(4, &vec![2, 0, 2], 3).unwrap(),
        vec![
            Key::Name(4),
            Key::Uploader(4),
            Key::Content(4, 2),
            Key::Page(4, 2),
            Key::Content(4, 0),
            Key::Page(4, 0),
            Key::Content(4, 2),
            Key::Page(4, 2),
        ]
    );
    assert_eq!(load_keys(1, &Vec::new(), 0).unwrap(), vec![Key::Name(1), Key::Uploader(1)]);
}

#[test]
fn a_stored_document_is_loaded_as_it_was() {
    for chunks in [
        vec![],
        vec![("only\n", 1)],
        vec![("one\n", 1), ("zwei\n", 1), ("trois\n", 2), ("четыре\n", usize::MAX)],
    ] {
        let knowledge = document(&chunks);
        let vectors: Vec<Vec<u32>> = chunks.iter().map(|_| bits(&[0.5, 0.25])).collect();
        let mut backend = HashMap::new();
        let index = count_of(&backend);
        apply(&mut backend, &store(&knowledge, &vectors, index).unwrap());
        assert_eq!(count_of(&backend), index + 1);
        let all: Vec<usize> = (0..chunks.len()).collect();
        let keys = load_keys(index, &all, chunks.len()).unwrap();
        let loaded = load(&read(&backend, &keys)).unwrap();
        assert_eq!(loaded.file_name, knowledge.file_name);
        assert_eq!(loaded.uploader, knowledge.uploader);
        assert_eq!(loaded.chunks.len(), chunks.len());
        for (got, expected) in loaded.chunks.iter().zip(chunks.iter()) {
            assert_eq!(got.content, expected.0);
            assert_eq!(got.page, expected.1);
        }
    }
}

#[test]
fn chunks_are_loaded_in_the_order_asked_for() {
    let knowledge = document(&[("zero", 10), ("one", 11), ("two", 12)]);
    let vectors = vec![bits(&[0.0]), bits(&[1.0]), bits(&[2.0])];
    let mut backend = HashMap::new();
    apply(&mut backend, &store(&knowledge, &vectors, 0).unwrap());
    let loaded = load(&read(&backend, &load_keys(0, &vec![2, 0, 2], 3).unwrap())).unwrap();
    let got: Vec<(String, usize)> =
        loaded.chunks.iter().map(|c| (c.content.clone(), c.page)).collect();
    assert_eq!(
        got,
        vec![("two".to_string(), 12), ("zero".to_string(), 10), ("two".to_string(), 12)]
    );
}

#[test]
fn a_chunk_out_of_range_is_not_in_the_store() {
    let knowledge = document(&[("zero", 10), ("one", 11)]);
    let vectors = vec![bits(&[0.0]), bits(&[1.0])];
    let mut backend = HashMap::new();
    apply(&mut backend, &store(&knowledge, &vectors, 0).unwrap());
    for key in load_keys(0, &vec![0, 1], 2).unwrap() {
        assert!(backend.contains_key(&key.path()));
    }
    assert!(!backend.contains_key(&Key::Content(0, 2).path()));
    assert!(!backend.contains_key(&Key::Page(0, 2).path()));
    let error = load_keys(0, &vec![0, 2], 2).unwrap_err();
    assert_eq!(error, StoreError::OutOfRange);
    assert_eq!(error.to_string(), "chunk index out of range");
    assert_eq!(load_keys(0, &vec![0], 0).unwrap_err(), StoreError::OutOfRange);
    assert_eq!(load_keys(0, &vec![usize::MAX], usize::MAX).unwrap_err(), StoreError::OutOfRange);
    assert!(load_keys(0, &vec![1, 1, 0], 2).is_ok());
}

#[test]
fn a_reply_that_does_not_match_the_keys_is_refused() {
    assert_eq!(load(&Vec::new()).unwrap_err(), StoreError::Incomplete);
    assert_eq!(load(&vec![b"name".to_vec()]).unwrap_err(), StoreError::Incomplete);
    let odd = vec![b"name".to_vec(), b"uploader".to_vec(), b"content".to_vec()];
    assert_eq!(load(&odd).unwrap_err(), StoreError::Incomplete);
    let bare = load(&vec![b"name".to_vec(), b"uploader".to_vec()]).unwrap();
    assert_eq!(bare.file_name, "name");
    assert_eq!(bare.uploader, "uploader");
    assert!(bare.chunks.is_empty());
}

#[test]
fn a_page_that_is_no_number_is_refused() {
    let replies = vec![b"n".to_vec(), b"u".to_vec(), b"content".to_vec(), vec![0, 1]];
    let error = load(&replies).unwrap_err();
    assert_eq!(error, StoreError::Corrupt);
    assert_eq!(error.to_string(), "stored number is malformed");
    assert_eq!(StoreError::Full.to_string(), "document count cannot grow");
    assert_eq!(StoreError::Incomplete.to_string(), "reply does not match the keys");
}

#[test]
fn a_persist_that_was_broken_off_publishes_nothing() {
    let mut backend = HashMap::new();
    let first = document(&[("kept", 1)]);
    apply(&mut backend, &store(&first, &vec![bits(&[1.0])], 0).unwrap());
    assert_eq!(count_of(&backend), 1);
    let before = backend.clone();
    let second = document(&[("lost", 1), ("lost too", 2)]);
    let plan = store(&second, &vec![bits(&[2.0]), bits(&[3.0])], count_of(&backend)).unwrap();
    for made in 0..plan.len() {
        let mut broken = before.clone();
        apply(&mut broken, &plan[..made]);
        assert_eq!(count_of(&broken), 1);
        let names = get_list(&read(&broken, &list_keys(count_of(&broken))));
        assert_eq!(names, vec!["книга.pdf"]);
        let counts = read(&broken, &count_keys(count_of(&broken)));
        assert_eq!(counts, vec![vec![0, 0, 0, 0, 0, 0, 0, 1]]);
        let vectors = document_vectors(&read(&broken, &vector_keys(0, 1)));
        assert_eq!(vectors, vec![bits(&[1.0])]);
        let loaded = load(&read(&broken, &load_keys(0, &vec![0], 1).unwrap())).unwrap();
        assert_eq!(loaded.chunks[0].content, "kept");
    }
    let mut whole = before.clone();
    apply(&mut whole, &plan);
    assert_eq!(count_of(&whole), 2);
}

#[test]
fn names_and_vectors_are_rebuilt_in_id_order() {
    let mut backend = HashMap::new();
    for (name, chunk_count) in [("a", 2usize), ("b", 0), ("c", 1)] {
        let mut knowledge = document(&vec![("text", 1); chunk_count]);
        knowledge.file_name = name.to_string();
        let vectors: Vec<Vec<u32>> =
            (0..chunk_count).map(|j| bits(&[j as f32, name.len() as f32])).collect();
        let index = count_of(&backend);
        apply(&mut backend, &store(&knowledge, &vectors, index).unwrap());
    }
    let count = count_of(&backend);
    assert_eq!(count, 3);
    assert_eq!(list_keys(2), vec![Key::Name(0), Key::Name(1)]);
    assert_eq!(count_keys(2), vec![Key::ChunkCount(0), Key::ChunkCount(1)]);
    assert_eq!(vector_keys(7, 2), vec![Key::Vector(7, 0), Key::Vector(7, 1)]);
    assert_eq!(get_list(&read(&backend, &list_keys(count))), vec!["a", "b", "c"]);
    let mut raw = Vec::new();
    for (id, reply) in read(&backend, &count_keys(count)).iter().enumerate() {
        let chunk_count = read_usize(reply).unwrap();
        raw.push(read(&backend, &vector_keys(id, chunk_count)));
    }
    let vectors = get_vectors(&raw);
    assert_eq!(
        vectors,
        vec![vec![bits(&[0.0, 1.0]), bits(&[1.0, 1.0])], vec![], vec![bits(&[0.0, 1.0])]]
    );
    assert_eq!(get_list(&Vec::new()), Vec::<String>::new());
    assert_eq!(get_vectors(&Vec::new()), Vec::<Vec<Vec<u32>>>::new());
}
