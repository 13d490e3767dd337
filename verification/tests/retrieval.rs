use qai::chunk_file::chunker::chunk;
use qai::chunk_file::UnLearnedKnowledge;
use qai::knowledge::brain::{context, retrieve, retrieve_keys, Knowledge};
use qai::knowledge::matching::{
    match_final, match_top_n, DocumentScores, Matched, SCORE_UNIT, TEXT_SIMILARITY_FACTOR,
};
use qai::knowledge::storage::{
    count_keys, get_list, get_vectors, list_keys, published_count, read_usize, store,
    vector_keys, Key, StoreError,
};
use std::collections::HashMap;

struct Backend {
    values: HashMap<String, Vec<u8>>,
}

impl Backend {
    fn new() -> Backend {
        Backend { values: HashMap::new() }
    }

    fn get(&self, key: Key) -> Option<Vec<u8>> {
        self.values.get(&key.path()).cloned()
    }

    fn get_all(&self, keys: &[Key]) -> Vec<Vec<u8>> {
        keys.iter().map(|key| self.get(*key).unwrap()).collect()
    }

    fn count(&self) -> usize {
        published_count(self.get(Key::Count).as_deref()).unwrap()
    }

    fn persist(&mut self, knowledge: &UnLearnedKnowledge, vectors: &Vec<Vec<u32>>) -> usize {
        let index = self.count();
        for write in store(knowledge, vectors, index).unwrap() {
            self.values.insert(write.key.path(), write.value);
        }
        index
    }

    fn rebuild(&self) -> Knowledge {
        let count = self.count();
        let names = get_list(&self.get_all(&list_keys(count)));
        let mut raw = Vec::new();
        for (id, reply) in self.get_all(&count_keys(count)).iter().enumerate() {
            raw.push(self.get_all(&vector_keys(id, read_usize(reply).unwrap())));
        }
        Knowledge::rebuild(names, get_vectors(&raw)).unwrap()
    }
}

fn unit_vector(axis: usize, tilt: f32) -> Vec<u32> {
    let mut vector = vec![0.0f32; 8];
    vector[axis] = 1.0;
    vector[7] = tilt;
    vector.iter().map(|value| value.to_bits()).collect()
}

fn cosine_score(a: &[u32], b: &[u32]) -> i64 {
    let a: Vec<f32> = a.iter().map(|bits| f32::from_bits(*bits)).collect();
    let b: Vec<f32> = b.iter().map(|bits| f32::from_bits(*bits)).collect();
    let dot: f32 = a.iter().zip(b.iter()).map(|(x, y)| x * y).sum();
    let mag_a = a.iter().map(|x| x * x).sum::<f32>().sqrt();
    let mag_b = b.iter().map(|x| x * x).sum::<f32>().sqrt();
    ((dot / (mag_a * mag_b)) as f64 * SCORE_UNIT as f64).round() as i64
}

fn scores_against(knowledge: &Knowledge, query: &[u32]) -> Vec<DocumentScores> {
    (0..knowledge.len())
        .map(|index| DocumentScores {
            index,
            scores: knowledge
                .document(index)
                .unwrap()
                .iter()
                .map(|vector| cosine_score(query, vector))
                .collect(),
        })
        .collect()
}

fn find(
    backend: &Backend,
    knowledge: &Knowledge,
    query_vector: &[u32],
    query: &str,
    share: usize,
    head: usize,
    tail: usize,
) -> (Matched, UnLearnedKnowledge) {
    let top_n = match_top_n(&scores_against(knowledge, query_vector), share);
    let candidates: Vec<(Matched, Vec<u8>)> = top_n
        .into_iter()
        .map(|m| (m, backend.get(Key::Content(m.index, m.vector_index)).unwrap()))
        .collect();
    let matched = match_final(&candidates, query, TEXT_SIMILARITY_FACTOR).unwrap();
    let chunk_count = read_usize(&backend.get(Key::ChunkCount(matched.index)).unwrap()).unwrap();
    assert_eq!(chunk_count, matched.len);
    let keys = retrieve_keys(&matched, head, tail);
    let found = retrieve(&backend.get_all(&keys), &matched, head, tail).unwrap();
    (matched, found)
}

#[test]
fn a_query_finds_its_chunk_and_the_chunks_around_it() {
    let mut backend = Backend::new();
    let first = UnLearnedKnowledge {
        file_name: "first.txt".to_string(),
        uploader: "a".to_string(),
        chunks: chunk(vec!["alpha\nbeta".to_string(), "gamma".to_string()], 0).unwrap(),
    };
    assert_eq!(first.chunks.len(), 3);
    let first_vectors = vec![unit_vector(0, 0.0), unit_vector(1, 0.0), unit_vector(2, 0.0)];
    assert_eq!(backend.persist(&first, &first_vectors), 0);
    let pages: Vec<String> = (1..=5).map(|page| format!("text of page {}", page)).collect();
    let second = UnLearnedKnowledge {
        file_name: "second.pdf".to_string(),
        uploader: "b".to_string(),
        chunks: chunk(pages, 0).unwrap(),
    };
    assert_eq!(second.chunks.len(), 5);
    let second_vectors: Vec<Vec<u32>> = (0..5).map(|j| unit_vector(3, j as f32 * 0.1)).collect();
    assert_eq!(backend.persist(&second, &second_vectors), 1);

    let knowledge = backend.rebuild();
    assert_eq!(knowledge.get_list(), vec!["first.txt", "second.pdf"]);
    assert_eq!(knowledge.document(1), Some(&second_vectors));

    let (matched, found) =
        find(&backend, &knowledge, &unit_vector(3, 0.3), "text of page 4", 1, 1, 1);
    assert_eq!((matched.index, matched.vector_index, matched.len), (1, 3, 5));
    assert_eq!(found.file_name, "second.pdf");
    assert_eq!(found.uploader, "b");
    assert_eq!(found.chunks.len(), 3);
    assert_eq!(context(&found), "text of page 3\ntext of page 4\ntext of page 5\n");
    assert_eq!(found.chunks[0].page, 4);
    assert_eq!(found.chunks[1].page, 4);
    assert_eq!(found.chunks[2].page, 5);

    let (last, tail) =
        find(&backend, &knowledge, &unit_vector(3, 0.4), "text of page 5", 1, 1, 1);
    assert_eq!((last.index, last.vector_index), (1, 4));
    assert_eq!(context(&tail), "text of page 4\ntext of page 5\n");
    assert_eq!(tail.chunks[0].page, 5);

    let (other, whole) = find(&backend, &knowledge, &unit_vector(1, 0.0), "beta", 1, 9, 9);
    assert_eq!((other.index, other.vector_index, other.len), (0, 1, 3));
    assert_eq!(context(&whole), "alpha\nbeta\ngamma\n");
    assert_eq!(whole.chunks[0].page, 1);
    assert_eq!(whole.chunks[2].page, 2);
}

#[test]
fn the_index_in_memory_follows_the_store() {
    let mut backend = Backend::new();
    let mut knowledge = backend.rebuild();
    assert_eq!(knowledge.len(), 0);
    for (name, chunks) in [("a", 2usize), ("b", 0), ("c", 3)] {
        let document = UnLearnedKnowledge {
            file_name: name.to_string(),
            uploader: String::new(),
            chunks: chunk(vec!["line\n".repeat(chunks)], 0).unwrap(),
        };
        assert_eq!(document.chunks.len(), chunks);
        let vectors: Vec<Vec<u32>> = (0..chunks).map(|j| unit_vector(j, 0.5)).collect();
        let index = backend.persist(&document, &vectors);
        assert!(knowledge.insert(index, vectors, name.to_string()));
        let rebuilt = backend.rebuild();
        assert_eq!(rebuilt.get_list(), knowledge.get_list());
        assert_eq!(rebuilt.len(), backend.count());
        for id in 0..rebuilt.len() {
            assert_eq!(rebuilt.document(id), knowledge.document(id));
            let stored = read_usize(&backend.get(Key::ChunkCount(id)).unwrap()).unwrap();
            assert_eq!(rebuilt.document(id).unwrap().len(), stored);
        }
    }
}

#[test]
fn a_window_of_the_wrong_size_is_refused() {
    let matched = Matched { index: 2, len: 5, vector_index: 3, similarity: 0 };
    let keys = retrieve_keys(&matched, 1, 1);
    assert_eq!(
        keys,
        vec![
            Key::Name(2),
            Key::Uploader(2),
            Key::Content(2, 2),
            Key::Page(2, 2),
            Key::Content(2, 3),
            Key::Page(2, 3),
            Key::Content(2, 4),
            Key::Page(2, 4),
        ]
    );
    let page = |n: u8| vec![0, 0, 0, 0, 0, 0, 0, n];
    let mut replies = vec![b"n".to_vec(), b"u".to_vec()];
    for n in [7u8, 8, 9] {
        replies.push(vec![b'a' + n]);
        replies.push(page(n));
    }
    let found = retrieve(&replies, &matched, 1, 1).unwrap();
    let pages: Vec<usize> = found.chunks.iter().map(|c| c.page).collect();
    assert_eq!(pages, vec![8, 8, 9]);
    let short = replies[..6].to_vec();
    assert_eq!(retrieve(&short, &matched, 1, 1).unwrap_err(), StoreError::Incomplete);
    assert_eq!(retrieve(&Vec::new(), &matched, 1, 1).unwrap_err(), StoreError::Incomplete);
    replies[3] = vec![1];
    assert_eq!(retrieve(&replies, &matched, 1, 1).unwrap_err(), StoreError::Corrupt);
}

#[test]
fn vectors_of_another_dimension_are_found() {
    let mut knowledge = Knowledge::new();
    assert!(knowledge.has_dimension(0));
    assert!(knowledge.has_dimension(3));
    assert!(knowledge.insert(0, vec![vec![1, 2, 3], vec![4, 5, 6]], "a".to_string()));
    assert!(knowledge.insert(1, Vec::new(), "b".to_string()));
    assert!(knowledge.has_dimension(3));
    assert!(!knowledge.has_dimension(2));
    assert!(knowledge.insert(2, vec![vec![1, 2, 3], vec![4, 5]], "c".to_string()));
    assert!(!knowledge.has_dimension(3));
    assert!(!knowledge.has_dimension(2));
}
