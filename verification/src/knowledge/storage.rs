//! The protocol of the store: what is written to persist a document, and what is read
//! to load one and to rebuild the index.

pub mod codec;
pub mod key;
pub mod model;

pub use crate::knowledge::storage::codec::read_usize;
pub use crate::knowledge::storage::codec::string_decode;
pub use crate::knowledge::storage::codec::string_encode;
pub use crate::knowledge::storage::codec::usize_decode;
pub use crate::knowledge::storage::codec::usize_encode;
pub use crate::knowledge::storage::codec::vector_decode;
pub use crate::knowledge::storage::codec::vector_encode;
pub use crate::knowledge::storage::key::Key;

use crate::chunk_file::ChunkView;
use crate::chunk_file::KnowledgeView;
use crate::chunk_file::UnLearnedChunk;
use crate::chunk_file::UnLearnedKnowledge;
use crate::knowledge::storage::codec::be_bytes;
use crate::knowledge::storage::codec::decoded_text;
use crate::knowledge::storage::codec::le_bytes;
use crate::knowledge::storage::codec::le_words;
use crate::knowledge::storage::codec::stored_usize;
use vstd::prelude::*;
use vstd::string::StringExecFns;
use vstd::utf8::encode_utf8;

verus! {

/// A value that is to be written under a key.
#[derive(Clone, Debug)]
pub struct Write {
    pub key: Key,
    pub value: Vec<u8>,
}

impl View for Write {
    type V = (Key, Seq<u8>);

    open spec fn view(&self) -> (Key, Seq<u8>) {
        (self.key, self.value@)
    }
}

impl DeepView for Write {
    type V = (Key, Seq<u8>);

    open spec fn deep_view(&self) -> (Key, Seq<u8>) {
        self@
    }
}

/// Why the store refuses a request or a reply.
#[derive(PartialEq, Eq, Structural, Clone, Copy, Debug)]
pub enum StoreError {
    /// A document came with a number of vectors other than its number of chunks.
    ChunkIndexNotMatch,
    /// The store holds so many documents that their count cannot grow.
    Full,
    /// A chunk was asked for that its document does not have.
    OutOfRange,
    /// A reply holds fewer or more values than the keys that were asked for.
    Incomplete,
    /// A stored number does not have eight bytes, or does not fit the machine word.
    Corrupt,
}

impl StoreError {
    /// The error in words.
    pub open spec fn message(self) -> Seq<char> {
        match self {
            StoreError::ChunkIndexNotMatch => "chunk index not match"@,
            StoreError::Full => "document count cannot grow"@,
            StoreError::OutOfRange => "chunk index out of range"@,
            StoreError::Incomplete => "reply does not match the keys"@,
            StoreError::Corrupt => "stored number is malformed"@,
        }
    }

    /// The error in words.
    pub fn to_string(&self) -> (message: String)
        ensures
            message@ == self.message(),
    {
        match self {
            StoreError::ChunkIndexNotMatch => String::from_str("chunk index not match"),
            StoreError::Full => String::from_str("document count cannot grow"),
            StoreError::OutOfRange => String::from_str("chunk index out of range"),
            StoreError::Incomplete => String::from_str("reply does not match the keys"),
            StoreError::Corrupt => String::from_str("stored number is malformed"),
        }
    }
}

/// The number of published documents that the value under `Key::Count` tells: none
/// where the key is absent.
pub open spec fn published_count_of(reply: Option<Seq<u8>>) -> Result<usize, StoreError> {
    match reply {
        None => Ok(0usize),
        Some(data) => match stored_usize(data) {
            Some(count) => Ok(count),
            None => Err(StoreError::Corrupt),
        },
    }
}

/// Reads the number of published documents from what the backend holds under
/// `Key::Count`; `None` stands for an absent key, which means that nothing was
/// published yet.
pub fn published_count(reply: Option<&[u8]>) -> (count: Result<usize, StoreError>)
    ensures
        count == published_count_of(
            match reply {
                Some(data) => Some(data@),
                None => None,
            },
        ),
{
    match reply {
        None => Ok(0),
        Some(data) => match read_usize(data) {
            Some(count) => Ok(count),
            None => Err(StoreError::Corrupt),
        },
    }
}

/// The writes that persist chunk `j` of document `id`: its vector, its text, its page.
pub open spec fn chunk_writes(id: usize, j: usize, vector: Seq<u32>, chunk: ChunkView) -> Seq<
    (Key, Seq<u8>),
> {
    seq![
        (Key::Vector(id, j), le_bytes(vector)),
        (Key::Content(id, j), encode_utf8(chunk.content)),
        (Key::Page(id, j), be_bytes(chunk.page, 8)),
    ]
}

/// The writes that persist the chunks of document `id`, chunk by chunk: write `i` is
/// part `i % 3` of chunk `i / 3`.
pub open spec fn chunks_writes(id: usize, vectors: Seq<Seq<u32>>, chunks: Seq<ChunkView>) -> Seq<
    (Key, Seq<u8>),
> {
    Seq::new(
        (3 * chunks.len()) as nat,
        |i: int| chunk_writes(id, (i / 3) as usize, vectors[i / 3], chunks[i / 3])[i % 3],
    )
}

/// The writes that persist a document as number `id`, in the order in which they are
/// made: name, uploader and chunk count, then the chunks, and last of all the new count
/// of documents, which publishes it.
pub open spec fn store_writes(id: usize, knowledge: KnowledgeView, vectors: Seq<Seq<u32>>) -> Seq<
    (Key, Seq<u8>),
> {
    seq![
        (Key::Name(id), encode_utf8(knowledge.file_name)),
        (Key::Uploader(id), encode_utf8(knowledge.uploader)),
        (Key::ChunkCount(id), be_bytes(vectors.len(), 8)),
    ] + chunks_writes(id, vectors, knowledge.chunks) + seq![
        (Key::Count, be_bytes((id + 1) as nat, 8)),
    ]
}

/// What `store` answers: the mismatch of chunks and vectors is found before anything
/// is planned.
pub open spec fn store_plan(id: usize, knowledge: KnowledgeView, vectors: Seq<Seq<u32>>) -> Result<
    Seq<(Key, Seq<u8>)>,
    StoreError,
> {
    if knowledge.chunks.len() != vectors.len() {
        Err(StoreError::ChunkIndexNotMatch)
    } else if id == usize::MAX {
        Err(StoreError::Full)
    } else {
        Ok(store_writes(id, knowledge, vectors))
    }
}

/// Plans the writes that persist a document and its vectors as document number `index`,
/// the count of documents published so far. The writes are to be made in order, and
/// none after one that failed: the last one publishes the document.
pub fn store(unlearned_knowledge: &UnLearnedKnowledge, vectors: &Vec<Vec<u32>>, index: usize) -> (plan:
    Result<Vec<Write>, StoreError>)
    ensures
        match plan {
            Ok(writes) => store_plan(index, unlearned_knowledge@, vectors.deep_view()) == Ok::<
                Seq<(Key, Seq<u8>)>,
                StoreError,
            >(writes.deep_view()),
            Err(error) => store_plan(index, unlearned_knowledge@, vectors.deep_view()) == Err::<
                Seq<(Key, Seq<u8>)>,
                StoreError,
            >(error),
        },
{
    if unlearned_knowledge.chunks.len() != vectors.len() {
        return Err(StoreError::ChunkIndexNotMatch);
    }
    if index == usize::MAX {
        return Err(StoreError::Full);
    }
    let mut writes: Vec<Write> = Vec::new();
    writes.push(
        Write { key: Key::Name(index), value: string_encode(unlearned_knowledge.file_name.as_str()) },
    );
    writes.push(
        Write {
            key: Key::Uploader(index),
            value: string_encode(unlearned_knowledge.uploader.as_str()),
        },
    );
    writes.push(Write { key: Key::ChunkCount(index), value: usize_encode(vectors.len()) });
    let ghost head = writes.deep_view();
    let ghost chunks = unlearned_knowledge.chunks.deep_view();
    let ghost words = vectors.deep_view();
    assert(head =~= seq![
        (Key::Name(index), encode_utf8(unlearned_knowledge@.file_name)),
        (Key::Uploader(index), encode_utf8(unlearned_knowledge@.uploader)),
        (Key::ChunkCount(index), be_bytes(words.len(), 8)),
    ]);
    let mut j: usize = 0;
    let ghost middle = chunks_writes(index, words, chunks);
    assert(writes.deep_view() =~= head + middle.take(0));
    while j < vectors.len()
        invariant
            j <= vectors.len(),
            vectors.len() == unlearned_knowledge.chunks.len(),
            chunks == unlearned_knowledge.chunks.deep_view(),
            words == vectors.deep_view(),
            middle == chunks_writes(index, words, chunks),
            writes.deep_view() == head + middle.take(3 * j),
        decreases vectors.len() - j,
    {
        let chunk = &unlearned_knowledge.chunks[j];
        let ghost shown = writes.deep_view();
        writes.push(Write { key: Key::Vector(index, j), value: vector_encode(&vectors[j]) });
        writes.push(Write { key: Key::Content(index, j), value: string_encode(chunk.content.as_str()) });
        writes.push(Write { key: Key::Page(index, j), value: usize_encode(chunk.page) });
        proof {
            assert(chunks[j as int] == chunk@);
            assert(words[j as int] == vectors[j as int]@);
            let own = chunk_writes(index, j, words[j as int], chunk@);
            assert(writes.deep_view() =~= shown + own);
            assert(middle[3 * j] == own[0]);
            assert(middle[3 * j + 1] == own[1]);
            assert(middle[3 * j + 2] == own[2]);
            assert(middle.take(3 * j + 3) =~= middle.take(3 * j) + own);
            assert(shown + own =~= head + (middle.take(3 * j) + own));
        }
        j += 1;
    }
    assert(middle.take(3 * vectors.len()) =~= middle);
    let ghost shown = writes.deep_view();
    writes.push(Write { key: Key::Count, value: usize_encode(index + 1) });
    assert(writes.deep_view() =~= shown + seq![(Key::Count, be_bytes((index + 1) as nat, 8))]);
    Ok(writes)
}

/// The keys that `load` needs for the chunks `indices` of document `id`: for each index
/// in the order given, the text of the chunk and then its page.
pub open spec fn chunk_keys_of(id: usize, indices: Seq<usize>) -> Seq<Key> {
    Seq::new(
        (2 * indices.len()) as nat,
        |i: int|
            if i % 2 == 0 {
                Key::Content(id, indices[i / 2])
            } else {
                Key::Page(id, indices[i / 2])
            },
    )
}

/// The keys that `load` needs: the name and the uploader of the document, then the keys
/// of the chunks.
pub open spec fn load_keys_of(id: usize, indices: Seq<usize>) -> Seq<Key> {
    seq![Key::Name(id), Key::Uploader(id)] + chunk_keys_of(id, indices)
}

/// What `load_keys` answers for a document of `chunk_count` chunks: an index that is
/// not below the chunk count is refused, and nothing is read.
pub open spec fn load_plan(id: usize, indices: Seq<usize>, chunk_count: usize) -> Result<
    Seq<Key>,
    StoreError,
> {
    if exists|i: int| 0 <= i < indices.len() && #[trigger] indices[i] >= chunk_count {
        Err(StoreError::OutOfRange)
    } else {
        Ok(load_keys_of(id, indices))
    }
}

/// Lists the keys to read for the chunks `vector_indexs` of document `index`, which has
/// `chunk_count` chunks. The indices may come in any order and more than once.
pub fn load_keys(index: usize, vector_indexs: &Vec<usize>, chunk_count: usize) -> (keys: Result<
    Vec<Key>,
    StoreError,
>)
    ensures
        match keys {
            Ok(list) => load_plan(index, vector_indexs@, chunk_count) == Ok::<
                Seq<Key>,
                StoreError,
            >(list@),
            Err(error) => load_plan(index, vector_indexs@, chunk_count) == Err::<
                Seq<Key>,
                StoreError,
            >(error),
        },
{
    let mut i: usize = 0;
    while i < vector_indexs.len()
        invariant
            i <= vector_indexs.len(),
            forall|k: int| 0 <= k < i ==> vector_indexs@[k] < chunk_count,
        decreases vector_indexs.len() - i,
    {
        if vector_indexs[i] >= chunk_count {
            return Err(StoreError::OutOfRange);
        }
        i += 1;
    }
    Ok(chunk_keys(index, vector_indexs))
}

/// Lists the keys to read for the chunks `vector_indexs` of document `index`, which are
/// known to be chunks of the document.
pub(crate) fn chunk_keys(index: usize, vector_indexs: &Vec<usize>) -> (keys: Vec<Key>)
    ensures
        keys@ == load_keys_of(index, vector_indexs@),
{
    let mut keys: Vec<Key> = Vec::new();
    keys.push(Key::Name(index));
    keys.push(Key::Uploader(index));
    let mut i: usize = 0;
    let ghost head = seq![Key::Name(index), Key::Uploader(index)];
    let ghost all = chunk_keys_of(index, vector_indexs@);
    assert(keys@ =~= head + all.take(0));
    while i < vector_indexs.len()
        invariant
            i <= vector_indexs.len(),
            head == seq![Key::Name(index), Key::Uploader(index)],
            all == chunk_keys_of(index, vector_indexs@),
            keys@ == head + all.take(2 * i),
        decreases vector_indexs.len() - i,
    {
        let ghost shown = keys@;
        keys.push(Key::Content(index, vector_indexs[i]));
        keys.push(Key::Page(index, vector_indexs[i]));
        proof {
            let own = seq![
                Key::Content(index, vector_indexs@[i as int]),
                Key::Page(index, vector_indexs@[i as int]),
            ];
            assert(keys@ =~= shown + own);
            assert(all[2 * i] == own[0]);
            assert(all[2 * i + 1] == own[1]);
            assert(all.take(2 * i + 2) =~= all.take(2 * i) + own);
            assert(shown + own =~= head + (all.take(2 * i) + own));
        }
        i += 1;
    }
    assert(all.take(2 * vector_indexs.len()) =~= all);
    keys
}

/// Chunk `j` of a reply to the keys of `load`.
pub open spec fn chunk_at(replies: Seq<Seq<u8>>, j: int) -> ChunkView {
    ChunkView {
        content: decoded_text(replies[2 + 2 * j]),
        page: stored_usize(replies[3 + 2 * j]).unwrap() as nat,
    }
}

/// The document that the values read under the keys of `load` make.
pub open spec fn load_of(replies: Seq<Seq<u8>>) -> Result<KnowledgeView, StoreError> {
    if replies.len() < 2 || replies.len() % 2 != 0 {
        Err(StoreError::Incomplete)
    } else if exists|j: int|
        0 <= j < (replies.len() - 2) / 2 && (#[trigger] stored_usize(replies[3 + 2 * j])) is None {
        Err(StoreError::Corrupt)
    } else {
        Ok(
            KnowledgeView {
                file_name: decoded_text(replies[0]),
                uploader: decoded_text(replies[1]),
                chunks: Seq::new(((replies.len() - 2) / 2) as nat, |j: int| chunk_at(replies, j)),
            },
        )
    }
}

/// Builds a document from the values read under the keys that `load_keys` lists, in
/// that order. Its chunks come in the order in which they were asked for.
pub fn load(replies: &Vec<Vec<u8>>) -> (knowledge: Result<UnLearnedKnowledge, StoreError>)
    ensures
        match knowledge {
            Ok(document) => load_of(replies.deep_view()) == Ok::<KnowledgeView, StoreError>(
                document@,
            ),
            Err(error) => load_of(replies.deep_view()) == Err::<KnowledgeView, StoreError>(error),
        },
{
    let ghost values = replies.deep_view();
    if replies.len() < 2 || replies.len() % 2 != 0 {
        return Err(StoreError::Incomplete);
    }
    let file_name = string_decode(replies[0].as_slice());
    let uploader = string_decode(replies[1].as_slice());
    let count: usize = (replies.len() - 2) / 2;
    let mut chunks: Vec<UnLearnedChunk> = Vec::new();
    let mut j: usize = 0;
    while j < count
        invariant
            j <= count,
            count == (replies.len() - 2) / 2,
            replies.len() >= 2,
            replies.len() % 2 == 0,
            values == replies.deep_view(),
            chunks.deep_view() == Seq::new(j as nat, |k: int| chunk_at(values, k)),
            forall|k: int| 0 <= k < j ==> (#[trigger] stored_usize(values[3 + 2 * k])) is Some,
        decreases count - j,
    {
        let content = string_decode(replies[2 + 2 * j].as_slice());
        assert(values[2 + 2 * j] == replies[2 + 2 * j]@);
        assert(values[3 + 2 * j] == replies[3 + 2 * j]@);
        match read_usize(replies[3 + 2 * j].as_slice()) {
            Some(page) => {
                let ghost shown = chunks.deep_view();
                chunks.push(UnLearnedChunk { content, page });
                assert(chunks.deep_view() =~= shown.push(chunk_at(values, j as int)));
                assert(chunks.deep_view() =~= Seq::new((j + 1) as nat, |k: int| chunk_at(values, k)));
            },
            None => {
                return Err(StoreError::Corrupt);
            },
        }
        j += 1;
    }
    assert(values[0] == replies[0]@);
    assert(values[1] == replies[1]@);
    Ok(UnLearnedKnowledge { file_name, uploader, chunks })
}

/// Lists the keys of the names of the first `count` documents.
pub fn list_keys(count: usize) -> (keys: Vec<Key>)
    ensures
        keys@ == Seq::new(count as nat, |i: int| Key::Name(i as usize)),
{
    let mut keys: Vec<Key> = Vec::new();
    let mut i: usize = 0;
    while i < count
        invariant
            i <= count,
            keys@ == Seq::new(i as nat, |k: int| Key::Name(k as usize)),
        decreases count - i,
    {
        keys.push(Key::Name(i));
        assert(keys@ =~= Seq::new((i + 1) as nat, |k: int| Key::Name(k as usize)));
        i += 1;
    }
    keys
}

/// The names of the published documents, from the values read under the keys that
/// `list_keys` lists: the name of document `i` at place `i`.
pub fn get_list(replies: &Vec<Vec<u8>>) -> (list: Vec<String>)
    ensures
        list.deep_view() == replies.deep_view().map_values(|data: Seq<u8>| decoded_text(data)),
{
    let mut list: Vec<String> = Vec::new();
    let mut i: usize = 0;
    let ghost values = replies.deep_view();
    let ghost names = values.map_values(|data: Seq<u8>| decoded_text(data));
    while i < replies.len()
        invariant
            i <= replies.len(),
            values == replies.deep_view(),
            names == values.map_values(|data: Seq<u8>| decoded_text(data)),
            list.deep_view() == names.take(i as int),
        decreases replies.len() - i,
    {
        let ghost shown = list.deep_view();
        list.push(string_decode(replies[i].as_slice()));
        assert(values[i as int] == replies[i as int]@);
        assert(list.deep_view() =~= shown.push(names[i as int]));
        assert(list.deep_view() =~= names.take(i + 1));
        i += 1;
    }
    assert(names.take(replies.len() as int) =~= names);
    list
}

/// Lists the keys of the chunk counts of the first `count` documents.
pub fn count_keys(count: usize) -> (keys: Vec<Key>)
    ensures
        keys@ == Seq::new(count as nat, |i: int| Key::ChunkCount(i as usize)),
{
    let mut keys: Vec<Key> = Vec::new();
    let mut i: usize = 0;
    while i < count
        invariant
            i <= count,
            keys@ == Seq::new(i as nat, |k: int| Key::ChunkCount(k as usize)),
        decreases count - i,
    {
        keys.push(Key::ChunkCount(i));
        assert(keys@ =~= Seq::new((i + 1) as nat, |k: int| Key::ChunkCount(k as usize)));
        i += 1;
    }
    keys
}

/// Lists the keys of the vectors of the `chunk_count` chunks of document `index`.
pub fn vector_keys(index: usize, chunk_count: usize) -> (keys: Vec<Key>)
    ensures
        keys@ == Seq::new(chunk_count as nat, |j: int| Key::Vector(index, j as usize)),
{
    let mut keys: Vec<Key> = Vec::new();
    let mut j: usize = 0;
    while j < chunk_count
        invariant
            j <= chunk_count,
            keys@ == Seq::new(j as nat, |k: int| Key::Vector(index, k as usize)),
        decreases chunk_count - j,
    {
        keys.push(Key::Vector(index, j));
        assert(keys@ =~= Seq::new((j + 1) as nat, |k: int| Key::Vector(index, k as usize)));
        j += 1;
    }
    keys
}

/// The vectors of one document, from the values read under the keys that `vector_keys`
/// lists: the vector of chunk `j` at place `j`.
pub fn document_vectors(replies: &Vec<Vec<u8>>) -> (vectors: Vec<Vec<u32>>)
    ensures
        vectors.deep_view() == replies.deep_view().map_values(|data: Seq<u8>| le_words(data)),
{
    let mut vectors: Vec<Vec<u32>> = Vec::new();
    let mut j: usize = 0;
    let ghost values = replies.deep_view();
    let ghost decoded = values.map_values(|data: Seq<u8>| le_words(data));
    while j < replies.len()
        invariant
            j <= replies.len(),
            values == replies.deep_view(),
            decoded == values.map_values(|data: Seq<u8>| le_words(data)),
            vectors.deep_view() == decoded.take(j as int),
        decreases replies.len() - j,
    {
        let ghost shown = vectors.deep_view();
        let vector = vector_decode(replies[j].as_slice());
        assert(values[j as int] == replies[j as int]@);
        assert(vector.deep_view() =~= decoded[j as int]);
        vectors.push(vector);
        assert(vectors.deep_view() =~= shown.push(decoded[j as int]));
        assert(vectors.deep_view() =~= decoded.take(j + 1));
        j += 1;
    }
    assert(decoded.take(replies.len() as int) =~= decoded);
    vectors
}

/// The vectors of all published documents, from the values read for each document
/// under the keys that `vector_keys` lists: the vectors of document `id` at place `id`.
pub fn get_vectors(replies: &Vec<Vec<Vec<u8>>>) -> (vectors: Vec<Vec<Vec<u32>>>)
    ensures
        vectors.deep_view() == replies.deep_view().map_values(
            |document: Seq<Seq<u8>>| document.map_values(|data: Seq<u8>| le_words(data)),
        ),
{
    let mut vectors: Vec<Vec<Vec<u32>>> = Vec::new();
    let mut i: usize = 0;
    let ghost values = replies.deep_view();
    let ghost decoded = values.map_values(
        |document: Seq<Seq<u8>>| document.map_values(|data: Seq<u8>| le_words(data)),
    );
    while i < replies.len()
        invariant
            i <= replies.len(),
            values == replies.deep_view(),
            decoded == values.map_values(
                |document: Seq<Seq<u8>>| document.map_values(|data: Seq<u8>| le_words(data)),
            ),
            vectors.deep_view() == decoded.take(i as int),
        decreases replies.len() - i,
    {
        let ghost shown = vectors.deep_view();
        let document = document_vectors(&replies[i]);
        assert(values[i as int] == replies[i as int].deep_view());
        assert(document.deep_view() =~= decoded[i as int]);
        vectors.push(document);
        assert(vectors.deep_view() =~= shown.push(decoded[i as int]));
        assert(vectors.deep_view() =~= decoded.take(i + 1));
        i += 1;
    }
    assert(decoded.take(replies.len() as int) =~= decoded);
    vectors
}

} // verus!
