//! The backend as a map from keys to values, and what holds of the protocol on it.

use crate::chunk_file::KnowledgeView;
use crate::knowledge::storage::chunk_at;
use crate::knowledge::storage::chunk_keys_of;
use crate::knowledge::storage::chunks_writes;
use crate::knowledge::storage::codec::be_bytes;
use crate::knowledge::storage::codec::decoded_text;
use crate::knowledge::storage::codec::le_bytes;
use crate::knowledge::storage::codec::le_words;
use crate::knowledge::storage::codec::lemma_be_round_trip;
use crate::knowledge::storage::codec::lemma_eight_bytes;
use crate::knowledge::storage::codec::lemma_le_round_trip;
use crate::knowledge::storage::codec::stored_usize;
use crate::knowledge::storage::key::Key;
use crate::knowledge::storage::load_keys_of;
use crate::knowledge::storage::load_of;
use crate::knowledge::storage::published_count_of;
use crate::knowledge::storage::store_writes;
use crate::knowledge::storage::StoreError;
use vstd::prelude::*;
use vstd::utf8::encode_utf8;

verus! {

/// What the backend holds after `writes` were made, in order, on a backend that held
/// `store`.
pub open spec fn written(store: Map<Key, Seq<u8>>, writes: Seq<(Key, Seq<u8>)>) -> Map<
    Key,
    Seq<u8>,
>
    decreases writes.len(),
{
    if writes.len() == 0 {
        store
    } else {
        written(store, writes.drop_last()).insert(writes.last().0, writes.last().1)
    }
}

/// What a read of `key` gives: the value, or nothing where the key is absent.
pub open spec fn held(store: Map<Key, Seq<u8>>, key: Key) -> Option<Seq<u8>> {
    if store.contains_key(key) {
        Some(store[key])
    } else {
        None
    }
}

/// The number of documents that are published in `store`.
pub open spec fn count_in(store: Map<Key, Seq<u8>>) -> Result<usize, StoreError> {
    published_count_of(held(store, Key::Count))
}

/// What a scan of the names of the published documents finds, document by document.
pub open spec fn names_in(store: Map<Key, Seq<u8>>) -> Seq<Option<Seq<u8>>> {
    match count_in(store) {
        Ok(count) => Seq::new(count as nat, |i: int| held(store, Key::Name(i as usize))),
        Err(_) => Seq::empty(),
    }
}

/// What a scan of the chunk counts of the published documents finds.
pub open spec fn chunk_counts_in(store: Map<Key, Seq<u8>>) -> Seq<Option<Seq<u8>>> {
    match count_in(store) {
        Ok(count) => Seq::new(count as nat, |i: int| held(store, Key::ChunkCount(i as usize))),
        Err(_) => Seq::empty(),
    }
}

/// What a scan of the vectors of published document `id` finds, where that document
/// has `chunk_count` chunks.
pub open spec fn vectors_in(store: Map<Key, Seq<u8>>, id: usize, chunk_count: usize) -> Seq<
    Option<Seq<u8>>,
> {
    Seq::new(chunk_count as nat, |j: int| held(store, Key::Vector(id, j as usize)))
}

proof fn lemma_written_elsewhere(store: Map<Key, Seq<u8>>, writes: Seq<(Key, Seq<u8>)>, key: Key)
    requires
        forall|i: int| 0 <= i < writes.len() ==> (#[trigger] writes[i]).0 != key,
    ensures
        held(written(store, writes), key) == held(store, key),
    decreases writes.len(),
{
    if writes.len() > 0 {
        assert forall|i: int| 0 <= i < writes.drop_last().len() implies (
        #[trigger] writes.drop_last()[i]).0 != key by {
            assert(writes.drop_last()[i] == writes[i]);
        }
        lemma_written_elsewhere(store, writes.drop_last(), key);
        assert(writes.last() == writes[writes.len() - 1]);
    }
}

proof fn lemma_written_at(store: Map<Key, Seq<u8>>, writes: Seq<(Key, Seq<u8>)>, at: int)
    requires
        0 <= at < writes.len(),
        forall|i: int| at < i < writes.len() ==> (#[trigger] writes[i]).0 != writes[at].0,
    ensures
        held(written(store, writes), writes[at].0) == Some(writes[at].1),
    decreases writes.len(),
{
    if at < writes.len() - 1 {
        assert forall|i: int| at < i < writes.drop_last().len() implies (
        #[trigger] writes.drop_last()[i]).0 != writes.drop_last()[at].0 by {
            assert(writes.drop_last()[i] == writes[i]);
        }
        lemma_written_at(store, writes.drop_last(), at);
        assert(writes.last() == writes[writes.len() - 1]);
    }
}

/// The writes of a plan, place by place: three for the document, three for each chunk,
/// and the count of documents last.
pub proof fn lemma_store_writes(id: usize, knowledge: KnowledgeView, vectors: Seq<Seq<u32>>)
    requires
        knowledge.chunks.len() <= usize::MAX,
    ensures
        store_writes(id, knowledge, vectors).len() == 3 * knowledge.chunks.len() + 4,
        store_writes(id, knowledge, vectors)[0] == (
            Key::Name(id),
            encode_utf8(knowledge.file_name),
        ),
        store_writes(id, knowledge, vectors)[1] == (
            Key::Uploader(id),
            encode_utf8(knowledge.uploader),
        ),
        store_writes(id, knowledge, vectors)[2] == (
            Key::ChunkCount(id),
            be_bytes(vectors.len(), 8),
        ),
        forall|j: int|
            0 <= j < knowledge.chunks.len() ==> {
                &&& (#[trigger] store_writes(id, knowledge, vectors)[3 + 3 * j]) == (
                    Key::Vector(id, j as usize),
                    le_bytes(vectors[j]),
                )
                &&& store_writes(id, knowledge, vectors)[3 + 3 * j + 1] == (
                    Key::Content(id, j as usize),
                    encode_utf8(knowledge.chunks[j].content),
                )
                &&& store_writes(id, knowledge, vectors)[3 + 3 * j + 2] == (
                    Key::Page(id, j as usize),
                    be_bytes(knowledge.chunks[j].page, 8),
                )
            },
        store_writes(id, knowledge, vectors).last() == (
            Key::Count,
            be_bytes((id + 1) as nat, 8),
        ),
        forall|i: int|
            0 <= i < store_writes(id, knowledge, vectors).len() - 1 ==> (#[trigger] store_writes(
                id,
                knowledge,
                vectors,
            )[i]).0.document() == Some(id),
{
    let all = store_writes(id, knowledge, vectors);
    let middle = chunks_writes(id, vectors, knowledge.chunks);
    let n = knowledge.chunks.len() as int;
    assert(middle.len() == 3 * n);
    assert(all.len() == 3 * n + 4);
    assert forall|i: int| 3 <= i < 3 + 3 * n implies #[trigger] all[i] == middle[i - 3] by {}
    assert(all.last() == all[3 * n + 3]);
    assert forall|j: int| 0 <= j < n implies {
        &&& (#[trigger] all[3 + 3 * j]) == (Key::Vector(id, j as usize), le_bytes(vectors[j]))
        &&& all[3 + 3 * j + 1] == (
            Key::Content(id, j as usize),
            encode_utf8(knowledge.chunks[j].content),
        )
        &&& all[3 + 3 * j + 2] == (Key::Page(id, j as usize), be_bytes(knowledge.chunks[j].page, 8))
    } by {
        assert(middle[3 * j] == (Key::Vector(id, j as usize), le_bytes(vectors[j])));
        assert(all[3 + 3 * j] == middle[3 + 3 * j - 3]);
        assert(all[3 + 3 * j + 1] == middle[3 + 3 * j + 1 - 3]);
        assert(all[3 + 3 * j + 2] == middle[3 + 3 * j + 2 - 3]);
    }
    assert forall|i: int| 0 <= i < all.len() - 1 implies (#[trigger] all[i]).0.document() == Some(
        id,
    ) by {
        if i >= 3 {
            assert(all[i] == middle[i - 3]);
            let part = (i - 3) % 3;
            assert(part == 0 || part == 1 || part == 2);
        }
    }
}

/// The publish barrier. While the writes of a plan are under way, the backend holds
/// under every key that is not of the new document what it held before: the count of
/// documents too, so that no scan of the published documents meets the new one.
pub proof fn lemma_publish_barrier(
    store: Map<Key, Seq<u8>>,
    id: usize,
    knowledge: KnowledgeView,
    vectors: Seq<Seq<u32>>,
    made: int,
    key: Key,
)
    requires
        knowledge.chunks.len() <= usize::MAX,
        0 <= made < store_writes(id, knowledge, vectors).len(),
        key.document() != Some(id),
    ensures
        held(written(store, store_writes(id, knowledge, vectors).take(made)), key) == held(
            store,
            key,
        ),
{
    lemma_store_writes(id, knowledge, vectors);
    let part = store_writes(id, knowledge, vectors).take(made);
    assert forall|i: int| 0 <= i < part.len() implies (#[trigger] part[i]).0 != key by {
        assert(part[i] == store_writes(id, knowledge, vectors)[i]);
    }
    lemma_written_elsewhere(store, part, key);
}

/// Publish atomicity. Where a plan for the next document was broken off before its last
/// write, a scan finds the count of documents, their names, their chunk counts and
/// their vectors as they were before: the new document is not among them.
pub proof fn lemma_interrupted_persist(
    store: Map<Key, Seq<u8>>,
    id: usize,
    knowledge: KnowledgeView,
    vectors: Seq<Seq<u32>>,
    made: int,
)
    requires
        knowledge.chunks.len() <= usize::MAX,
        0 <= made < store_writes(id, knowledge, vectors).len(),
        count_in(store) == Ok::<usize, StoreError>(id),
    ensures
        count_in(written(store, store_writes(id, knowledge, vectors).take(made))) == count_in(
            store,
        ),
        names_in(written(store, store_writes(id, knowledge, vectors).take(made))) == names_in(
            store,
        ),
        chunk_counts_in(written(store, store_writes(id, knowledge, vectors).take(made)))
            == chunk_counts_in(store),
        forall|earlier: usize, chunk_count: usize|
            earlier < id ==> #[trigger] vectors_in(
                written(store, store_writes(id, knowledge, vectors).take(made)),
                earlier,
                chunk_count,
            ) == vectors_in(store, earlier, chunk_count),
{
    let after = written(store, store_writes(id, knowledge, vectors).take(made));
    lemma_publish_barrier(store, id, knowledge, vectors, made, Key::Count);
    assert forall|i: usize| i < id implies #[trigger] held(after, Key::Name(i)) == held(
        store,
        Key::Name(i),
    ) by {
        lemma_publish_barrier(store, id, knowledge, vectors, made, Key::Name(i));
    }
    assert(names_in(after) =~= names_in(store));
    assert forall|i: usize| i < id implies #[trigger] held(after, Key::ChunkCount(i)) == held(
        store,
        Key::ChunkCount(i),
    ) by {
        lemma_publish_barrier(store, id, knowledge, vectors, made, Key::ChunkCount(i));
    }
    assert(chunk_counts_in(after) =~= chunk_counts_in(store));
    assert forall|earlier: usize, chunk_count: usize| earlier < id implies #[trigger] vectors_in(
        after,
        earlier,
        chunk_count,
    ) == vectors_in(store, earlier, chunk_count) by {
        assert forall|j: usize| j < chunk_count implies #[trigger] held(
            after,
            Key::Vector(earlier, j),
        ) == held(store, Key::Vector(earlier, j)) by {
            lemma_publish_barrier(store, id, knowledge, vectors, made, Key::Vector(earlier, j));
        }
        assert(vectors_in(after, earlier, chunk_count) =~= vectors_in(store, earlier, chunk_count));
    }
}

/// Once all writes of a plan are made, the document is published: the count of
/// documents is one more than its id.
pub proof fn lemma_published(
    store: Map<Key, Seq<u8>>,
    id: usize,
    knowledge: KnowledgeView,
    vectors: Seq<Seq<u32>>,
)
    requires
        knowledge.chunks.len() <= usize::MAX,
        id < usize::MAX,
    ensures
        count_in(written(store, store_writes(id, knowledge, vectors))) == Ok::<usize, StoreError>(
            (id + 1) as usize,
        ),
{
    lemma_store_writes(id, knowledge, vectors);
    let writes = store_writes(id, knowledge, vectors);
    lemma_written_at(store, writes, writes.len() - 1);
    lemma_eight_bytes();
    lemma_be_round_trip((id + 1) as nat, 8);
}

/// The values that a read of `keys` gives, key by key.
pub open spec fn read_all(store: Map<Key, Seq<u8>>, keys: Seq<Key>) -> Seq<Option<Seq<u8>>> {
    keys.map_values(|key: Key| held(store, key))
}

/// The values of a read in which every key was there.
pub open spec fn values_of(replies: Seq<Option<Seq<u8>>>) -> Seq<Seq<u8>> {
    replies.map_values(|reply: Option<Seq<u8>>| reply.unwrap())
}

/// The indices of all `n` chunks of a document, in order.
pub open spec fn all_chunks(n: nat) -> Seq<usize> {
    Seq::new(n, |j: int| j as usize)
}

/// The round trip. Once a document is persisted, reading the keys of all its chunks in
/// order finds every key, and the values make the document as it was: its name, its
/// uploader, and the text and the page of every chunk.
pub proof fn lemma_round_trip(
    store: Map<Key, Seq<u8>>,
    id: usize,
    knowledge: KnowledgeView,
    vectors: Seq<Seq<u32>>,
)
    requires
        knowledge.chunks.len() <= usize::MAX,
        forall|j: int| 0 <= j < knowledge.chunks.len() ==> (#[trigger] knowledge.chunks[j]).page
            <= usize::MAX,
    ensures
        forall|i: int|
            0 <= i < load_keys_of(id, all_chunks(knowledge.chunks.len())).len() ==> (
            #[trigger] read_all(
                written(store, store_writes(id, knowledge, vectors)),
                load_keys_of(id, all_chunks(knowledge.chunks.len())),
            )[i]) is Some,
        load_of(
            values_of(
                read_all(
                    written(store, store_writes(id, knowledge, vectors)),
                    load_keys_of(id, all_chunks(knowledge.chunks.len())),
                ),
            ),
        ) == Ok::<KnowledgeView, StoreError>(knowledge),
{
    let n = knowledge.chunks.len();
    let writes = store_writes(id, knowledge, vectors);
    let after = written(store, writes);
    let keys = load_keys_of(id, all_chunks(n));
    let replies = read_all(after, keys);
    let values = values_of(replies);
    lemma_store_writes(id, knowledge, vectors);
    lemma_eight_bytes();
    assert forall|i: int, at: int| 0 <= at < i < writes.len() implies (#[trigger] writes[i]).0 != (
    #[trigger] writes[at]).0 by {
        lemma_distinct_keys(id, knowledge, vectors, at, i);
    }
    lemma_written_at(store, writes, 0);
    lemma_written_at(store, writes, 1);
    vstd::utf8::encode_utf8_valid_utf8(knowledge.file_name);
    vstd::utf8::encode_utf8_decode_utf8(knowledge.file_name);
    vstd::utf8::encode_utf8_valid_utf8(knowledge.uploader);
    vstd::utf8::encode_utf8_decode_utf8(knowledge.uploader);
    assert(keys[0] == Key::Name(id));
    assert(keys[1] == Key::Uploader(id));
    assert forall|j: int| 0 <= j < n implies replies[2 + 2 * j] == Some(
        encode_utf8((#[trigger] knowledge.chunks[j]).content),
    ) && replies[3 + 2 * j] == Some(be_bytes(knowledge.chunks[j].page, 8)) by {
        assert(keys[2 + 2 * j] == chunk_keys_of(id, all_chunks(n))[2 * j]);
        assert(keys[3 + 2 * j] == chunk_keys_of(id, all_chunks(n))[2 * j + 1]);
        assert(writes[3 + 3 * j].0 == Key::Vector(id, j as usize));
        lemma_written_at(store, writes, 3 + 3 * j + 1);
        lemma_written_at(store, writes, 3 + 3 * j + 2);
    }
    assert forall|i: int| 0 <= i < keys.len() implies (#[trigger] replies[i]) is Some by {
        if i >= 2 {
            let j = (i - 2) / 2;
            assert(i == 2 + 2 * j || i == 3 + 2 * j);
            assert(knowledge.chunks[j].page >= 0);
            assert(replies[2 + 2 * j] is Some && replies[3 + 2 * j] is Some);
        }
    }
    assert forall|j: int| 0 <= j < n implies chunk_at(values, j) == #[trigger] knowledge.chunks[j] by {
        assert(values[2 + 2 * j] == encode_utf8(knowledge.chunks[j].content));
        assert(values[3 + 2 * j] == be_bytes(knowledge.chunks[j].page, 8));
        vstd::utf8::encode_utf8_valid_utf8(knowledge.chunks[j].content);
        vstd::utf8::encode_utf8_decode_utf8(knowledge.chunks[j].content);
        lemma_be_round_trip(knowledge.chunks[j].page, 8);
    }
    assert(values.len() == 2 + 2 * n);
    assert forall|j: int| 0 <= j < (values.len() - 2) / 2 implies (#[trigger] stored_usize(
        values[3 + 2 * j],
    )) is Some by {
        assert(chunk_at(values, j) == knowledge.chunks[j]);
        assert(values[3 + 2 * j] == be_bytes(knowledge.chunks[j].page, 8));
        lemma_be_round_trip(knowledge.chunks[j].page, 8);
    }
    assert(values[0] == encode_utf8(knowledge.file_name));
    assert(values[1] == encode_utf8(knowledge.uploader));
    assert(Seq::new(((values.len() - 2) / 2) as nat, |j: int| chunk_at(values, j))
        =~= knowledge.chunks);
}

proof fn lemma_distinct_keys(
    id: usize,
    knowledge: KnowledgeView,
    vectors: Seq<Seq<u32>>,
    at: int,
    i: int,
)
    requires
        knowledge.chunks.len() <= usize::MAX,
        0 <= at < i < store_writes(id, knowledge, vectors).len(),
    ensures
        store_writes(id, knowledge, vectors)[i].0 != store_writes(id, knowledge, vectors)[at].0,
{
    lemma_store_writes(id, knowledge, vectors);
    let writes = store_writes(id, knowledge, vectors);
    let n = knowledge.chunks.len() as int;
    assert(writes.last() == writes[3 * n + 3]);
    if at >= 3 {
        let j = (at - 3) / 3;
        assert(at == 3 + 3 * j || at == 3 + 3 * j + 1 || at == 3 + 3 * j + 2);
        assert(writes[3 + 3 * j].0 == Key::Vector(id, j as usize));
    }
    if 3 <= i < 3 * n + 3 {
        let j = (i - 3) / 3;
        assert(i == 3 + 3 * j || i == 3 + 3 * j + 1 || i == 3 + 3 * j + 2);
        assert(writes[3 + 3 * j].0 == Key::Vector(id, j as usize));
    }
}

/// The index in memory mirrors the store: it knows as many documents as are published,
/// by the names under which they are stored, and for each of them as many vectors as
/// it has chunks, the vectors that are stored.
pub open spec fn mirrors(
    names: Seq<Seq<char>>,
    vectors: Seq<Seq<Seq<u32>>>,
    store: Map<Key, Seq<u8>>,
) -> bool {
    &&& names.len() == vectors.len()
    &&& names.len() <= usize::MAX
    &&& count_in(store) == Ok::<usize, StoreError>(names.len() as usize)
    &&& forall|d: usize|
        d < names.len() ==> (#[trigger] held(store, Key::Name(d))) is Some && decoded_text(
            held(store, Key::Name(d)).unwrap(),
        ) == names[d as int]
    &&& forall|d: usize|
        d < vectors.len() ==> (#[trigger] held(store, Key::ChunkCount(d))) is Some
            && vectors[d as int].len() <= usize::MAX && stored_usize(
            held(store, Key::ChunkCount(d)).unwrap(),
        ) == Some(vectors[d as int].len() as usize)
    &&& forall|d: usize, j: usize|
        d < vectors.len() && j < vectors[d as int].len() ==> (#[trigger] held(
            store,
            Key::Vector(d, j),
        )) is Some && le_words(held(store, Key::Vector(d, j)).unwrap())
            == vectors[d as int][j as int]
}

proof fn lemma_written_others(
    store: Map<Key, Seq<u8>>,
    id: usize,
    knowledge: KnowledgeView,
    vectors: Seq<Seq<u32>>,
    key: Key,
)
    requires
        knowledge.chunks.len() <= usize::MAX,
        key.document() is Some,
        key.document() != Some(id),
    ensures
        held(written(store, store_writes(id, knowledge, vectors)), key) == held(store, key),
{
    lemma_store_writes(id, knowledge, vectors);
    let writes = store_writes(id, knowledge, vectors);
    assert forall|i: int| 0 <= i < writes.len() implies (#[trigger] writes[i]).0 != key by {
        if i == writes.len() - 1 {
            assert(writes[i] == writes.last());
        }
    }
    lemma_written_elsewhere(store, writes, key);
}

/// The index keeps mirroring the store. Where it mirrors the store, and a document is
/// persisted under the next id and then recorded in the index, it mirrors the store
/// again.
pub proof fn lemma_index_mirrors_store(
    names: Seq<Seq<char>>,
    vectors: Seq<Seq<Seq<u32>>>,
    store: Map<Key, Seq<u8>>,
    knowledge: KnowledgeView,
    added: Seq<Seq<u32>>,
)
    requires
        mirrors(names, vectors, store),
        names.len() < usize::MAX,
        knowledge.chunks.len() == added.len(),
        added.len() <= usize::MAX,
    ensures
        mirrors(
            names.push(knowledge.file_name),
            vectors.push(added),
            written(store, store_writes(names.len() as usize, knowledge, added)),
        ),
{
    let id = names.len() as usize;
    let writes = store_writes(id, knowledge, added);
    let after = written(store, writes);
    let all_names = names.push(knowledge.file_name);
    let all_vectors = vectors.push(added);
    lemma_store_writes(id, knowledge, added);
    lemma_published(store, id, knowledge, added);
    lemma_eight_bytes();
    assert forall|i: int, at: int| 0 <= at < i < writes.len() implies (#[trigger] writes[i]).0 != (
    #[trigger] writes[at]).0 by {
        lemma_distinct_keys(id, knowledge, added, at, i);
    }
    assert forall|d: usize| d < all_names.len() implies (#[trigger] held(after, Key::Name(d)))
        is Some && decoded_text(held(after, Key::Name(d)).unwrap()) == all_names[d as int] by {
        if d < id {
            lemma_written_others(store, id, knowledge, added, Key::Name(d));
            assert(held(store, Key::Name(d)) is Some);
        } else {
            lemma_written_at(store, writes, 0);
            vstd::utf8::encode_utf8_valid_utf8(knowledge.file_name);
            vstd::utf8::encode_utf8_decode_utf8(knowledge.file_name);
        }
    }
    assert forall|d: usize| d < all_vectors.len() implies (#[trigger] held(
        after,
        Key::ChunkCount(d),
    )) is Some && all_vectors[d as int].len() <= usize::MAX && stored_usize(
        held(after, Key::ChunkCount(d)).unwrap(),
    ) == Some(all_vectors[d as int].len() as usize) by {
        if d < id {
            lemma_written_others(store, id, knowledge, added, Key::ChunkCount(d));
            assert(held(store, Key::ChunkCount(d)) is Some);
        } else {
            lemma_written_at(store, writes, 2);
            lemma_be_round_trip(added.len(), 8);
        }
    }
    assert forall|d: usize, j: usize|
        d < all_vectors.len() && j < all_vectors[d as int].len() implies (#[trigger] held(
        after,
        Key::Vector(d, j),
    )) is Some && le_words(held(after, Key::Vector(d, j)).unwrap())
        == all_vectors[d as int][j as int] by {
        if d < id {
            lemma_written_others(store, id, knowledge, added, Key::Vector(d, j));
            assert(held(store, Key::Vector(d, j)) is Some);
        } else {
            assert(writes[3 + 3 * j].0 == Key::Vector(id, j));
            lemma_written_at(store, writes, 3 + 3 * j);
            lemma_le_round_trip(added[j as int]);
        }
    }
}

/// An index of no documents mirrors a store that holds nothing.
pub proof fn lemma_empty_index_mirrors_empty_store()
    ensures
        mirrors(Seq::empty(), Seq::empty(), Map::empty()),
{
}

} // verus!
