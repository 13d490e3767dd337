//! The index in memory, and what retrieval does around the store: the context window
//! of a match, its citation, the question that is put.

use crate::chunk_file::chunker::contents_of;
use crate::chunk_file::ChunkView;
use crate::chunk_file::KnowledgeView;
use crate::chunk_file::UnLearnedKnowledge;
use crate::knowledge::matching::Matched;
use crate::knowledge::storage::load;
use crate::knowledge::storage::chunk_keys;
use crate::knowledge::storage::load_keys_of;
use crate::knowledge::storage::load_plan;
use crate::knowledge::storage::load_of;
use crate::knowledge::storage::Key;
use crate::knowledge::storage::StoreError;
use crate::text::decimal;
use crate::text::decimal_string;
use crate::text::same_text;
use vstd::prelude::*;
use vstd::string::StringExecFns;

verus! {

/// The name of a knowledge base and of the one who runs it.
#[derive(Clone, Debug)]
pub struct BrainMetadata {
    pub name: String,
    pub admin: String,
}

/// A document as the index holds it: its file name and the vectors of its chunks.
#[derive(Clone, Debug)]
struct Indexed {
    name: String,
    vectors: Vec<Vec<u32>>,
}

/// The index that is held in memory: for each published document, by its id, the file
/// name and the vectors of its chunks. A vector is held by the bit patterns of its
/// components.
#[derive(Clone, Debug)]
pub struct Knowledge {
    documents: Vec<Indexed>,
}

impl Knowledge {
    /// The file names of the documents; document `id` stands at place `id`.
    pub closed spec fn names(&self) -> Seq<Seq<char>> {
        Seq::new(self.documents.len() as nat, |id: int| self.documents[id].name@)
    }

    /// The vectors of the chunks of the documents; those of document `id` stand at place
    /// `id`, one vector for each chunk.
    pub closed spec fn vectors_by_doc(&self) -> Seq<Seq<Seq<u32>>> {
        Seq::new(self.documents.len() as nat, |id: int| self.documents[id].vectors.deep_view())
    }

    /// The index holds a name and the vectors for the same documents.
    pub proof fn lemma_same_documents(&self)
        ensures
            self.names().len() == self.vectors_by_doc().len(),
    {
    }

    /// An index of no documents.
    pub fn new() -> (knowledge: Knowledge)
        ensures
            knowledge.names() == Seq::<Seq<char>>::empty(),
            knowledge.vectors_by_doc() == Seq::<Seq<Seq<u32>>>::empty(),
    {
        let knowledge = Knowledge { documents: Vec::new() };
        assert(knowledge.names() =~= Seq::<Seq<char>>::empty());
        assert(knowledge.vectors_by_doc() =~= Seq::<Seq<Seq<u32>>>::empty());
        knowledge
    }

    /// The index of the documents that the store holds: their names and their vectors,
    /// both in the order of their ids. There is none where the two differ in number.
    pub fn rebuild(list: Vec<String>, vectors: Vec<Vec<Vec<u32>>>) -> (knowledge: Option<Knowledge>)
        ensures
            knowledge is Some <==> list.len() == vectors.len(),
            knowledge matches Some(index) ==> index.names() == list.deep_view()
                && index.vectors_by_doc() == vectors.deep_view(),
    {
        if list.len() != vectors.len() {
            return None;
        }
        let ghost names = list.deep_view();
        let ghost held = vectors.deep_view();
        let mut list = list;
        let mut vectors = vectors;
        let mut reversed: Vec<Indexed> = Vec::new();
        while list.len() > 0
            invariant
                list.len() == vectors.len(),
                list.len() + reversed.len() == names.len(),
                names.len() == held.len(),
                list.deep_view() == names.take(list.len() as int),
                vectors.deep_view() == held.take(list.len() as int),
                forall|k: int|
                    0 <= k < reversed.len() ==> (#[trigger] reversed[k]).name@ == names[names.len()
                        - 1 - k] && reversed[k].vectors.deep_view() == held[names.len() - 1 - k],
            decreases list.len(),
        {
            let ghost left = list.len() - 1;
            let ghost names_before = list.deep_view();
            let ghost held_before = vectors.deep_view();
            let name = list.pop().unwrap();
            let own = vectors.pop().unwrap();
            proof {
                assert(name@ == names_before[left]);
                assert(own.deep_view() == held_before[left]);
                assert(list.deep_view() =~= names.take(left));
                assert(vectors.deep_view() =~= held.take(left));
            }
            reversed.push(Indexed { name, vectors: own });
        }
        let mut documents: Vec<Indexed> = Vec::new();
        let ghost total = reversed.len();
        let ghost all = reversed@;
        while reversed.len() > 0
            invariant
                total == names.len(),
                names.len() == held.len(),
                reversed.len() + documents.len() == total,
                reversed@ == all.take(reversed.len() as int),
                all.len() == total,
                forall|k: int|
                    0 <= k < total ==> (#[trigger] all[k]).name@ == names[total - 1 - k]
                        && all[k].vectors.deep_view() == held[total - 1 - k],
                forall|k: int|
                    0 <= k < documents.len() ==> (#[trigger] documents[k]).name@ == names[k]
                        && documents[k].vectors.deep_view() == held[k],
            decreases reversed.len(),
        {
            let ghost at = reversed.len() - 1;
            let document = reversed.pop().unwrap();
            assert(document == all[at]);
            assert(reversed@ =~= all.take(at));
            documents.push(document);
        }
        let knowledge = Knowledge { documents };
        assert(knowledge.names() =~= names);
        assert(knowledge.vectors_by_doc() =~= held);
        Some(knowledge)
    }

    /// The number of documents.
    pub fn len(&self) -> (n: usize)
        ensures
            n == self.names().len(),
            n == self.vectors_by_doc().len(),
    {
        self.documents.len()
    }

    /// Records a document that was just published as number `index`. It is recorded
    /// where `index` is the next id; else the index stays as it is.
    pub fn insert(&mut self, index: usize, vectors: Vec<Vec<u32>>, file_name: String) -> (recorded:
        bool)
        ensures
            recorded == (index == old(self).names().len()),
            recorded ==> final(self).names() == old(self).names().push(file_name@)
                && final(self).vectors_by_doc() == old(self).vectors_by_doc().push(
                vectors.deep_view(),
            ),
            !recorded ==> final(self).names() == old(self).names() && final(self).vectors_by_doc()
                == old(self).vectors_by_doc(),
    {
        if index != self.documents.len() {
            return false;
        }
        let ghost names = self.names();
        let ghost held = self.vectors_by_doc();
        self.documents.push(Indexed { name: file_name, vectors });
        assert(self.names() =~= names.push(file_name@));
        assert(self.vectors_by_doc() =~= held.push(vectors.deep_view()));
        true
    }

    /// The file names of the documents, in the order of their ids.
    pub fn get_list(&self) -> (list: Vec<String>)
        ensures
            list.deep_view() == self.names(),
    {
        let mut list: Vec<String> = Vec::new();
        let mut i: usize = 0;
        while i < self.documents.len()
            invariant
                i <= self.documents.len(),
                list.deep_view() == self.names().take(i as int),
            decreases self.documents.len() - i,
        {
            let ghost shown = list.deep_view();
            list.push(self.documents[i].name.clone());
            assert(list.deep_view() =~= shown.push(self.documents[i as int].name@));
            assert(list.deep_view() =~= self.names().take(i + 1));
            i += 1;
        }
        assert(self.names().take(self.documents.len() as int) =~= self.names());
        list
    }

    /// The vectors of the chunks of document `index`, if the index holds it.
    pub fn document(&self, index: usize) -> (vectors: Option<&Vec<Vec<u32>>>)
        ensures
            vectors is Some <==> index < self.vectors_by_doc().len(),
            vectors matches Some(held) ==> held.deep_view() == self.vectors_by_doc()[index as int],
    {
        if index < self.documents.len() {
            Some(&self.documents[index].vectors)
        } else {
            None
        }
    }
}

impl Knowledge {
    /// Whether every vector of the index has `dimension` components. Vectors of another
    /// dimension than the query cannot be compared with it.
    pub fn has_dimension(&self, dimension: usize) -> (all: bool)
        ensures
            all == forall|id: int, j: int|
                0 <= id < self.vectors_by_doc().len() && 0 <= j < self.vectors_by_doc()[id].len()
                    ==> (#[trigger] self.vectors_by_doc()[id][j]).len() == dimension,
    {
        let mut id: usize = 0;
        while id < self.documents.len()
            invariant
                id <= self.documents.len(),
                forall|d: int, j: int|
                    0 <= d < id && 0 <= j < self.vectors_by_doc()[d].len() ==> (
                    #[trigger] self.vectors_by_doc()[d][j]).len() == dimension,
            decreases self.documents.len() - id,
        {
            let vectors = &self.documents[id].vectors;
            let mut j: usize = 0;
            while j < vectors.len()
                invariant
                    j <= vectors.len(),
                    id < self.documents.len(),
                    vectors == &self.documents[id as int].vectors,
                    forall|k: int|
                        0 <= k < j ==> (#[trigger] self.vectors_by_doc()[id as int][k]).len()
                            == dimension,
                decreases vectors.len() - j,
            {
                assert(self.vectors_by_doc()[id as int][j as int] =~= vectors[j as int]@);
                if vectors[j].len() != dimension {
                    return false;
                }
                j += 1;
            }
            assert(self.vectors_by_doc()[id as int].len() == vectors.len());
            id += 1;
        }
        true
    }
}

impl Default for Knowledge {
    fn default() -> (knowledge: Self)
        ensures
            knowledge.names() == Seq::<Seq<char>>::empty(),
            knowledge.vectors_by_doc() == Seq::<Seq<Seq<u32>>>::empty(),
    {
        Knowledge::new()
    }
}

/// Where the context window of a match begins: `head` chunks before the match, or at
/// the first chunk.
pub open spec fn window_start(vector_index: usize, head: usize) -> int {
    if head < vector_index {
        vector_index - head
    } else {
        0
    }
}

/// Where the context window of a match ends: `tail` chunks behind the match, or at the
/// last chunk of the document.
pub open spec fn window_end(vector_index: usize, len: usize, tail: usize) -> int {
    if vector_index + tail < len - 1 {
        vector_index + tail
    } else {
        len - 1
    }
}

/// The chunks of the context window of a match, in order.
pub open spec fn window_of(vector_index: usize, len: usize, head: usize, tail: usize) -> Seq<
    usize,
> {
    Seq::new(
        (window_end(vector_index, len, tail) - window_start(vector_index, head) + 1) as nat,
        |k: int| (window_start(vector_index, head) + k) as usize,
    )
}

/// Lists the chunks to load around a match: up to `head` chunks before it and up to
/// `tail` chunks behind it, none beyond the last chunk of the document.
pub fn context_window(matched: &Matched, head: usize, tail: usize) -> (vector_indexs: Vec<usize>)
    requires
        matched.wf(),
    ensures
        vector_indexs@ == window_of(matched.vector_index, matched.len, head, tail),
        forall|k: int| 0 <= k < vector_indexs@.len() ==> vector_indexs@[k] < matched.len,
        matched_place(matched.vector_index, head) < vector_indexs@.len(),
        vector_indexs@[matched_place(matched.vector_index, head) as int] == matched.vector_index,
{
    let start: usize = if head < matched.vector_index {
        matched.vector_index - head
    } else {
        0
    };
    let end: usize = if tail < matched.len - 1 - matched.vector_index {
        matched.vector_index + tail
    } else {
        matched.len - 1
    };
    let mut vector_indexs: Vec<usize> = Vec::new();
    let mut index: usize = start;
    while index <= end
        invariant
            start <= index <= end + 1,
            end < matched.len,
            vector_indexs@ == Seq::new((index - start) as nat, |k: int| (start + k) as usize),
        decreases end + 1 - index,
    {
        vector_indexs.push(index);
        assert(vector_indexs@ =~= Seq::new((index + 1 - start) as nat, |k: int| (start + k) as usize));
        index += 1;
    }
    vector_indexs
}

/// The place of the match in its context window.
pub open spec fn matched_place(vector_index: usize, head: usize) -> usize {
    if head < vector_index {
        head
    } else {
        vector_index
    }
}

/// Tells the place of the match in its context window.
pub fn matched_relative_index(matched: &Matched, head: usize) -> (place: usize)
    ensures
        place == matched_place(matched.vector_index, head),
{
    if head < matched.vector_index {
        head
    } else {
        matched.vector_index
    }
}

/// A loaded context window with the page of the match on its first chunk.
pub open spec fn cited(knowledge: KnowledgeView, place: int) -> KnowledgeView {
    KnowledgeView {
        file_name: knowledge.file_name,
        uploader: knowledge.uploader,
        chunks: knowledge.chunks.update(
            0,
            ChunkView { content: knowledge.chunks[0].content, page: knowledge.chunks[place].page },
        ),
    }
}

/// Puts the page of the match, which stands at `matched_relative_index` of the loaded
/// window, on the first chunk of the window: what is cited is the page of the match,
/// not the page where the window begins.
pub fn cite(knowledge: UnLearnedKnowledge, matched_relative_index: usize) -> (result:
    UnLearnedKnowledge)
    requires
        matched_relative_index < knowledge.chunks.len(),
    ensures
        result@ == cited(knowledge@, matched_relative_index as int),
{
    let mut knowledge = knowledge;
    let ghost before = knowledge@;
    let matched_page = knowledge.chunks[matched_relative_index].page;
    knowledge.chunks[0].page = matched_page;
    assert(knowledge.chunks.deep_view() =~= cited(before, matched_relative_index as int).chunks);
    knowledge
}

/// The text of a context window: the contents of its chunks, one after the other.
pub fn context(knowledge: &UnLearnedKnowledge) -> (text: String)
    ensures
        text@ == contents_of(knowledge@.chunks),
{
    let mut text = String::new();
    let mut i: usize = 0;
    let ghost chunks = knowledge.chunks.deep_view();
    assert(chunks.take(0) =~= Seq::<ChunkView>::empty());
    while i < knowledge.chunks.len()
        invariant
            i <= knowledge.chunks.len(),
            chunks == knowledge.chunks.deep_view(),
            text@ == contents_of(chunks.take(i as int)),
        decreases knowledge.chunks.len() - i,
    {
        proof {
            assert(chunks.take(i + 1).drop_last() =~= chunks.take(i as int));
            assert(chunks.take(i + 1).last() == knowledge.chunks[i as int]@);
        }
        text.append(knowledge.chunks[i].content.as_str());
        i += 1;
    }
    assert(chunks.take(knowledge.chunks.len() as int) =~= chunks);
    text
}

/// The keys to read for the context window of a match. All of them are keys of chunks
/// that the document has.
pub fn retrieve_keys(matched: &Matched, head: usize, tail: usize) -> (keys: Vec<Key>)
    requires
        matched.wf(),
    ensures
        keys@ == load_keys_of(
            matched.index,
            window_of(matched.vector_index, matched.len, head, tail),
        ),
        load_plan(
            matched.index,
            window_of(matched.vector_index, matched.len, head, tail),
            matched.len,
        ) == Ok::<Seq<Key>, StoreError>(keys@),
{
    let vector_indexs = context_window(matched, head, tail);
    chunk_keys(matched.index, &vector_indexs)
}

/// What `retrieve` makes of the values read under the keys of `retrieve_keys`: the
/// document that they make, with the page of the match on its first chunk. Values that
/// make a document of another number of chunks than the window has are refused.
pub open spec fn retrieved(
    replies: Seq<Seq<u8>>,
    vector_index: usize,
    len: usize,
    head: usize,
    tail: usize,
) -> Result<KnowledgeView, StoreError> {
    match load_of(replies) {
        Ok(knowledge) => if knowledge.chunks.len() == window_of(vector_index, len, head, tail).len() {
            Ok(cited(knowledge, matched_place(vector_index, head) as int))
        } else {
            Err(StoreError::Incomplete)
        },
        Err(error) => Err(error),
    }
}

/// Builds the context window of a match from the values read under the keys that
/// `retrieve_keys` lists, and puts the page of the match on its first chunk.
pub fn retrieve(replies: &Vec<Vec<u8>>, matched: &Matched, head: usize, tail: usize) -> (result:
    Result<UnLearnedKnowledge, StoreError>)
    requires
        matched.wf(),
    ensures
        match result {
            Ok(knowledge) => retrieved(
                replies.deep_view(),
                matched.vector_index,
                matched.len,
                head,
                tail,
            ) == Ok::<KnowledgeView, StoreError>(knowledge@),
            Err(error) => retrieved(
                replies.deep_view(),
                matched.vector_index,
                matched.len,
                head,
                tail,
            ) == Err::<KnowledgeView, StoreError>(error),
        },
{
    let vector_indexs = context_window(matched, head, tail);
    match load(replies) {
        Ok(knowledge) => {
            if knowledge.chunks.len() != vector_indexs.len() {
                Err(StoreError::Incomplete)
            } else {
                Ok(cite(knowledge, matched_relative_index(matched, head)))
            }
        },
        Err(error) => Err(error),
    }
}

/// What is put to the completion service: the context as what is known, and the query
/// as the question.
pub open spec fn question_of(context: Seq<char>, query: Seq<char>) -> Seq<char> {
    "已知："@ + context + "\n"@ + "问题："@ + query
}

/// Writes what is put to the completion service.
pub fn question(context: &str, query: &str) -> (text: String)
    ensures
        text@ == question_of(context@, query@),
{
    let mut text = String::from_str("已知：");
    text.append(context);
    text.append("\n");
    text.append("问题：");
    text.append(query);
    text
}

/// The citation that ends an answer: the file and the page of the match.
pub open spec fn citation_of(file_name: Seq<char>, page: nat) -> Seq<char> {
    "（详见 "@ + file_name + " ，第 "@ + decimal(page) + " 页）"@
}

/// Writes the citation that ends an answer.
pub fn citation(file_name: &str, page: usize) -> (text: String)
    ensures
        text@ == citation_of(file_name@, page as nat),
{
    let mut text = String::from_str("（详见 ");
    text.append(file_name);
    text.append(" ，第 ");
    text.append(decimal_string(page).as_str());
    text.append(" 页）");
    text
}

/// The files that were uploaded and are not in the index: those of `uploaded` whose
/// name is not among `indexed`, in the order of `uploaded`.
pub fn unindexed(uploaded: Vec<String>, indexed: &Vec<String>) -> (missing: Vec<String>)
    ensures
        missing.deep_view() == uploaded.deep_view().filter(
            |name: Seq<char>| !indexed.deep_view().contains(name),
        ),
{
    let mut missing: Vec<String> = Vec::new();
    let mut i: usize = 0;
    let ghost names = uploaded.deep_view();
    let ghost known = indexed.deep_view();
    let ghost wanted = |name: Seq<char>| !known.contains(name);
    proof {
        reveal(Seq::filter);
        assert(names.take(0) =~= Seq::<Seq<char>>::empty());
    }
    while i < uploaded.len()
        invariant
            i <= uploaded.len(),
            names == uploaded.deep_view(),
            known == indexed.deep_view(),
            wanted == |name: Seq<char>| !known.contains(name),
            missing.deep_view() == names.take(i as int).filter(wanted),
        decreases uploaded.len() - i,
    {
        proof {
            reveal(Seq::filter);
            assert(names.take(i + 1).drop_last() =~= names.take(i as int));
            assert(names.take(i + 1).last() == uploaded[i as int]@);
        }
        if !holds(indexed, uploaded[i].as_str()) {
            let ghost shown = missing.deep_view();
            missing.push(uploaded[i].clone());
            assert(missing.deep_view() =~= shown.push(uploaded[i as int]@));
        }
        i += 1;
    }
    assert(names.take(uploaded.len() as int) =~= names);
    missing
}

fn holds(list: &Vec<String>, name: &str) -> (found: bool)
    ensures
        found == list.deep_view().contains(name@),
{
    let mut i: usize = 0;
    while i < list.len()
        invariant
            i <= list.len(),
            forall|k: int| 0 <= k < i ==> list.deep_view()[k] != name@,
        decreases list.len() - i,
    {
        if same_text(list[i].as_str(), name) {
            assert(list.deep_view()[i as int] == name@);
            return true;
        }
        i += 1;
    }
    false
}

} // verus!
