//! The keys of the store and their paths.

use crate::text::decimal;
use crate::text::decimal_string;
use crate::text::decimal_value;
use crate::text::is_digit;
use crate::text::lemma_decimal;
use vstd::prelude::*;
use vstd::string::StringExecFns;

verus! {

/// The place of a value in the store.
#[derive(PartialEq, Eq, Structural, Clone, Copy, Debug)]
pub enum Key {
    /// The number of published documents.
    Count,
    /// The file name of a document.
    Name(usize),
    /// The uploader of a document.
    Uploader(usize),
    /// The number of chunks of a document.
    ChunkCount(usize),
    /// The vector of a chunk of a document.
    Vector(usize, usize),
    /// The text of a chunk of a document.
    Content(usize, usize),
    /// The page of a chunk of a document.
    Page(usize, usize),
}

impl Key {
    /// The path under which the backend holds the value.
    pub open spec fn path_of(self) -> Seq<char> {
        match self {
            Key::Count => "count"@,
            Key::Name(id) => decimal(id as nat) + "/name"@,
            Key::Uploader(id) => decimal(id as nat) + "/uploader"@,
            Key::ChunkCount(id) => decimal(id as nat) + "/count"@,
            Key::Vector(id, chunk) => decimal(id as nat).push('/') + decimal(chunk as nat)
                + "/vector"@,
            Key::Content(id, chunk) => decimal(id as nat).push('/') + decimal(chunk as nat)
                + "/content"@,
            Key::Page(id, chunk) => decimal(id as nat).push('/') + decimal(chunk as nat)
                + "/page"@,
        }
    }

    /// The document that the key belongs to, if it belongs to one.
    pub open spec fn document(self) -> Option<usize> {
        match self {
            Key::Count => None,
            Key::Name(id) => Some(id),
            Key::Uploader(id) => Some(id),
            Key::ChunkCount(id) => Some(id),
            Key::Vector(id, _) => Some(id),
            Key::Content(id, _) => Some(id),
            Key::Page(id, _) => Some(id),
        }
    }

    /// The path under which the backend holds the value.
    pub fn path(&self) -> (path: String)
        ensures
            path@ == self.path_of(),
    {
        match self {
            Key::Count => String::from_str("count"),
            Key::Name(id) => decimal_string(*id).concat("/name"),
            Key::Uploader(id) => decimal_string(*id).concat("/uploader"),
            Key::ChunkCount(id) => decimal_string(*id).concat("/count"),
            Key::Vector(id, chunk) => chunk_path(*id, *chunk).concat("/vector"),
            Key::Content(id, chunk) => chunk_path(*id, *chunk).concat("/content"),
            Key::Page(id, chunk) => chunk_path(*id, *chunk).concat("/page"),
        }
    }
}

/// The place of the first slash of a path; its length where it has none.
pub open spec fn first_slash(path: Seq<char>) -> int
    decreases path.len(),
{
    if path.len() == 0 || path[0] == '/' {
        0
    } else {
        1 + first_slash(path.drop_first())
    }
}

/// The key that a path names, if it names one: the inverse of `Key::path_of`.
pub open spec fn key_of(path: Seq<char>) -> Option<Key> {
    let id = decimal_value(path.take(first_slash(path))) as usize;
    let rest = path.skip(first_slash(path) + 1);
    let chunk = decimal_value(rest.take(first_slash(rest))) as usize;
    let kind = rest.skip(first_slash(rest) + 1);
    if path == "count"@ {
        Some(Key::Count)
    } else if rest == "name"@ {
        Some(Key::Name(id))
    } else if rest == "uploader"@ {
        Some(Key::Uploader(id))
    } else if rest == "count"@ {
        Some(Key::ChunkCount(id))
    } else if kind == "vector"@ {
        Some(Key::Vector(id, chunk))
    } else if kind == "content"@ {
        Some(Key::Content(id, chunk))
    } else if kind == "page"@ {
        Some(Key::Page(id, chunk))
    } else {
        None
    }
}

proof fn lemma_first_slash(head: Seq<char>, tail: Seq<char>)
    requires
        forall|i: int| 0 <= i < head.len() ==> is_digit(#[trigger] head[i]),
    ensures
        first_slash(head.push('/') + tail) == head.len(),
        (head.push('/') + tail).take(head.len() as int) == head,
        (head.push('/') + tail).skip(head.len() as int + 1) == tail,
    decreases head.len(),
{
    let path = head.push('/') + tail;
    if head.len() > 0 {
        assert(is_digit(head[0]));
        assert(path[0] == head[0]);
        lemma_first_slash(head.drop_first(), tail);
        assert(path.drop_first() =~= head.drop_first().push('/') + tail);
    } else {
        assert(path[0] == '/');
    }
    assert(path.take(head.len() as int) =~= head);
    assert(path.skip(head.len() as int + 1) =~= tail);
}

proof fn lemma_kinds()
    ensures
        "count"@ == seq!['c', 'o', 'u', 'n', 't'],
        "name"@ == seq!['n', 'a', 'm', 'e'],
        "uploader"@ == seq!['u', 'p', 'l', 'o', 'a', 'd', 'e', 'r'],
        "vector"@ == seq!['v', 'e', 'c', 't', 'o', 'r'],
        "content"@ == seq!['c', 'o', 'n', 't', 'e', 'n', 't'],
        "page"@ == seq!['p', 'a', 'g', 'e'],
        "/name"@ == seq!['/'] + "name"@,
        "/uploader"@ == seq!['/'] + "uploader"@,
        "/count"@ == seq!['/'] + "count"@,
        "/vector"@ == seq!['/'] + "vector"@,
        "/content"@ == seq!['/'] + "content"@,
        "/page"@ == seq!['/'] + "page"@,
{
    reveal_strlit("count");
    reveal_strlit("name");
    reveal_strlit("uploader");
    reveal_strlit("vector");
    reveal_strlit("content");
    reveal_strlit("page");
    reveal_strlit("/name");
    reveal_strlit("/uploader");
    reveal_strlit("/count");
    reveal_strlit("/vector");
    reveal_strlit("/content");
    reveal_strlit("/page");
    assert("count"@ =~= seq!['c', 'o', 'u', 'n', 't']);
    assert("name"@ =~= seq!['n', 'a', 'm', 'e']);
    assert("uploader"@ =~= seq!['u', 'p', 'l', 'o', 'a', 'd', 'e', 'r']);
    assert("vector"@ =~= seq!['v', 'e', 'c', 't', 'o', 'r']);
    assert("content"@ =~= seq!['c', 'o', 'n', 't', 'e', 'n', 't']);
    assert("page"@ =~= seq!['p', 'a', 'g', 'e']);
    assert("/name"@ =~= seq!['/'] + "name"@);
    assert("/uploader"@ =~= seq!['/'] + "uploader"@);
    assert("/count"@ =~= seq!['/'] + "count"@);
    assert("/vector"@ =~= seq!['/'] + "vector"@);
    assert("/content"@ =~= seq!['/'] + "content"@);
    assert("/page"@ =~= seq!['/'] + "page"@);
}

proof fn lemma_document_path(id: usize, kind: Seq<char>)
    ensures
        first_slash(decimal(id as nat) + (seq!['/'] + kind)) == decimal(id as nat).len(),
        (decimal(id as nat) + (seq!['/'] + kind)).take(decimal(id as nat).len() as int) == decimal(
            id as nat,
        ),
        (decimal(id as nat) + (seq!['/'] + kind)).skip(decimal(id as nat).len() as int + 1) == kind,
        decimal_value(decimal(id as nat)) as usize == id,
        (decimal(id as nat) + (seq!['/'] + kind))[0] != 'c',
{
    lemma_decimal(id as nat);
    lemma_first_slash(decimal(id as nat), kind);
    assert(decimal(id as nat) + (seq!['/'] + kind) =~= decimal(id as nat).push('/') + kind);
    assert(is_digit(decimal(id as nat)[0]));
}

/// Every key can be read off its path: no two keys have the same path.
pub proof fn lemma_key_of_path(key: Key)
    ensures
        key_of(key.path_of()) == Some(key),
{
    lemma_kinds();
    let path = key.path_of();
    match key {
        Key::Count => {},
        Key::Name(id) => {
            lemma_document_path(id, "name"@);
        },
        Key::Uploader(id) => {
            lemma_document_path(id, "uploader"@);
        },
        Key::ChunkCount(id) => {
            lemma_document_path(id, "count"@);
        },
        Key::Vector(id, chunk) => {
            lemma_chunk_path(id, chunk, "vector"@);
            assert(path =~= decimal(id as nat) + (seq!['/'] + (decimal(chunk as nat) + (seq!['/']
                + "vector"@))));
        },
        Key::Content(id, chunk) => {
            lemma_chunk_path(id, chunk, "content"@);
            assert(path =~= decimal(id as nat) + (seq!['/'] + (decimal(chunk as nat) + (seq!['/']
                + "content"@))));
        },
        Key::Page(id, chunk) => {
            lemma_chunk_path(id, chunk, "page"@);
            assert(path =~= decimal(id as nat) + (seq!['/'] + (decimal(chunk as nat) + (seq!['/']
                + "page"@))));
        },
    }
}

proof fn lemma_chunk_path(id: usize, chunk: usize, kind: Seq<char>)
    ensures
        ({
            let rest = decimal(chunk as nat) + (seq!['/'] + kind);
            let path = decimal(id as nat) + (seq!['/'] + rest);
            &&& path[0] != 'c'
            &&& path.skip(first_slash(path) + 1) == rest
            &&& decimal_value(path.take(first_slash(path))) as usize == id
            &&& rest.skip(first_slash(rest) + 1) == kind
            &&& decimal_value(rest.take(first_slash(rest))) as usize == chunk
            &&& is_digit(rest[0])
        }),
{
    let rest = decimal(chunk as nat) + (seq!['/'] + kind);
    lemma_document_path(id, rest);
    lemma_document_path(chunk, kind);
    lemma_decimal(chunk as nat);
    assert(is_digit(decimal(chunk as nat)[0]));
}

/// Two keys that differ have paths that differ.
pub proof fn lemma_paths_differ(first: Key, second: Key)
    requires
        first != second,
    ensures
        first.path_of() != second.path_of(),
{
    lemma_key_of_path(first);
    lemma_key_of_path(second);
}

fn chunk_path(id: usize, chunk: usize) -> (path: String)
    ensures
        path@ == decimal(id as nat).push('/') + decimal(chunk as nat),
{
    let mut path = decimal_string(id);
    path.push('/');
    let number = decimal_string(chunk);
    path.append(number.as_str());
    path
}

} // verus!
