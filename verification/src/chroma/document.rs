//! The record that is stored for every chunk, and where it came from.

use crate::json::{
    get_integer, get_natural, get_text, insert_integer, insert_natural, insert_text, new_object,
    object_integers, object_keys, object_texts,
};
use crate::strings::{decimal, push_decimal};
use vstd::prelude::*;
use vstd::string::StringExecFns;

verus! {

/// The name of the collection that the chunks of a file are stored in.
pub type CollectionName = String;

/// One chunk of a file, ready to be stored.
#[derive(Debug)]
pub struct Document {
    /// Relative path and chunk index: the same for the same chunk of the
    /// same file whenever it is ingested.
    pub id: String,
    pub content: String,
    pub metadata: Metadata,
}

/// Where a chunk came from.
#[derive(Debug)]
pub struct Metadata {
    pub file: FileMetadata,
    pub chunk: ChunkMetadata,
    pub search: SearchMetadata,
}

/// The file that a chunk was cut from.
#[derive(Debug)]
pub struct FileMetadata {
    /// Relative to the directory that was ingested.
    pub path: String,
    /// Seconds since the Unix epoch.
    pub created_at: i64,
    /// Seconds since the Unix epoch.
    pub updated_at: i64,
}

/// The place of a chunk among the chunks of its file.
#[derive(Debug)]
pub struct ChunkMetadata {
    /// Counted from zero.
    pub index: usize,
}

/// Kept for what searches may need to know of a chunk later.
#[derive(Debug)]
pub struct SearchMetadata {}

/// What a `Metadata` holds.
pub struct MetadataView {
    pub path: Seq<char>,
    pub created_at: int,
    pub updated_at: int,
    pub index: nat,
}

/// What a `Document` holds.
pub struct DocumentView {
    pub id: Seq<char>,
    pub content: Seq<char>,
    pub metadata: MetadataView,
}

impl View for Metadata {
    type V = MetadataView;

    open spec fn view(&self) -> MetadataView {
        MetadataView {
            path: self.file.path@,
            created_at: self.file.created_at as int,
            updated_at: self.file.updated_at as int,
            index: self.chunk.index as nat,
        }
    }
}

impl View for Document {
    type V = DocumentView;

    open spec fn view(&self) -> DocumentView {
        DocumentView { id: self.id@, content: self.content@, metadata: self.metadata@ }
    }
}

/// The keys of the JSON object that is stored with a chunk: these four and
/// no other.
pub open spec fn stored_keys() -> Set<Seq<char>> {
    set!["file_path"@, "file_created_at"@, "file_updated_at"@, "chunk_index"@]
}

/// The text entries of the JSON object that is stored with a chunk.
pub open spec fn stored_texts(metadata: MetadataView) -> Map<Seq<char>, Seq<char>> {
    map!["file_path"@ => metadata.path]
}

/// The number entries of the JSON object that is stored with a chunk.
pub open spec fn stored_integers(metadata: MetadataView) -> Map<Seq<char>, int> {
    map![
        "file_created_at"@ => metadata.created_at,
        "file_updated_at"@ => metadata.updated_at,
        "chunk_index"@ => metadata.index as int,
    ]
}

/// Whether a JSON object with these entries holds the metadata of a chunk:
/// the path as a text, both times as numbers that fit 64 bits with a sign,
/// and an index that is not negative.
pub open spec fn restorable(texts: Map<Seq<char>, Seq<char>>, integers: Map<Seq<char>, int>) -> bool {
    &&& texts.contains_key("file_path"@)
    &&& integers.contains_key("file_created_at"@)
    &&& i64::MIN <= integers["file_created_at"@] <= i64::MAX
    &&& integers.contains_key("file_updated_at"@)
    &&& i64::MIN <= integers["file_updated_at"@] <= i64::MAX
    &&& integers.contains_key("chunk_index"@)
    &&& 0 <= integers["chunk_index"@] <= usize::MAX
}

/// The metadata that a JSON object with these entries holds.
pub open spec fn restored(
    texts: Map<Seq<char>, Seq<char>>,
    integers: Map<Seq<char>, int>,
) -> MetadataView {
    MetadataView {
        path: texts["file_path"@],
        created_at: integers["file_created_at"@],
        updated_at: integers["file_updated_at"@],
        index: integers["chunk_index"@] as nat,
    }
}

/// The four keys of the stored object are four different texts.
pub proof fn lemma_keys_differ()
    ensures
        "file_path"@ != "file_created_at"@,
        "file_path"@ != "file_updated_at"@,
        "file_path"@ != "chunk_index"@,
        "file_created_at"@ != "file_updated_at"@,
        "file_created_at"@ != "chunk_index"@,
        "file_updated_at"@ != "chunk_index"@,
{
    reveal_strlit("file_path");
    reveal_strlit("file_created_at");
    reveal_strlit("file_updated_at");
    reveal_strlit("chunk_index");
    assert("file_path"@.len() == 9);
    assert("chunk_index"@.len() == 11);
    assert("file_created_at"@.len() == 15);
    assert("file_created_at"@[5] != "file_updated_at"@[5]);
}

/// What is stored of a chunk's metadata is enough to have it back.
pub proof fn lemma_restore_stored(metadata: MetadataView)
    requires
        i64::MIN <= metadata.created_at <= i64::MAX,
        i64::MIN <= metadata.updated_at <= i64::MAX,
        metadata.index <= usize::MAX,
    ensures
        restorable(stored_texts(metadata), stored_integers(metadata)),
        restored(stored_texts(metadata), stored_integers(metadata)) == metadata,
{
    lemma_keys_differ();
}

impl Metadata {
    /// The JSON object that is stored with the chunk: the path of the file
    /// under `file_path`, its times in seconds under `file_created_at` and
    /// `file_updated_at`, the index of the chunk under `chunk_index`, and
    /// nothing else.
    pub fn to_map(&self) -> (object: serde_json::Map<String, serde_json::Value>)
        ensures
            object_keys(object) == stored_keys(),
            object_texts(object) == stored_texts(self@),
            object_integers(object) == stored_integers(self@),
    {
        proof {
            lemma_keys_differ();
        }
        let mut object = new_object();
        insert_text(&mut object, "file_path", self.file.path.as_str());
        insert_integer(&mut object, "file_created_at", self.file.created_at);
        insert_integer(&mut object, "file_updated_at", self.file.updated_at);
        insert_natural(&mut object, "chunk_index", self.chunk.index as u64);
        assert(object_keys(object) =~= stored_keys());
        assert(object_texts(object) =~= stored_texts(self@));
        assert(object_integers(object) =~= stored_integers(self@));
        object
    }

    /// Whether a JSON object holds the metadata of a chunk.
    pub fn is_stored_in(map: &serde_json::Map<String, serde_json::Value>) -> (yes: bool)
        ensures
            yes == restorable(object_texts(*map), object_integers(*map)),
    {
        if get_text(map, "file_path").is_none() {
            return false;
        }
        if get_integer(map, "file_created_at").is_none() {
            return false;
        }
        if get_integer(map, "file_updated_at").is_none() {
            return false;
        }
        match get_natural(map, "chunk_index") {
            None => false,
            Some(index) => index <= usize::MAX as u64,
        }
    }

    /// Reads the metadata that a stored JSON object holds.
    pub fn read(map: &serde_json::Map<String, serde_json::Value>) -> (metadata: Self)
        requires
            restorable(object_texts(*map), object_integers(*map)),
        ensures
            metadata@ == restored(object_texts(*map), object_integers(*map)),
    {
        let path = get_text(map, "file_path").unwrap();
        let created_at = get_integer(map, "file_created_at").unwrap();
        let updated_at = get_integer(map, "file_updated_at").unwrap();
        let index = get_natural(map, "chunk_index").unwrap();
        Metadata {
            file: FileMetadata { path, created_at, updated_at },
            chunk: ChunkMetadata { index: index as usize },
            search: SearchMetadata {  },
        }
    }

    /// The metadata that a stored JSON object holds.
    pub fn from_map(map: serde_json::Map<String, serde_json::Value>) -> (metadata: Self)
        requires
            restorable(object_texts(map), object_integers(map)),
        ensures
            metadata@ == restored(object_texts(map), object_integers(map)),
    {
        Self::read(&map)
    }

    /// The metadata that a JSON object holds, where it holds any.
    pub fn try_from_map(map: serde_json::Map<String, serde_json::Value>) -> (metadata: Option<Self>)
        ensures
            match metadata {
                Some(m) => restorable(object_texts(map), object_integers(map)) && m@ == restored(
                    object_texts(map),
                    object_integers(map),
                ),
                None => !restorable(object_texts(map), object_integers(map)),
            },
    {
        if Self::is_stored_in(&map) {
            Some(Self::from_map(map))
        } else {
            None
        }
    }
}

/// What each document of `documents` holds, in order.
pub open spec fn document_views(documents: Seq<Document>) -> Seq<DocumentView> {
    Seq::new(documents.len(), |i: int| documents[i]@)
}

/// The identifier of chunk `index` of the file at `path`: the path, a
/// hyphen, and the index in decimal.
pub open spec fn document_id(path: Seq<char>, index: nat) -> Seq<char> {
    path.push('-') + decimal(index)
}

/// The document for chunk `index` of the file at `path`.
pub open spec fn chunk_document(
    path: Seq<char>,
    index: nat,
    content: Seq<char>,
    created_at: int,
    updated_at: int,
) -> DocumentView {
    DocumentView {
        id: document_id(path, index),
        content,
        metadata: MetadataView { path, created_at, updated_at, index },
    }
}

impl Document {
    /// The document for chunk `index` of the file at `path`.
    pub fn for_chunk(
        path: &str,
        index: usize,
        content: String,
        created_at: i64,
        updated_at: i64,
    ) -> (document: Document)
        ensures
            document@ == chunk_document(
                path@,
                index as nat,
                content@,
                created_at as int,
                updated_at as int,
            ),
    {
        let mut id = String::from_str(path);
        id.push('-');
        push_decimal(&mut id, index);
        Document {
            id,
            content,
            metadata: Metadata {
                file: FileMetadata { path: String::from_str(path), created_at, updated_at },
                chunk: ChunkMetadata { index },
                search: SearchMetadata {  },
            },
        }
    }
}

} // verus!
