//! What is sent to the vector store for a batch of chunks, and what is
//! made of its answer to a query.

use crate::chroma::document::document_id;
use crate::error::AppError;
use crate::file::{chunk_views, DocumentChunk, DocumentChunkView};
use crate::json::{
    insert_natural, insert_text, insert_value, new_object, object_integers, object_keys,
    object_texts,
};
use crate::strings::{decimal, push_decimal};
use vstd::prelude::*;
use vstd::string::StringExecFns;

verus! {

/// A collection, as the store lists it.
#[derive(Debug)]
pub struct CollectionInfo {
    pub name: String,
}

/// The collections that the store lists.
#[derive(Debug)]
pub struct CollectionsResponse(pub Vec<CollectionInfo>);

impl CollectionsResponse {
    /// Whether a collection called `name` is listed.
    pub fn contains(&self, name: &str) -> (found: bool)
        ensures
            found == exists|i: int| 0 <= i < self.0@.len() && (#[trigger] self.0@[i]).name@ == name@,
    {
        let wanted = String::from_str(name);
        let mut i: usize = 0;
        while i < self.0.len()
            invariant
                i <= self.0@.len(),
                wanted@ == name@,
                forall|j: int| 0 <= j < i ==> (#[trigger] self.0@[j]).name@ != name@,
            decreases self.0@.len() - i,
        {
            if self.0[i].name == wanted {
                return true;
            }
            i += 1;
        }
        false
    }
}

/// One nearest neighbour of a query: the stored text and, where the
/// store gave them, what it keeps with the text and how far the text lies
/// from the query.
#[derive(Debug, Clone)]
pub struct QueryResult<M, D> {
    pub document: String,
    pub metadata: Option<M>,
    pub distance: Option<D>,
}

/// What is sent to the store to add a batch of chunks. The embeddings
/// travel beside it, one for each identifier and in the same order.
#[derive(Debug)]
pub struct AddDocumentsRequest {
    pub ids: Vec<String>,
    pub metadatas: Vec<serde_json::Map<String, serde_json::Value>>,
    pub documents: Vec<String>,
}

/// The identifier of a chunk: the file that it was cut from, a hyphen,
/// and its index among the chunks of that file in decimal. It is the same
/// whenever the chunk is stored, and whatever it is stored together with.
pub open spec fn chunk_id(chunk: DocumentChunkView) -> Seq<char> {
    document_id(chunk.source, chunk.chunk_index)
}

/// The keys of the JSON object stored with a chunk: these four and no
/// other.
pub open spec fn chunk_keys() -> Set<Seq<char>> {
    set!["source"@, "file_type"@, "chunk_index"@, "additional"@]
}

/// The text entries stored with a chunk.
pub open spec fn chunk_texts(chunk: DocumentChunkView) -> Map<Seq<char>, Seq<char>> {
    map!["source"@ => chunk.source, "file_type"@ => chunk.file_type]
}

/// The number entries stored with a chunk.
pub open spec fn chunk_integers(chunk: DocumentChunkView) -> Map<Seq<char>, int> {
    map!["chunk_index"@ => chunk.chunk_index as int]
}

/// What is answered when a batch has another number of embeddings than of
/// chunks.
pub open spec fn count_mismatch(chunks: nat, embeddings: nat) -> Seq<char> {
    "チャンク数 ("@ + decimal(chunks) + ") と埋め込み数 ("@ + decimal(embeddings) + ") が一致しません"@
}

/// Whether `metadata` is what is stored with `chunk`: source and file type
/// as texts, the chunk index as a number, and under `additional` what the
/// chunk carries there; no other key.
pub open spec fn stores(
    metadata: serde_json::Map<String, serde_json::Value>,
    chunk: DocumentChunkView,
) -> bool {
    &&& object_keys(metadata) == chunk_keys()
    &&& object_texts(metadata).remove("additional"@) == chunk_texts(chunk)
    &&& object_integers(metadata).remove("additional"@) == chunk_integers(chunk)
}

/// Whether `request` adds exactly `chunks`, in order.
pub open spec fn adds(request: AddDocumentsRequest, chunks: Seq<DocumentChunkView>) -> bool {
    &&& request.ids@.len() == chunks.len()
    &&& request.metadatas@.len() == chunks.len()
    &&& request.documents@.len() == chunks.len()
    &&& forall|i: int|
        0 <= i < chunks.len() ==> {
            &&& (#[trigger] request.ids@[i])@ == chunk_id(chunks[i])
            &&& request.documents@[i]@ == chunks[i].content
            &&& stores(request.metadatas@[i], chunks[i])
        }
}

/// The four keys stored with a chunk are four different texts.
proof fn lemma_keys_differ()
    ensures
        "source"@ != "file_type"@,
        "source"@ != "chunk_index"@,
        "source"@ != "additional"@,
        "file_type"@ != "chunk_index"@,
        "file_type"@ != "additional"@,
        "chunk_index"@ != "additional"@,
{
    reveal_strlit("source");
    reveal_strlit("file_type");
    reveal_strlit("chunk_index");
    reveal_strlit("additional");
    assert("source"@.len() == 6);
    assert("file_type"@.len() == 9);
    assert("chunk_index"@.len() == 11);
    assert("additional"@.len() == 10);
}

/// The row for the first query in one part of an answer: empty where the
/// part is missing or has no row.
pub open spec fn first_row<T>(rows: Option<Vec<Vec<T>>>) -> Seq<T> {
    match rows {
        Some(all) => if all@.len() > 0 {
            all@[0]@
        } else {
            Seq::empty()
        },
        None => Seq::empty(),
    }
}

/// What a row holds at place `i`, where it reaches that far.
pub open spec fn entry<T>(row: Seq<T>, i: int) -> Option<T> {
    if 0 <= i < row.len() {
        Some(row[i])
    } else {
        None
    }
}

/// Takes the row for the first query out of one part of an answer.
fn take_first_row<T>(rows: Option<Vec<Vec<T>>>) -> (row: Vec<T>)
    ensures
        row@ == first_row(rows),
{
    match rows {
        Some(all) => {
            let mut all = all;
            if all.len() > 0 {
                all.swap_remove(0)
            } else {
                Vec::new()
            }
        },
        None => Vec::new(),
    }
}

/// Takes the entry at place `i` out of a row that was emptied down to
/// there from its end.
fn take_entry<T>(row: &mut Vec<T>, i: usize, Ghost(all): Ghost<Seq<T>>) -> (taken: Option<T>)
    requires
        old(row)@ == all.take(if i + 1 <= all.len() { i + 1 } else { all.len() as int }),
    ensures
        taken == entry(all, i as int),
        final(row)@ == all.take(if i <= all.len() { i as int } else { all.len() as int }),
{
    if row.len() > i {
        let taken = row.pop();
        assert(row@ =~= all.take(i as int));
        taken
    } else {
        None
    }
}

/// The vector store at `base_url`, and the collection in it that is
/// worked on.
#[derive(Debug)]
pub struct ChromaClient {
    pub base_url: String,
    pub collection_name: String,
}

/// Where the collections of the store at `base_url` are listed and made.
pub open spec fn collections_address(base_url: Seq<char>) -> Seq<char> {
    base_url + "/api/v1/collections"@
}

/// Where `action` on the collection `collection` is asked for.
pub open spec fn collection_address(
    base_url: Seq<char>,
    collection: Seq<char>,
    action: Seq<char>,
) -> Seq<char> {
    base_url + "/api/v1/collections/"@ + collection + action
}

impl ChromaClient {
    pub fn new(base_url: &str, collection_name: &str) -> (client: Self)
        ensures
            client.base_url@ == base_url@,
            client.collection_name@ == collection_name@,
    {
        Self {
            base_url: String::from_str(base_url),
            collection_name: String::from_str(collection_name),
        }
    }

    /// The address at which collections are listed and made.
    pub fn collections_url(&self) -> (url: String)
        ensures
            url@ == collections_address(self.base_url@),
    {
        let mut url = self.base_url.clone();
        url.append("/api/v1/collections");
        url
    }

    /// The address at which chunks are added to the collection.
    pub fn add_url(&self) -> (url: String)
        ensures
            url@ == collection_address(self.base_url@, self.collection_name@, "/add"@),
    {
        let mut url = self.base_url.clone();
        url.append("/api/v1/collections/");
        url.append(self.collection_name.as_str());
        url.append("/add");
        url
    }

    /// The address at which the collection is searched.
    pub fn query_url(&self) -> (url: String)
        ensures
            url@ == collection_address(self.base_url@, self.collection_name@, "/query"@),
    {
        let mut url = self.base_url.clone();
        url.append("/api/v1/collections/");
        url.append(self.collection_name.as_str());
        url.append("/query");
        url
    }

    /// Whether the collection has to be made before it is used: whether
    /// it is missing from what the store lists.
    pub fn init_collection(&self, listed: &CollectionsResponse) -> (create: bool)
        ensures
            create == !exists|i: int|
                0 <= i < listed.0@.len() && (#[trigger] listed.0@[i]).name@
                    == self.collection_name@,
    {
        !listed.contains(self.collection_name.as_str())
    }

    /// Prepares what is sent to the store for a batch of chunks that has
    /// `embeddings` embeddings: for each chunk its identifier, its text and
    /// what is stored with it. A chunk has the same identifier in every
    /// batch, so that storing it again replaces what was stored. An empty
    /// batch needs nothing sent. A batch with another number of embeddings
    /// than of chunks is refused.
    pub fn add_documents(&self, chunks: &Vec<DocumentChunk>, embeddings: usize) -> (result: Result<
        Option<AddDocumentsRequest>,
        AppError,
    >)
        ensures
            match result {
                Ok(None) => chunks@.len() == 0,
                Ok(Some(request)) => chunks@.len() > 0 && chunks@.len() == embeddings && adds(
                    request,
                    chunk_views(chunks@),
                ),
                Err(e) => {
                    &&& chunks@.len() > 0
                    &&& chunks@.len() != embeddings
                    &&& e is ChromaDb
                    &&& e.detail() == count_mismatch(chunks@.len(), embeddings as nat)
                },
            },
    {
        if chunks.len() == 0 {
            return Ok(None);
        }
        if chunks.len() != embeddings {
            let mut detail = String::from_str("チャンク数 (");
            push_decimal(&mut detail, chunks.len());
            detail.append(") と埋め込み数 (");
            push_decimal(&mut detail, embeddings);
            detail.append(") が一致しません");
            return Err(AppError::ChromaDb(detail));
        }
        let mut ids: Vec<String> = Vec::new();
        let mut metadatas: Vec<serde_json::Map<String, serde_json::Value>> = Vec::new();
        let mut documents: Vec<String> = Vec::new();
        let mut i: usize = 0;
        proof {
            lemma_keys_differ();
        }
        while i < chunks.len()
            invariant
                i <= chunks@.len(),
                ids@.len() == i,
                metadatas@.len() == i,
                documents@.len() == i,
                "source"@ != "file_type"@,
                "source"@ != "chunk_index"@,
                "source"@ != "additional"@,
                "file_type"@ != "chunk_index"@,
                "file_type"@ != "additional"@,
                "chunk_index"@ != "additional"@,
                forall|j: int|
                    0 <= j < i ==> {
                        &&& (#[trigger] ids@[j])@ == chunk_id(chunk_views(chunks@)[j])
                        &&& documents@[j]@ == chunk_views(chunks@)[j].content
                        &&& stores(metadatas@[j], chunk_views(chunks@)[j])
                    },
            decreases chunks@.len() - i,
        {
            let chunk = &chunks[i];
            let mut id = String::from_str(chunk.source.as_str());
            id.push('-');
            push_decimal(&mut id, chunk.metadata.chunk_index);
            let mut metadata = new_object();
            insert_text(&mut metadata, "source", chunk.source.as_str());
            insert_text(&mut metadata, "file_type", chunk.metadata.file_type.as_str());
            insert_natural(&mut metadata, "chunk_index", chunk.metadata.chunk_index as u64);
            proof {
                assert(object_texts(metadata) =~= chunk_texts(chunk@));
                assert(object_integers(metadata) =~= chunk_integers(chunk@));
            }
            insert_value(&mut metadata, "additional", chunk.metadata.additional.clone());
            proof {
                assert(object_keys(metadata) =~= chunk_keys());
                assert(chunk_texts(chunk@).remove("additional"@) =~= chunk_texts(chunk@));
                assert(chunk_integers(chunk@).remove("additional"@) =~= chunk_integers(chunk@));
            }
            ids.push(id);
            metadatas.push(metadata);
            documents.push(chunk.content.clone());
            i += 1;
        }
        Ok(Some(AddDocumentsRequest { ids, metadatas, documents }))
    }

    /// Reads the answer of the store to one query: for each nearest
    /// neighbour its text, its metadata and its distance, nearest first.
    /// The store answers with one row for each query that was sent, in
    /// three parts; the rows of the first query are read. There are as
    /// many neighbours as documents; metadata or a distance that the
    /// store did not give is left out.
    pub fn query<M, D>(
        &self,
        documents: Option<Vec<Vec<String>>>,
        metadatas: Option<Vec<Vec<M>>>,
        distances: Option<Vec<Vec<D>>>,
    ) -> (results: Vec<QueryResult<M, D>>)
        ensures
            results@.len() == first_row(documents).len(),
            forall|i: int|
                0 <= i < results@.len() ==> {
                    &&& (#[trigger] results@[i]).document == first_row(documents)[i]
                    &&& results@[i].metadata == entry(first_row(metadatas), i)
                    &&& results@[i].distance == entry(first_row(distances), i)
                },
    {
        let mut texts = take_first_row(documents);
        let mut metas = take_first_row(metadatas);
        let mut dists = take_first_row(distances);
        let ghost all_texts = texts@;
        let ghost all_metas = metas@;
        let ghost all_dists = dists@;
        let n = texts.len();
        metas.truncate(n);
        dists.truncate(n);
        let mut reversed: Vec<QueryResult<M, D>> = Vec::new();
        proof {
            assert(texts@ =~= all_texts.take(n as int));
        }
        while texts.len() > 0
            invariant
                texts@.len() + reversed@.len() == n,
                n == all_texts.len(),
                texts@ == all_texts.take(texts@.len() as int),
                metas@ == all_metas.take(
                    if texts@.len() <= all_metas.len() {
                        texts@.len() as int
                    } else {
                        all_metas.len() as int
                    },
                ),
                dists@ == all_dists.take(
                    if texts@.len() <= all_dists.len() {
                        texts@.len() as int
                    } else {
                        all_dists.len() as int
                    },
                ),
                forall|j: int|
                    0 <= j < reversed@.len() ==> {
                        &&& (#[trigger] reversed@[j]).document == all_texts[n - 1 - j]
                        &&& reversed@[j].metadata == entry(all_metas, n - 1 - j)
                        &&& reversed@[j].distance == entry(all_dists, n - 1 - j)
                    },
            decreases texts@.len(),
        {
            let document = texts.pop().unwrap();
            let place = texts.len();
            assert(texts@ =~= all_texts.take(place as int));
            let metadata = take_entry(&mut metas, place, Ghost(all_metas));
            let distance = take_entry(&mut dists, place, Ghost(all_dists));
            reversed.push(QueryResult { document, metadata, distance });
        }
        let mut results: Vec<QueryResult<M, D>> = Vec::new();
        let ghost back = reversed@;
        while reversed.len() > 0
            invariant
                reversed@ == back.take(reversed@.len() as int),
                reversed@.len() + results@.len() == n,
                back.len() == n,
                forall|j: int|
                    0 <= j < results@.len() ==> (#[trigger] results@[j]) == back[n - 1 - j],
            decreases reversed@.len(),
        {
            let result = reversed.pop().unwrap();
            results.push(result);
        }
        results
    }
}

} // verus!
