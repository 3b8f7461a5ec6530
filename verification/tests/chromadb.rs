use local_vectored_llm::chromadb::{ChromaClient, CollectionInfo, CollectionsResponse, QueryResult};
use local_vectored_llm::embedding::{assemble, dimension, embed_batch, zero_vector, Completion};
use local_vectored_llm::ollama::OllamaClient;
use local_vectored_llm::file::{DocumentChunk, DocumentMetadata};
use local_vectored_llm::AppError;
use serde_json::Value;

fn client() -> ChromaClient {
    ChromaClient::new("http://localhost:18888", "local_files")
}

fn chunk(content: &str, source: &str, file_type: &str, chunk_index: usize) -> DocumentChunk {
    DocumentChunk {
        content: content.to_string(),
        source: source.to_string(),
        metadata: DocumentMetadata {
            file_type: file_type.to_string(),
            chunk_index,
            additional: Value::Object(serde_json::Map::new()),
        },
    }
}

#[test]
fn the_store_is_addressed_by_collection() {
    let client = client();
    assert_eq!(client.base_url, "http://localhost:18888");
    assert_eq!(client.collection_name, "local_files");
    assert_eq!(client.collections_url(), "http://localhost:18888/api/v1/collections");
    assert_eq!(client.add_url(), "http://localhost:18888/api/v1/collections/local_files/add");
    assert_eq!(client.query_url(), "http://localhost:18888/api/v1/collections/local_files/query");
}

#[test]
fn a_collection_is_made_only_where_it_is_missing() {
    let listed = CollectionsResponse(vec![
        CollectionInfo { name: "other".to_string() },
        CollectionInfo { name: "local_files".to_string() },
    ]);
    assert!(listed.contains("local_files"));
    assert!(listed.contains("other"));
    assert!(!listed.contains("local"));
    assert!(!listed.contains("local_files "));
    assert!(!listed.contains(""));
    assert!(!client().init_collection(&listed));
    assert!(ChromaClient::new("http://x", "new").init_collection(&listed));
    assert!(client().init_collection(&CollectionsResponse(Vec::new())));
}

#[test]
fn an_empty_batch_sends_nothing() {
    assert!(client().add_documents(&Vec::new(), 0).unwrap().is_none());
    assert!(client().add_documents(&Vec::new(), 3).unwrap().is_none());
}

#[test]
fn a_batch_with_too_few_embeddings_is_refused() {
    let chunks = vec![chunk("a", "f.txt", "text", 0), chunk("b", "f.txt", "text", 1)];
    assert_eq!(
        client().add_documents(&chunks, 12).unwrap_err(),
        AppError::ChromaDb("チャンク数 (2) と埋め込み数 (12) が一致しません".to_string())
    );
    assert_eq!(
        client().add_documents(&chunks, 0).unwrap_err(),
        AppError::ChromaDb("チャンク数 (2) と埋め込み数 (0) が一致しません".to_string())
    );
}

#[test]
fn a_batch_is_sent_with_ids_by_file_and_index() {
    let chunks = vec![
        chunk("alpha", "a.txt", "text", 0),
        chunk("beta", "a.txt", "text", 1),
        chunk("gamma", "b/c.pdf", "pdf", 0),
    ];
    let request = client().add_documents(&chunks, 3).unwrap().unwrap();
    assert_eq!(request.ids, vec!["a.txt-0", "a.txt-1", "b/c.pdf-0"]);
    assert_eq!(request.documents, vec!["alpha", "beta", "gamma"]);
    assert_eq!(request.metadatas.len(), 3);
    let last = &request.metadatas[2];
    assert_eq!(last.len(), 4);
    assert_eq!(last.get("source"), Some(&Value::from("b/c.pdf")));
    assert_eq!(last.get("file_type"), Some(&Value::from("pdf")));
    assert_eq!(last.get("chunk_index"), Some(&Value::from(0u64)));
    assert_eq!(last.get("additional"), Some(&Value::Object(serde_json::Map::new())));
    assert_eq!(request.metadatas[1].get("chunk_index"), Some(&Value::from(1u64)));
    assert_eq!(request.metadatas[1].get("source"), Some(&Value::from("a.txt")));
}

#[test]
fn a_chunk_has_the_same_id_in_every_batch() {
    let alone = vec![chunk("beta", "a.txt", "text", 1)];
    let among = vec![
        chunk("x", "z.txt", "text", 0),
        chunk("y", "z.txt", "text", 1),
        chunk("beta", "a.txt", "text", 1),
        chunk("long", "z.txt", "text", 12),
    ];
    let first = client().add_documents(&alone, 1).unwrap().unwrap();
    let second = client().add_documents(&among, 4).unwrap().unwrap();
    assert_eq!(first.ids, vec!["a.txt-1"]);
    assert_eq!(second.ids, vec!["z.txt-0", "z.txt-1", "a.txt-1", "z.txt-12"]);
    assert_eq!(first.ids[0], second.ids[2]);
}

#[test]
fn what_a_chunk_carries_besides_is_stored_with_it() {
    let mut carried = serde_json::Map::new();
    carried.insert("page".to_string(), Value::from(7));
    let mut with_object = chunk("alpha", "a.txt", "text", 3);
    with_object.metadata.additional = Value::Object(carried.clone());
    let mut with_text = chunk("beta", "a.txt", "text", 4);
    with_text.metadata.additional = Value::from("note");
    let request = client().add_documents(&vec![with_object, with_text], 2).unwrap().unwrap();
    assert_eq!(request.metadatas[0].get("additional"), Some(&Value::Object(carried)));
    assert_eq!(request.metadatas[0].get("chunk_index"), Some(&Value::from(3u64)));
    assert_eq!(request.metadatas[1].get("additional"), Some(&Value::from("note")));
    assert_eq!(request.metadatas[1].get("source"), Some(&Value::from("a.txt")));
    assert_eq!(request.metadatas[1].len(), 4);
}

#[test]
fn the_first_row_of_an_answer_is_read() {
    let documents = Some(vec![
        vec!["near".to_string(), "far".to_string()],
        vec!["other query".to_string()],
    ]);
    let metadatas = Some(vec![vec!["m0", "m1", "m2"], vec!["n0"]]);
    let distances = Some(vec![vec![0.25f32, 1.5, 9.0]]);
    let results: Vec<QueryResult<&str, f32>> = client().query(documents, metadatas, distances);
    assert_eq!(results.len(), 2);
    assert_eq!(results[0].document, "near");
    assert_eq!(results[0].metadata, Some("m0"));
    assert_eq!(results[0].distance, Some(0.25));
    assert_eq!(results[1].document, "far");
    assert_eq!(results[1].metadata, Some("m1"));
    assert_eq!(results[1].distance, Some(1.5));
}

#[test]
fn what_the_store_did_not_give_is_left_out() {
    let documents = || Some(vec![vec!["a".to_string(), "b".to_string(), "c".to_string()]]);
    let results = client().query::<u8, f64>(documents(), Some(vec![vec![7, 8]]), None);
    assert_eq!(results.len(), 3);
    let seen: Vec<(&str, Option<u8>, Option<f64>)> =
        results.iter().map(|r| (r.document.as_str(), r.metadata, r.distance)).collect();
    assert_eq!(seen, vec![("a", Some(7), None), ("b", Some(8), None), ("c", None, None)]);

    let results = client().query::<u8, f64>(documents(), Some(Vec::new()), Some(vec![vec![0.5]]));
    let seen: Vec<(&str, Option<u8>, Option<f64>)> =
        results.iter().map(|r| (r.document.as_str(), r.metadata, r.distance)).collect();
    assert_eq!(seen, vec![("a", None, Some(0.5)), ("b", None, None), ("c", None, None)]);
}

#[test]
fn an_answer_without_documents_holds_nothing() {
    let metadatas = || Some(vec![vec![1u8]]);
    let distances = || Some(vec![vec![0.5f64]]);
    assert!(client().query(None, metadatas(), distances()).is_empty());
    assert!(client().query(Some(Vec::new()), metadatas(), distances()).is_empty());
    assert!(client().query(Some(vec![Vec::new()]), metadatas(), distances()).is_empty());
    assert!(client().query::<u8, f64>(None, None, None).is_empty());
}

#[test]
fn a_failed_embedding_is_replaced_by_zeros() {
    let completions = vec![
        Completion { chunk: 2, embedding: Some(vec![2.0f32, 2.5, 3.0]) },
        Completion { chunk: 0, embedding: Some(vec![0.5f32, 0.25, 0.125]) },
        Completion { chunk: 3, embedding: None },
        Completion { chunk: 1, embedding: Some(vec![1.0f32, 1.5, 1.75]) },
    ];
    let vectors = assemble(4, completions, 0.0f32, 3);
    assert_eq!(vectors.len(), 4);
    assert_eq!(vectors[0], vec![0.5, 0.25, 0.125]);
    assert_eq!(vectors[1], vec![1.0, 1.5, 1.75]);
    assert_eq!(vectors[2], vec![2.0, 2.5, 3.0]);
    assert_eq!(vectors[3], vec![0.0, 0.0, 0.0]);
    let zeros = vectors.iter().filter(|v| **v == vec![0.0f32; 3]).count();
    assert_eq!(zeros, 1);
}

#[test]
fn embeddings_go_to_their_chunks_whatever_the_order() {
    let make = |order: &[usize]| -> Vec<Completion<f32>> {
        order
            .iter()
            .map(|&chunk| Completion {
                chunk,
                embedding: if chunk == 1 { None } else { Some(vec![chunk as f32; 2]) },
            })
            .collect()
    };
    let expected = vec![vec![0.0f32, 0.0], vec![0.0, 0.0], vec![2.0, 2.0]];
    for order in [[0, 1, 2], [0, 2, 1], [1, 0, 2], [1, 2, 0], [2, 0, 1], [2, 1, 0]] {
        let got = assemble(3, make(&order), 0.0f32, 2);
        assert_eq!(got[0], vec![0.0f32, 0.0]);
        assert_eq!(got[1], expected[1]);
        assert_eq!(got[2], expected[2]);
        assert_eq!(got.len(), 3);
    }
}

#[test]
fn a_chunk_without_a_completion_gets_zeros() {
    let completions = vec![
        Completion { chunk: 1, embedding: Some(vec![7u32]) },
        Completion { chunk: 9, embedding: Some(vec![9u32]) },
        Completion { chunk: 1, embedding: Some(vec![8u32]) },
    ];
    let vectors = assemble(3, completions, 0u32, 1536);
    assert_eq!(vectors.len(), 3);
    assert_eq!(vectors[0], vec![0u32; 1536]);
    assert_eq!(vectors[1], vec![7u32]);
    assert_eq!(vectors[2], vec![0u32; 1536]);
    assert!(assemble(0, Vec::<Completion<u32>>::new(), 0u32, 4).is_empty());
    assert_eq!(zero_vector(0.0f64, 0), Vec::<f64>::new());
    assert_eq!(zero_vector('z', 2), vec!['z', 'z']);
}

#[test]
fn the_sentinel_is_as_long_as_the_vectors_that_came_back() {
    let batch = || {
        vec![
            Completion { chunk: 1, embedding: None },
            Completion { chunk: 0, embedding: Some(vec![0.5f32, 0.25, 0.125, 1.0]) },
            Completion { chunk: 2, embedding: Some(vec![1.5f32, 2.5, 3.5, 4.5]) },
        ]
    };
    assert_eq!(dimension(&batch(), None), Some(4));
    assert_eq!(dimension(&batch(), Some(7)), Some(7));
    let vectors = embed_batch(3, batch(), 0.0f32, None).unwrap();
    assert_eq!(vectors.len(), 3);
    assert_eq!(vectors[0], vec![0.5, 0.25, 0.125, 1.0]);
    assert_eq!(vectors[1], vec![0.0; 4]);
    assert_eq!(vectors[2], vec![1.5, 2.5, 3.5, 4.5]);
    let vectors = embed_batch(3, batch(), 0.0f32, Some(2)).unwrap();
    assert_eq!(vectors[1], vec![0.0; 2]);
}

#[test]
fn a_batch_without_any_embedding_needs_a_known_dimension() {
    let failed = || {
        vec![
            Completion::<f32> { chunk: 0, embedding: None },
            Completion::<f32> { chunk: 1, embedding: None },
        ]
    };
    assert_eq!(dimension(&failed(), None), None);
    assert_eq!(dimension(&Vec::<Completion<f32>>::new(), None), None);
    assert_eq!(
        embed_batch(2, failed(), 0.0f32, None).unwrap_err(),
        AppError::OllamaApi("no embedding came back to tell the dimension by".to_string())
    );
    assert!(embed_batch(1, Vec::<Completion<f32>>::new(), 0.0f32, None).is_err());
    assert!(embed_batch(0, failed(), 0.0f32, None).unwrap().is_empty());
    assert_eq!(embed_batch(2, failed(), 0.0f32, Some(3)).unwrap(), vec![vec![0.0; 3], vec![0.0; 3]]);
}

#[test]
fn the_service_is_addressed_by_what_is_asked_of_it() {
    let client = OllamaClient::new("http://localhost:11434", "deepseek-r1:1.5b");
    assert_eq!(client.base_url, "http://localhost:11434");
    assert_eq!(client.model, "deepseek-r1:1.5b");
    assert_eq!(client.embeddings_url(), "http://localhost:11434/api/embeddings");
    assert_eq!(client.generate_url(), "http://localhost:11434/api/generate");
}
