use local_vectored_llm::file::{
    chunk_text, split_paragraphs, DocumentChunk, FileProcessorRegistry, PdfFileProcessor, Processor,
    TextFileProcessor,
};
use local_vectored_llm::utils::{
    extension_of, file_kind, file_name_of, has_extension, is_supported_file, FileKind,
};
use local_vectored_llm::AppError;
use std::path::Path;

#[test]
fn paragraphs_are_cut_at_empty_lines() {
    for text in [
        "",
        "one",
        "one\n\ntwo",
        "one\ntwo",
        "\n\n",
        "\n\n\n",
        "\n\n\n\n",
        "a\n\n\nb",
        "a\n\n\n\nb\n\n",
        "\n\na",
        "a\n",
        "段落一\n\n段落二\n\n\n段落三",
    ] {
        let expected: Vec<&str> = text.split("\n\n").collect();
        assert_eq!(split_paragraphs(text), expected, "for {:?}", text);
    }
}

#[test]
fn paragraphs_are_packed_up_to_the_size() {
    assert_eq!(chunk_text("aaaa\n\nbbb\n\ncc", 9), vec!["aaaa\n\nbbb", "cc"]);
    assert_eq!(chunk_text("aaaa\n\nbbb\n\ncc", 7), vec!["aaaa\n\nbbb", "cc"]);
    assert_eq!(chunk_text("aaaa\n\nbbb\n\ncc", 6), vec!["aaaa", "bbb\n\ncc"]);
    assert_eq!(chunk_text("aaaa\n\nbbb\n\ncc", 4), vec!["aaaa", "bbb", "cc"]);
    assert_eq!(chunk_text("aaaa\n\nbbb\n\ncc", 100), vec!["aaaa\n\nbbb\n\ncc"]);
}

#[test]
fn a_paragraph_longer_than_the_size_is_a_chunk_of_its_own() {
    assert_eq!(chunk_text("a\n\nbbbbbbbbbb\n\nc", 3), vec!["a", "bbbbbbbbbb", "c"]);
    assert_eq!(chunk_text("bbbbbbbbbb", 0), vec!["bbbbbbbbbb"]);
    assert_eq!(chunk_text("a\n\nb", 0), vec!["a", "b"]);
}

#[test]
fn empty_paragraphs_make_no_chunk() {
    assert!(chunk_text("", 10).is_empty());
    assert!(chunk_text("\n\n\n\n", 10).is_empty());
    assert_eq!(chunk_text("\n\nabc", 10), vec!["abc"]);
    assert_eq!(chunk_text("abc\n\n", 10), vec!["abc\n\n"]);
    assert_eq!(chunk_text("abc\n\n\n\ndef", 10), vec!["abc\n\n\n\ndef"]);
    assert_eq!(chunk_text("abc\n\n\n\ndef", 3), vec!["abc\n\n", "def"]);
}

#[test]
fn the_size_of_a_chunk_counts_bytes() {
    // each of these letters takes three bytes
    assert_eq!(chunk_text("ああ\n\nいい", 12), vec!["ああ\n\nいい"]);
    assert_eq!(chunk_text("ああ\n\nいい", 11), vec!["ああ", "いい"]);
    assert_eq!(chunk_text("aa\n\nbb", 4), vec!["aa\n\nbb"]);
    assert_eq!(chunk_text("aa\n\nbb", 3), vec!["aa", "bb"]);
}

fn seen(chunks: &[DocumentChunk]) -> Vec<(&str, &str, &str, usize)> {
    chunks
        .iter()
        .map(|c| {
            (c.content.as_str(), c.source.as_str(), c.metadata.file_type.as_str(), c.metadata.chunk_index)
        })
        .collect()
}

#[test]
fn processors_number_the_chunks_of_a_file() {
    let long = "x".repeat(600);
    let text = format!("{}\n\n{}\n\nend", long, long);
    let chunks = TextFileProcessor.process("docs/a.txt", &text);
    assert_eq!(
        seen(&chunks),
        vec![
            (long.as_str(), "docs/a.txt", "text", 0),
            (format!("{}\n\nend", long).as_str(), "docs/a.txt", "text", 1),
        ]
    );
    for chunk in &chunks {
        assert_eq!(chunk.metadata.additional, serde_json::Value::Object(serde_json::Map::new()));
    }
    let chunks = PdfFileProcessor.process("docs/a.pdf", "only");
    assert_eq!(seen(&chunks), vec![("only", "docs/a.pdf", "pdf", 0)]);
    assert_eq!(chunks[0].metadata.additional, serde_json::Value::Object(serde_json::Map::new()));
    assert!(TextFileProcessor.process("docs/a.txt", "").is_empty());
}

#[test]
fn processors_take_files_by_extension() {
    assert!(TextFileProcessor.can_handle("a.txt"));
    assert!(TextFileProcessor.can_handle("dir/a.TxT"));
    assert!(!TextFileProcessor.can_handle("a.pdf"));
    assert!(!TextFileProcessor.can_handle("a.md"));
    assert!(!TextFileProcessor.can_handle("txt"));
    assert!(PdfFileProcessor.can_handle("a.PDF"));
    assert!(!PdfFileProcessor.can_handle("a.txt"));
    assert!(!PdfFileProcessor.can_handle("a.pdf/b"));
    assert!(PdfFileProcessor.can_handle("a.pdf/."));
}

#[test]
fn the_registry_asks_its_processors_in_order() {
    let registry = FileProcessorRegistry::new();
    assert_eq!(
        registry.processors,
        vec![Processor::Text(TextFileProcessor), Processor::Pdf(PdfFileProcessor)]
    );
    assert_eq!(registry.handler("a.txt"), Some(Processor::Text(TextFileProcessor)));
    assert_eq!(registry.handler("a.pdf"), Some(Processor::Pdf(PdfFileProcessor)));
    assert_eq!(registry.handler("a.md"), None);
    assert_eq!(FileProcessorRegistry::default().processors, registry.processors);

    let mut registry = FileProcessorRegistry { processors: Vec::new() };
    assert_eq!(registry.handler("a.txt"), None);
    registry.register(Processor::Pdf(PdfFileProcessor));
    registry.register(Processor::Text(TextFileProcessor));
    assert_eq!(
        registry.processors,
        vec![Processor::Pdf(PdfFileProcessor), Processor::Text(TextFileProcessor)]
    );
    assert_eq!(registry.handler("a.txt"), Some(Processor::Text(TextFileProcessor)));
}

#[test]
fn the_registry_refuses_files_that_no_processor_takes() {
    let registry = FileProcessorRegistry::new();
    let chunks = registry.process_file("in/a.pdf", "one\n\ntwo").unwrap();
    assert_eq!(seen(&chunks), vec![("one\n\ntwo", "in/a.pdf", "pdf", 0)]);
    let chunks = registry.process_file("in/a.txt", "one").unwrap();
    assert_eq!(seen(&chunks), vec![("one", "in/a.txt", "text", 0)]);
    assert_eq!(
        registry.process_file("in/a.md", "one").unwrap_err(),
        AppError::UnsupportedFileType("md".to_string())
    );
    assert_eq!(
        registry.process_file("in/README", "one").unwrap_err(),
        AppError::UnsupportedFileType("unknown".to_string())
    );
}

#[test]
fn the_registry_finds_the_files_that_it_can_process() {
    let registry = FileProcessorRegistry::new();
    let paths: Vec<String> = ["a.txt", "b.md", "c/d.pdf", "e", "f.TXT", ".txt", "g.pdf.bak"]
        .iter()
        .map(|s| s.to_string())
        .collect();
    assert_eq!(registry.find_files(&paths), vec!["a.txt", "c/d.pdf", "f.TXT"]);
    assert!(registry.find_files(&Vec::new()).is_empty());
    let empty = FileProcessorRegistry { processors: Vec::new() };
    assert!(empty.find_files(&paths).is_empty());
}

#[test]
fn supported_kinds_are_told_by_extension() {
    assert_eq!(file_kind("a.txt"), Some(FileKind::Text));
    assert_eq!(file_kind("a.Md"), Some(FileKind::Markdown));
    assert_eq!(file_kind("x/y.z/a.PDF"), Some(FileKind::Pdf));
    assert_eq!(file_kind("a.pdf.txt"), Some(FileKind::Text));
    assert_eq!(file_kind("a.txt.gz"), None);
    assert_eq!(file_kind("a.tx"), None);
    assert_eq!(file_kind("a.txtx"), None);
    assert_eq!(file_kind(".pdf"), None);
    assert_eq!(file_kind("pdf"), None);
    assert_eq!(file_kind("a.t\u{212a}t"), None);
    assert!(is_supported_file("notes.md"));
    assert!(!is_supported_file("notes.markdown"));
    assert!(has_extension("a.TXT", "txt"));
    assert!(!has_extension("a.TXT", "TXT"));
    assert!(has_extension("a.", ""));
}

const PATHS: [&str; 44] = [
    "a.txt",
    "a",
    ".hidden",
    ".hidden.txt",
    "dir.d/a",
    "dir.d/a.b.c",
    "dir/.a",
    "a.",
    "a..b",
    "/abs/x.PDF",
    "",
    "日本語.テキスト",
    "x/y/z.tar.gz",
    "a.txt/",
    "a.txt//",
    "a.txt/.",
    "a.txt/./",
    "a.txt/././/.",
    "dir/b.md/",
    "dir/b.md/.",
    "a.txt/..",
    "a.txt/../",
    "..",
    "../",
    ".",
    "./",
    "/",
    "//",
    "/.",
    "./a.pdf",
    "./.",
    "...",
    "a/...",
    ".a.",
    "a./",
    "a/.b.txt/",
    "a.txt/.b",
    ".txt/",
    "..txt",
    "a.txt.",
    "a.txt./",
    "x/.md/.",
    "a.TXT/.",
    "a.pdf/./.",
];

#[test]
fn extensions_are_those_of_file_paths() {
    for path in PATHS {
        let expected = Path::new(path).extension().map(|e| e.to_str().unwrap().to_string());
        assert_eq!(extension_of(path), expected, "for {:?}", path);
        let expected = Path::new(path).file_name().map(|e| e.to_str().unwrap().to_string());
        assert_eq!(file_name_of(path), expected, "for {:?}", path);
    }
}

#[test]
fn supported_files_are_those_with_a_supported_extension() {
    for path in PATHS {
        let expected = match Path::new(path).extension().and_then(|e| e.to_str()) {
            Some(ext) => matches!(ext.to_lowercase().as_str(), "txt" | "pdf" | "md"),
            None => false,
        };
        assert_eq!(is_supported_file(path), expected, "for {:?}", path);
        assert_eq!(
            local_vectored_llm::document::DocumentProcessor::is_supported_file(path),
            expected,
            "for {:?}",
            path
        );
        let expected = Path::new(path)
            .extension()
            .and_then(|ext| ext.to_str())
            .map(|ext| ext.eq_ignore_ascii_case("txt"))
            .unwrap_or(false);
        assert_eq!(TextFileProcessor.can_handle(path), expected, "for {:?}", path);
    }
    assert!(is_supported_file("a.txt/"));
    assert!(is_supported_file("a.txt/."));
    assert!(PdfFileProcessor.can_handle("a.pdf/"));
    assert!(!is_supported_file("a.txt/.."));
}
