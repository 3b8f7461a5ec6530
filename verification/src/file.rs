//! Cutting the text of a file into chunks of whole paragraphs.

use crate::error::AppError;
use crate::json::{new_object, object_value};
use crate::strings::{from_chars, lower, texts, to_chars};
use crate::utils::{extension, extension_of, has_extension};
use vstd::prelude::*;
use vstd::string::StringExecFns;
use vstd::utf8::encode_utf8;

verus! {

/// A chunk of a document, ready to be embedded.
#[derive(Debug, Clone)]
pub struct DocumentChunk {
    pub content: String,
    /// The path of the file that the chunk was cut from.
    pub source: String,
    pub metadata: DocumentMetadata,
}

/// What is known of a chunk besides its text.
#[derive(Debug, Clone)]
pub struct DocumentMetadata {
    /// `text` or `pdf`.
    pub file_type: String,
    /// The place of the chunk among the chunks of its file, from zero.
    pub chunk_index: usize,
    /// Whatever else is to be stored with the chunk, as JSON.
    pub additional: serde_json::Value,
}

/// What a `DocumentChunk` holds, but for `additional`, which is carried
/// and never looked into.
pub struct DocumentChunkView {
    pub content: Seq<char>,
    pub source: Seq<char>,
    pub file_type: Seq<char>,
    pub chunk_index: nat,
}

impl View for DocumentChunk {
    type V = DocumentChunkView;

    open spec fn view(&self) -> DocumentChunkView {
        DocumentChunkView {
            content: self.content@,
            source: self.source@,
            file_type: self.metadata.file_type@,
            chunk_index: self.metadata.chunk_index as nat,
        }
    }
}

/// What each chunk of `chunks` holds, in order.
pub open spec fn chunk_views(chunks: Seq<DocumentChunk>) -> Seq<DocumentChunkView> {
    Seq::new(chunks.len(), |i: int| chunks[i]@)
}

/// The position of the first empty line in `s` (two line feeds in a row),
/// or the length of `s` where it holds none.
pub open spec fn first_break(s: Seq<char>) -> int
    decreases s.len(),
{
    if s.len() < 2 {
        s.len() as int
    } else if s[0] == '\n' && s[1] == '\n' {
        0
    } else {
        1 + first_break(s.drop_first())
    }
}

/// The paragraphs of `text`: what lies between its empty lines, read from
/// the left. A text without an empty line is one paragraph.
pub open spec fn paragraphs(text: Seq<char>) -> Seq<Seq<char>>
    decreases text.len(),
{
    let cut = first_break(text);
    if 0 <= cut && cut + 2 <= text.len() {
        seq![text.take(cut)] + paragraphs(text.skip(cut + 2))
    } else {
        seq![text]
    }
}

/// The length of `s` in bytes, encoded as UTF-8.
pub open spec fn byte_len(s: Seq<char>) -> nat {
    encode_utf8(s).len()
}

/// The chunks that are full, and the chunk that is being filled, after
/// `paragraphs` were taken in order. A paragraph that would make a chunk
/// that holds anything longer than `chunk_size` bytes begins a new chunk;
/// else it is added behind an empty line.
pub open spec fn packed(paragraphs: Seq<Seq<char>>, chunk_size: nat) -> (Seq<Seq<char>>, Seq<char>)
    decreases paragraphs.len(),
{
    if paragraphs.len() == 0 {
        (Seq::empty(), Seq::empty())
    } else {
        let (full, current) = packed(paragraphs.drop_last(), chunk_size);
        let paragraph = paragraphs.last();
        if current.len() == 0 {
            (full, paragraph)
        } else if byte_len(current) + byte_len(paragraph) > chunk_size {
            (full.push(current), paragraph)
        } else {
            (full, current + seq!['\n', '\n'] + paragraph)
        }
    }
}

/// The chunks of `text`: its paragraphs packed into chunks of about
/// `chunk_size` bytes, none of them empty.
pub open spec fn text_chunks(text: Seq<char>, chunk_size: nat) -> Seq<Seq<char>> {
    let (full, current) = packed(paragraphs(text), chunk_size);
    if current.len() == 0 {
        full
    } else {
        full.push(current)
    }
}

/// `first_break` is the first position where two line feeds stand.
proof fn lemma_first_break(s: Seq<char>, i: int)
    requires
        0 <= i <= s.len(),
        forall|j: int| 0 <= j < i && j + 1 < s.len() ==> !(s[j] == '\n' && #[trigger] s[j + 1] == '\n'),
        i == s.len() || (i + 1 < s.len() && s[i] == '\n' && s[i + 1] == '\n'),
    ensures
        first_break(s) == i,
    decreases s.len(),
{
    if s.len() >= 2 && i > 0 {
        let rest = s.drop_first();
        let zero = 0int;
        assert(!(s[zero] == '\n' && s[zero + 1] == '\n'));
        assert forall|j: int| 0 <= j < i - 1 && j + 1 < rest.len() implies !(rest[j] == '\n'
            && #[trigger] rest[j + 1] == '\n') by {
            assert(rest[j] == s[j + 1]);
            assert(rest[j + 1] == s[(j + 1) + 1]);
        }
        lemma_first_break(rest, i - 1);
    }
}

/// No full chunk is empty.
proof fn lemma_packed_nonempty(paragraphs: Seq<Seq<char>>, chunk_size: nat)
    ensures
        forall|i: int|
            0 <= i < packed(paragraphs, chunk_size).0.len() ==> (#[trigger] packed(
                paragraphs,
                chunk_size,
            ).0[i]).len() > 0,
    decreases paragraphs.len(),
{
    if paragraphs.len() > 0 {
        lemma_packed_nonempty(paragraphs.drop_last(), chunk_size);
        let before = packed(paragraphs.drop_last(), chunk_size);
        let now = packed(paragraphs, chunk_size);
        assert forall|i: int| 0 <= i < now.0.len() implies (#[trigger] now.0[i]).len() > 0 by {
            if i < before.0.len() {
                assert(now.0[i] == before.0[i]);
            }
        }
    }
}

/// No chunk of a text is empty.
pub proof fn lemma_chunks_nonempty(text: Seq<char>, chunk_size: nat)
    ensures
        forall|i: int|
            0 <= i < text_chunks(text, chunk_size).len() ==> (#[trigger] text_chunks(
                text,
                chunk_size,
            )[i]).len() > 0,
{
    lemma_packed_nonempty(paragraphs(text), chunk_size);
}

/// Cuts `text` at its empty lines.
pub fn split_paragraphs(text: &str) -> (parts: Vec<String>)
    ensures
        texts(parts@) == paragraphs(text@),
{
    let chars = to_chars(text);
    let n = chars.len();
    let mut parts: Vec<String> = Vec::new();
    let mut start: usize = 0;
    let mut done = false;
    assert(chars@.skip(0) =~= chars@);
    assert(texts(parts@) + paragraphs(chars@) =~= paragraphs(chars@));
    while !done
        invariant
            n == chars@.len(),
            chars@ == text@,
            start <= n,
            !done ==> texts(parts@) + paragraphs(chars@.skip(start as int)) == paragraphs(text@),
            done ==> texts(parts@) == paragraphs(text@),
        decreases n - start + (if done { 0int } else { 1int }),
    {
        let ghost rest = chars@.skip(start as int);
        let ghost before = texts(parts@);
        let mut at: usize = start;
        while at < n && !(at + 1 < n && chars[at] == '\n' && chars[at + 1] == '\n')
            invariant
                start <= at <= n,
                n == chars@.len(),
                forall|j: int|
                    start <= j < at && j + 1 < n ==> !(chars@[j] == '\n' && #[trigger] chars@[j
                        + 1] == '\n'),
            decreases n - at,
        {
            at += 1;
        }
        proof {
            assert forall|j: int| 0 <= j < at - start && j + 1 < rest.len() implies !(rest[j]
                == '\n' && #[trigger] rest[j + 1] == '\n') by {
                assert(rest[j] == chars@[start + j]);
                assert(rest[j + 1] == chars@[(start + j) + 1]);
            }
            lemma_first_break(rest, at - start);
            assert(rest.take(at - start) =~= chars@.subrange(start as int, at as int));
        }
        parts.push(from_chars(&chars, start, at));
        assert(texts(parts@) =~= before.push(chars@.subrange(start as int, at as int)));
        if at == n {
            proof {
                assert(rest.take(at - start) =~= rest);
                assert(before + seq![rest] =~= before.push(rest));
            }
            done = true;
        } else {
            proof {
                assert(rest.skip(at - start + 2) =~= chars@.skip(at + 2));
                assert(before + (seq![rest.take(at - start)] + paragraphs(chars@.skip(at + 2)))
                    =~= before.push(rest.take(at - start)) + paragraphs(chars@.skip(at + 2)));
            }
            start = at + 2;
        }
    }
    parts
}

/// Cuts `text` into chunks of whole paragraphs, of about `chunk_size` bytes
/// each: a chunk is closed before the paragraph that would take it over
/// that size. A single paragraph that is longer makes a chunk of its own.
pub fn chunk_text(text: &str, chunk_size: usize) -> (chunks: Vec<String>)
    ensures
        texts(chunks@) == text_chunks(text@, chunk_size as nat),
{
    let parts = split_paragraphs(text);
    let mut chunks: Vec<String> = Vec::new();
    let mut current = String::new();
    let mut i: usize = 0;
    proof {
        assert(texts(parts@).take(0) =~= Seq::<Seq<char>>::empty());
        assert(texts(chunks@) =~= Seq::<Seq<char>>::empty());
    }
    while i < parts.len()
        invariant
            i <= parts@.len(),
            (texts(chunks@), current@) == packed(
                texts(parts@).take(i as int),
                chunk_size as nat,
            ),
        decreases parts@.len() - i,
    {
        let ghost full = texts(chunks@);
        proof {
            assert(texts(parts@).take(i + 1).drop_last() =~= texts(parts@).take(i as int));
            assert(texts(parts@).take(i + 1).last() == parts@[i as int]@);
        }
        let paragraph = parts[i].as_str();
        let paragraph_len = paragraph.as_bytes().len();
        if current.as_str().is_empty() {
            current = String::from_str(paragraph);
        } else if paragraph_len > chunk_size || current.as_str().as_bytes().len() > chunk_size
            - paragraph_len {
            let ghost closed = current@;
            chunks.push(current);
            assert(texts(chunks@) =~= full.push(closed));
            current = String::from_str(paragraph);
        } else {
            let ghost before = current@;
            current.append("\n\n");
            current.append(paragraph);
            proof {
                reveal_strlit("\n\n");
                assert("\n\n"@ =~= seq!['\n', '\n']);
            }
        }
        i += 1;
    }
    assert(texts(parts@).take(parts@.len() as int) =~= texts(parts@));
    if !current.as_str().is_empty() {
        let ghost full = texts(chunks@);
        let ghost last = current@;
        chunks.push(current);
        assert(texts(chunks@) =~= full.push(last));
    }
    chunks
}

/// The records for the chunks of one file, numbered in order.
pub open spec fn records(
    source: Seq<char>,
    file_type: Seq<char>,
    chunks: Seq<Seq<char>>,
) -> Seq<DocumentChunkView> {
    Seq::new(
        chunks.len(),
        |i: int|
            DocumentChunkView { content: chunks[i], source, file_type, chunk_index: i as nat },
    )
}

/// Makes the records for the chunks of one file. Each gets an empty JSON
/// object for what else is to be stored with it.
fn to_records(source: &str, file_type: &str, chunks: Vec<String>) -> (made: Vec<DocumentChunk>)
    ensures
        chunk_views(made@) == records(source@, file_type@, texts(chunks@)),
{
    let mut made: Vec<DocumentChunk> = Vec::new();
    let mut i: usize = 0;
    while i < chunks.len()
        invariant
            i <= chunks@.len(),
            made@.len() == i,
            forall|j: int|
                0 <= j < i ==> (#[trigger] made@[j])@ == records(
                    source@,
                    file_type@,
                    texts(chunks@),
                )[j],
        decreases chunks@.len() - i,
    {
        made.push(
            DocumentChunk {
                content: chunks[i].clone(),
                source: String::from_str(source),
                metadata: DocumentMetadata {
                    file_type: String::from_str(file_type),
                    chunk_index: i,
                    additional: object_value(new_object()),
                },
            },
        );
        i += 1;
    }
    assert(chunk_views(made@) =~= records(source@, file_type@, texts(chunks@)));
    made
}

/// How many bytes a chunk of a file is meant to hold.
pub const CHUNK_SIZE: usize = 1000;

/// Whether the extension of `path` is `word`, the case of ASCII letters
/// not counting.
pub open spec fn extension_matches(path: Seq<char>, word: Seq<char>) -> bool {
    match extension(path) {
        Some(ext) => lower(ext) == word,
        None => false,
    }
}

/// Handles plain text files.
#[derive(Debug, Clone, Copy, PartialEq, Eq, Structural)]
pub struct TextFileProcessor;

impl TextFileProcessor {
    /// Cuts the text of the file at `path` into chunks of whole paragraphs.
    pub fn process(&self, path: &str, content: &str) -> (chunks: Vec<DocumentChunk>)
        ensures
            chunk_views(chunks@) == records(
                path@,
                "text"@,
                text_chunks(content@, CHUNK_SIZE as nat),
            ),
    {
        to_records(path, "text", chunk_text(content, CHUNK_SIZE))
    }

    /// Whether `path` names a file with the extension `txt`.
    pub fn can_handle(&self, path: &str) -> (yes: bool)
        ensures
            yes == extension_matches(path@, "txt"@),
    {
        has_extension(path, "txt")
    }
}

/// Handles PDF files, of which the text was extracted.
#[derive(Debug, Clone, Copy, PartialEq, Eq, Structural)]
pub struct PdfFileProcessor;

impl PdfFileProcessor {
    /// Cuts the text extracted from the file at `path` into chunks of
    /// whole paragraphs.
    pub fn process(&self, path: &str, content: &str) -> (chunks: Vec<DocumentChunk>)
        ensures
            chunk_views(chunks@) == records(
                path@,
                "pdf"@,
                text_chunks(content@, CHUNK_SIZE as nat),
            ),
    {
        to_records(path, "pdf", chunk_text(content, CHUNK_SIZE))
    }

    /// Whether `path` names a file with the extension `pdf`.
    pub fn can_handle(&self, path: &str) -> (yes: bool)
        ensures
            yes == extension_matches(path@, "pdf"@),
    {
        has_extension(path, "pdf")
    }
}

/// The processors that there are.
#[derive(Debug, Clone, Copy, PartialEq, Eq, Structural)]
pub enum Processor {
    Text(TextFileProcessor),
    Pdf(PdfFileProcessor),
}

impl Processor {
    /// Whether the processor takes the file at `path`.
    pub open spec fn handles(self, path: Seq<char>) -> bool {
        match self {
            Processor::Text(_) => extension_matches(path, "txt"@),
            Processor::Pdf(_) => extension_matches(path, "pdf"@),
        }
    }

    /// What the processor calls the files that it takes.
    pub open spec fn file_type(self) -> Seq<char> {
        match self {
            Processor::Text(_) => "text"@,
            Processor::Pdf(_) => "pdf"@,
        }
    }

    /// Whether the processor takes the file at `path`.
    pub fn can_handle(&self, path: &str) -> (yes: bool)
        ensures
            yes == self.handles(path@),
    {
        match self {
            Processor::Text(p) => p.can_handle(path),
            Processor::Pdf(p) => p.can_handle(path),
        }
    }

    /// Cuts the text of the file at `path` into chunks.
    pub fn process(&self, path: &str, content: &str) -> (chunks: Vec<DocumentChunk>)
        ensures
            chunk_views(chunks@) == records(
                path@,
                self.file_type(),
                text_chunks(content@, CHUNK_SIZE as nat),
            ),
    {
        match self {
            Processor::Text(p) => p.process(path, content),
            Processor::Pdf(p) => p.process(path, content),
        }
    }
}

/// The first of `processors` that takes the file at `path`.
pub open spec fn first_handler(processors: Seq<Processor>, path: Seq<char>) -> Option<Processor>
    decreases processors.len(),
{
    if processors.len() == 0 {
        None
    } else if processors[0].handles(path) {
        Some(processors[0])
    } else {
        first_handler(processors.drop_first(), path)
    }
}

/// Of `paths`, in order, those that one of `processors` takes.
pub open spec fn handled(processors: Seq<Processor>, paths: Seq<Seq<char>>) -> Seq<Seq<char>>
    decreases paths.len(),
{
    if paths.len() == 0 {
        Seq::empty()
    } else if first_handler(processors, paths.last()) is Some {
        handled(processors, paths.drop_last()).push(paths.last())
    } else {
        handled(processors, paths.drop_last())
    }
}

/// The processors that files are offered to, in the order in which they
/// are asked.
pub struct FileProcessorRegistry {
    pub processors: Vec<Processor>,
}

impl Default for FileProcessorRegistry {
    fn default() -> (registry: Self)
        ensures
            registry.processors@ == seq![
                Processor::Text(TextFileProcessor),
                Processor::Pdf(PdfFileProcessor),
            ],
    {
        Self::new()
    }
}

impl FileProcessorRegistry {
    /// A registry with the processor for text files, then the one for PDF
    /// files.
    pub fn new() -> (registry: Self)
        ensures
            registry.processors@ == seq![
                Processor::Text(TextFileProcessor),
                Processor::Pdf(PdfFileProcessor),
            ],
    {
        let mut registry = Self { processors: Vec::new() };
        registry.register(Processor::Text(TextFileProcessor));
        registry.register(Processor::Pdf(PdfFileProcessor));
        assert(registry.processors@ =~= seq![
            Processor::Text(TextFileProcessor),
            Processor::Pdf(PdfFileProcessor),
        ]);
        registry
    }

    /// Adds a processor behind those that are there.
    pub fn register(&mut self, processor: Processor)
        ensures
            final(self).processors@ == old(self).processors@.push(processor),
    {
        self.processors.push(processor);
    }

    /// The processor that takes the file at `path`: the first that can.
    pub fn handler(&self, path: &str) -> (found: Option<Processor>)
        ensures
            found == first_handler(self.processors@, path@),
    {
        let mut i: usize = 0;
        assert(self.processors@.skip(0) =~= self.processors@);
        while i < self.processors.len()
            invariant
                i <= self.processors@.len(),
                first_handler(self.processors@, path@) == first_handler(
                    self.processors@.skip(i as int),
                    path@,
                ),
            decreases self.processors@.len() - i,
        {
            let processor = self.processors[i];
            assert(self.processors@.skip(i as int)[0] == processor);
            assert(self.processors@.skip(i as int).drop_first() =~= self.processors@.skip(i + 1));
            if processor.can_handle(path) {
                return Some(processor);
            }
            i += 1;
        }
        None
    }

    /// Cuts the text of the file at `path` into chunks with the first
    /// processor that takes the file. A file that none takes is refused
    /// with its extension.
    pub fn process_file(&self, path: &str, content: &str) -> (result: Result<
        Vec<DocumentChunk>,
        AppError,
    >)
        ensures
            match result {
                Ok(chunks) => first_handler(self.processors@, path@) matches Some(processor)
                    && chunk_views(chunks@) == records(
                    path@,
                    processor.file_type(),
                    text_chunks(content@, CHUNK_SIZE as nat),
                ),
                Err(e) => {
                    &&& first_handler(self.processors@, path@) is None
                    &&& e is UnsupportedFileType
                    &&& e.detail() == match extension(path@) {
                        Some(ext) => ext,
                        None => "unknown"@,
                    }
                },
            },
    {
        match self.handler(path) {
            Some(processor) => Ok(processor.process(path, content)),
            None => {
                let detail = match extension_of(path) {
                    Some(ext) => ext,
                    None => String::from_str("unknown"),
                };
                Err(AppError::UnsupportedFileType(detail))
            },
        }
    }

    /// Of the files at `paths`, in order, those that a processor takes.
    pub fn find_files(&self, paths: &Vec<String>) -> (files: Vec<String>)
        ensures
            texts(files@) == handled(self.processors@, texts(paths@)),
    {
        let mut files: Vec<String> = Vec::new();
        let mut i: usize = 0;
        assert(texts(files@) =~= handled(self.processors@, texts(paths@).take(0)));
        while i < paths.len()
            invariant
                i <= paths@.len(),
                texts(files@) == handled(self.processors@, texts(paths@).take(i as int)),
            decreases paths@.len() - i,
        {
            let ghost before = texts(files@);
            proof {
                assert(texts(paths@).take(i + 1).drop_last() =~= texts(paths@).take(i as int));
                assert(texts(paths@).take(i + 1).last() == paths@[i as int]@);
            }
            if self.handler(paths[i].as_str()).is_some() {
                files.push(paths[i].clone());
                assert(texts(files@) =~= before.push(paths@[i as int]@));
            }
            i += 1;
        }
        assert(texts(paths@).take(paths@.len() as int) =~= texts(paths@));
        files
    }
}

} // verus!
