//! Turning the text of a file into overlapping chunks with their provenance.

use crate::chroma::document::{chunk_document, document_views, Document, DocumentView};
use crate::error::AppError;
use crate::strings::{find_char, first_index, from_chars, starts_with, texts, to_chars};
use crate::utils::{extension, extension_of, file_kind, kind_of};
use vstd::arithmetic::div_mod::{lemma_fundamental_div_mod, lemma_fundamental_div_mod_converse, lemma_mod_bound};
use vstd::prelude::*;
use vstd::string::StringExecFns;

verus! {

/// Glues chunks back together, leaving out of every chunk but the first the
/// `overlap` characters that it repeats from the chunk before it.
pub open spec fn reassemble(chunks: Seq<Seq<char>>, overlap: nat) -> Seq<char>
    decreases chunks.len(),
{
    if chunks.len() == 0 {
        Seq::empty()
    } else if chunks.len() == 1 {
        chunks[0]
    } else {
        reassemble(chunks.drop_last(), overlap) + chunks.last().skip(overlap as int)
    }
}

/// Cuts text into windows of `chunk_size` characters, each sharing
/// `chunk_overlap` characters with the window before it.
pub struct TextSplitter {
    pub chunk_size: usize,
    pub chunk_overlap: usize,
}

impl TextSplitter {
    /// A window must hold at least one character, and the overlap must leave
    /// room to advance.
    pub open spec fn valid(&self) -> bool {
        0 < self.chunk_size && self.chunk_overlap < self.chunk_size
    }

    /// The distance between the starts of two consecutive chunks.
    pub open spec fn stride(&self) -> int {
        self.chunk_size - self.chunk_overlap
    }

    /// How many chunks a text of `len` characters is cut into: none for an
    /// empty text, else one more than the number of strides needed for a
    /// window to reach the end.
    pub open spec fn chunk_count(&self, len: nat) -> nat {
        if len == 0 {
            0
        } else if len <= self.chunk_size {
            1
        } else {
            ((len - self.chunk_size + self.stride() - 1) / self.stride() + 1) as nat
        }
    }

    /// The `i`-th chunk of `text`: the window that starts `i` strides in,
    /// cut short at the end of the text.
    pub open spec fn chunk(&self, text: Seq<char>, i: int) -> Seq<char> {
        let start = i * self.stride();
        let end = if start + self.chunk_size < text.len() {
            start + self.chunk_size
        } else {
            text.len() as int
        };
        text.subrange(start, end)
    }

    /// All chunks of `text`, in order.
    pub open spec fn chunks(&self, text: Seq<char>) -> Seq<Seq<char>> {
        Seq::new(self.chunk_count(text.len()), |i: int| self.chunk(text, i))
    }

    /// What `split` answers when the settings are not valid.
    pub open spec fn rejection() -> Seq<char> {
        "chunk size must be positive and larger than the overlap"@
    }

    pub fn new(chunk_size: usize, chunk_overlap: usize) -> (splitter: Self)
        ensures
            splitter.chunk_size == chunk_size,
            splitter.chunk_overlap == chunk_overlap,
    {
        TextSplitter { chunk_size, chunk_overlap }
    }

    /// The chunk that reaches the end of the text is the last one.
    pub proof fn lemma_last_chunk(&self, len: nat, last: int)
        requires
            self.valid(),
            0 < len,
            0 <= last,
            last * self.stride() + self.chunk_size >= len,
            last > 0 ==> (last - 1) * self.stride() + self.chunk_size < len,
        ensures
            self.chunk_count(len) == last + 1,
    {
        let s = self.stride();
        let size = self.chunk_size as int;
        if len <= size {
            if last > 0 {
                assert((last - 1) * s >= 0) by (nonlinear_arith)
                    requires
                        last >= 1,
                        s > 0,
                ;
            }
        } else {
            let d = len - size;
            assert(last > 0) by (nonlinear_arith)
                requires
                    last >= 0,
                    last * s >= d,
                    d > 0,
            ;
            let r = d + s - 1 - last * s;
            assert(r >= 0 && r < s && d + s - 1 == last * s + r) by (nonlinear_arith)
                requires
                    r == d + s - 1 - last * s,
                    (last - 1) * s < d,
                    d <= last * s,
            ;
            lemma_fundamental_div_mod_converse(d + s - 1, s, last, r);
        }
    }

    /// Where the chunks lie: every chunk starts inside the text, every chunk
    /// but the last is a full window that ends before the text does, and
    /// the last one reaches the end.
    pub proof fn lemma_chunk_bounds(&self, len: nat, i: int)
        requires
            self.valid(),
            0 <= i < self.chunk_count(len),
        ensures
            0 <= i * self.stride() < len,
            i < self.chunk_count(len) - 1 ==> i * self.stride() + self.chunk_size < len,
            i == self.chunk_count(len) - 1 ==> i * self.stride() + self.chunk_size >= len,
    {
        let s = self.stride();
        let size = self.chunk_size as int;
        if len <= size {
            assert(i * s == 0) by (nonlinear_arith)
                requires
                    i == 0,
            ;
        } else {
            let d = len - size;
            let x = d + s - 1;
            let q = x / s;
            let r = x % s;
            lemma_fundamental_div_mod(x, s);
            lemma_mod_bound(x, s);
            assert(0 <= i * s && i * s <= q * s && (i < q ==> i * s <= (q - 1) * s) && (q - 1) * s
                == q * s - s) by (nonlinear_arith)
                requires
                    0 <= i <= q,
                    s > 0,
            ;
            assert(x == s * q + r);
            assert(s * q == q * s) by (nonlinear_arith);
        }
    }

    /// No chunk is empty, none is longer than a window, and all but the last
    /// are exactly one window long.
    pub proof fn lemma_chunk_lengths(&self, text: Seq<char>, i: int)
        requires
            self.valid(),
            0 <= i < self.chunks(text).len(),
        ensures
            1 <= self.chunks(text)[i].len() <= self.chunk_size,
            i < self.chunks(text).len() - 1 ==> self.chunks(text)[i].len() == self.chunk_size,
    {
        self.lemma_chunk_bounds(text.len(), i);
    }

    /// A text without characters has no chunks.
    pub proof fn lemma_empty_text(&self)
        ensures
            self.chunks(Seq::<char>::empty()) == Seq::<Seq<char>>::empty(),
    {
        assert(self.chunks(Seq::<char>::empty()) =~= Seq::<Seq<char>>::empty());
    }

    /// Two consecutive chunks share the overlap: the last `chunk_overlap`
    /// characters of one are the first `chunk_overlap` characters of the next.
    pub proof fn lemma_adjacent_overlap(&self, text: Seq<char>, i: int)
        requires
            self.valid(),
            0 <= i,
            i + 1 < self.chunks(text).len(),
        ensures
            self.chunks(text)[i].len() == self.chunk_size,
            self.chunks(text)[i + 1].len() >= self.chunk_overlap,
            self.chunks(text)[i].skip(self.chunk_size - self.chunk_overlap) == self.chunks(
                text,
            )[i + 1].take(self.chunk_overlap as int),
    {
        self.lemma_chunk_bounds(text.len(), i);
        self.lemma_chunk_bounds(text.len(), i + 1);
        let s = self.stride();
        assert((i + 1) * s == i * s + s) by (nonlinear_arith);
        assert(self.chunks(text)[i].skip(self.chunk_size - self.chunk_overlap) =~= self.chunks(
            text,
        )[i + 1].take(self.chunk_overlap as int));
    }

    /// The first `m` chunks, glued together without their repeated
    /// characters, are the text up to the end of the last of them.
    proof fn lemma_reassemble_prefix(&self, text: Seq<char>, m: int)
        requires
            self.valid(),
            1 <= m <= self.chunks(text).len(),
        ensures
            reassemble(self.chunks(text).take(m), self.chunk_overlap as nat) == text.subrange(
                0,
                (m - 1) * self.stride() + self.chunks(text)[m - 1].len(),
            ),
            (m - 1) * self.stride() + self.chunks(text)[m - 1].len() <= text.len(),
        decreases m,
    {
        let all = self.chunks(text);
        let s = self.stride();
        self.lemma_chunk_bounds(text.len(), m - 1);
        if m == 1 {
            assert(0 * s == 0) by (nonlinear_arith);
            assert(all.take(1)[0] == all[0]);
            assert(reassemble(all.take(1), self.chunk_overlap as nat) =~= all[0]);
        } else {
            self.lemma_reassemble_prefix(text, m - 1);
            self.lemma_chunk_bounds(text.len(), m - 2);
            assert((m - 1) * s == (m - 2) * s + s) by (nonlinear_arith);
            assert(all.take(m).drop_last() =~= all.take(m - 1));
            assert(all.take(m).last() == all[m - 1]);
            assert(all.take(m - 1)[m - 2] == all[m - 2]);
            assert(text.subrange(0, (m - 2) * s + self.chunk_size) + all[m - 1].skip(
                self.chunk_overlap as int,
            ) =~= text.subrange(0, (m - 1) * s + all[m - 1].len()));
        }
    }

    /// Gluing the chunks of a text back together, each but the first without
    /// the characters it repeats, gives the text back.
    pub proof fn lemma_split_reassembles(&self, text: Seq<char>)
        requires
            self.valid(),
        ensures
            reassemble(self.chunks(text), self.chunk_overlap as nat) == text,
    {
        let all = self.chunks(text);
        let m = all.len() as int;
        if m == 0 {
            assert(text =~= Seq::<char>::empty());
        } else {
            self.lemma_reassemble_prefix(text, m);
            self.lemma_chunk_bounds(text.len(), m - 1);
            assert(all.take(m) =~= all);
            assert(text.subrange(0, text.len() as int) =~= text);
        }
    }

    /// Cuts `text` into chunks, counting characters rather than bytes.
    /// Settings that would never advance are refused.
    pub fn split(&self, text: &str) -> (result: Result<Vec<String>, AppError>)
        ensures
            match result {
                Ok(chunks) => self.valid() && texts(chunks@) == self.chunks(text@),
                Err(e) => !self.valid() && e == AppError::InvalidConfiguration(e->InvalidConfiguration_0)
                    && e.detail() == Self::rejection(),
            },
    {
        if self.chunk_size == 0 || self.chunk_overlap >= self.chunk_size {
            return Err(
                AppError::InvalidConfiguration(
                    String::from_str("chunk size must be positive and larger than the overlap"),
                ),
            );
        }
        let chars = to_chars(text);
        let n = chars.len();
        let step = self.chunk_size - self.chunk_overlap;
        let mut chunks: Vec<String> = Vec::new();
        let mut start: usize = 0;
        let mut done = n == 0;
        assert(chunks@.len() * step == 0) by (nonlinear_arith)
            requires
                chunks@.len() == 0,
        ;
        while !done
            invariant
                self.valid(),
                chars@ == text@,
                n == chars@.len(),
                step == self.stride(),
                done ==> chunks@.len() == self.chunk_count(n as nat),
                !done ==> start < n && start == chunks@.len() * step && (chunks@.len() > 0 ==> (
                chunks@.len() - 1) * step + self.chunk_size < n),
                forall|j: int| 0 <= j < chunks@.len() ==> (#[trigger] chunks@[j])@ == self.chunk(text@, j),
            decreases
                    (if done {
                        0
                    } else {
                        n - start
                    }),
        {
            let ghost k = chunks@.len() as int;
            let end = if self.chunk_size >= n - start {
                n
            } else {
                start + self.chunk_size
            };
            chunks.push(from_chars(&chars, start, end));
            if end == n {
                proof {
                    self.lemma_last_chunk(n as nat, k);
                }
                done = true;
            } else {
                assert((k + 1) * step == k * step + step) by (nonlinear_arith);
                start += step;
            }
        }
        assert(texts(chunks@) =~= self.chunks(text@));
        Ok(chunks)
    }
}

/// The documents of one file, and the collection that they belong in.
pub type Processed = (Vec<Document>, String);

/// The collection for the file at the relative path `path`: `root` for a
/// file directly under the root, else the first directory, joined by a
/// hyphen to the second where there is one. Deeper directories do not count.
pub open spec fn collection_name(path: Seq<char>) -> Seq<char> {
    let first = first_index(path, '/');
    if first == path.len() {
        "root"@
    } else {
        let rest = path.skip(first + 1);
        let second = first_index(rest, '/');
        if second == rest.len() {
            path.take(first)
        } else {
            path.take(first).push('-') + rest.take(second)
        }
    }
}

/// What `root` is cut off with: the root and the `/` that follows it.
pub open spec fn root_prefix(root: Seq<char>) -> Seq<char> {
    if root.len() > 0 && root.last() == '/' {
        root
    } else {
        root.push('/')
    }
}

/// Whether the path `full` lies under `root`.
pub open spec fn is_under(root: Seq<char>, full: Seq<char>) -> bool {
    root_prefix(root).is_prefix_of(full)
}

/// The path of `full` from `root` on. A path that does not lie under
/// `root` stays as it is.
pub open spec fn relative_to(root: Seq<char>, full: Seq<char>) -> Seq<char> {
    if is_under(root, full) {
        full.skip(root_prefix(root).len() as int)
    } else {
        full
    }
}

/// The path of `full_path` from `root_path` on, where it lies under
/// `root_path`.
pub fn relative_path(root_path: &str, full_path: &str) -> (relative: Option<String>)
    ensures
        match relative {
            Some(path) => is_under(root_path@, full_path@) && path@ == relative_to(
                root_path@,
                full_path@,
            ),
            None => !is_under(root_path@, full_path@),
        },
{
    let mut prefix = to_chars(root_path);
    if prefix.len() == 0 || prefix[prefix.len() - 1] != '/' {
        prefix.push('/');
    }
    let full = to_chars(full_path);
    if starts_with(&full, &prefix) {
        Some(from_chars(&full, prefix.len(), full.len()))
    } else {
        None
    }
}

/// What a file found under the root turned out to hold.
#[derive(Debug)]
pub enum Reading {
    /// Nobody tried to read the file.
    NotRead,
    /// The text of the file, and when the file was made and last changed,
    /// in seconds since the Unix epoch.
    Text { text: String, created_at: i64, updated_at: i64 },
    /// The file could not be read, or no text could be got from it.
    Failed { cause: String },
}

/// A regular file found under the root.
#[derive(Debug)]
pub struct WalkedFile {
    /// The path as the walk gave it: the root, then the way down.
    pub path: String,
    pub reading: Reading,
}

/// What became of one file.
#[derive(Debug)]
pub enum FileOutcome {
    /// The file was cut into documents.
    Converted { path: String },
    /// The file is of no supported kind and was left alone.
    Skipped { path: String },
    /// The file is of a supported kind and was not made into documents:
    /// the cause says why.
    Failed { path: String, cause: String },
}

/// The result of going through a directory.
#[derive(Debug)]
pub struct Ingestion {
    /// For each converted file, in the order of the walk, its documents and
    /// their collection.
    pub processed: Vec<Processed>,
    /// For each file of the walk, in order, what became of it.
    pub outcomes: Vec<FileOutcome>,
}

/// What each entry of `processed` holds, in order.
pub open spec fn processed_views(processed: Seq<Processed>) -> Seq<(Seq<DocumentView>, Seq<char>)> {
    Seq::new(processed.len(), |i: int| (document_views(processed[i].0@), processed[i].1@))
}

/// What is answered for a file that does not lie under the root.
pub open spec fn outside_root() -> Seq<char> {
    "file is not under the root"@
}

/// What is recorded of a supported file that nobody read.
pub open spec fn not_read() -> Seq<char> {
    "file was not read"@
}

/// What stands for the extension of a file that has none.
pub open spec fn no_extension() -> Seq<char> {
    "unknown"@
}

/// Cuts the files of a directory into documents.
pub struct DocumentProcessor {
    pub chunk_size: usize,
}

impl DocumentProcessor {
    /// The splitter that the processor cuts with: a tenth of every chunk
    /// is shared with the chunk before it.
    pub open spec fn splitter(&self) -> TextSplitter {
        TextSplitter { chunk_size: self.chunk_size, chunk_overlap: self.chunk_size / 10 }
    }

    /// The documents for a file at the relative path `path` that holds `text`.
    pub open spec fn documents_of(
        &self,
        path: Seq<char>,
        text: Seq<char>,
        created_at: int,
        updated_at: int,
    ) -> Seq<DocumentView> {
        let chunks = self.splitter().chunks(text);
        Seq::new(
            chunks.len(),
            |i: int| chunk_document(path, i as nat, chunks[i], created_at, updated_at),
        )
    }

    /// Whether `file` is cut into documents: it is of a supported kind,
    /// lies under the root, and its text was read.
    pub open spec fn converts(root: Seq<char>, file: WalkedFile) -> bool {
        kind_of(file.path@) is Some && is_under(root, file.path@) && file.reading is Text
    }

    /// What is recorded for `file`.
    pub open spec fn outcome_fits(outcome: FileOutcome, root: Seq<char>, file: WalkedFile) -> bool {
        let relative = relative_to(root, file.path@);
        if kind_of(file.path@) is None {
            outcome matches FileOutcome::Skipped { path } && path@ == relative
        } else if !is_under(root, file.path@) {
            outcome matches FileOutcome::Failed { path, cause: c } && path@ == relative && c@
                == outside_root()
        } else {
            match file.reading {
                Reading::Text { .. } => outcome matches FileOutcome::Converted { path } && path@
                    == relative,
                Reading::Failed { cause } => outcome matches FileOutcome::Failed { path, cause: c }
                    && path@ == relative && c@ == cause@,
                Reading::NotRead => outcome matches FileOutcome::Failed { path, cause: c } && path@
                    == relative && c@ == not_read(),
            }
        }
    }

    /// The documents and collection of every file of `files` that is
    /// converted, in order.
    pub open spec fn converted(&self, root: Seq<char>, files: Seq<WalkedFile>) -> Seq<
        (Seq<DocumentView>, Seq<char>),
    >
        decreases files.len(),
    {
        if files.len() == 0 {
            Seq::empty()
        } else {
            let before = self.converted(root, files.drop_last());
            let file = files.last();
            if Self::converts(root, file) {
                let relative = relative_to(root, file.path@);
                before.push(
                    (
                        self.documents_of(
                            relative,
                            file.reading->text@,
                            file.reading->created_at as int,
                            file.reading->updated_at as int,
                        ),
                        collection_name(relative),
                    ),
                )
            } else {
                before
            }
        }
    }

    pub fn new(chunk_size: usize) -> (processor: Self)
        ensures
            processor.chunk_size == chunk_size,
    {
        Self { chunk_size }
    }

    /// Tells whether the settings can be worked with, before any file is
    /// looked at: a chunk size of zero cannot.
    pub fn check(&self) -> (result: Result<(), AppError>)
        ensures
            match result {
                Ok(_) => self.chunk_size > 0,
                Err(e) => self.chunk_size == 0 && e is InvalidConfiguration && e.detail()
                    == TextSplitter::rejection(),
            },
    {
        if self.chunk_size == 0 {
            Err(
                AppError::InvalidConfiguration(
                    String::from_str("chunk size must be positive and larger than the overlap"),
                ),
            )
        } else {
            Ok(())
        }
    }

    /// Cuts the text of one file into documents and names their collection.
    /// `full_path` is the path as the walk gave it, `text` what was
    /// extracted from the file. A chunk size of zero is refused first, then
    /// a file of no supported kind, with its extension, then a file that
    /// does not lie under the root: the path of a document is never but
    /// relative to the root.
    pub fn process_file(
        &self,
        root_path: &str,
        full_path: &str,
        text: &str,
        created_at: i64,
        updated_at: i64,
    ) -> (result: Result<Processed, AppError>)
        ensures
            match result {
                Ok((documents, collection)) => {
                    &&& self.chunk_size > 0
                    &&& kind_of(full_path@) is Some
                    &&& is_under(root_path@, full_path@)
                    &&& document_views(documents@) == self.documents_of(
                        relative_to(root_path@, full_path@),
                        text@,
                        created_at as int,
                        updated_at as int,
                    )
                    &&& collection@ == collection_name(relative_to(root_path@, full_path@))
                },
                Err(e) => if self.chunk_size == 0 {
                    e is InvalidConfiguration && e.detail() == TextSplitter::rejection()
                } else if kind_of(full_path@) is None {
                    &&& e is UnsupportedFileType
                    &&& e.detail() == match extension(full_path@) {
                        Some(ext) => ext,
                        None => no_extension(),
                    }
                } else {
                    &&& !is_under(root_path@, full_path@)
                    &&& e is FileProcessing
                    &&& e.detail() == outside_root()
                },
            },
    {
        match self.check() {
            Ok(_) => {},
            Err(e) => {
                return Err(e);
            },
        }
        if file_kind(full_path).is_none() {
            let detail = match extension_of(full_path) {
                Some(ext) => ext,
                None => String::from_str("unknown"),
            };
            return Err(AppError::UnsupportedFileType(detail));
        }
        let path = match relative_path(root_path, full_path) {
            Some(path) => path,
            None => {
                return Err(AppError::FileProcessing(String::from_str("file is not under the root")));
            },
        };
        let splitter = TextSplitter::new(self.chunk_size, self.chunk_size / 10);
        let chunks = match splitter.split(text) {
            Ok(chunks) => chunks,
            Err(e) => {
                return Err(e);
            },
        };
        let collection = Self::fix_collection_name(path.as_str());
        let ghost expected = self.documents_of(
            path@,
            text@,
            created_at as int,
            updated_at as int,
        );
        let mut documents: Vec<Document> = Vec::new();
        let mut index: usize = 0;
        while index < chunks.len()
            invariant
                index <= chunks@.len(),
                texts(chunks@) == splitter.chunks(text@),
                splitter == self.splitter(),
                expected == self.documents_of(path@, text@, created_at as int, updated_at as int),
                documents@.len() == index,
                forall|i: int| 0 <= i < index ==> (#[trigger] documents@[i])@ == expected[i],
            decreases chunks@.len() - index,
        {
            let content = chunks[index].clone();
            assert(texts(chunks@)[index as int] == content@);
            documents.push(
                Document::for_chunk(path.as_str(), index, content, created_at, updated_at),
            );
            index += 1;
        }
        assert(texts(chunks@).len() == chunks@.len());
        assert(document_views(documents@) =~= expected);
        Ok((documents, collection))
    }

    /// Goes through the files of a walk under `root_path`. A file of no
    /// supported kind is skipped; one that could not be read is recorded
    /// with the cause; every other is cut into documents. No file stops
    /// the others. Only a chunk size of zero is refused, before any file
    /// is looked at.
    pub fn process_directory(&self, root_path: &str, files: &Vec<WalkedFile>) -> (result: Result<
        Ingestion,
        AppError,
    >)
        ensures
            match result {
                Ok(ingestion) => {
                    &&& self.chunk_size > 0
                    &&& ingestion.outcomes@.len() == files@.len()
                    &&& forall|i: int|
                        0 <= i < files@.len() ==> Self::outcome_fits(
                            #[trigger] ingestion.outcomes@[i],
                            root_path@,
                            files@[i],
                        )
                    &&& processed_views(ingestion.processed@) == self.converted(
                        root_path@,
                        files@,
                    )
                },
                Err(e) => self.chunk_size == 0 && e is InvalidConfiguration && e.detail()
                    == TextSplitter::rejection(),
            },
    {
        match self.check() {
            Ok(_) => {},
            Err(e) => {
                return Err(e);
            },
        }
        let mut processed: Vec<Processed> = Vec::new();
        let mut outcomes: Vec<FileOutcome> = Vec::new();
        let mut at: usize = 0;
        assert(processed_views(processed@) =~= self.converted(root_path@, files@.take(0)));
        while at < files.len()
            invariant
                self.chunk_size > 0,
                at <= files@.len(),
                outcomes@.len() == at,
                forall|i: int|
                    0 <= i < at ==> Self::outcome_fits(
                        #[trigger] outcomes@[i],
                        root_path@,
                        files@[i],
                    ),
                processed_views(processed@) == self.converted(root_path@, files@.take(at as int)),
            decreases files@.len() - at,
        {
            let file = &files[at];
            let ghost before = processed_views(processed@);
            proof {
                assert(files@.take(at + 1).drop_last() =~= files@.take(at as int));
                assert(files@.take(at + 1).last() == files@[at as int]);
            }
            let under = relative_path(root_path, file.path.as_str());
            let outside = under.is_none();
            let relative = match under {
                Some(path) => path,
                None => file.path.clone(),
            };
            if file_kind(file.path.as_str()).is_none() {
                outcomes.push(FileOutcome::Skipped { path: relative });
            } else if outside {
                outcomes.push(
                    FileOutcome::Failed {
                        path: relative,
                        cause: String::from_str("file is not under the root"),
                    },
                );
            } else {
                match &file.reading {
                    Reading::Text { text, created_at, updated_at } => {
                        match self.process_file(
                            root_path,
                            file.path.as_str(),
                            text.as_str(),
                            *created_at,
                            *updated_at,
                        ) {
                            Ok(done) => {
                                processed.push(done);
                                outcomes.push(FileOutcome::Converted { path: relative });
                                proof {
                                    assert(processed_views(processed@) =~= before.push(
                                        (document_views(done.0@), done.1@),
                                    ));
                                }
                            },
                            Err(_) => {
                                assert(false);
                            },
                        }
                    },
                    Reading::Failed { cause } => {
                        outcomes.push(FileOutcome::Failed { path: relative, cause: cause.clone() });
                    },
                    Reading::NotRead => {
                        outcomes.push(
                            FileOutcome::Failed {
                                path: relative,
                                cause: String::from_str("file was not read"),
                            },
                        );
                    },
                }
            }
            at += 1;
        }
        assert(files@.take(files@.len() as int) =~= files@);
        Ok(Ingestion { processed, outcomes })
    }

    /// The collection for the file at the relative path `path`.
    pub fn fix_collection_name(path: &str) -> (name: String)
        ensures
            name@ == collection_name(path@),
    {
        let chars = to_chars(path);
        assert(chars@.skip(0) =~= chars@);
        let first = find_char(&chars, 0, '/');
        if first == chars.len() {
            return String::from_str("root");
        }
        let second = find_char(&chars, first + 1, '/');
        let mut name = from_chars(&chars, 0, first);
        if second < chars.len() {
            name.push('-');
            let dir = from_chars(&chars, first + 1, second);
            name.append(dir.as_str());
            assert(chars@.skip(first + 1).take(second - (first + 1)) =~= chars@.subrange(
                first + 1,
                second as int,
            ));
        }
        name
    }

    /// Whether text can be extracted from the file that `path` names.
    pub fn is_supported_file(path: &str) -> (yes: bool)
        ensures
            yes == (kind_of(path@) is Some),
    {
        file_kind(path).is_some()
    }
}

} // verus!
