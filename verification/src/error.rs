//! The errors that the library answers with.

use vstd::prelude::*;
use vstd::string::StringExecFns;

verus! {

/// Why the library refused to do what it was asked.
#[derive(Debug, PartialEq, Eq)]
pub enum AppError {
    /// The settings cannot be worked with: nothing is started.
    InvalidConfiguration(String),
    /// A file cannot be made into documents.
    FileProcessing(String),
    /// The embedding service gave nothing to go by.
    OllamaApi(String),
    /// What is to be sent to the vector store does not fit together.
    ChromaDb(String),
    /// No extractor exists for this kind of file; the detail is its
    /// extension.
    UnsupportedFileType(String),
}

impl AppError {
    /// The detail that the error carries.
    pub open spec fn detail(self) -> Seq<char> {
        match self {
            AppError::InvalidConfiguration(d) => d@,
            AppError::FileProcessing(d) => d@,
            AppError::OllamaApi(d) => d@,
            AppError::ChromaDb(d) => d@,
            AppError::UnsupportedFileType(d) => d@,
        }
    }

    /// The fixed text that introduces errors of this variant.
    pub open spec fn label(self) -> Seq<char> {
        match self {
            AppError::InvalidConfiguration(_) => "設定が正しくありません: "@,
            AppError::FileProcessing(_) => "ファイル処理に失敗しました: "@,
            AppError::OllamaApi(_) => "Ollama APIエラー: "@,
            AppError::ChromaDb(_) => "Chroma DBエラー: "@,
            AppError::UnsupportedFileType(_) => "サポートされていないファイルタイプ: "@,
        }
    }

    /// The message shown to a person: the variant's label, then the detail.
    pub fn message(&self) -> (text: String)
        ensures
            text@ == self.label() + self.detail(),
    {
        match self {
            AppError::InvalidConfiguration(d) => String::from_str("設定が正しくありません: ").concat(
                d.as_str(),
            ),
            AppError::FileProcessing(d) => String::from_str("ファイル処理に失敗しました: ").concat(
                d.as_str(),
            ),
            AppError::OllamaApi(d) => String::from_str("Ollama APIエラー: ").concat(d.as_str()),
            AppError::ChromaDb(d) => String::from_str("Chroma DBエラー: ").concat(d.as_str()),
            AppError::UnsupportedFileType(d) => String::from_str(
                "サポートされていないファイルタイプ: ",
            ).concat(d.as_str()),
        }
    }
}

} // verus!
