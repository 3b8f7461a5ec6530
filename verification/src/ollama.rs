//! The prompt that grounds an answer in the passages that were found.

use crate::strings::{join, join_strings, texts};
use vstd::prelude::*;
use vstd::string::StringExecFns;

verus! {

/// What the model is asked to do.
pub open spec fn instruction() -> Seq<char> {
    "以下の [質問] に [参考情報] を踏まえ回答せよ"@
}

/// The rule that the answer names its sources first.
pub open spec fn source_rule() -> Seq<char> {
    "回答内容の「根拠となる情報源・出典」を冒頭に必ず明示すること"@
}

/// The rule that the model refuses, in fixed words, where the passages do
/// not support an answer.
pub open spec fn refusal_rule() -> Seq<char> {
    "[参考情報] が回答の助けにならないと判断した場合は、憶測や不確かな回答を表示せず [与えられたコンテキストからは回答できません] とだけはっきり回答すること"@
}

/// The heading above the passages.
pub open spec fn context_heading() -> Seq<char> {
    "[参考情報]"@
}

/// The heading above the question.
pub open spec fn question_heading() -> Seq<char> {
    "[質問]"@
}

/// The prompt for `query` over `passages`: seven lines, of which the fifth
/// holds the passages, one to a line and in their order, and the last the
/// query.
pub open spec fn prompt_text(query: Seq<char>, passages: Seq<Seq<char>>) -> Seq<char> {
    instruction().push('\n') + source_rule().push('\n') + refusal_rule().push('\n')
        + context_heading().push('\n') + join(passages, seq!['\n']).push('\n')
        + question_heading().push('\n') + query
}

/// Builds the prompt for `query` from the passages that were found.
pub fn build_prompt(query: &str, context: &Vec<String>) -> (prompt: String)
    ensures
        prompt@ == prompt_text(query@, texts(context@)),
{
    proof {
        reveal_strlit("\n");
        assert("\n"@ =~= seq!['\n']);
    }
    let mut prompt = String::from_str("以下の [質問] に [参考情報] を踏まえ回答せよ");
    prompt.push('\n');
    prompt.append("回答内容の「根拠となる情報源・出典」を冒頭に必ず明示すること");
    prompt.push('\n');
    prompt.append(
        "[参考情報] が回答の助けにならないと判断した場合は、憶測や不確かな回答を表示せず [与えられたコンテキストからは回答できません] とだけはっきり回答すること",
    );
    prompt.push('\n');
    prompt.append("[参考情報]");
    prompt.push('\n');
    let passages = join_strings(context, "\n");
    prompt.append(passages.as_str());
    prompt.push('\n');
    prompt.append("[質問]");
    prompt.push('\n');
    prompt.append(query);
    assert(prompt@ =~= prompt_text(query@, texts(context@)));
    prompt
}

/// The embedding and generation service at `base_url`, and the model that
/// is asked.
#[derive(Debug)]
pub struct OllamaClient {
    pub base_url: String,
    pub model: String,
}

/// Where the service at `base_url` makes embeddings.
pub open spec fn embeddings_address(base_url: Seq<char>) -> Seq<char> {
    base_url + "/api/embeddings"@
}

/// Where the service at `base_url` writes completions.
pub open spec fn generate_address(base_url: Seq<char>) -> Seq<char> {
    base_url + "/api/generate"@
}

impl OllamaClient {
    pub fn new(base_url: &str, model: &str) -> (client: Self)
        ensures
            client.base_url@ == base_url@,
            client.model@ == model@,
    {
        Self { base_url: String::from_str(base_url), model: String::from_str(model) }
    }

    /// The address at which embeddings are asked for.
    pub fn embeddings_url(&self) -> (url: String)
        ensures
            url@ == embeddings_address(self.base_url@),
    {
        let mut url = self.base_url.clone();
        url.append("/api/embeddings");
        url
    }

    /// The address at which completions are asked for.
    pub fn generate_url(&self) -> (url: String)
        ensures
            url@ == generate_address(self.base_url@),
    {
        let mut url = self.base_url.clone();
        url.append("/api/generate");
        url
    }
}

} // verus!
