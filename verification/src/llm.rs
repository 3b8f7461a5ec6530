//! A plain prompt over reference text that comes as one piece.

use vstd::prelude::*;
use vstd::string::StringExecFns;

verus! {

/// The reference text that stands in where nothing was searched.
pub open spec fn stand_in() -> Seq<char> {
    "これはダミーの参考情報です。"@
}

/// The prompt that asks `query` over the reference text `retrieved`.
pub open spec fn answer_text(retrieved: Seq<char>, query: Seq<char>) -> Seq<char> {
    "以下の情報を参考に質問に答えてください。\n\n[参考情報]\n"@ + retrieved + "\n\n[質問]\n"@ + query
}

/// The reference text for `query`: always the stand-in, whatever is asked.
pub fn retrieve_documents(query: &str) -> (retrieved: String)
    ensures
        retrieved@ == stand_in(),
{
    String::from_str("これはダミーの参考情報です。")
}

/// Builds the prompt that asks `query` over the reference text `retrieved`.
pub fn answer_prompt(retrieved: &str, query: &str) -> (prompt: String)
    ensures
        prompt@ == answer_text(retrieved@, query@),
{
    let mut prompt = String::from_str("以下の情報を参考に質問に答えてください。\n\n[参考情報]\n");
    prompt.append(retrieved);
    prompt.append("\n\n[質問]\n");
    prompt.append(query);
    prompt
}

} // verus!
