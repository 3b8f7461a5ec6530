//! The prompt for a query over the documents that one collection returned.

use crate::strings::{decimal, push_decimal, texts};
use vstd::prelude::*;
use vstd::string::StringExecFns;

verus! {

/// The block for the document at position `index`: a heading with its
/// number, counted from one, then the document and an empty line.
pub open spec fn document_block(index: nat, document: Seq<char>) -> Seq<char> {
    "--- ドキュメント "@ + decimal(index + 1) + " ---\n"@ + document + "\n\n"@
}

/// The blocks of all documents, in order.
pub open spec fn context_text(documents: Seq<Seq<char>>) -> Seq<char>
    decreases documents.len(),
{
    if documents.len() == 0 {
        Seq::empty()
    } else {
        context_text(documents.drop_last()) + document_block(
            (documents.len() - 1) as nat,
            documents.last(),
        )
    }
}

/// The prompt that asks `query` over `context`.
pub open spec fn prompt_text(context: Seq<char>, query: Seq<char>) -> Seq<char> {
    "あなたは役立つアシスタントです。以下の情報を使用してユーザーの質問に答えてください。\n\nコンテキスト情報:\n"@
        + context + "\n\nユーザーの質問: "@ + query + "\n\n回答:"@
}

/// Lays the documents that were found out as context, each under a
/// numbered heading.
pub fn build_context(documents: &Vec<String>) -> (context: String)
    ensures
        context@ == context_text(texts(documents@)),
{
    let mut context = String::new();
    let mut i: usize = 0;
    while i < documents.len()
        invariant
            i <= documents@.len(),
            context@ == context_text(texts(documents@).take(i as int)),
        decreases documents@.len() - i,
    {
        let ghost before = context@;
        proof {
            assert(texts(documents@).take(i + 1).drop_last() =~= texts(documents@).take(i as int));
            assert(texts(documents@).take(i + 1).last() == documents@[i as int]@);
        }
        context.append("--- ドキュメント ");
        push_decimal(&mut context, i + 1);
        context.append(" ---\n");
        context.append(documents[i].as_str());
        context.append("\n\n");
        assert(context@ =~= before + document_block(i as nat, documents@[i as int]@));
        i += 1;
    }
    assert(texts(documents@).take(documents@.len() as int) =~= texts(documents@));
    context
}

/// Builds the prompt that asks `query` over the documents that were found.
/// Where none was found there is nothing to ask over, and no prompt.
pub fn build_prompt(documents: &Vec<String>, query: &str) -> (prompt: Option<String>)
    ensures
        match prompt {
            Some(p) => documents@.len() > 0 && p@ == prompt_text(
                context_text(texts(documents@)),
                query@,
            ),
            None => documents@.len() == 0,
        },
{
    if documents.len() == 0 {
        return None;
    }
    let context = build_context(documents);
    let mut prompt = String::from_str(
        "あなたは役立つアシスタントです。以下の情報を使用してユーザーの質問に答えてください。\n\nコンテキスト情報:\n",
    );
    prompt.append(context.as_str());
    prompt.append("\n\nユーザーの質問: ");
    prompt.append(query);
    prompt.append("\n\n回答:");
    Some(prompt)
}

} // verus!
