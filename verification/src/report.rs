//! Counting what was stored and what was not.

use crate::strings::{decimal, push_decimal, texts};
use vstd::prelude::*;
use vstd::string::StringExecFns;

verus! {

/// What became of storing one document.
#[derive(Debug)]
pub struct SaveOutcome {
    /// The path of the file that the document was cut from.
    pub source: String,
    /// Why the document was not stored, or `None` where it was.
    pub error: Option<String>,
}

/// How the storing of a run of documents went.
#[derive(Debug)]
pub struct SaveReport {
    /// How many documents were stored.
    pub success_count: usize,
    /// For each document that was not stored, in order, the path of the
    /// file that it was cut from.
    pub error_sources: Vec<String>,
}

/// How many of `outcomes` are of documents that were stored.
pub open spec fn stored_count(outcomes: Seq<SaveOutcome>) -> nat
    decreases outcomes.len(),
{
    if outcomes.len() == 0 {
        0
    } else if outcomes.last().error is None {
        stored_count(outcomes.drop_last()) + 1
    } else {
        stored_count(outcomes.drop_last())
    }
}

/// The sources of the documents of `outcomes` that were not stored, in
/// order.
pub open spec fn failed_sources(outcomes: Seq<SaveOutcome>) -> Seq<Seq<char>>
    decreases outcomes.len(),
{
    if outcomes.len() == 0 {
        Seq::empty()
    } else if outcomes.last().error is None {
        failed_sources(outcomes.drop_last())
    } else {
        failed_sources(outcomes.drop_last()).push(outcomes.last().source@)
    }
}

/// The line that sums a run up.
pub open spec fn summary_text(stored: nat, failed: nat) -> Seq<char> {
    "Processed: success = "@ + decimal(stored) + ", failure = "@ + decimal(failed)
}

/// Every document was either stored or not.
pub proof fn lemma_counts_add_up(outcomes: Seq<SaveOutcome>)
    ensures
        stored_count(outcomes) + failed_sources(outcomes).len() == outcomes.len(),
    decreases outcomes.len(),
{
    if outcomes.len() > 0 {
        lemma_counts_add_up(outcomes.drop_last());
    }
}

impl SaveReport {
    /// Sums up how the storing of documents went. A document that was not
    /// stored does not stop the count: it is listed.
    pub fn of(outcomes: &Vec<SaveOutcome>) -> (report: Self)
        ensures
            report.success_count == stored_count(outcomes@),
            texts(report.error_sources@) == failed_sources(outcomes@),
    {
        let mut success_count: usize = 0;
        let mut error_sources: Vec<String> = Vec::new();
        let mut i: usize = 0;
        assert(texts(error_sources@) =~= failed_sources(outcomes@.take(0)));
        while i < outcomes.len()
            invariant
                i <= outcomes@.len(),
                success_count == stored_count(outcomes@.take(i as int)),
                success_count <= i,
                texts(error_sources@) == failed_sources(outcomes@.take(i as int)),
            decreases outcomes@.len() - i,
        {
            let ghost listed = texts(error_sources@);
            proof {
                assert(outcomes@.take(i + 1).drop_last() =~= outcomes@.take(i as int));
                assert(outcomes@.take(i + 1).last() == outcomes@[i as int]);
            }
            if outcomes[i].error.is_none() {
                success_count += 1;
            } else {
                error_sources.push(outcomes[i].source.clone());
                assert(texts(error_sources@) =~= listed.push(outcomes@[i as int].source@));
            }
            i += 1;
        }
        assert(outcomes@.take(outcomes@.len() as int) =~= outcomes@);
        SaveReport { success_count, error_sources }
    }

    /// The line that sums the run up.
    pub fn summary(&self) -> (line: String)
        ensures
            line@ == summary_text(self.success_count as nat, self.error_sources@.len()),
    {
        let mut line = String::from_str("Processed: success = ");
        push_decimal(&mut line, self.success_count);
        line.append(", failure = ");
        push_decimal(&mut line, self.error_sources.len());
        line
    }
}

} // verus!
