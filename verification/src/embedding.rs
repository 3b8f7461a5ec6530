//! Putting the embeddings of a batch back beside their chunks.
//!
//! Embeddings are asked for side by side and come back in any order, some
//! not at all. Each is put at the place of the chunk that it was asked
//! for, and a vector of zeros stands where none came.

use crate::error::AppError;
use vstd::prelude::*;
use vstd::string::StringExecFns;

verus! {

/// The end of one embedding call.
pub struct Completion<E> {
    /// The place in the batch of the chunk that the call was made for.
    pub chunk: usize,
    /// The vector that came back, or `None` where the call failed.
    pub embedding: Option<Vec<E>>,
}

/// The vector that stands for a failed call: `dimension` times `zero`.
pub open spec fn sentinel<E>(zero: E, dimension: nat) -> Seq<E> {
    Seq::new(dimension, |i: int| zero)
}

/// What came back for the chunk at `chunk`: what the first completion
/// for that chunk holds, and `None` where there is no such completion.
pub open spec fn outcome<E>(completions: Seq<Completion<E>>, chunk: int) -> Option<Seq<E>>
    decreases completions.len(),
{
    if completions.len() == 0 {
        None
    } else if completions[0].chunk == chunk {
        match completions[0].embedding {
            Some(vector) => Some(vector@),
            None => None,
        }
    } else {
        outcome(completions.drop_first(), chunk)
    }
}

/// The vector for the chunk at `chunk`: the one that came back for it, or
/// the sentinel.
pub open spec fn vector_for<E>(
    completions: Seq<Completion<E>>,
    chunk: int,
    zero: E,
    dimension: nat,
) -> Seq<E> {
    match outcome(completions, chunk) {
        Some(vector) => vector,
        None => sentinel(zero, dimension),
    }
}

/// The vectors of `vectors`, in order.
pub open spec fn vector_views<E>(vectors: Seq<Vec<E>>) -> Seq<Seq<E>> {
    Seq::new(vectors.len(), |i: int| vectors[i]@)
}

/// A vector of `dimension` times `zero`.
pub fn zero_vector<E: Copy>(zero: E, dimension: usize) -> (vector: Vec<E>)
    ensures
        vector@ == sentinel(zero, dimension as nat),
{
    let mut vector: Vec<E> = Vec::new();
    let mut i: usize = 0;
    while i < dimension
        invariant
            i <= dimension,
            vector@ == sentinel(zero, i as nat),
        decreases dimension - i,
    {
        vector.push(zero);
        i += 1;
        assert(vector@ =~= sentinel(zero, i as nat));
    }
    vector
}

/// The vectors for a batch of `count` chunks, one for each chunk and in
/// the order of the chunks, whatever the order of the completions. A chunk
/// whose call failed, or for which nothing came back, gets the sentinel of
/// `dimension` zeros. A completion for a place outside the batch is left
/// aside.
pub fn assemble<E: Copy>(
    count: usize,
    completions: Vec<Completion<E>>,
    zero: E,
    dimension: usize,
) -> (vectors: Vec<Vec<E>>)
    ensures
        vectors@.len() == count,
        forall|i: int|
            0 <= i < count ==> (#[trigger] vectors@[i])@ == vector_for(
                completions@,
                i,
                zero,
                dimension as nat,
            ),
{
    let ghost all = completions@;
    let mut completions = completions;
    let mut vectors: Vec<Vec<E>> = Vec::new();
    let mut i: usize = 0;
    assert(all.skip(all.len() as int) =~= Seq::<Completion<E>>::empty());
    while i < count
        invariant
            i <= count,
            vectors@.len() == i,
            forall|j: int|
                0 <= j < i ==> (#[trigger] vectors@[j])@ == sentinel(zero, dimension as nat),
        decreases count - i,
    {
        vectors.push(zero_vector(zero, dimension));
        i += 1;
    }
    while completions.len() > 0
        invariant
            completions@ == all.take(completions@.len() as int),
            completions@.len() <= all.len(),
            vectors@.len() == count,
            forall|j: int|
                0 <= j < count ==> (#[trigger] vectors@[j])@ == vector_for(
                    all.skip(completions@.len() as int),
                    j,
                    zero,
                    dimension as nat,
                ),
        decreases completions@.len(),
    {
        let ghost before = completions@.len() as int;
        let completion = completions.pop().unwrap();
        proof {
            assert(completion == all[before - 1]);
            assert(all.skip(before - 1)[0] == completion);
            assert(all.skip(before - 1).drop_first() =~= all.skip(before));
            assert(completions@ =~= all.take(before - 1));
        }
        if completion.chunk < count {
            let vector = match completion.embedding {
                Some(vector) => vector,
                None => zero_vector(zero, dimension),
            };
            vectors.set(completion.chunk, vector);
        }
    }
    assert(all.skip(0) =~= all);
    vectors
}

/// Where every chunk has one completion, a chunk's outcome is what its
/// completion holds, wherever in the order that completion stands.
pub proof fn lemma_outcome_by_key<E>(completions: Seq<Completion<E>>, at: int)
    requires
        0 <= at < completions.len(),
        forall|i: int, j: int|
            0 <= i < j < completions.len() ==> completions[i].chunk != completions[j].chunk,
    ensures
        outcome(completions, completions[at].chunk as int) == match completions[at].embedding {
            Some(vector) => Some(vector@),
            None => None,
        },
    decreases completions.len(),
{
    if at > 0 {
        let rest = completions.drop_first();
        assert(completions[0].chunk != completions[at].chunk);
        assert(rest[at - 1] == completions[at]);
        assert forall|i: int, j: int| 0 <= i < j < rest.len() implies rest[i].chunk
            != rest[j].chunk by {
            assert(rest[i] == completions[i + 1]);
            assert(rest[j] == completions[j + 1]);
        }
        lemma_outcome_by_key(rest, at - 1);
    }
}

/// Where no two completions are for the same chunk, each chunk with a
/// completion gets the vector that came back for it, or the sentinel where
/// its call failed, wherever in the order its completion stands.
pub proof fn lemma_vector_by_key<E>(
    completions: Seq<Completion<E>>,
    at: int,
    zero: E,
    dimension: nat,
)
    requires
        0 <= at < completions.len(),
        forall|i: int, j: int|
            0 <= i < j < completions.len() ==> completions[i].chunk != completions[j].chunk,
    ensures
        vector_for(completions, completions[at].chunk as int, zero, dimension)
            == match completions[at].embedding {
            Some(vector) => vector@,
            None => sentinel(zero, dimension),
        },
{
    lemma_outcome_by_key(completions, at);
}

/// How many components the first vector that came back has, where any
/// came back.
pub open spec fn first_dimension<E>(completions: Seq<Completion<E>>) -> Option<nat>
    decreases completions.len(),
{
    if completions.len() == 0 {
        None
    } else {
        match completions[0].embedding {
            Some(vector) => Some(vector@.len()),
            None => first_dimension(completions.drop_first()),
        }
    }
}

/// How many components the vectors of the deployment have, as far as that
/// is known: what was known before, else what the batch shows.
pub open spec fn known_dimension<E>(
    completions: Seq<Completion<E>>,
    known: Option<usize>,
) -> Option<nat> {
    match known {
        Some(dimension) => Some(dimension as nat),
        None => first_dimension(completions),
    }
}

/// What is answered for a batch of which no vector came back, while the
/// dimension of the deployment is not known.
pub open spec fn unknown_dimension() -> Seq<char> {
    "no embedding came back to tell the dimension by"@
}

/// Where no vector came back at all, nothing came back for any chunk.
pub proof fn lemma_nothing_came_back<E>(completions: Seq<Completion<E>>, chunk: int)
    requires
        first_dimension(completions) is None,
    ensures
        outcome(completions, chunk) is None,
    decreases completions.len(),
{
    if completions.len() > 0 {
        lemma_nothing_came_back(completions.drop_first(), chunk);
    }
}

/// How many components the vectors of the deployment have, as far as that
/// is known after this batch.
pub fn dimension<E>(completions: &Vec<Completion<E>>, known: Option<usize>) -> (found: Option<usize>)
    ensures
        match found {
            Some(d) => known_dimension(completions@, known) == Some(d as nat),
            None => known_dimension(completions@, known) is None,
        },
{
    match known {
        Some(d) => Some(d),
        None => {
            let mut i: usize = 0;
            assert(completions@.skip(0) =~= completions@);
            while i < completions.len()
                invariant
                    i <= completions@.len(),
                    known is None,
                    first_dimension(completions@) == first_dimension(completions@.skip(i as int)),
                decreases completions@.len() - i,
            {
                assert(completions@.skip(i as int)[0] == completions@[i as int]);
                assert(completions@.skip(i as int).drop_first() =~= completions@.skip(i + 1));
                match &completions[i].embedding {
                    Some(vector) => {
                        return Some(vector.len());
                    },
                    None => {},
                }
                i += 1;
            }
            None
        },
    }
}

/// The vectors for a batch of `count` chunks, as `assemble` gives them,
/// with the sentinel as long as the vectors of the deployment are: as
/// `known` says, or else as the first vector of the batch is. Where
/// neither tells, a batch that holds a chunk is refused.
pub fn embed_batch<E: Copy>(
    count: usize,
    completions: Vec<Completion<E>>,
    zero: E,
    known: Option<usize>,
) -> (result: Result<Vec<Vec<E>>, AppError>)
    ensures
        match result {
            Ok(vectors) => {
                &&& known_dimension(completions@, known) is Some || count == 0
                &&& vectors@.len() == count
                &&& forall|i: int|
                    0 <= i < count ==> (#[trigger] vectors@[i])@ == vector_for(
                        completions@,
                        i,
                        zero,
                        known_dimension(completions@, known)->0,
                    )
            },
            Err(e) => {
                &&& known_dimension(completions@, known) is None
                &&& count > 0
                &&& e is OllamaApi
                &&& e.detail() == unknown_dimension()
            },
        },
{
    match dimension(&completions, known) {
        Some(d) => Ok(assemble(count, completions, zero, d)),
        None => {
            if count == 0 {
                Ok(Vec::new())
            } else {
                Err(
                    AppError::OllamaApi(
                        String::from_str("no embedding came back to tell the dimension by"),
                    ),
                )
            }
        },
    }
}

} // verus!
