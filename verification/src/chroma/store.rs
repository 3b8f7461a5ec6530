//! Merging what several collections answer to one similarity search.

use crate::chroma::document::{
    restorable, restored, Document, DocumentView, Metadata, MetadataView,
};
use crate::error::AppError;
use crate::json::{object_integers, object_texts};
use crate::strings::{
    ascending, compare_chars, from_chars, lemma_lex_asymmetric, lemma_lex_irreflexive,
    lemma_lex_total, lemma_lex_transitive, lex_less, rows, texts, to_chars, Rank,
};
use vstd::prelude::*;
use vstd::string::StringExecFns;

verus! {

/// What one selected collection answered to a similarity search.
#[derive(Debug)]
pub struct CollectionAnswer {
    /// The name of the collection that was asked.
    pub collection: String,
    /// The passages it returned, nearest first; `None` where it was not
    /// found or did not respond.
    pub passages: Option<Vec<String>>,
}

impl CollectionAnswer {
    /// The passages that this answer adds to the pool: none where the
    /// collection failed.
    pub open spec fn contribution(&self) -> Seq<Seq<char>> {
        match self.passages {
            Some(passages) => texts(passages@),
            None => Seq::empty(),
        }
    }
}

/// All passages returned by all collections, in the order of the answers.
pub open spec fn pool(answers: Seq<CollectionAnswer>) -> Seq<Seq<char>>
    decreases answers.len(),
{
    if answers.len() == 0 {
        Seq::empty()
    } else {
        pool(answers.drop_last()) + answers.last().contribution()
    }
}

/// `merged` is what is kept of `pool` under `limit`: distinct passages of
/// the pool in dictionary order, and of those the first `limit`. Every
/// passage of the pool is either kept or comes after all that are kept,
/// the limit being reached.
pub open spec fn is_merge_of(merged: Seq<Seq<char>>, pool: Seq<Seq<char>>, limit: nat) -> bool {
    &&& merged.len() <= limit
    &&& ascending(merged)
    &&& forall|i: int| 0 <= i < merged.len() ==> pool.contains(#[trigger] merged[i])
    &&& forall|k: int|
        0 <= k < pool.len() ==> merged.contains(#[trigger] pool[k]) || (merged.len() == limit
            && forall|i: int| 0 <= i < merged.len() ==> lex_less(#[trigger] merged[i], pool[k]))
}

/// What `search` answers when no collection was selected.
pub open spec fn nothing_selected() -> Seq<char> {
    "no collection selected"@
}

/// Texts in ascending order are all different.
pub proof fn lemma_ascending_distinct(s: Seq<Seq<char>>)
    requires
        ascending(s),
    ensures
        s.no_duplicates(),
{
    assert forall|i: int, j: int| 0 <= i < s.len() && 0 <= j < s.len() && i != j implies s[i]
        != s[j] by {
        lemma_lex_irreflexive(s[i]);
    }
}

/// Puts `item` at its place in `sorted`, unless it is there already.
fn insert_distinct(sorted: &mut Vec<Vec<char>>, item: Vec<char>)
    requires
        ascending(rows(old(sorted)@)),
    ensures
        ascending(rows(final(sorted)@)),
        rows(final(sorted)@).to_set() == rows(old(sorted)@).to_set().insert(item@),
{
    let ghost before = rows(sorted@);
    let mut pos: usize = 0;
    let mut stop = false;
    while pos < sorted.len() && !stop
        invariant
            pos <= sorted@.len(),
            sorted@ == old(sorted)@,
            before == rows(sorted@),
            ascending(before),
            forall|j: int| 0 <= j < pos ==> lex_less(#[trigger] before[j], item@),
            stop ==> pos < sorted@.len() && lex_less(item@, before[pos as int]),
        decreases sorted@.len() - pos + (if stop { 0int } else { 1int }),
    {
        match compare_chars(&sorted[pos], &item) {
            Rank::Same => {
                proof {
                    assert(before[pos as int] == item@);
                    assert(before.to_set().insert(item@) =~= before.to_set());
                }
                return ;
            },
            Rank::Before => {
                pos += 1;
            },
            Rank::After => {
                proof {
                    lemma_lex_total(before[pos as int], item@);
                }
                stop = true;
            },
        }
    }
    let ghost item_text = item@;
    sorted.insert(pos, item);
    proof {
        let after = rows(sorted@);
        assert(after =~= before.insert(pos as int, item_text));
        assert forall|i: int, j: int| 0 <= i < j < after.len() implies lex_less(
            #[trigger] after[i],
            #[trigger] after[j],
        ) by {
            if j == pos {
                assert(after[i] == before[i]);
            } else if i == pos {
                assert(after[j] == before[j - 1]);
                if j - 1 > pos {
                    lemma_lex_transitive(item_text, before[pos as int], before[j - 1]);
                }
            } else {
                let bi = if i < pos { i } else { i - 1 };
                let bj = if j < pos { j } else { j - 1 };
                assert(after[i] == before[bi]);
                assert(after[j] == before[bj]);
            }
        }
        assert forall|t: Seq<char>| after.to_set().contains(t) <==> before.to_set().insert(
            item_text,
        ).contains(t) by {
            if after.contains(t) {
                let m = choose|m: int| 0 <= m < after.len() && after[m] == t;
                if m < pos {
                    assert(before[m] == t);
                } else if m > pos {
                    assert(before[m - 1] == t);
                }
            }
            if before.contains(t) {
                let m = choose|m: int| 0 <= m < before.len() && before[m] == t;
                if m < pos {
                    assert(after[m] == t);
                } else {
                    assert(after[m + 1] == t);
                }
            }
            if t == item_text {
                assert(after[pos as int] == t);
            }
        }
        assert(after.to_set() =~= before.to_set().insert(item_text));
    }
}

/// Removes repeated passages, puts the rest in dictionary order and keeps
/// the first `limit` of them. Passages are the same only where their texts
/// are equal character by character.
pub fn merge_passages(passages: &Vec<String>, limit: usize) -> (merged: Vec<String>)
    ensures
        is_merge_of(texts(merged@), texts(passages@), limit as nat),
        texts(merged@).no_duplicates(),
        merged@.len() == if limit <= texts(passages@).to_set().len() {
            limit as nat
        } else {
            texts(passages@).to_set().len()
        },
{
    let ghost pool = texts(passages@);
    let mut sorted: Vec<Vec<char>> = Vec::new();
    let mut i: usize = 0;
    assert(rows(sorted@).to_set() =~= pool.take(0).to_set());
    while i < passages.len()
        invariant
            i <= passages@.len(),
            pool == texts(passages@),
            ascending(rows(sorted@)),
            rows(sorted@).to_set() == pool.take(i as int).to_set(),
        decreases passages@.len() - i,
    {
        let item = to_chars(passages[i].as_str());
        insert_distinct(&mut sorted, item);
        proof {
            assert(pool.take(i + 1) =~= pool.take(i as int).push(pool[i as int]));
            pool.take(i as int).lemma_push_to_set_commute(pool[i as int]);
        }
        i += 1;
    }
    let ghost full = rows(sorted@);
    proof {
        assert(pool.take(pool.len() as int) =~= pool);
        lemma_ascending_distinct(full);
        full.unique_seq_to_set();
    }
    let kept = if limit < sorted.len() {
        limit
    } else {
        sorted.len()
    };
    let mut merged: Vec<String> = Vec::new();
    let mut k: usize = 0;
    while k < kept
        invariant
            k <= kept <= sorted@.len(),
            full == rows(sorted@),
            texts(merged@) == full.take(k as int),
        decreases kept - k,
    {
        let row = &sorted[k];
        let ghost prev = merged@;
        merged.push(from_chars(row, 0, row.len()));
        proof {
            assert(full[k as int].subrange(0, full[k as int].len() as int) =~= full[k as int]);
            assert(texts(prev).len() == prev.len());
            assert(full.take(k as int).len() == k);
            assert(texts(merged@).len() == k + 1);
            assert forall|i: int| 0 <= i < k + 1 implies texts(merged@)[i] == full[i] by {
                if i < k {
                    assert(texts(prev)[i] == full.take(k as int)[i]);
                }
            }
            assert(texts(merged@) =~= full.take(k + 1));
        }
        k += 1;
    }
    proof {
        let out = texts(merged@);
        assert(out == full.take(kept as int));
        assert forall|i: int| 0 <= i < out.len() implies pool.contains(#[trigger] out[i]) by {
            assert(full.contains(full[i]));
            assert(full.to_set().contains(out[i]));
            assert(pool.to_set().contains(out[i]));
        }
        assert forall|p: int| 0 <= p < pool.len() implies out.contains(#[trigger] pool[p]) || (
        out.len() == limit && forall|i: int|
            0 <= i < out.len() ==> lex_less(#[trigger] out[i], pool[p])) by {
            assert(pool.contains(pool[p]));
            assert(pool.to_set().contains(pool[p]));
            assert(full.to_set().contains(pool[p]));
            assert(full.contains(pool[p]));
            let m = choose|m: int| 0 <= m < full.len() && full[m] == pool[p];
            if m < kept {
                assert(out[m] == pool[p]);
            } else {
                assert forall|i: int| 0 <= i < out.len() implies lex_less(
                    #[trigger] out[i],
                    pool[p],
                ) by {
                    assert(out[i] == full[i]);
                }
            }
        }
        lemma_ascending_distinct(out);
    }
    merged
}

/// Where two sequences that are both what is kept of one pool agree up to
/// a position, the first has no earlier passage there than the second.
proof fn lemma_merge_agrees(
    a: Seq<Seq<char>>,
    b: Seq<Seq<char>>,
    pool: Seq<Seq<char>>,
    limit: nat,
    i: int,
)
    requires
        is_merge_of(a, pool, limit),
        is_merge_of(b, pool, limit),
        0 <= i < a.len(),
        i < b.len(),
        forall|j: int| 0 <= j < i ==> a[j] == b[j],
    ensures
        !lex_less(a[i], b[i]),
{
    if lex_less(a[i], b[i]) {
        let x = a[i];
        assert(pool.contains(x));
        let k = choose|k: int| 0 <= k < pool.len() && pool[k] == x;
        lemma_lex_irreflexive(x);
        lemma_lex_asymmetric(a[i], b[i]);
        if b.contains(pool[k]) {
            let m = choose|m: int| 0 <= m < b.len() && b[m] == x;
            if m < i {
                assert(lex_less(a[m], a[i]));
            } else if m > i {
                assert(lex_less(b[i], b[m]));
            }
        } else {
            assert(lex_less(b[i], pool[k]));
        }
    }
}

/// A sequence that is what is kept of a pool is no shorter than another
/// that is.
proof fn lemma_merge_length(
    a: Seq<Seq<char>>,
    b: Seq<Seq<char>>,
    pool: Seq<Seq<char>>,
    limit: nat,
)
    requires
        is_merge_of(a, pool, limit),
        is_merge_of(b, pool, limit),
        forall|j: int| 0 <= j < a.len() && j < b.len() ==> a[j] == b[j],
    ensures
        a.len() >= b.len(),
{
    if a.len() < b.len() {
        let x = b[a.len() as int];
        assert(pool.contains(x));
        let k = choose|k: int| 0 <= k < pool.len() && pool[k] == x;
        assert(a.contains(pool[k]));
        let m = choose|m: int| 0 <= m < a.len() && a[m] == x;
        assert(lex_less(b[m], b[a.len() as int]));
        lemma_lex_irreflexive(x);
    }
}

/// A pool and a limit leave no choice: what is kept of the pool is one
/// sequence only.
pub proof fn lemma_merge_unique(
    a: Seq<Seq<char>>,
    b: Seq<Seq<char>>,
    pool: Seq<Seq<char>>,
    limit: nat,
)
    requires
        is_merge_of(a, pool, limit),
        is_merge_of(b, pool, limit),
    ensures
        a == b,
{
    assert forall|i: int| 0 <= i < a.len() && i < b.len() implies a[i] == b[i] by {
        lemma_merge_prefix(a, b, pool, limit, i);
    }
    lemma_merge_length(a, b, pool, limit);
    lemma_merge_length(b, a, pool, limit);
    assert(a =~= b);
}

/// Two sequences that are both what is kept of one pool hold the same
/// passage at every position that both have.
proof fn lemma_merge_prefix(
    a: Seq<Seq<char>>,
    b: Seq<Seq<char>>,
    pool: Seq<Seq<char>>,
    limit: nat,
    i: int,
)
    requires
        is_merge_of(a, pool, limit),
        is_merge_of(b, pool, limit),
        0 <= i < a.len(),
        i < b.len(),
    ensures
        forall|j: int| 0 <= j <= i ==> a[j] == b[j],
    decreases i,
{
    if i > 0 {
        lemma_merge_prefix(a, b, pool, limit, i - 1);
    }
    lemma_lex_total(a[i], b[i]);
    lemma_merge_agrees(a, b, pool, limit, i);
    lemma_merge_agrees(b, a, pool, limit, i);
}

/// A merge under a limit above zero is empty only where the pool is.
pub proof fn lemma_merge_empty(merged: Seq<Seq<char>>, pool: Seq<Seq<char>>, limit: nat)
    requires
        is_merge_of(merged, pool, limit),
        limit > 0,
    ensures
        merged.len() == 0 <==> pool.len() == 0,
{
    if pool.len() > 0 && merged.len() == 0 {
        assert(merged.contains(pool[0]) || merged.len() == limit);
    }
    if merged.len() > 0 {
        assert(pool.contains(merged[0]));
    }
}

/// Merges what the selected collections answered to one query: all their
/// passages are pooled, a collection that failed adding none; repeated
/// passages are dropped; the rest is put in dictionary order and cut to
/// `limit`. With no collection selected there is nothing to search.
pub fn search(answers: &Vec<CollectionAnswer>, limit: usize) -> (result: Result<
    Vec<String>,
    AppError,
>)
    ensures
        match result {
            Ok(merged) => {
                &&& answers@.len() > 0
                &&& is_merge_of(texts(merged@), pool(answers@), limit as nat)
                &&& texts(merged@).no_duplicates()
                &&& merged@.len() == if limit <= pool(answers@).to_set().len() {
                    limit as nat
                } else {
                    pool(answers@).to_set().len()
                }
            },
            Err(e) => answers@.len() == 0 && e is InvalidConfiguration && e.detail()
                == nothing_selected(),
        },
{
    if answers.len() == 0 {
        return Err(AppError::InvalidConfiguration(String::from_str("no collection selected")));
    }
    let mut all: Vec<String> = Vec::new();
    let mut i: usize = 0;
    assert(texts(all@) =~= pool(answers@.take(0)));
    while i < answers.len()
        invariant
            i <= answers@.len(),
            texts(all@) == pool(answers@.take(i as int)),
        decreases answers@.len() - i,
    {
        let ghost before = texts(all@);
        proof {
            assert(answers@.take(i + 1).drop_last() =~= answers@.take(i as int));
            assert(answers@.take(i + 1).last() == answers@[i as int]);
        }
        match &answers[i].passages {
            Some(passages) => {
                let mut j: usize = 0;
                assert(texts(all@) =~= before + texts(passages@).take(0));
                while j < passages.len()
                    invariant
                        j <= passages@.len(),
                        texts(all@) == before + texts(passages@).take(j as int),
                    decreases passages@.len() - j,
                {
                    let ghost prev = texts(all@);
                    all.push(passages[j].clone());
                    assert(texts(all@) =~= prev.push(passages@[j as int]@));
                    assert(texts(passages@).take(j + 1) =~= texts(passages@).take(j as int).push(
                        passages@[j as int]@,
                    ));
                    assert(texts(all@) =~= before + texts(passages@).take(j + 1));
                    j += 1;
                }
                assert(texts(passages@).take(passages@.len() as int) =~= texts(passages@));
            },
            None => {
                assert(before + Seq::<Seq<char>>::empty() =~= before);
            },
        }
        i += 1;
    }
    assert(answers@.take(answers@.len() as int) =~= answers@);
    Ok(merge_passages(&all, limit))
}

/// A collection of the store and how many documents it holds.
#[derive(Debug)]
pub struct CollectionInfo {
    pub name: String,
    pub count: usize,
}

/// What a `CollectionInfo` holds.
pub struct CollectionInfoView {
    pub name: Seq<char>,
    pub count: nat,
}

impl View for CollectionInfo {
    type V = CollectionInfoView;

    open spec fn view(&self) -> CollectionInfoView {
        CollectionInfoView { name: self.name@, count: self.count as nat }
    }
}

/// What each entry of `collections` holds, in order.
pub open spec fn info_views(collections: Seq<CollectionInfo>) -> Seq<CollectionInfoView> {
    Seq::new(collections.len(), |i: int| collections[i]@)
}

/// The entries that are called `name`.
pub open spec fn named(name: Seq<char>) -> spec_fn(CollectionInfoView) -> bool {
    |info: CollectionInfoView| info.name == name
}

/// No entry stands behind one whose name comes after its own.
pub open spec fn in_name_order(collections: Seq<CollectionInfoView>) -> bool {
    forall|i: int, j: int|
        0 <= i < j < collections.len() ==> !lex_less(
            (#[trigger] collections[j]).name,
            (#[trigger] collections[i]).name,
        )
}

/// What is kept of a sequence with one more entry at its end.
proof fn lemma_filter_push(
    entries: Seq<CollectionInfoView>,
    entry: CollectionInfoView,
    name: Seq<char>,
)
    ensures
        entries.push(entry).filter(named(name)) == if entry.name == name {
            entries.filter(named(name)).push(entry)
        } else {
            entries.filter(named(name))
        },
{
    reveal(Seq::filter);
    assert(entries.push(entry).drop_last() =~= entries);
}

/// Nothing is kept of entries that all have other names.
proof fn lemma_filter_none(entries: Seq<CollectionInfoView>, name: Seq<char>)
    requires
        forall|k: int| 0 <= k < entries.len() ==> (#[trigger] entries[k]).name != name,
    ensures
        entries.filter(named(name)) == Seq::<CollectionInfoView>::empty(),
    decreases entries.len(),
{
    reveal(Seq::filter);
    if entries.len() > 0 {
        lemma_filter_none(entries.drop_last(), name);
    } else {
        assert(entries =~= Seq::<CollectionInfoView>::empty());
    }
}

/// Putting an entry behind all entries that do not come after it, and
/// before all that do, changes what is there under each name only by
/// adding the entry behind those of its own name.
proof fn lemma_insert_keeps_names(
    sorted: Seq<CollectionInfoView>,
    at: int,
    entry: CollectionInfoView,
    name: Seq<char>,
)
    requires
        0 <= at <= sorted.len(),
        forall|k: int| at <= k < sorted.len() ==> lex_less(entry.name, (#[trigger] sorted[k]).name),
    ensures
        sorted.insert(at, entry).filter(named(name)) == if entry.name == name {
            sorted.filter(named(name)).push(entry)
        } else {
            sorted.filter(named(name))
        },
{
    let front = sorted.take(at);
    let back = sorted.skip(at);
    let pred = named(name);
    assert(sorted.insert(at, entry) =~= front.push(entry) + back);
    assert(sorted =~= front + back);
    Seq::filter_distributes_over_add(front.push(entry), back, pred);
    Seq::filter_distributes_over_add(front, back, pred);
    lemma_filter_push(front, entry, name);
    if entry.name == name {
        assert forall|k: int| 0 <= k < back.len() implies (#[trigger] back[k]).name != name by {
            assert(back[k] == sorted[at + k]);
            lemma_lex_irreflexive(name);
        }
        lemma_filter_none(back, name);
        assert(front.filter(pred).push(entry) + Seq::<CollectionInfoView>::empty()
            =~= front.filter(pred).push(entry));
        assert(front.filter(pred) + Seq::<CollectionInfoView>::empty() =~= front.filter(pred));
    }
}

/// Puts the collections in the dictionary order of their names.
/// Collections of one name stay in the order in which they came.
pub fn sort_collections(collections: &Vec<CollectionInfo>) -> (sorted: Vec<CollectionInfo>)
    ensures
        in_name_order(info_views(sorted@)),
        forall|name: Seq<char>|
            info_views(sorted@).filter(named(name)) == #[trigger] info_views(collections@).filter(
                named(name),
            ),
{
    let ghost input = info_views(collections@);
    let mut sorted: Vec<CollectionInfo> = Vec::new();
    let mut keys: Vec<Vec<char>> = Vec::new();
    let mut i: usize = 0;
    proof {
        assert(input.take(0) =~= Seq::<CollectionInfoView>::empty());
        assert(info_views(sorted@) =~= Seq::<CollectionInfoView>::empty());
    }
    while i < collections.len()
        invariant
            i <= collections@.len(),
            input == info_views(collections@),
            keys@.len() == sorted@.len(),
            forall|k: int| 0 <= k < keys@.len() ==> (#[trigger] keys@[k])@ == sorted@[k].name@,
            in_name_order(info_views(sorted@)),
            forall|name: Seq<char>|
                info_views(sorted@).filter(named(name)) == #[trigger] input.take(i as int).filter(
                    named(name),
                ),
        decreases collections@.len() - i,
    {
        let entry = CollectionInfo { name: collections[i].name.clone(), count: collections[i].count };
        let key = to_chars(entry.name.as_str());
        let ghost before = info_views(sorted@);
        let ghost view = entry@;
        let mut at: usize = sorted.len();
        while at > 0 && compare_chars(&key, &keys[at - 1]) == Rank::Before
            invariant
                at <= keys@.len(),
                keys@.len() == sorted@.len(),
                before == info_views(sorted@),
                key@ == view.name,
                forall|k: int| 0 <= k < keys@.len() ==> (#[trigger] keys@[k])@ == sorted@[k].name@,
                forall|k: int|
                    at <= k < before.len() ==> lex_less(view.name, (#[trigger] before[k]).name),
            decreases at,
        {
            at -= 1;
        }
        proof {
            assert(view == input[i as int]);
            if at > 0 {
                assert(before[at - 1].name == keys@[at - 1]@);
                lemma_lex_irreflexive(view.name);
                assert(!lex_less(view.name, before[at - 1].name));
            }
        }
        sorted.insert(at, entry);
        keys.insert(at, key);
        proof {
            let after = info_views(sorted@);
            assert(after =~= before.insert(at as int, view));
            assert forall|a: int, b: int| 0 <= a < b < after.len() implies !lex_less(
                (#[trigger] after[b]).name,
                (#[trigger] after[a]).name,
            ) by {
                if b == at {
                    assert(after[a] == before[a]);
                    if lex_less(view.name, before[a].name) {
                        if a < at - 1 {
                            assert(!lex_less(before[at - 1].name, before[a].name));
                            lemma_lex_total(before[at - 1].name, before[a].name);
                            if before[at - 1].name != before[a].name {
                                lemma_lex_transitive(view.name, before[a].name, before[at - 1].name);
                            }
                        }
                    }
                } else if a == at {
                    assert(after[b] == before[b - 1]);
                    lemma_lex_asymmetric(view.name, before[b - 1].name);
                } else {
                    let ba = if a < at { a } else { a - 1 };
                    let bb = if b < at { b } else { b - 1 };
                    assert(after[a] == before[ba]);
                    assert(after[b] == before[bb]);
                }
            }
            assert forall|name: Seq<char>|
                after.filter(named(name)) == #[trigger] input.take(i + 1).filter(named(name)) by {
                lemma_insert_keeps_names(before, at as int, view, name);
                lemma_filter_push(input.take(i as int), view, name);
                assert(input.take(i + 1) =~= input.take(i as int).push(view));
                assert(before.filter(named(name)) == input.take(i as int).filter(named(name)));
            }
        }
        i += 1;
    }
    assert(input.take(input.len() as int) =~= input);
    sorted
}

/// Whether the store holds the metadata of a chunk at place `i`.
pub open spec fn has_metadata(
    metadatas: Seq<Option<serde_json::Map<String, serde_json::Value>>>,
    i: int,
) -> bool {
    &&& 0 <= i < metadatas.len()
    &&& metadatas[i] is Some
    &&& restorable(object_texts(metadatas[i]->0), object_integers(metadatas[i]->0))
}

/// The metadata that the store holds at place `i`.
pub open spec fn metadata_at(
    metadatas: Seq<Option<serde_json::Map<String, serde_json::Value>>>,
    i: int,
) -> MetadataView {
    restored(object_texts(metadatas[i]->0), object_integers(metadatas[i]->0))
}

/// The text that the store holds at place `i`: none where it holds no
/// text there.
pub open spec fn content_at(documents: Seq<Option<String>>, i: int) -> Seq<char> {
    if 0 <= i < documents.len() && documents[i] is Some {
        documents[i]->0@
    } else {
        Seq::empty()
    }
}

/// Whether `found` are the documents of a collection of which the store
/// holds these identifiers, texts and metadata, place by place.
pub open spec fn are_stored(
    found: Seq<Document>,
    ids: Seq<String>,
    documents: Seq<Option<String>>,
    metadatas: Seq<Option<serde_json::Map<String, serde_json::Value>>>,
) -> bool {
    &&& found.len() == ids.len()
    &&& forall|i: int|
        0 <= i < ids.len() ==> (#[trigger] found[i])@ == (DocumentView {
            id: ids[i]@,
            content: content_at(documents, i),
            metadata: metadata_at(metadatas, i),
        })
}

/// Puts together the documents of a collection from what the store holds
/// of it: for each identifier the text and the metadata at the same
/// place. A missing text is taken for an empty one.
pub fn get_collection_documents(
    ids: &Vec<String>,
    documents: &Vec<Option<String>>,
    metadatas: &Vec<Option<serde_json::Map<String, serde_json::Value>>>,
) -> (found: Vec<Document>)
    requires
        forall|i: int| 0 <= i < ids@.len() ==> has_metadata(metadatas@, i),
    ensures
        are_stored(found@, ids@, documents@, metadatas@),
{
    let mut found: Vec<Document> = Vec::new();
    let mut i: usize = 0;
    while i < ids.len()
        invariant
            i <= ids@.len(),
            found@.len() == i,
            forall|j: int| 0 <= j < ids@.len() ==> has_metadata(metadatas@, j),
            forall|j: int|
                0 <= j < i ==> (#[trigger] found@[j])@ == (DocumentView {
                    id: ids@[j]@,
                    content: content_at(documents@, j),
                    metadata: metadata_at(metadatas@, j),
                }),
        decreases ids@.len() - i,
    {
        assert(has_metadata(metadatas@, i as int));
        let content = if i < documents.len() {
            match &documents[i] {
                Some(text) => text.clone(),
                None => String::new(),
            }
        } else {
            String::new()
        };
        let metadata = Metadata::read(metadatas[i].as_ref().unwrap());
        found.push(Document { id: ids[i].clone(), content, metadata });
        i += 1;
    }
    found
}

/// Puts together the documents of a collection where the store holds
/// metadata for every identifier, and tells where it does not.
pub fn read_collection_documents(
    ids: &Vec<String>,
    documents: &Vec<Option<String>>,
    metadatas: &Vec<Option<serde_json::Map<String, serde_json::Value>>>,
) -> (found: Option<Vec<Document>>)
    ensures
        match found {
            Some(all) => are_stored(all@, ids@, documents@, metadatas@) && forall|i: int|
                0 <= i < ids@.len() ==> has_metadata(metadatas@, i),
            None => exists|i: int| 0 <= i < ids@.len() && !has_metadata(metadatas@, i),
        },
{
    let mut i: usize = 0;
    while i < ids.len()
        invariant
            i <= ids@.len(),
            forall|j: int| 0 <= j < i ==> has_metadata(metadatas@, j),
        decreases ids@.len() - i,
    {
        if i >= metadatas.len() {
            assert(!has_metadata(metadatas@, i as int));
            return None;
        }
        match &metadatas[i] {
            Some(map) => {
                if !Metadata::is_stored_in(map) {
                    assert(!has_metadata(metadatas@, i as int));
                    return None;
                }
            },
            None => {
                assert(!has_metadata(metadatas@, i as int));
                return None;
            },
        }
        i += 1;
    }
    Some(get_collection_documents(ids, documents, metadatas))
}

} // verus!
