//! Core data model: postings, postings lists, and the sorted batch records
//! that the accumulator spills and the merge engine consumes.

use vstd::prelude::*;

verus! {

/// One occurrence record: a term occurs in document `doc_id` with
/// term frequency `freq` (`freq >= 1` in any well-formed list).
#[derive(Clone, Copy, PartialEq, Eq, Structural, Debug)]
pub struct Posting {
    pub doc_id: usize,
    pub freq: u32,
}

/// A postings list is well formed when document ids are strictly
/// increasing (hence unique) and every frequency is at least 1.
pub open spec fn wf_plist(s: Seq<Posting>) -> bool {
    &&& forall|i: int, j: int| 0 <= i < j < s.len() ==> s[i].doc_id < s[j].doc_id
    &&& forall|i: int| 0 <= i < s.len() ==> s[i].freq >= 1
}

/// The postings of one token, as stored in a spill batch or in the
/// merged postings stream.
#[derive(Debug, PartialEq, Eq)]
pub struct TokenPostings {
    pub token_id: u32,
    pub postings: Vec<Posting>,
}

/// A spill batch (and likewise the merged stream) is a run of token
/// records sorted strictly by token id, each holding a non-empty
/// well-formed postings list.
pub open spec fn wf_batch(b: Seq<TokenPostings>) -> bool {
    &&& forall|i: int, j: int| 0 <= i < j < b.len() ==> b[i].token_id < b[j].token_id
    &&& forall|i: int| 0 <= i < b.len() ==> wf_plist(#[trigger] b[i].postings@)
    &&& forall|i: int| 0 <= i < b.len() ==> #[trigger] b[i].postings@.len() > 0
}

/// Some posting for document `d` occurs somewhere in batch `b`.
pub open spec fn doc_in_batch(b: Seq<TokenPostings>, d: usize) -> bool {
    exists|i: int, k: int|
        0 <= i < b.len() && 0 <= k < b[i].postings@.len() && #[trigger] b[i].postings@[k].doc_id
            == d
}

/// Every document id in batch `b` is below `d`.
pub open spec fn batch_docs_below(b: Seq<TokenPostings>, d: usize) -> bool {
    forall|i: int, k: int|
        0 <= i < b.len() && 0 <= k < b[i].postings@.len() ==> #[trigger] b[i].postings@[k].doc_id
            < d
}

/// Every document id in batch `b` is at least `d`.
pub open spec fn batch_docs_at_least(b: Seq<TokenPostings>, d: usize) -> bool {
    forall|i: int, k: int|
        0 <= i < b.len() && 0 <= k < b[i].postings@.len() ==> #[trigger] b[i].postings@[k].doc_id
            >= d
}

/// Spill batches come from one forward scan of the corpus: every document
/// id in an earlier batch is strictly below every document id in a later
/// batch.
pub open spec fn batches_doc_increasing(bs: Seq<Seq<TokenPostings>>) -> bool {
    forall|i: int, j: int, d1: usize, d2: usize|
        0 <= i < j < bs.len() && #[trigger] doc_in_batch(bs[i], d1) && #[trigger] doc_in_batch(
            bs[j],
            d2,
        ) ==> d1 < d2
}

/// The postings sublist batch `b` holds for token `t` (empty when the
/// token does not occur in the batch). Well-formed batches hold at most
/// one record per token, so the first match is the only one.
pub open spec fn batch_postings_for(b: Seq<TokenPostings>, t: u32) -> Seq<Posting>
    decreases b.len(),
{
    if b.len() == 0 {
        Seq::empty()
    } else if b[0].token_id == t {
        b[0].postings@
    } else {
        batch_postings_for(b.drop_first(), t)
    }
}

/// The concatenation, in batch order, of token `t`'s sublists across all
/// batches: the postings list the merged stream must hold for `t`.
pub open spec fn concat_postings_for(bs: Seq<Seq<TokenPostings>>, t: u32) -> Seq<Posting>
    decreases bs.len(),
{
    if bs.len() == 0 {
        Seq::empty()
    } else {
        batch_postings_for(bs[0], t) + concat_postings_for(bs.drop_first(), t)
    }
}

/// Token `t` occurs in batch `b`.
pub open spec fn batch_has_token(b: Seq<TokenPostings>, t: u32) -> bool {
    exists|i: int| 0 <= i < b.len() && #[trigger] b[i].token_id == t
}

/// The mathematical content of a batch or stream: its records as
/// (token id, postings) pairs.
pub open spec fn stream_view(b: Seq<TokenPostings>) -> Seq<(u32, Seq<Posting>)> {
    b.map_values(|r: TokenPostings| (r.token_id, r.postings@))
}

} // verus!
