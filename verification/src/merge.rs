//! External k-way merge: combines the sorted spill batches into one
//! globally sorted, token-deduplicated postings stream. One cursor per
//! batch advances front to back, so at most one record per open batch is
//! resident at a time; each round extracts the minimum head token and
//! concatenates that token's sublists in batch order, which keeps
//! document ids sorted because batch document-id ranges are disjoint and
//! increasing.

use vstd::prelude::*;
use crate::postings::{
    Posting, TokenPostings, wf_batch, wf_plist, batch_postings_for, concat_postings_for,
    batch_has_token, batches_doc_increasing, doc_in_batch,
};

verus! {

/// The views of a vector of in-memory batches.
pub open spec fn batch_views(bs: Seq<Vec<TokenPostings>>) -> Seq<Seq<TokenPostings>> {
    bs.map_values(|v: Vec<TokenPostings>| v@)
}

/// The consumed prefix of every batch, under cursor positions `ps`.
pub open spec fn prefixes(bss: Seq<Seq<TokenPostings>>, ps: Seq<usize>) -> Seq<
    Seq<TokenPostings>,
> {
    Seq::new(bss.len(), |j: int| bss[j].take(ps[j] as int))
}

/// Every consumed record's token is at most `l`.
pub open spec fn consumed_bounded(bss: Seq<Seq<TokenPostings>>, ps: Seq<usize>, l: u32) -> bool {
    forall|j: int, r: int|
        0 <= j < bss.len() && 0 <= r < ps[j] && r < bss[j].len() ==> #[trigger] bss[j][r].token_id
            <= l
}

/// Every unconsumed record's token is above `l`.
pub open spec fn unconsumed_above(bss: Seq<Seq<TokenPostings>>, ps: Seq<usize>, l: u32) -> bool {
    forall|j: int, r: int|
        0 <= j < bss.len() && ps[j] <= r < bss[j].len() ==> #[trigger] bss[j][r].token_id > l
}

/// Where batch `j`'s cursor stands after one round that extracted token
/// `t`: one past the head when the head carried `t`, unchanged otherwise.
pub open spec fn step_pos(bss: Seq<Seq<TokenPostings>>, ps: Seq<usize>, t: u32, j: int) -> int {
    if ps[j] < bss[j].len() && bss[j][ps[j] as int].token_id == t {
        ps[j] + 1
    } else {
        ps[j] as int
    }
}

/// Records not yet consumed, summed over all batches: the merge's
/// termination measure.
pub open spec fn sum_rem(bss: Seq<Seq<TokenPostings>>, ps: Seq<usize>) -> int
    decreases bss.len(),
{
    if bss.len() == 0 {
        0
    } else {
        (bss[0].len() - ps[0]) + sum_rem(bss.drop_first(), ps.drop_first())
    }
}

proof fn lemma_sum_rem_nonneg(bss: Seq<Seq<TokenPostings>>, ps: Seq<usize>)
    requires
        ps.len() == bss.len(),
        forall|j: int| 0 <= j < bss.len() ==> #[trigger] ps[j] <= bss[j].len(),
    ensures
        sum_rem(bss, ps) >= 0,
    decreases bss.len(),
{
    if bss.len() > 0 {
        lemma_sum_rem_nonneg(bss.drop_first(), ps.drop_first());
    }
}

proof fn lemma_sum_rem_decreases(bss: Seq<Seq<TokenPostings>>, ps1: Seq<usize>, ps2: Seq<usize>)
    requires
        ps1.len() == bss.len(),
        ps2.len() == bss.len(),
        forall|j: int| 0 <= j < bss.len() ==> #[trigger] ps1[j] <= ps2[j],
        forall|j: int| 0 <= j < bss.len() ==> #[trigger] ps2[j] <= bss[j].len(),
        exists|j: int| 0 <= j < bss.len() && #[trigger] ps1[j] < ps2[j],
    ensures
        sum_rem(bss, ps2) < sum_rem(bss, ps1),
    decreases bss.len(),
{
    let j0 = choose|j: int| 0 <= j < bss.len() && #[trigger] ps1[j] < ps2[j];
    if j0 == 0 {
        lemma_sum_rem_mono(bss.drop_first(), ps1.drop_first(), ps2.drop_first());
    } else {
        assert(ps1.drop_first()[j0 - 1] < ps2.drop_first()[j0 - 1]);
        lemma_sum_rem_decreases(bss.drop_first(), ps1.drop_first(), ps2.drop_first());
    }
}

proof fn lemma_sum_rem_mono(bss: Seq<Seq<TokenPostings>>, ps1: Seq<usize>, ps2: Seq<usize>)
    requires
        ps1.len() == bss.len(),
        ps2.len() == bss.len(),
        forall|j: int| 0 <= j < bss.len() ==> #[trigger] ps1[j] <= ps2[j],
        forall|j: int| 0 <= j < bss.len() ==> #[trigger] ps2[j] <= bss[j].len(),
    ensures
        sum_rem(bss, ps2) <= sum_rem(bss, ps1),
    decreases bss.len(),
{
    if bss.len() > 0 {
        lemma_sum_rem_mono(bss.drop_first(), ps1.drop_first(), ps2.drop_first());
    }
}

/// A token absent from a batch has the empty sublist there.
pub proof fn lemma_bpf_absent(b: Seq<TokenPostings>, t: u32)
    requires
        !batch_has_token(b, t),
    ensures
        batch_postings_for(b, t) =~= Seq::<Posting>::empty(),
    decreases b.len(),
{
    if b.len() > 0 {
        assert(b[0].token_id != t);
        assert(forall|i: int|
            0 <= i < b.drop_first().len() ==> b.drop_first()[i] == b[i + 1]);
        lemma_bpf_absent(b.drop_first(), t);
    }
}

/// Appending a record changes only its own token's sublist, and only
/// when that token was absent.
pub proof fn lemma_bpf_push(b: Seq<TokenPostings>, rec: TokenPostings, t: u32)
    ensures
        batch_has_token(b, t) ==> batch_postings_for(b.push(rec), t) == batch_postings_for(b, t),
        !batch_has_token(b, t) && rec.token_id == t ==> batch_postings_for(b.push(rec), t)
            == rec.postings@,
        !batch_has_token(b, t) && rec.token_id != t ==> batch_postings_for(b.push(rec), t)
            =~= Seq::<Posting>::empty(),
    decreases b.len(),
{
    if b.len() == 0 {
        assert(b.push(rec)[0] == rec);
        assert(b.push(rec).drop_first() =~= Seq::<TokenPostings>::empty());
        if rec.token_id != t {
            assert(!batch_has_token(b.push(rec), t)) by {
                assert(forall|i: int|
                    0 <= i < b.push(rec).len() ==> b.push(rec)[i] == rec);
            }
            lemma_bpf_absent(b.push(rec), t);
        }
    } else {
        assert(b.push(rec)[0] == b[0]);
        assert(b.push(rec).drop_first() =~= b.drop_first().push(rec));
        lemma_bpf_push(b.drop_first(), rec, t);
        if b[0].token_id == t {
            assert(batch_has_token(b, t));
        } else {
            assert(batch_has_token(b, t) <==> batch_has_token(b.drop_first(), t)) by {
                if batch_has_token(b, t) {
                    let i = choose|i: int|
                        0 <= i < b.len() && #[trigger] b[i].token_id == t;
                    assert(b.drop_first()[i - 1].token_id == t);
                }
                if batch_has_token(b.drop_first(), t) {
                    let i = choose|i: int|
                        0 <= i < b.drop_first().len() && #[trigger] b.drop_first()[i].token_id
                            == t;
                    assert(b[i + 1].token_id == t);
                }
            }
        }
    }
}

/// Concatenation over one more batch appends that batch's sublist.
pub proof fn lemma_concat_push(pss: Seq<Seq<TokenPostings>>, x: Seq<TokenPostings>, t: u32)
    ensures
        concat_postings_for(pss.push(x), t) =~= concat_postings_for(pss, t)
            + batch_postings_for(x, t),
    decreases pss.len(),
{
    assert(pss.push(x).len() > 0);
    assert(concat_postings_for(pss.push(x), t) == batch_postings_for(pss.push(x)[0], t)
        + concat_postings_for(pss.push(x).drop_first(), t));
    if pss.len() == 0 {
        assert(pss.push(x)[0] == x);
        assert(pss.push(x).drop_first() =~= Seq::<Seq<TokenPostings>>::empty());
        assert(concat_postings_for(pss.push(x).drop_first(), t) =~= Seq::<Posting>::empty());
        assert(concat_postings_for(pss, t) =~= Seq::<Posting>::empty());
    } else {
        assert(pss.push(x)[0] == pss[0]);
        assert(pss.push(x).drop_first() =~= pss.drop_first().push(x));
        lemma_concat_push(pss.drop_first(), x, t);
        assert(concat_postings_for(pss, t) == batch_postings_for(pss[0], t)
            + concat_postings_for(pss.drop_first(), t));
    }
}

/// Concatenation only depends on each batch's sublist for the token.
pub proof fn lemma_concat_pointwise(pss1: Seq<Seq<TokenPostings>>, pss2: Seq<Seq<TokenPostings>>, t: u32)
    requires
        pss1.len() == pss2.len(),
        forall|j: int|
            0 <= j < pss1.len() ==> #[trigger] batch_postings_for(pss1[j], t)
                == batch_postings_for(pss2[j], t),
    ensures
        concat_postings_for(pss1, t) == concat_postings_for(pss2, t),
    decreases pss1.len(),
{
    if pss1.len() > 0 {
        assert(forall|j: int|
            0 <= j < pss1.drop_first().len() ==> #[trigger] pss1.drop_first()[j] == pss1[j + 1]
                && pss2.drop_first()[j] == pss2[j + 1]);
        lemma_concat_pointwise(pss1.drop_first(), pss2.drop_first(), t);
    }
}

/// Concatenation over all-empty prefixes is empty.
proof fn lemma_concat_empty(pss: Seq<Seq<TokenPostings>>, t: u32)
    requires
        forall|j: int| 0 <= j < pss.len() ==> #[trigger] pss[j].len() == 0,
    ensures
        concat_postings_for(pss, t) =~= Seq::<Posting>::empty(),
    decreases pss.len(),
{
    if pss.len() > 0 {
        lemma_bpf_absent(pss[0], t);
        lemma_concat_empty(pss.drop_first(), t);
    }
}

/// In a well-formed merged stream — which `merge_sorted_postings`
/// produces from any batches of one forward document scan — every
/// token's postings list is sorted strictly by ascending document id,
/// so no document id repeats in it.
pub proof fn lemma_merged_list_sorted(m: Seq<TokenPostings>, t: u32)
    requires
        wf_batch(m),
    ensures
        wf_plist(batch_postings_for(m, t)),
    decreases m.len(),
{
    if m.len() > 0 && m[0].token_id != t {
        assert(wf_batch(m.drop_first())) by {
            assert(forall|i: int|
                0 <= i < m.drop_first().len() ==> m.drop_first()[i] == m[i + 1]);
        }
        lemma_merged_list_sorted(m.drop_first(), t);
    }
}

/// Merges all spill batches into the globally sorted postings stream:
/// each token that occurs anywhere appears exactly once, with its
/// sublists concatenated in batch order, and — because the batches'
/// document-id ranges are disjoint and increasing — every merged list is
/// sorted by document id with no duplicates.
pub fn merge_sorted_postings(batches: &Vec<Vec<TokenPostings>>) -> (merged: Vec<TokenPostings>)
    requires
        forall|b: int| 0 <= b < batches@.len() ==> wf_batch(#[trigger] batches@[b]@),
        batches_doc_increasing(batch_views(batches@)),
    ensures
        wf_batch(merged@),
        forall|t: u32| #[trigger] batch_postings_for(merged@, t) == concat_postings_for(
            batch_views(batches@),
            t,
        ),
{
    let ghost bss = batch_views(batches@);
    let k = batches.len();
    let mut pos: Vec<usize> = Vec::new();
    let mut jj: usize = 0;
    while jj < k
        invariant
            jj <= k,
            pos@.len() == jj,
            forall|j: int| 0 <= j < jj ==> pos@[j] == 0,
        decreases k - jj,
    {
        pos.push(0);
        jj = jj + 1;
    }
    let mut merged: Vec<TokenPostings> = Vec::new();
    proof {
        assert forall|t: u32| #[trigger] batch_postings_for(merged@, t) == concat_postings_for(
            prefixes(bss, pos@),
            t,
        ) by {
            assert(forall|j: int| 0 <= j < bss.len() ==> #[trigger] prefixes(bss, pos@)[j].len() == 0);
            lemma_concat_empty(prefixes(bss, pos@), t);
        }
    }
    loop
        invariant
            k == batches@.len(),
            bss == batch_views(batches@),
            forall|b: int| 0 <= b < bss.len() ==> wf_batch(#[trigger] bss[b]),
            batches_doc_increasing(bss),
            pos@.len() == k,
            forall|j: int| 0 <= j < k ==> #[trigger] pos@[j] <= bss[j].len(),
            wf_batch(merged@),
            merged@.len() == 0 ==> forall|j: int| 0 <= j < k ==> #[trigger] pos@[j] == 0,
            merged@.len() > 0 ==> consumed_bounded(bss, pos@, merged@.last().token_id)
                && unconsumed_above(bss, pos@, merged@.last().token_id),
            forall|t: u32| #[trigger] batch_postings_for(merged@, t) == concat_postings_for(
                prefixes(bss, pos@),
                t,
            ),
        ensures
            pos@.len() == k,
            forall|j: int| 0 <= j < k ==> #[trigger] pos@[j] >= bss[j].len(),
            wf_batch(merged@),
            forall|t: u32| #[trigger] batch_postings_for(merged@, t) == concat_postings_for(
                prefixes(bss, pos@),
                t,
            ),
        decreases sum_rem(bss, pos@),
    {
        proof {
            lemma_sum_rem_nonneg(bss, pos@);
        }
        // Find the minimum head token among the open readers.
        let mut found = false;
        let mut min_tok: u32 = 0;
        let mut i: usize = 0;
        while i < k
            invariant
                i <= k,
                k == batches@.len(),
                bss == batch_views(batches@),
                pos@.len() == k,
                forall|j: int| 0 <= j < k ==> #[trigger] pos@[j] <= bss[j].len(),
                found ==> exists|j: int|
                    0 <= j < i && #[trigger] pos@[j] < bss[j].len() && bss[j][pos@[j] as int].token_id
                        == min_tok,
                found ==> forall|j: int|
                    0 <= j < i && #[trigger] pos@[j] < bss[j].len() ==> bss[j][pos@[j] as int].token_id
                        >= min_tok,
                !found ==> forall|j: int| 0 <= j < i ==> #[trigger] pos@[j] >= bss[j].len(),
            decreases k - i,
        {
            let pj = pos[i];
            if pj < batches[i].len() {
                let t = batches[i][pj].token_id;
                if !found || t < min_tok {
                    min_tok = t;
                    found = true;
                }
            }
            i = i + 1;
        }
        if !found {
            break;
        }
        // Drain every reader positioned at the minimum token, concatenating
        // their sublists in batch order.
        let ghost old_pos = pos@;
        let ghost old_merged = merged@;
        proof {
            assert forall|jx: int, r: int|
                0 <= jx < k && 0 <= r < old_pos[jx] && r < bss[jx].len() implies #[trigger] bss[jx][r].token_id
                < min_tok by {
                let jm = choose|jm: int|
                    0 <= jm < k && #[trigger] pos@[jm] < bss[jm].len()
                        && bss[jm][pos@[jm] as int].token_id == min_tok;
                assert(merged@.len() > 0);
                assert(bss[jx][r].token_id <= merged@.last().token_id);
                assert(bss[jm][pos@[jm] as int].token_id > merged@.last().token_id);
            }
            assert forall|jx: int, r: int|
                0 <= jx < k && old_pos[jx] <= r < bss[jx].len() implies #[trigger] bss[jx][r].token_id
                >= min_tok by {
                assert(bss[jx][old_pos[jx] as int].token_id >= min_tok);
                if r > old_pos[jx] {
                    assert(bss[jx][old_pos[jx] as int].token_id < bss[jx][r].token_id);
                }
            }
            assert(prefixes(bss, pos@).subrange(0, 0) =~= Seq::<Seq<TokenPostings>>::empty());
        }
        let mut combined: Vec<Posting> = Vec::new();
        let mut j: usize = 0;
        while j < k
            invariant
                j <= k,
                k == batches@.len(),
                bss == batch_views(batches@),
                forall|b: int| 0 <= b < bss.len() ==> wf_batch(#[trigger] bss[b]),
                batches_doc_increasing(bss),
                pos@.len() == k,
                old_pos.len() == k,
                forall|jx: int| 0 <= jx < k ==> #[trigger] old_pos[jx] <= bss[jx].len(),
                forall|jx: int| j <= jx < k ==> #[trigger] pos@[jx] == old_pos[jx],
                forall|jx: int| 0 <= jx < j ==> #[trigger] pos@[jx] as int == step_pos(
                    bss,
                    old_pos,
                    min_tok,
                    jx,
                ),
                forall|jx: int, r: int|
                    0 <= jx < k && 0 <= r < old_pos[jx] && r < bss[jx].len()
                        ==> #[trigger] bss[jx][r].token_id < min_tok,
                forall|jx: int, r: int|
                    0 <= jx < k && old_pos[jx] <= r < bss[jx].len()
                        ==> #[trigger] bss[jx][r].token_id >= min_tok,
                combined@ =~= concat_postings_for(
                    prefixes(bss, pos@).subrange(0, j as int),
                    min_tok,
                ),
                wf_plist(combined@),
                forall|idx: int|
                    0 <= idx < combined@.len() ==> exists|jx: int|
                        0 <= jx < j && doc_in_batch(bss[jx], #[trigger] combined@[idx].doc_id),
                (exists|jx: int|
                    0 <= jx < j && #[trigger] old_pos[jx] < bss[jx].len()
                        && bss[jx][old_pos[jx] as int].token_id == min_tok) ==> combined@.len()
                    > 0,
            decreases k - j,
        {
            let ghost pre_prefix = prefixes(bss, pos@).subrange(0, j as int);
            let pj = pos[j];
            if pj < batches[j].len() {
                let rec = &batches[j][pj];
                if rec.token_id == min_tok {
                    let ghost pre_combined = combined@;
                    let n = rec.postings.len();
                    let mut r: usize = 0;
                    while r < n
                        invariant
                            r <= n,
                            n == rec.postings@.len(),
                            combined@ =~= pre_combined + rec.postings@.take(r as int),
                        decreases n - r,
                    {
                        let p = rec.postings[r];
                        combined.push(p);
                        proof {
                            assert(combined@ =~= pre_combined + rec.postings@.take(r as int + 1));
                        }
                        r = r + 1;
                    }
                    proof {
                        assert(combined@ =~= pre_combined + rec.postings@) by {
                            assert(rec.postings@.take(n as int) =~= rec.postings@);
                        }
                        // The new postings stay sorted after the old ones:
                        // their documents come from a strictly later batch.
                        assert forall|a: int, b: int|
                            0 <= a < b < combined@.len() implies combined@[a].doc_id
                            < combined@[b].doc_id by {
                            if a < pre_combined.len() && b >= pre_combined.len() {
                                let jx = choose|jx: int|
                                    0 <= jx < j && doc_in_batch(
                                        bss[jx],
                                        #[trigger] pre_combined[a].doc_id,
                                    );
                                assert(doc_in_batch(bss[j as int], combined@[b].doc_id)) by {
                                    assert(bss[j as int][pj as int].postings@[b
                                        - pre_combined.len()].doc_id == combined@[b].doc_id);
                                }
                            }
                        }
                        assert(wf_plist(combined@));
                        assert forall|idx: int|
                            0 <= idx < combined@.len() implies exists|jx: int|
                            0 <= jx < j + 1 && doc_in_batch(
                                bss[jx],
                                #[trigger] combined@[idx].doc_id,
                            ) by {
                            if idx < pre_combined.len() {
                                let jx = choose|jx: int|
                                    0 <= jx < j && doc_in_batch(
                                        bss[jx],
                                        #[trigger] pre_combined[idx].doc_id,
                                    );
                                assert(doc_in_batch(bss[jx], combined@[idx].doc_id));
                            } else {
                                assert(bss[j as int][pj as int].postings@[idx
                                    - pre_combined.len()].doc_id == combined@[idx].doc_id);
                                assert(doc_in_batch(bss[j as int], combined@[idx].doc_id));
                            }
                        }
                    }
                    pos[j] = pj + 1;
                    proof {
                        lemma_concat_push(pre_prefix, bss[j as int].take(pj as int + 1), min_tok);
                        assert(prefixes(bss, pos@).subrange(0, j as int + 1) =~= pre_prefix.push(
                            bss[j as int].take(pj as int + 1),
                        ));
                        assert(bss[j as int].take(pj as int + 1) =~= bss[j as int].take(
                            pj as int,
                        ).push(bss[j as int][pj as int]));
                        assert(!batch_has_token(bss[j as int].take(pj as int), min_tok)) by {
                            assert(forall|r: int|
                                0 <= r < pj ==> #[trigger] bss[j as int].take(pj as int)[r].token_id
                                    < min_tok);
                        }
                        lemma_bpf_push(
                            bss[j as int].take(pj as int),
                            bss[j as int][pj as int],
                            min_tok,
                        );
                        lemma_bpf_absent(bss[j as int].take(pj as int), min_tok);
                        assert(batch_postings_for(bss[j as int].take(pj as int + 1), min_tok)
                            == bss[j as int][pj as int].postings@);
                        assert(combined@ =~= concat_postings_for(
                            prefixes(bss, pos@).subrange(0, j as int + 1),
                            min_tok,
                        ));
                    }
                } else {
                    proof {
                        lemma_step_unchanged(bss, old_pos, min_tok, j as int, pos@, pre_prefix, combined@);
                    }
                }
            } else {
                proof {
                    lemma_step_unchanged(bss, old_pos, min_tok, j as int, pos@, pre_prefix, combined@);
                }
            }
            j = j + 1;
        }
        proof {
            assert(prefixes(bss, pos@).subrange(0, k as int) =~= prefixes(bss, pos@));
            assert(combined@ == concat_postings_for(prefixes(bss, pos@), min_tok));
            // The reader that held the minimum contributed, so the merged
            // record is non-empty.
            let j0 = choose|j: int|
                0 <= j < k && #[trigger] old_pos[j] < bss[j].len() && bss[j][old_pos[j] as int].token_id
                    == min_tok;
            assert(combined@.len() > 0);
        }
        let rec = TokenPostings { token_id: min_tok, postings: combined };
        proof {
            // min_tok is above every token already merged.
            if merged@.len() > 0 {
                assert(merged@.last().token_id < min_tok) by {
                    let j0 = choose|j: int|
                        0 <= j < k && #[trigger] old_pos[j] < bss[j].len()
                            && bss[j][old_pos[j] as int].token_id == min_tok;
                    assert(bss[j0][old_pos[j0] as int].token_id > merged@.last().token_id);
                }
            }
        }
        merged.push(rec);
        proof {
            let new_last = min_tok;
            assert(merged@.last() == rec);
            assert(wf_batch(merged@)) by {
                assert(forall|a: int|
                    0 <= a < old_merged.len() ==> #[trigger] merged@[a] == old_merged[a]);
                assert(forall|a: int|
                    0 <= a < old_merged.len() ==> #[trigger] old_merged[a].token_id
                        <= old_merged.last().token_id || old_merged.len() == 0);
            }
            assert(consumed_bounded(bss, pos@, new_last));
            assert(unconsumed_above(bss, pos@, new_last)) by {
                assert forall|jx: int, r: int|
                    0 <= jx < bss.len() && pos@[jx] <= r < bss[jx].len() implies #[trigger] bss[jx][r].token_id
                    > new_last by {
                    assert(pos@[jx] as int == step_pos(bss, old_pos, min_tok, jx));
                    if old_pos[jx] < bss[jx].len() && bss[jx][old_pos[jx] as int].token_id
                        == min_tok {
                        assert(r > old_pos[jx]);
                        assert(bss[jx][old_pos[jx] as int].token_id < bss[jx][r].token_id);
                    } else {
                        assert(bss[jx][r].token_id >= min_tok);
                        if r == old_pos[jx] {
                            assert(bss[jx][r].token_id != min_tok);
                        } else {
                            assert(bss[jx][old_pos[jx] as int].token_id < bss[jx][r].token_id);
                            assert(bss[jx][old_pos[jx] as int].token_id >= min_tok);
                        }
                    }
                }
            }
            assert forall|t: u32| #[trigger] batch_postings_for(merged@, t) == concat_postings_for(
                prefixes(bss, pos@),
                t,
            ) by {
                lemma_bpf_push(old_merged, rec, t);
                if t == min_tok {
                    assert(!batch_has_token(old_merged, min_tok)) by {
                        if batch_has_token(old_merged, min_tok) {
                            let a = choose|a: int|
                                0 <= a < old_merged.len() && #[trigger] old_merged[a].token_id
                                    == min_tok;
                            assert(old_merged[a].token_id <= old_merged.last().token_id);
                        }
                    }
                    assert(batch_postings_for(merged@, min_tok) == rec.postings@);
                } else {
                    assert(concat_postings_for(prefixes(bss, pos@), t) == concat_postings_for(
                        prefixes(bss, old_pos),
                        t,
                    )) by {
                        assert forall|jx: int|
                            0 <= jx < bss.len() implies #[trigger] batch_postings_for(
                            prefixes(bss, pos@)[jx],
                            t,
                        ) == batch_postings_for(prefixes(bss, old_pos)[jx], t) by {
                            assert(pos@[jx] as int == step_pos(bss, old_pos, min_tok, jx));
                            if pos@[jx] != old_pos[jx] {
                                assert(bss[jx].take(pos@[jx] as int) =~= bss[jx].take(
                                    old_pos[jx] as int,
                                ).push(bss[jx][old_pos[jx] as int]));
                                lemma_bpf_push(
                                    bss[jx].take(old_pos[jx] as int),
                                    bss[jx][old_pos[jx] as int],
                                    t,
                                );
                                if !batch_has_token(bss[jx].take(old_pos[jx] as int), t) {
                                    lemma_bpf_absent(bss[jx].take(old_pos[jx] as int), t);
                                }
                            }
                        }
                        lemma_concat_pointwise(prefixes(bss, pos@), prefixes(bss, old_pos), t);
                    }
                    if batch_has_token(old_merged, t) {
                        assert(batch_postings_for(merged@, t) == batch_postings_for(old_merged, t));
                    } else {
                        lemma_bpf_absent(old_merged, t);
                        assert(batch_postings_for(merged@, t) =~= Seq::<Posting>::empty());
                    }
                }
            }
            // Termination: at least the minimum's reader advanced.
            let j0 = choose|j: int|
                0 <= j < k && #[trigger] old_pos[j] < bss[j].len() && bss[j][old_pos[j] as int].token_id
                    == min_tok;
            assert(pos@[j0] as int == step_pos(bss, old_pos, min_tok, j0));
            assert(old_pos[j0] < pos@[j0]);
            assert forall|jx: int| 0 <= jx < k implies #[trigger] old_pos[jx] <= pos@[jx]
                && pos@[jx] <= bss[jx].len() by {
                assert(pos@[jx] as int == step_pos(bss, old_pos, min_tok, jx));
            }
            lemma_sum_rem_decreases(bss, old_pos, pos@);
            lemma_sum_rem_nonneg(bss, pos@);
        }
    }
    proof {
        assert(prefixes(bss, pos@) =~= bss) by {
            assert forall|j: int| 0 <= j < bss.len() implies #[trigger] prefixes(bss, pos@)[j]
                == bss[j] by {
                assert(pos@[j] >= bss[j].len());
                assert(bss[j].take(pos@[j] as int) =~= bss[j]);
            }
        }
    }
    merged
}

/// When batch `j` does not hold the round's token at its head, its
/// cursor and contribution are unchanged.
proof fn lemma_step_unchanged(
    bss: Seq<Seq<TokenPostings>>,
    old_pos: Seq<usize>,
    min_tok: u32,
    j: int,
    cur_pos: Seq<usize>,
    pre_prefix: Seq<Seq<TokenPostings>>,
    combined: Seq<Posting>,
)
    requires
        0 <= j < bss.len(),
        cur_pos.len() == bss.len(),
        old_pos.len() == bss.len(),
        cur_pos[j] == old_pos[j],
        cur_pos[j] <= bss[j].len(),
        !(old_pos[j] < bss[j].len() && bss[j][old_pos[j] as int].token_id == min_tok),
        forall|r: int|
            0 <= r < old_pos[j] && r < bss[j].len() ==> #[trigger] bss[j][r].token_id < min_tok,
        pre_prefix == prefixes(bss, cur_pos).subrange(0, j),
        combined =~= concat_postings_for(pre_prefix, min_tok),
    ensures
        cur_pos[j] as int == step_pos(bss, old_pos, min_tok, j),
        combined =~= concat_postings_for(prefixes(bss, cur_pos).subrange(0, j + 1), min_tok),
{
    assert(prefixes(bss, cur_pos).subrange(0, j + 1) =~= pre_prefix.push(
        bss[j].take(cur_pos[j] as int),
    ));
    lemma_concat_push(pre_prefix, bss[j].take(cur_pos[j] as int), min_tok);
    assert(!batch_has_token(bss[j].take(cur_pos[j] as int), min_tok)) by {
        assert(forall|r: int|
            0 <= r < cur_pos[j] ==> #[trigger] bss[j].take(cur_pos[j] as int)[r].token_id
                != min_tok);
    }
    lemma_bpf_absent(bss[j].take(cur_pos[j] as int), min_tok);
}

} // verus!
