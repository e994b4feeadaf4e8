//! The corpus scan: feeds tokenized documents through the accumulator in
//! one forward pass, spilling a sorted batch every `batch_size` documents
//! and once more for any remainder. The whole run is a deterministic
//! function of the document stream, which is what makes rebuilding the
//! index reproducible.

use vstd::prelude::*;
use vstd::arithmetic::div_mod::{
    lemma_fundamental_div_mod, lemma_fundamental_div_mod_converse_mod,
};
use crate::accumulator::{
    Accumulator, AccState, RawDoc, add_doc_tokens, spec_flush, cleared, tokens_view, wf_tokens,
};
use crate::postings::{
    Posting, TokenPostings, wf_batch, stream_view, doc_in_batch, batches_doc_increasing,
};
use crate::merge::batch_views;
use crate::lexicon::{Lexicon, DocTable};

verus! {

/// The mathematical content of a document stream.
pub open spec fn docs_view(ds: Seq<RawDoc>) -> Seq<(Seq<char>, u32, Seq<(Seq<char>, u32)>)> {
    ds.map_values(|d: RawDoc| (d.external_id@, d.length, tokens_view(d.tokens@)))
}

/// The metadata rows of a document stream, in arrival order.
pub open spec fn metas_of(dv: Seq<(Seq<char>, u32, Seq<(Seq<char>, u32)>)>) -> Seq<
    (Seq<char>, u32),
> {
    dv.map_values(|t: (Seq<char>, u32, Seq<(Seq<char>, u32)>)| (t.0, t.1))
}

/// The token occurrences in the first `i` documents.
pub open spec fn total_tokens(
    dv: Seq<(Seq<char>, u32, Seq<(Seq<char>, u32)>)>,
    i: int,
) -> int
    decreases i,
{
    if i <= 0 {
        0
    } else {
        total_tokens(dv, i - 1) + dv[i - 1].2.len()
    }
}

/// The mathematical content of a run of spill batches.
pub open spec fn spill_views(bs: Seq<Vec<TokenPostings>>) -> Seq<Seq<(u32, Seq<Posting>)>> {
    bs.map_values(|v: Vec<TokenPostings>| stream_view(v@))
}

/// The batches spilled and the accumulator state reached after the first
/// `i` documents, flushing at every `bsize`-document boundary.
pub open spec fn spec_process(
    dv: Seq<(Seq<char>, u32, Seq<(Seq<char>, u32)>)>,
    bsize: int,
    i: int,
) -> (Seq<Seq<(u32, Seq<Posting>)>>, AccState)
    decreases i,
{
    if i <= 0 {
        (Seq::empty(), AccState { terms: Seq::empty(), posts: Seq::empty() })
    } else {
        let prev = spec_process(dv, bsize, i - 1);
        let st2 = add_doc_tokens(prev.1, dv[i - 1].2, (i - 1) as usize);
        if i % bsize == 0 {
            (
                prev.0.push(spec_flush(st2.posts)),
                AccState { terms: st2.terms, posts: cleared(st2.terms.len()) },
            )
        } else {
            (prev.0, st2)
        }
    }
}

/// All batches a full run spills: the periodic ones, plus one for any
/// documents past the last full batch.
pub open spec fn spec_batches(
    dv: Seq<(Seq<char>, u32, Seq<(Seq<char>, u32)>)>,
    bsize: int,
) -> Seq<Seq<(u32, Seq<Posting>)>> {
    let r = spec_process(dv, bsize, dv.len() as int);
    if dv.len() as int % bsize != 0 {
        r.0.push(spec_flush(r.1.posts))
    } else {
        r.0
    }
}

/// Folding one document grows the term table by at most its token count.
proof fn lemma_add_doc_terms_growth(st: AccState, toks: Seq<(Seq<char>, u32)>, d: usize)
    ensures
        st.terms.len() <= add_doc_tokens(st, toks, d).terms.len(),
        add_doc_tokens(st, toks, d).terms.len() <= st.terms.len() + toks.len(),
    decreases toks.len(),
{
    if toks.len() > 0 {
        lemma_add_doc_terms_growth(st, toks.drop_last(), d);
    }
}

/// How a count-within-batch steps at the next document.
proof fn lemma_mod_step(i: int, b: int)
    requires
        b >= 1,
        0 <= i,
    ensures
        i % b == b - 1 ==> (i + 1) % b == 0,
        i % b < b - 1 ==> (i + 1) % b == i % b + 1,
{
    lemma_fundamental_div_mod(i, b);
    if i % b == b - 1 {
        assert((i / b + 1) * b + 0 == b * (i / b) + (b - 1) + 1) by (nonlinear_arith);
        lemma_fundamental_div_mod_converse_mod(i + 1, b, i / b + 1, 0);
    } else {
        assert((i / b) * b + (i % b + 1) == b * (i / b) + i % b + 1) by (nonlinear_arith);
        lemma_fundamental_div_mod_converse_mod(i + 1, b, i / b, i % b + 1);
    }
}

/// Scans the (already decompressed and tokenized) document stream once,
/// spilling a sorted batch every `batch_size` documents and a final one
/// for the remainder, and returns the spill batches together with the
/// lexicon and document metadata of the run. Successive batches cover
/// disjoint, strictly increasing document-id ranges.
pub fn process_gzip_file(docs: &Vec<RawDoc>, batch_size: usize) -> (r: (
    Vec<Vec<TokenPostings>>,
    Lexicon,
    DocTable,
))
    requires
        batch_size >= 1,
        forall|q: int|
            0 <= q < docs@.len() ==> wf_tokens(tokens_view((#[trigger] docs@[q]).tokens@)),
        total_tokens(docs_view(docs@), docs@.len() as int) <= u32::MAX,
    ensures
        spill_views(r.0@) == spec_batches(docs_view(docs@), batch_size as int),
        r.1@ == spec_process(docs_view(docs@), batch_size as int, docs@.len() as int).1.terms,
        r.2@ == metas_of(docs_view(docs@)),
        forall|b: int| 0 <= b < r.0@.len() ==> wf_batch(#[trigger] r.0@[b]@),
        batches_doc_increasing(batch_views(r.0@)),
        r.1.wf(),
{
    let ghost dv = docs_view(docs@);
    let ghost bs = batch_size as int;
    let mut acc = Accumulator::new(batch_size);
    let mut batches: Vec<Vec<TokenPostings>> = Vec::new();
    let n = docs.len();
    let mut i: usize = 0;
    proof {
        assert(dv.len() == n);
        assert(spill_views(batches@) =~= spec_process(dv, bs, 0).0);
        assert(acc.st() == spec_process(dv, bs, 0).1);
        assert(acc.docs@ =~= metas_of(dv).take(0));
    }
    while i < n
        invariant
            i <= n,
            n == docs@.len(),
            dv == docs_view(docs@),
            bs == batch_size as int,
            batch_size >= 1,
            forall|q: int|
                0 <= q < docs@.len() ==> wf_tokens(tokens_view((#[trigger] docs@[q]).tokens@)),
            total_tokens(dv, n as int) <= u32::MAX,
            acc.wf(),
            acc.threshold == batch_size,
            acc.st() == spec_process(dv, bs, i as int).1,
            spill_views(batches@) == spec_process(dv, bs, i as int).0,
            acc.docs@ == metas_of(dv).take(i as int),
            acc.docs@.len() == i,
            acc.batch_docs as int == i as int % bs,
            acc.lexicon@.len() <= total_tokens(dv, i as int),
            forall|b: int| 0 <= b < batches@.len() ==> wf_batch(#[trigger] batches@[b]@),
            forall|b: int, d: usize|
                0 <= b < batches@.len() && #[trigger] doc_in_batch(batches@[b]@, d) ==> (
                d as int) < acc.batch_start,
            batches_doc_increasing(batch_views(batches@)),
        decreases n - i,
    {
        let doc = &docs[i];
        proof {
            assert(dv[i as int] == (doc.external_id@, doc.length, tokens_view(doc.tokens@)));
            lemma_add_doc_terms_growth(acc.st(), tokens_view(doc.tokens@), i);
            assert(total_tokens(dv, i as int + 1) == total_tokens(dv, i as int)
                + dv[i as int].2.len());
            lemma_total_mono(dv, i as int + 1, n as int);
            lemma_mod_step(i as int, bs);
        }
        acc.add_document(&doc.external_id, doc.length, &doc.tokens);
        proof {
            assert(acc.st() == add_doc_tokens(
                spec_process(dv, bs, i as int).1,
                dv[i as int].2,
                i,
            ));
            assert(acc.docs@ =~= metas_of(dv).take(i as int + 1));
        }
        if acc.should_flush() {
            proof {
                assert(acc.batch_docs == batch_size);
                assert((i as int + 1) % bs == 0);
            }
            let ghost pre_batches = batches@;
            let ghost st2 = acc.st();
            let ghost pre_start = acc.batch_start;
            let b = acc.flush();
            batches.push(b);
            proof {
                assert(spill_views(batches@) =~= spill_views(pre_batches).push(
                    spec_flush(st2.posts),
                ));
                assert(spill_views(batches@) == spec_process(dv, bs, i as int + 1).0);
                assert(acc.st() == spec_process(dv, bs, i as int + 1).1);
                assert(forall|a: int|
                    0 <= a < pre_batches.len() ==> batches@[a] == pre_batches[a]);
                assert forall|bx: int, d: usize|
                    0 <= bx < batches@.len() && #[trigger] doc_in_batch(batches@[bx]@, d) implies (
                d as int) < acc.batch_start by {
                    if bx < pre_batches.len() {
                        assert(doc_in_batch(pre_batches[bx]@, d));
                        assert((d as int) < pre_start);
                    } else {
                        assert(batches@[bx]@ == b@);
                    }
                }
                assert forall|b1: int, b2: int, d1: usize, d2: usize|
                    0 <= b1 < b2 < batch_views(batches@).len() && #[trigger] doc_in_batch(
                    batch_views(batches@)[b1],
                    d1,
                ) && #[trigger] doc_in_batch(batch_views(batches@)[b2], d2) implies d1 < d2 by {
                    if b2 < pre_batches.len() {
                        assert(doc_in_batch(batch_views(pre_batches)[b1], d1));
                        assert(doc_in_batch(batch_views(pre_batches)[b2], d2));
                    } else {
                        assert(batch_views(batches@)[b2] == b@);
                        assert(doc_in_batch(pre_batches[b1]@, d1));
                        assert((d1 as int) < pre_start);
                        assert(d2 >= pre_start);
                    }
                }
            }
        } else {
            proof {
                assert(acc.batch_docs < batch_size);
                assert((i as int + 1) % bs != 0);
                assert(spill_views(batches@) == spec_process(dv, bs, i as int + 1).0);
            }
        }
        i = i + 1;
    }
    if acc.batch_docs > 0 {
        proof {
            assert((n as int) % bs != 0);
        }
        let ghost pre_batches = batches@;
        let ghost st2 = acc.st();
        let ghost pre_start = acc.batch_start;
        let b = acc.flush();
        batches.push(b);
        proof {
            assert(spill_views(batches@) =~= spill_views(pre_batches).push(
                spec_flush(st2.posts),
            ));
            assert(spill_views(batches@) == spec_batches(dv, bs));
            assert(forall|a: int| 0 <= a < pre_batches.len() ==> batches@[a] == pre_batches[a]);
            assert forall|b1: int, b2: int, d1: usize, d2: usize|
                0 <= b1 < b2 < batch_views(batches@).len() && #[trigger] doc_in_batch(
                batch_views(batches@)[b1],
                d1,
            ) && #[trigger] doc_in_batch(batch_views(batches@)[b2], d2) implies d1 < d2 by {
                if b2 < pre_batches.len() {
                    assert(doc_in_batch(batch_views(pre_batches)[b1], d1));
                    assert(doc_in_batch(batch_views(pre_batches)[b2], d2));
                } else {
                    assert(batch_views(batches@)[b2] == b@);
                    assert(doc_in_batch(pre_batches[b1]@, d1));
                    assert((d1 as int) < pre_start);
                    assert(d2 >= pre_start);
                }
            }
        }
    } else {
        proof {
            assert((n as int) % bs == 0);
            assert(spill_views(batches@) == spec_batches(dv, bs));
        }
    }
    proof {
        assert(metas_of(dv).take(n as int) =~= metas_of(dv));
    }
    let Accumulator { lexicon, docs: doc_table, .. } = acc;
    (batches, lexicon, doc_table)
}

/// A token's resolution in a batch depends only on the batch's records.
proof fn lemma_bpf_congruent(b1: Seq<TokenPostings>, b2: Seq<TokenPostings>, t: u32)
    requires
        stream_view(b1) == stream_view(b2),
    ensures
        crate::postings::batch_postings_for(b1, t) == crate::postings::batch_postings_for(b2, t),
    decreases b1.len(),
{
    assert(b1.len() == b2.len()) by {
        assert(stream_view(b1).len() == b1.len());
        assert(stream_view(b2).len() == b2.len());
    }
    if b1.len() > 0 {
        assert(stream_view(b1)[0] == (b1[0].token_id, b1[0].postings@));
        assert(stream_view(b2)[0] == (b2[0].token_id, b2[0].postings@));
        assert(stream_view(b1.drop_first()) =~= stream_view(b2.drop_first())) by {
            assert forall|i: int|
                0 <= i < b1.len() - 1 implies stream_view(b1.drop_first())[i] == stream_view(
                b2.drop_first(),
            )[i] by {
                assert(b1.drop_first()[i] == b1[i + 1] && b2.drop_first()[i] == b2[i + 1]);
                assert(stream_view(b1.drop_first())[i] == (
                    b1[i + 1].token_id,
                    b1[i + 1].postings@,
                ));
                assert(stream_view(b2.drop_first())[i] == (
                    b2[i + 1].token_id,
                    b2[i + 1].postings@,
                ));
                assert(stream_view(b1)[i + 1] == (b1[i + 1].token_id, b1[i + 1].postings@));
                assert(stream_view(b2)[i + 1] == (b2[i + 1].token_id, b2[i + 1].postings@));
            }
        }
        lemma_bpf_congruent(b1.drop_first(), b2.drop_first(), t);
    }
}

/// Building the index twice from the same corpus yields byte-identical
/// artifacts: the spilled batches are the same function of the document
/// stream both times, and any correctly merged streams over
/// record-identical batches encode to the same postings blob and
/// directory.
pub proof fn lemma_rebuild_identical(
    bs1: Seq<Vec<TokenPostings>>,
    bs2: Seq<Vec<TokenPostings>>,
    m1: Seq<TokenPostings>,
    m2: Seq<TokenPostings>,
)
    requires
        spill_views(bs1) == spill_views(bs2),
        wf_batch(m1),
        wf_batch(m2),
        forall|t: u32| #[trigger] crate::postings::batch_postings_for(m1, t)
            == crate::postings::concat_postings_for(batch_views(bs1), t),
        forall|t: u32| #[trigger] crate::postings::batch_postings_for(m2, t)
            == crate::postings::concat_postings_for(batch_views(bs2), t),
    ensures
        stream_view(m1) == stream_view(m2),
        crate::builder::spec_blob(m1) == crate::builder::spec_blob(m2),
        crate::builder::spec_dir(m1) == crate::builder::spec_dir(m2),
{
    assert(bs1.len() == bs2.len()) by {
        assert(spill_views(bs1).len() == bs1.len());
        assert(spill_views(bs2).len() == bs2.len());
    }
    assert forall|t: u32| #[trigger] crate::postings::concat_postings_for(batch_views(bs1), t)
        == crate::postings::concat_postings_for(batch_views(bs2), t) by {
        assert forall|j: int|
            0 <= j < bs1.len() implies #[trigger] crate::postings::batch_postings_for(
            batch_views(bs1)[j],
            t,
        ) == crate::postings::batch_postings_for(batch_views(bs2)[j], t) by {
            assert(spill_views(bs1)[j] == stream_view(bs1[j]@));
            assert(spill_views(bs2)[j] == stream_view(bs2[j]@));
            lemma_bpf_congruent(bs1[j]@, bs2[j]@, t);
        }
        crate::merge::lemma_concat_pointwise(batch_views(bs1), batch_views(bs2), t);
    }
    crate::builder::lemma_build_idempotent(batch_views(bs1), m1, m2);
}

proof fn lemma_total_mono(
    dv: Seq<(Seq<char>, u32, Seq<(Seq<char>, u32)>)>,
    i: int,
    j: int,
)
    requires
        0 <= i <= j,
    ensures
        total_tokens(dv, i) <= total_tokens(dv, j),
    decreases j - i,
{
    if i < j {
        lemma_total_mono(dv, i, j - 1);
    }
}

} // verus!
