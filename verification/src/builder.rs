//! Binary index builder: consumes the merged postings stream in one pass
//! and emits the postings blob together with the directory that maps each
//! token id to its byte range in the blob. Entries are laid out
//! contiguously in stream order, so offsets are strictly increasing and
//! ranges never overlap.

use vstd::prelude::*;
use crate::postings::{TokenPostings, wf_batch};
use crate::codec::{spec_encode_plist, encode_plist, MAX_PLIST_LEN};

verus! {

/// One directory record: token `token_id`'s postings list occupies bytes
/// `[offset, offset + length)` of the blob.
#[derive(Clone, Copy, PartialEq, Eq, Structural, Debug)]
pub struct DirEntry {
    pub token_id: u32,
    pub offset: u64,
    pub length: u32,
}

/// The two binary artifacts the builder emits (the lexicon and document
/// metadata tables are carried separately).
pub struct BinIndex {
    pub blob: Vec<u8>,
    pub directory: Vec<DirEntry>,
}

/// The blob the merged stream encodes to: each token's postings list
/// encoding, appended in stream order.
pub open spec fn spec_blob(m: Seq<TokenPostings>) -> Seq<u8>
    decreases m.len(),
{
    if m.len() == 0 {
        Seq::empty()
    } else {
        spec_blob(m.drop_last()) + spec_encode_plist(m.last().postings@)
    }
}

/// The directory the merged stream builds: one entry per record, offsets
/// running contiguously through the blob.
pub open spec fn spec_dir(m: Seq<TokenPostings>) -> Seq<DirEntry>
    decreases m.len(),
{
    if m.len() == 0 {
        Seq::empty()
    } else {
        spec_dir(m.drop_last()).push(
            DirEntry {
                token_id: m.last().token_id,
                offset: spec_blob(m.drop_last()).len() as u64,
                length: spec_encode_plist(m.last().postings@).len() as u32,
            },
        )
    }
}

/// Every postings list in the stream is short enough for its encoding's
/// length to fit a directory entry's 32-bit length field.
pub open spec fn bounded_lists(m: Seq<TokenPostings>) -> bool {
    forall|i: int| 0 <= i < m.len() ==> #[trigger] m[i].postings@.len() <= MAX_PLIST_LEN
}

/// How the built artifacts are laid out: entry `i` names token `i` of the
/// stream, its range holds exactly that token's encoded postings list,
/// and the ranges tile the blob in order.
pub proof fn lemma_build_layout(m: Seq<TokenPostings>)
    requires
        bounded_lists(m),
        spec_blob(m).len() < 0x10000000000000000,
    ensures
        spec_dir(m).len() == m.len(),
        forall|i: int| 0 <= i < m.len() ==> #[trigger] spec_dir(m)[i].token_id == m[i].token_id,
        forall|i: int|
            0 <= i < m.len() ==> #[trigger] spec_dir(m)[i].offset as int == spec_blob(
                m.take(i),
            ).len(),
        forall|i: int|
            0 <= i < m.len() ==> #[trigger] spec_dir(m)[i].length as int == 4 + 12
                * m[i].postings@.len(),
        forall|i: int|
            0 <= i < m.len() ==> #[trigger] spec_dir(m)[i].offset + spec_dir(m)[i].length
                <= spec_blob(m).len(),
        forall|i: int|
            0 <= i < m.len() ==> #[trigger] spec_blob(m).subrange(
                spec_dir(m)[i].offset as int,
                spec_dir(m)[i].offset + spec_dir(m)[i].length,
            ) == spec_encode_plist(m[i].postings@),
        forall|j: int|
            1 <= j < m.len() ==> #[trigger] spec_dir(m)[j].offset as int == spec_dir(m)[j
                - 1].offset + spec_dir(m)[j - 1].length,
        m.len() > 0 ==> spec_dir(m)[0].offset == 0,
        m.len() > 0 ==> spec_dir(m).last().offset + spec_dir(m).last().length == spec_blob(
            m,
        ).len(),
    decreases m.len(),
{
    if m.len() > 0 {
        let dl = m.drop_last();
        let enc = spec_encode_plist(m.last().postings@);
        crate::codec::lemma_enc_le_len(m.last().postings@.len() as int, 4);
        crate::codec::lemma_body_len(m.last().postings@);
        assert(enc.len() == 4 + 12 * m.last().postings@.len());
        assert(bounded_lists(dl)) by {
            assert(forall|i: int| 0 <= i < dl.len() ==> dl[i] == m[i]);
        }
        lemma_build_layout(dl);
        assert(spec_blob(m).len() == spec_blob(dl).len() + enc.len());
        assert forall|i: int| 0 <= i < m.len() implies #[trigger] spec_dir(m)[i].offset as int
            == spec_blob(m.take(i)).len() && spec_dir(m)[i].token_id == m[i].token_id && spec_dir(
            m,
        )[i].length as int == 4 + 12 * m[i].postings@.len() && spec_dir(m)[i].offset + spec_dir(
            m,
        )[i].length <= spec_blob(m).len() && spec_blob(m).subrange(
            spec_dir(m)[i].offset as int,
            spec_dir(m)[i].offset + spec_dir(m)[i].length,
        ) == spec_encode_plist(m[i].postings@) by {
            if i < m.len() - 1 {
                assert(spec_dir(m)[i] == spec_dir(dl)[i]);
                assert(m.take(i) =~= dl.take(i));
                assert(dl[i] == m[i]);
                assert(spec_blob(m).subrange(
                    spec_dir(m)[i].offset as int,
                    spec_dir(m)[i].offset + spec_dir(m)[i].length,
                ) =~= spec_blob(dl).subrange(
                    spec_dir(dl)[i].offset as int,
                    spec_dir(dl)[i].offset + spec_dir(dl)[i].length,
                ));
            } else {
                assert(spec_dir(m)[i] == spec_dir(m).last());
                assert(m.take(i) =~= dl);
                assert(m[i] == m.last());
                assert(spec_blob(m).subrange(
                    spec_blob(dl).len() as int,
                    spec_blob(dl).len() + enc.len() as int,
                ) =~= enc);
            }
        }
        assert(spec_dir(m).last().offset + spec_dir(m).last().length == spec_blob(m).len());
        assert(spec_dir(m)[0].offset == 0) by {
            if m.len() == 1 {
                assert(spec_blob(dl) =~= Seq::<u8>::empty());
            } else {
                assert(spec_dir(m)[0] == spec_dir(dl)[0]);
            }
        }
        assert forall|j: int| 1 <= j < m.len() implies #[trigger] spec_dir(m)[j].offset as int
            == spec_dir(m)[j - 1].offset + spec_dir(m)[j - 1].length by {
            if j < m.len() - 1 {
                assert(spec_dir(m)[j] == spec_dir(dl)[j]);
                assert(spec_dir(m)[j - 1] == spec_dir(dl)[j - 1]);
            } else {
                assert(spec_dir(m)[j - 1] == spec_dir(dl)[j - 1]);
                if dl.len() > 0 {
                    assert(spec_dir(dl)[j - 1] == spec_dir(dl).last());
                    assert(spec_dir(m)[j].offset as int == spec_blob(dl).len());
                }
            }
        }
    }
}

/// Whether every postings list of the stream is short enough for the
/// directory's 32-bit length field.
pub fn check_bounded(m: &Vec<TokenPostings>) -> (r: bool)
    ensures
        r == bounded_lists(m@),
{
    let n = m.len();
    let mut i: usize = 0;
    while i < n
        invariant
            i <= n,
            n == m@.len(),
            forall|j: int| 0 <= j < i ==> #[trigger] m@[j].postings@.len() <= MAX_PLIST_LEN,
        decreases n - i,
    {
        if m[i].postings.len() > MAX_PLIST_LEN {
            return false;
        }
        i = i + 1;
    }
    true
}

/// Builds the binary index artifacts from the merged stream in one pass.
pub fn build_bin_index(merged: &Vec<TokenPostings>) -> (r: BinIndex)
    requires
        bounded_lists(merged@),
    ensures
        r.blob@ == spec_blob(merged@),
        r.directory@ == spec_dir(merged@),
{
    let mut blob: Vec<u8> = Vec::new();
    let mut directory: Vec<DirEntry> = Vec::new();
    let n = merged.len();
    let mut i: usize = 0;
    proof {
        assert(merged@.take(0) =~= Seq::<TokenPostings>::empty());
    }
    while i < n
        invariant
            i <= n,
            n == merged@.len(),
            bounded_lists(merged@),
            blob@ == spec_blob(merged@.take(i as int)),
            directory@ == spec_dir(merged@.take(i as int)),
        decreases n - i,
    {
        let rec = &merged[i];
        let enc = encode_plist(&rec.postings);
        let offset: u64 = blob.len() as u64;
        let length: u32 = enc.len() as u32;
        directory.push(DirEntry { token_id: rec.token_id, offset, length });
        let ghost pre_blob = blob@;
        let m = enc.len();
        let mut r: usize = 0;
        while r < m
            invariant
                r <= m,
                m == enc@.len(),
                blob@ =~= pre_blob + enc@.take(r as int),
            decreases m - r,
        {
            let b = enc[r];
            blob.push(b);
            proof {
                assert(blob@ =~= pre_blob + enc@.take(r as int + 1));
            }
            r = r + 1;
        }
        proof {
            assert(enc@.take(m as int) =~= enc@);
            assert(merged@.take(i as int + 1).drop_last() =~= merged@.take(i as int));
            assert(merged@.take(i as int + 1).last() == merged@[i as int]);
            assert(blob@ =~= spec_blob(merged@.take(i as int + 1)));
            assert(directory@ =~= spec_dir(merged@.take(i as int + 1)));
        }
        i = i + 1;
    }
    proof {
        assert(merged@.take(n as int) =~= merged@);
    }
    BinIndex { blob, directory }
}

/// Directory entries are non-overlapping and strictly increasing, in
/// token id and in offset, however many distinct tokens the stream holds.
pub proof fn lemma_directory_entries(m: Seq<TokenPostings>)
    requires
        wf_batch(m),
        bounded_lists(m),
        spec_blob(m).len() < 0x10000000000000000,
    ensures
        forall|i: int, j: int|
            0 <= i < j < m.len() ==> #[trigger] spec_dir(m)[i].token_id
                < #[trigger] spec_dir(m)[j].token_id,
        forall|i: int, j: int|
            0 <= i < j < m.len() ==> #[trigger] spec_dir(m)[i].offset + spec_dir(m)[i].length
                <= #[trigger] spec_dir(m)[j].offset,
        forall|i: int, j: int|
            0 <= i < j < m.len() ==> #[trigger] spec_dir(m)[i].offset
                < #[trigger] spec_dir(m)[j].offset,
{
    lemma_build_layout(m);
    assert forall|i: int, j: int|
        0 <= i < j < m.len() implies #[trigger] spec_dir(m)[i].offset + spec_dir(m)[i].length
        <= #[trigger] spec_dir(m)[j].offset && spec_dir(m)[i].offset < spec_dir(m)[j].offset
        && spec_dir(m)[i].token_id < spec_dir(m)[j].token_id by {
        lemma_offsets_chain(m, i, j);
        assert(spec_dir(m)[i].length > 0);
    }
}

proof fn lemma_offsets_chain(m: Seq<TokenPostings>, i: int, j: int)
    requires
        bounded_lists(m),
        spec_blob(m).len() < 0x10000000000000000,
        0 <= i < j < m.len(),
    ensures
        spec_dir(m)[i].offset + spec_dir(m)[i].length <= spec_dir(m)[j].offset,
    decreases j - i,
{
    lemma_build_layout(m);
    assert(spec_dir(m)[j].offset as int == spec_dir(m)[j - 1].offset + spec_dir(m)[j - 1].length);
    if j == i + 1 {
    } else {
        lemma_offsets_chain(m, i, j - 1);
    }
}

/// Merging and building are deterministic: any two merged streams that
/// are correct for the same spill batches are equal, and hence encode to
/// byte-identical blob and directory artifacts.
pub proof fn lemma_build_idempotent(
    bss: Seq<Seq<TokenPostings>>,
    m1: Seq<TokenPostings>,
    m2: Seq<TokenPostings>,
)
    requires
        wf_batch(m1),
        wf_batch(m2),
        forall|t: u32| #[trigger] crate::postings::batch_postings_for(m1, t)
            == crate::postings::concat_postings_for(bss, t),
        forall|t: u32| #[trigger] crate::postings::batch_postings_for(m2, t)
            == crate::postings::concat_postings_for(bss, t),
    ensures
        crate::postings::stream_view(m1) == crate::postings::stream_view(m2),
        spec_blob(m1) == spec_blob(m2),
        spec_dir(m1) == spec_dir(m2),
{
    lemma_merged_unique(m1, m2);
    lemma_artifacts_congruent(m1, m2);
}

/// The artifacts depend only on the stream's mathematical content.
proof fn lemma_artifacts_congruent(m1: Seq<TokenPostings>, m2: Seq<TokenPostings>)
    requires
        crate::postings::stream_view(m1) == crate::postings::stream_view(m2),
    ensures
        spec_blob(m1) == spec_blob(m2),
        spec_dir(m1) == spec_dir(m2),
    decreases m1.len(),
{
    assert(m1.len() == m2.len()) by {
        assert(crate::postings::stream_view(m1).len() == m1.len());
        assert(crate::postings::stream_view(m2).len() == m2.len());
    }
    if m1.len() > 0 {
        assert(crate::postings::stream_view(m1)[m1.len() - 1] == (
            m1.last().token_id,
            m1.last().postings@,
        ));
        assert(crate::postings::stream_view(m2)[m2.len() - 1] == (
            m2.last().token_id,
            m2.last().postings@,
        ));
        assert(crate::postings::stream_view(m1)[m1.len() - 1] == crate::postings::stream_view(
            m2,
        )[m2.len() - 1]);
        assert(m1.last().token_id == m2.last().token_id && m1.last().postings@
            == m2.last().postings@);
        assert forall|i: int|
            0 <= i < m1.len() - 1 implies crate::postings::stream_view(m1.drop_last())[i]
            == crate::postings::stream_view(m2.drop_last())[i] by {
            assert(m1.drop_last()[i] == m1[i] && m2.drop_last()[i] == m2[i]);
            assert(crate::postings::stream_view(m1.drop_last())[i] == (
                m1[i].token_id,
                m1[i].postings@,
            ));
            assert(crate::postings::stream_view(m2.drop_last())[i] == (
                m2[i].token_id,
                m2[i].postings@,
            ));
            assert(crate::postings::stream_view(m1)[i] == (m1[i].token_id, m1[i].postings@));
            assert(crate::postings::stream_view(m2)[i] == (m2[i].token_id, m2[i].postings@));
        }
        assert(crate::postings::stream_view(m1.drop_last()) =~= crate::postings::stream_view(
            m2.drop_last(),
        ));
        lemma_artifacts_congruent(m1.drop_last(), m2.drop_last());
        assert(spec_blob(m1) =~= spec_blob(m2));
        assert(spec_dir(m1) =~= spec_dir(m2));
    } else {
        assert(spec_blob(m1) =~= spec_blob(m2));
        assert(spec_dir(m1) =~= spec_dir(m2));
    }
}

/// A well-formed merged stream is pinned down by the postings list it
/// assigns to each token.
pub proof fn lemma_merged_unique(m1: Seq<TokenPostings>, m2: Seq<TokenPostings>)
    requires
        wf_batch(m1),
        wf_batch(m2),
        forall|t: u32| #[trigger] crate::postings::batch_postings_for(m1, t)
            == crate::postings::batch_postings_for(m2, t),
    ensures
        crate::postings::stream_view(m1) == crate::postings::stream_view(m2),
    decreases m1.len(),
{
    if m1.len() == 0 && m2.len() == 0 {
        assert(crate::postings::stream_view(m1) =~= crate::postings::stream_view(m2));
    } else if m1.len() == 0 {
        lemma_bpf_at(m2, 0);
        crate::merge::lemma_bpf_absent(m1, m2[0].token_id);
    } else if m2.len() == 0 {
        lemma_bpf_at(m1, 0);
        crate::merge::lemma_bpf_absent(m2, m1[0].token_id);
    } else {
        lemma_bpf_at(m1, 0);
        lemma_bpf_at(m2, 0);
        // The head tokens agree: each head's list is non-empty in the
        // other stream, and heads carry the least token of a stream.
        if m1[0].token_id < m2[0].token_id {
            assert(!crate::postings::batch_has_token(m2, m1[0].token_id));
            crate::merge::lemma_bpf_absent(m2, m1[0].token_id);
        }
        if m2[0].token_id < m1[0].token_id {
            assert(!crate::postings::batch_has_token(m1, m2[0].token_id));
            crate::merge::lemma_bpf_absent(m1, m2[0].token_id);
        }
        assert(m1[0].token_id == m2[0].token_id);
        assert(m1[0].postings@ == m2[0].postings@);
        assert(wf_batch(m1.drop_first())) by {
            assert(forall|i: int|
                0 <= i < m1.drop_first().len() ==> m1.drop_first()[i] == m1[i + 1]);
        }
        assert(wf_batch(m2.drop_first())) by {
            assert(forall|i: int|
                0 <= i < m2.drop_first().len() ==> m2.drop_first()[i] == m2[i + 1]);
        }
        assert forall|t: u32| #[trigger] crate::postings::batch_postings_for(m1.drop_first(), t)
            == crate::postings::batch_postings_for(m2.drop_first(), t) by {
            lemma_bpf_drop_first(m1, t);
            lemma_bpf_drop_first(m2, t);
        }
        lemma_merged_unique(m1.drop_first(), m2.drop_first());
        assert(m1.len() == m2.len()) by {
            assert(crate::postings::stream_view(m1.drop_first()).len() == m1.len() - 1);
            assert(crate::postings::stream_view(m2.drop_first()).len() == m2.len() - 1);
        }
        assert forall|i: int|
            0 <= i < m1.len() implies crate::postings::stream_view(m1)[i]
            == crate::postings::stream_view(m2)[i] by {
            assert(crate::postings::stream_view(m1)[i] == (m1[i].token_id, m1[i].postings@));
            assert(crate::postings::stream_view(m2)[i] == (m2[i].token_id, m2[i].postings@));
            if i >= 1 {
                assert(m1.drop_first()[i - 1] == m1[i] && m2.drop_first()[i - 1] == m2[i]);
                assert(crate::postings::stream_view(m1.drop_first())[i - 1]
                    == crate::postings::stream_view(m2.drop_first())[i - 1]);
                assert(crate::postings::stream_view(m1.drop_first())[i - 1] == (
                    m1[i].token_id,
                    m1[i].postings@,
                ));
                assert(crate::postings::stream_view(m2.drop_first())[i - 1] == (
                    m2[i].token_id,
                    m2[i].postings@,
                ));
            }
        }
        assert(crate::postings::stream_view(m1) =~= crate::postings::stream_view(m2));
    }
}

/// In a well-formed stream, record `i`'s token resolves to record `i`'s
/// list.
proof fn lemma_bpf_at(m: Seq<TokenPostings>, i: int)
    requires
        wf_batch(m),
        0 <= i < m.len(),
    ensures
        crate::postings::batch_postings_for(m, m[i].token_id) == m[i].postings@,
    decreases i,
{
    if i == 0 {
    } else {
        assert(m[0].token_id != m[i].token_id);
        assert(wf_batch(m.drop_first())) by {
            assert(forall|j: int|
                0 <= j < m.drop_first().len() ==> m.drop_first()[j] == m[j + 1]);
        }
        lemma_bpf_at(m.drop_first(), i - 1);
        assert(m.drop_first()[i - 1] == m[i]);
    }
}

/// Dropping the head changes only the head token's resolution, which
/// becomes empty.
proof fn lemma_bpf_drop_first(m: Seq<TokenPostings>, t: u32)
    requires
        wf_batch(m),
        m.len() > 0,
    ensures
        t != m[0].token_id ==> crate::postings::batch_postings_for(m.drop_first(), t)
            == crate::postings::batch_postings_for(m, t),
        t == m[0].token_id ==> crate::postings::batch_postings_for(m.drop_first(), t) =~= Seq::<
            crate::postings::Posting,
        >::empty(),
{
    assert(wf_batch(m.drop_first())) by {
        assert(forall|j: int| 0 <= j < m.drop_first().len() ==> m.drop_first()[j] == m[j + 1]);
    }
    if t == m[0].token_id {
        assert(!crate::postings::batch_has_token(m.drop_first(), t)) by {
            assert(forall|j: int|
                0 <= j < m.drop_first().len() ==> m.drop_first()[j].token_id > m[0].token_id);
        }
        crate::merge::lemma_bpf_absent(m.drop_first(), t);
    }
}

} // verus!
