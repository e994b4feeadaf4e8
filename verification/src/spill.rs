//! Serialization of the transient and persisted artifacts: spill batches,
//! the lexicon table, and the document metadata table. Each can be
//! written in a compact binary form (production) or a human-readable
//! structured form (debugging); the two are functionally equivalent and
//! chosen once per build.

use vstd::prelude::*;
use crate::postings::{Posting, TokenPostings, wf_batch, wf_plist, stream_view};
use crate::lexicon::{Lexicon, DocTable, pairs_view, lexicon_rows, sort_rows, rows_describe};
use crate::errors::IndexError;

verus! {

/// Which on-disk encoding a build uses.
#[derive(Clone, Copy, PartialEq, Eq, Structural, Debug)]
pub enum SpillCodec {
    Binary,
    Readable,
}

/// A batch's records with every value plain: document ids widened to
/// `u64` so the byte form does not depend on the machine's word size.
pub open spec fn plainify(sv: Seq<(u32, Seq<Posting>)>) -> Seq<(u32, Seq<(u64, u32)>)> {
    sv.map_values(
        |r: (u32, Seq<Posting>)|
            (r.0, r.1.map_values(|p: Posting| (p.doc_id as u64, p.freq))),
    )
}

pub open spec fn recs_view(v: Seq<(u32, Vec<(u64, u32)>)>) -> Seq<(u32, Seq<(u64, u32)>)> {
    v.map_values(|r: (u32, Vec<(u64, u32)>)| (r.0, r.1@))
}

pub uninterp spec fn bincode_records_bytes(m: Seq<(u32, Seq<(u64, u32)>)>) -> Seq<u8>;

pub uninterp spec fn json_records_bytes(m: Seq<(u32, Seq<(u64, u32)>)>) -> Seq<u8>;

pub uninterp spec fn bincode_pairs_bytes(m: Seq<(Seq<char>, u32)>) -> Seq<u8>;

pub uninterp spec fn json_pairs_bytes(m: Seq<(Seq<char>, u32)>) -> Seq<u8>;

/// Relies on bincode::serialize: the bytes are a function of the value
/// alone, and serializing a length-carrying sequence of plain integers
/// into a byte vector cannot fail.
#[verifier::external_body]
fn bincode_encode_records(recs: &Vec<(u32, Vec<(u64, u32)>)>) -> (r: Option<Vec<u8>>)
    ensures
        r is Some,
        r->0@ == bincode_records_bytes(recs_view(recs@)),
{
    match bincode::serialize(recs) {
        Ok(v) => Some(v),
        Err(_) => None,
    }
}

/// Relies on bincode::deserialize inverting bincode::serialize on this
/// type.
#[verifier::external_body]
fn bincode_decode_records(bytes: &Vec<u8>) -> (r: Option<Vec<(u32, Vec<(u64, u32)>)>>)
    ensures
        forall|m: Seq<(u32, Seq<(u64, u32)>)>|
            bytes@ == bincode_records_bytes(m) ==> r is Some && recs_view(r->0@) == m,
{
    match bincode::deserialize(bytes.as_slice()) {
        Ok(v) => Some(v),
        Err(_) => None,
    }
}

/// Relies on serde_json::to_vec: the bytes are a function of the value
/// alone, and writing sequences and integers to a byte vector cannot
/// fail (only maps with non-string keys can).
#[verifier::external_body]
fn json_encode_records(recs: &Vec<(u32, Vec<(u64, u32)>)>) -> (r: Option<Vec<u8>>)
    ensures
        r is Some,
        r->0@ == json_records_bytes(recs_view(recs@)),
{
    match serde_json::to_vec(recs) {
        Ok(v) => Some(v),
        Err(_) => None,
    }
}

/// Relies on serde_json::from_slice inverting serde_json::to_vec on this
/// type.
#[verifier::external_body]
fn json_decode_records(bytes: &Vec<u8>) -> (r: Option<Vec<(u32, Vec<(u64, u32)>)>>)
    ensures
        forall|m: Seq<(u32, Seq<(u64, u32)>)>|
            bytes@ == json_records_bytes(m) ==> r is Some && recs_view(r->0@) == m,
{
    match serde_json::from_slice(bytes.as_slice()) {
        Ok(v) => Some(v),
        Err(_) => None,
    }
}

/// Relies on bincode::serialize: the bytes are a function of the value
/// alone, and serializing a length-carrying sequence of strings and
/// integers into a byte vector cannot fail.
#[verifier::external_body]
fn bincode_encode_pairs(pairs: &Vec<(String, u32)>) -> (r: Option<Vec<u8>>)
    ensures
        r is Some,
        r->0@ == bincode_pairs_bytes(pairs_view(pairs@)),
{
    match bincode::serialize(pairs) {
        Ok(v) => Some(v),
        Err(_) => None,
    }
}

/// Relies on bincode::deserialize inverting bincode::serialize on this
/// type.
#[verifier::external_body]
fn bincode_decode_pairs(bytes: &Vec<u8>) -> (r: Option<Vec<(String, u32)>>)
    ensures
        forall|m: Seq<(Seq<char>, u32)>|
            bytes@ == bincode_pairs_bytes(m) ==> r is Some && pairs_view(r->0@) == m,
{
    match bincode::deserialize(bytes.as_slice()) {
        Ok(v) => Some(v),
        Err(_) => None,
    }
}

/// Relies on serde_json::to_vec: the bytes are a function of the value
/// alone, and writing sequences, strings and integers to a byte vector
/// cannot fail (only maps with non-string keys can).
#[verifier::external_body]
fn json_encode_pairs(pairs: &Vec<(String, u32)>) -> (r: Option<Vec<u8>>)
    ensures
        r is Some,
        r->0@ == json_pairs_bytes(pairs_view(pairs@)),
{
    match serde_json::to_vec(pairs) {
        Ok(v) => Some(v),
        Err(_) => None,
    }
}

/// Relies on serde_json::from_slice inverting serde_json::to_vec on this
/// type.
#[verifier::external_body]
fn json_decode_pairs(bytes: &Vec<u8>) -> (r: Option<Vec<(String, u32)>>)
    ensures
        forall|m: Seq<(Seq<char>, u32)>|
            bytes@ == json_pairs_bytes(m) ==> r is Some && pairs_view(r->0@) == m,
{
    match serde_json::from_slice(bytes.as_slice()) {
        Ok(v) => Some(v),
        Err(_) => None,
    }
}

/// The byte form of a spill batch under each codec.
pub open spec fn spill_bytes(codec: SpillCodec, sv: Seq<(u32, Seq<Posting>)>) -> Seq<u8> {
    match codec {
        SpillCodec::Binary => bincode_records_bytes(plainify(sv)),
        SpillCodec::Readable => json_records_bytes(plainify(sv)),
    }
}

/// The byte form of a (term or metadata) table under each codec.
pub open spec fn table_bytes(codec: SpillCodec, pv: Seq<(Seq<char>, u32)>) -> Seq<u8> {
    match codec {
        SpillCodec::Binary => bincode_pairs_bytes(pv),
        SpillCodec::Readable => json_pairs_bytes(pv),
    }
}

/// Widens a batch's postings to the plain serialized shape.
fn to_plain(batch: &Vec<TokenPostings>) -> (r: Vec<(u32, Vec<(u64, u32)>)>)
    ensures
        recs_view(r@) == plainify(stream_view(batch@)),
{
    let n = batch.len();
    let mut out: Vec<(u32, Vec<(u64, u32)>)> = Vec::new();
    let mut i: usize = 0;
    while i < n
        invariant
            i <= n,
            n == batch@.len(),
            recs_view(out@) =~= plainify(stream_view(batch@)).take(i as int),
        decreases n - i,
    {
        let rec = &batch[i];
        let m = rec.postings.len();
        let mut ps: Vec<(u64, u32)> = Vec::new();
        let mut k: usize = 0;
        while k < m
            invariant
                k <= m,
                m == rec.postings@.len(),
                ps@ =~= rec.postings@.map_values(
                    |p: Posting| (p.doc_id as u64, p.freq),
                ).take(k as int),
            decreases m - k,
        {
            let p = rec.postings[k];
            ps.push((p.doc_id as u64, p.freq));
            proof {
                assert(ps@ =~= rec.postings@.map_values(
                    |p: Posting| (p.doc_id as u64, p.freq),
                ).take(k as int + 1));
            }
            k = k + 1;
        }
        let ghost pre_out = out@;
        out.push((rec.token_id, ps));
        proof {
            assert(ps@ =~= rec.postings@.map_values(|p: Posting| (p.doc_id as u64, p.freq)));
            assert(recs_view(pre_out).len() == pre_out.len());
            assert(recs_view(pre_out) == plainify(stream_view(batch@)).take(i as int));
            assert(pre_out.len() == i);
            assert forall|k: int|
                0 <= k < i + 1 implies recs_view(out@)[k] == plainify(
                stream_view(batch@),
            ).take(i as int + 1)[k] by {
                if k < i {
                    assert(out@[k] == pre_out[k]);
                    assert(recs_view(out@)[k] == (pre_out[k].0, pre_out[k].1@));
                    assert(recs_view(pre_out)[k] == (pre_out[k].0, pre_out[k].1@));
                } else {
                    assert(recs_view(out@)[k] == (rec.token_id, ps@));
                    assert(stream_view(batch@)[k] == (batch@[k].token_id, batch@[k].postings@));
                    assert(plainify(stream_view(batch@))[k] == (
                        batch@[k].token_id,
                        batch@[k].postings@.map_values(|p: Posting| (p.doc_id as u64, p.freq)),
                    ));
                }
            }
            assert(recs_view(out@) =~= plainify(stream_view(batch@)).take(i as int + 1));
        }
        i = i + 1;
    }
    proof {
        assert(plainify(stream_view(batch@)).take(n as int) =~= plainify(stream_view(batch@)));
    }
    out
}

/// Narrows decoded plain records back to postings; fails on a document
/// id too wide for this machine.
fn from_plain(recs: &Vec<(u32, Vec<(u64, u32)>)>) -> (r: Result<Vec<TokenPostings>, IndexError>)
    ensures
        r is Ok ==> plainify(stream_view(r->Ok_0@)) == recs_view(recs@),
        r is Err ==> r->Err_0 == IndexError::CorruptArtifact,
        (forall|i: int, k: int|
            0 <= i < recs_view(recs@).len() && 0 <= k < recs_view(recs@)[i].1.len() ==> (
            #[trigger] recs_view(recs@)[i].1[k]).0 <= usize::MAX) ==> r is Ok,
{
    let n = recs.len();
    let mut out: Vec<TokenPostings> = Vec::new();
    let mut i: usize = 0;
    while i < n
        invariant
            i <= n,
            n == recs@.len(),
            plainify(stream_view(out@)) =~= recs_view(recs@).take(i as int),
        decreases n - i,
    {
        let rec = &recs[i];
        let m = rec.1.len();
        let mut ps: Vec<Posting> = Vec::new();
        let mut k: usize = 0;
        while k < m
            invariant
                k <= m,
                i < n,
                n == recs@.len(),
                rec == recs@[i as int],
                m == rec.1@.len(),
                ps@.map_values(|p: Posting| (p.doc_id as u64, p.freq)) =~= rec.1@.take(k as int),
            decreases m - k,
        {
            let pair = rec.1[k];
            if pair.0 > usize::MAX as u64 {
                proof {
                    assert(recs_view(recs@)[i as int] == (recs@[i as int].0, recs@[i as int].1@));
                    assert(recs_view(recs@)[i as int].1[k as int].0 == pair.0);
                }
                return Err(IndexError::CorruptArtifact);
            }
            let ghost pre_ps = ps@;
            ps.push(Posting { doc_id: pair.0 as usize, freq: pair.1 });
            proof {
                assert(pre_ps.map_values(|p: Posting| (p.doc_id as u64, p.freq)).len()
                    == pre_ps.len());
                assert(pre_ps.len() == k);
                let mapped = ps@.map_values(|p: Posting| (p.doc_id as u64, p.freq));
                assert forall|x: int| 0 <= x < k + 1 implies #[trigger] mapped[x] == rec.1@.take(
                    k as int + 1,
                )[x] by {
                    assert(mapped[x] == (ps@[x].doc_id as u64, ps@[x].freq));
                    if x < k {
                        assert(ps@[x] == pre_ps[x]);
                        assert(pre_ps.map_values(|p: Posting| (p.doc_id as u64, p.freq))[x] == (
                            pre_ps[x].doc_id as u64,
                            pre_ps[x].freq,
                        ));
                    } else {
                        assert(ps@[x].doc_id == pair.0 as usize && ps@[x].freq == pair.1);
                    }
                }
                assert(mapped =~= rec.1@.take(k as int + 1));
            }
            k = k + 1;
        }
        let ghost pre_out = out@;
        out.push(TokenPostings { token_id: rec.0, postings: ps });
        proof {
            assert(ps@.map_values(|p: Posting| (p.doc_id as u64, p.freq)) =~= rec.1@);
            assert(recs_view(recs@)[i as int] == (rec.0, rec.1@));
            assert(stream_view(pre_out).len() == pre_out.len());
            assert(plainify(stream_view(pre_out)).len() == pre_out.len());
            assert(plainify(stream_view(pre_out)) == recs_view(recs@).take(i as int));
            assert(pre_out.len() == i);
            assert forall|k: int|
                0 <= k < i + 1 implies plainify(stream_view(out@))[k] == recs_view(recs@).take(
                i as int + 1,
            )[k] by {
                assert(stream_view(out@)[k] == (out@[k].token_id, out@[k].postings@));
                assert(plainify(stream_view(out@))[k] == (
                    out@[k].token_id,
                    out@[k].postings@.map_values(|p: Posting| (p.doc_id as u64, p.freq)),
                ));
                if k < i {
                    assert(out@[k] == pre_out[k]);
                    assert(stream_view(pre_out)[k] == (pre_out[k].token_id, pre_out[k].postings@));
                    assert(plainify(stream_view(pre_out))[k] == (
                        pre_out[k].token_id,
                        pre_out[k].postings@.map_values(|p: Posting| (p.doc_id as u64, p.freq)),
                    ));
                } else {
                    assert(out@[k].token_id == rec.0 && out@[k].postings@ == ps@);
                }
            }
            assert(plainify(stream_view(out@)) =~= recs_view(recs@).take(i as int + 1));
        }
        i = i + 1;
    }
    proof {
        assert(recs_view(recs@).take(n as int) =~= recs_view(recs@));
    }
    Ok(out)
}

/// Two batches with the same records are equally well formed.
proof fn lemma_wf_batch_congruent(b1: Seq<TokenPostings>, b2: Seq<TokenPostings>)
    requires
        stream_view(b1) == stream_view(b2),
    ensures
        wf_batch(b1) == wf_batch(b2),
{
    assert(b1.len() == b2.len()) by {
        assert(stream_view(b1).len() == b1.len());
        assert(stream_view(b2).len() == b2.len());
    }
    assert forall|i: int| 0 <= i < b1.len() implies b1[i].token_id == b2[i].token_id && b1[i].postings@
        == b2[i].postings@ by {
        assert(stream_view(b1)[i] == (b1[i].token_id, b1[i].postings@));
        assert(stream_view(b2)[i] == (b2[i].token_id, b2[i].postings@));
    }
}

/// Widening postings is lossless: equal plain forms mean equal records.
proof fn lemma_plainify_injective(s1: Seq<(u32, Seq<Posting>)>, s2: Seq<(u32, Seq<Posting>)>)
    requires
        plainify(s1) == plainify(s2),
    ensures
        s1 == s2,
{
    assert(s1.len() == s2.len()) by {
        assert(plainify(s1).len() == s1.len());
        assert(plainify(s2).len() == s2.len());
    }
    assert forall|i: int| 0 <= i < s1.len() implies s1[i] == s2[i] by {
        assert(plainify(s1)[i] == (s1[i].0, s1[i].1.map_values(
            |p: Posting| (p.doc_id as u64, p.freq),
        )));
        assert(plainify(s2)[i] == (s2[i].0, s2[i].1.map_values(
            |p: Posting| (p.doc_id as u64, p.freq),
        )));
        let m1 = s1[i].1.map_values(|p: Posting| (p.doc_id as u64, p.freq));
        let m2 = s2[i].1.map_values(|p: Posting| (p.doc_id as u64, p.freq));
        assert(s1[i].1.len() == m1.len() && s2[i].1.len() == m2.len());
        assert forall|k: int| 0 <= k < s1[i].1.len() implies s1[i].1[k] == s2[i].1[k] by {
            assert(m1[k] == (s1[i].1[k].doc_id as u64, s1[i].1[k].freq));
            assert(m2[k] == (s2[i].1[k].doc_id as u64, s2[i].1[k].freq));
        }
        assert(s1[i].1 =~= s2[i].1);
    }
    assert(s1 =~= s2);
}

/// Whether a decoded run of records is a well-formed spill batch.
pub fn check_batch(b: &Vec<TokenPostings>) -> (r: bool)
    ensures
        r == wf_batch(b@),
{
    let n = b.len();
    let mut i: usize = 0;
    while i < n
        invariant
            i <= n,
            n == b@.len(),
            forall|x: int, y: int|
                0 <= x < y < i ==> #[trigger] b@[x].token_id < #[trigger] b@[y].token_id,
            forall|x: int| 0 <= x < i ==> wf_plist(#[trigger] b@[x].postings@),
            forall|x: int| 0 <= x < i ==> (#[trigger] b@[x].postings@).len() > 0,
        decreases n - i,
    {
        let rec = &b[i];
        if i > 0 && b[i - 1].token_id >= rec.token_id {
            return false;
        }
        if rec.postings.len() == 0 {
            return false;
        }
        let m = rec.postings.len();
        let mut k: usize = 0;
        while k < m
            invariant
                k <= m,
                i < n,
                n == b@.len(),
                m == rec.postings@.len(),
                rec == b@[i as int],
                forall|x: int, y: int|
                    0 <= x < y < k ==> (#[trigger] rec.postings@[x]).doc_id
                        < (#[trigger] rec.postings@[y]).doc_id,
                forall|x: int| 0 <= x < k ==> (#[trigger] rec.postings@[x]).freq >= 1,
            decreases m - k,
        {
            let p = rec.postings[k];
            if p.freq < 1 {
                return false;
            }
            if k > 0 && rec.postings[k - 1].doc_id >= p.doc_id {
                return false;
            }
            k = k + 1;
        }
        proof {
            assert forall|x: int, y: int|
                0 <= x < y < i + 1 implies #[trigger] b@[x].token_id
                < #[trigger] b@[y].token_id by {
                if y == i && x < i - 1 {
                    assert(b@[x].token_id < b@[i - 1].token_id);
                }
            }
        }
        i = i + 1;
    }
    true
}

/// Encodes one spill batch under the chosen codec; the bytes are a
/// function of the batch's records alone, and encoding cannot fail.
pub fn encode_spill(batch: &Vec<TokenPostings>, codec: SpillCodec) -> (r: Vec<u8>)
    ensures
        r@ == spill_bytes(codec, stream_view(batch@)),
{
    let plain = to_plain(batch);
    let enc = match codec {
        SpillCodec::Binary => bincode_encode_records(&plain),
        SpillCodec::Readable => json_encode_records(&plain),
    };
    enc.unwrap()
}

/// Decodes one spill batch, validating the batch shape: a byte string
/// that encodes a well-formed batch yields exactly that batch, and
/// anything else that does not decode to a well-formed batch is a
/// corrupt artifact.
pub fn decode_spill(bytes: &Vec<u8>, codec: SpillCodec) -> (r: Result<Vec<TokenPostings>, IndexError>)
    ensures
        r is Ok ==> wf_batch(r->Ok_0@),
        r is Err ==> r->Err_0 == IndexError::CorruptArtifact,
        forall|b: Seq<TokenPostings>|
            wf_batch(b) && bytes@ == spill_bytes(codec, #[trigger] stream_view(b)) ==> r is Ok
                && stream_view(r->Ok_0@) == stream_view(b),
{
    let dec = match codec {
        SpillCodec::Binary => bincode_decode_records(bytes),
        SpillCodec::Readable => json_decode_records(bytes),
    };
    let plain = match dec {
        Some(p) => p,
        None => {
            return Err(IndexError::CorruptArtifact);
        },
    };
    let batch = match from_plain(&plain) {
        Ok(b) => b,
        Err(_) => {
            proof {
                assert forall|b: Seq<TokenPostings>|
                    wf_batch(b) && bytes@ == spill_bytes(codec, #[trigger] stream_view(b))
                    implies false by {
                    assert(recs_view(plain@) == plainify(stream_view(b)));
                    assert forall|i: int, k: int|
                        0 <= i < recs_view(plain@).len() && 0 <= k
                            < recs_view(plain@)[i].1.len() implies (
                    #[trigger] recs_view(plain@)[i].1[k]).0 <= usize::MAX by {
                        assert(plainify(stream_view(b))[i] == (
                            stream_view(b)[i].0,
                            stream_view(b)[i].1.map_values(
                                |p: Posting| (p.doc_id as u64, p.freq),
                            ),
                        ));
                        assert(recs_view(plain@)[i].1[k] == (
                            stream_view(b)[i].1[k].doc_id as u64,
                            stream_view(b)[i].1[k].freq,
                        ));
                    }
                }
            }
            return Err(IndexError::CorruptArtifact);
        },
    };
    let ok = check_batch(&batch);
    proof {
        assert forall|b: Seq<TokenPostings>|
            wf_batch(b) && bytes@ == spill_bytes(codec, #[trigger] stream_view(b)) implies ok
            && stream_view(batch@) == stream_view(b) by {
            assert(recs_view(plain@) == plainify(stream_view(b)));
            assert(plainify(stream_view(batch@)) == plainify(stream_view(b)));
            lemma_plainify_injective(stream_view(batch@), stream_view(b));
            lemma_wf_batch_congruent(batch@, b);
        }
    }
    if ok {
        Ok(batch)
    } else {
        Err(IndexError::CorruptArtifact)
    }
}

/// Encodes the lexicon's (term, token id) rows under the chosen codec,
/// sorted strictly ascending by term as the persisted artifact is laid
/// out (`crate::lexicon::lemma_lexicon_artifact_rows` proves that the
/// sorted rows hold exactly one row per term, each beside its own id,
/// ids pairwise distinct); encoding cannot fail.
pub fn encode_lexicon(lex: &Lexicon, codec: SpillCodec) -> (r: Vec<u8>)
    requires
        lex.wf(),
    ensures
        r@ == table_bytes(codec, sort_rows(lexicon_rows(lex@))),
{
    let pairs = lex.sorted_pairs();
    let enc = match codec {
        SpillCodec::Binary => bincode_encode_pairs(&pairs),
        SpillCodec::Readable => json_encode_pairs(&pairs),
    };
    enc.unwrap()
}

/// Decodes a persisted lexicon, validating that ids are dense and terms
/// unique: bytes that encode a well-formed lexicon yield exactly it.
pub fn decode_lexicon(bytes: &Vec<u8>, codec: SpillCodec) -> (r: Result<Lexicon, IndexError>)
    ensures
        r is Ok ==> r->Ok_0.wf(),
        r is Err ==> r->Err_0 == IndexError::CorruptArtifact,
        forall|lex: Lexicon|
            lex.wf() && bytes@ == table_bytes(
                codec,
                #[trigger] sort_rows(lexicon_rows(lex@)),
            ) ==> r is Ok && r->Ok_0@ == lex@,
{
    let dec = match codec {
        SpillCodec::Binary => bincode_decode_pairs(bytes),
        SpillCodec::Readable => json_decode_pairs(bytes),
    };
    let pairs = match dec {
        Some(p) => p,
        None => {
            return Err(IndexError::CorruptArtifact);
        },
    };
    match Lexicon::from_pairs(&pairs) {
        Ok(lex) => {
            proof {
                assert forall|l2: Lexicon|
                    l2.wf() && bytes@ == table_bytes(
                        codec,
                        #[trigger] sort_rows(lexicon_rows(l2@)),
                    ) implies lex@ == l2@ by {
                    assert(pairs_view(pairs@) == sort_rows(lexicon_rows(l2@)));
                    lemma_sorted_rows_describe(l2@, pairs_view(pairs@));
                }
            }
            Ok(lex)
        },
        Err(_) => {
            proof {
                assert forall|l2: Lexicon|
                    l2.wf() && bytes@ == table_bytes(
                        codec,
                        #[trigger] sort_rows(lexicon_rows(l2@)),
                    ) implies false by {
                    assert(pairs_view(pairs@) == sort_rows(lexicon_rows(l2@)));
                    lemma_sorted_rows_describe(l2@, pairs_view(pairs@));
                }
            }
            Err(IndexError::CorruptArtifact)
        },
    }
}

/// The sorted artifact rows describe the table they came from: one row
/// per token id, in any order the reader cares to view them.
proof fn lemma_sorted_rows_describe(ts: Seq<Seq<char>>, pv: Seq<(Seq<char>, u32)>)
    requires
        forall|i: int, j: int| 0 <= i < j < ts.len() ==> ts[i] != ts[j],
        ts.len() <= u32::MAX,
        pv == sort_rows(lexicon_rows(ts)),
    ensures
        rows_describe(pv, ts),
{
    crate::lexicon::lemma_lexicon_artifact_rows(ts);
    assert forall|k: int|
        0 <= k < pv.len() implies ((#[trigger] pv[k]).1 as int) < ts.len() && ts[pv[k].1 as int]
        == pv[k].0 by {
        assert(pv.contains(pv[k]));
        assert(lexicon_rows(ts).contains(pv[k]));
        let i = choose|i: int| 0 <= i < lexicon_rows(ts).len() && lexicon_rows(ts)[i] == pv[k];
        assert(lexicon_rows(ts)[i] == (ts[i], i as u32));
        assert(pv[k].1 == i as u32);
    }
    assert forall|i: int| 0 <= i < ts.len() implies crate::lexicon::covers(pv, i) by {
        assert(lexicon_rows(ts)[i] == (ts[i], i as u32));
        assert(lexicon_rows(ts).contains((ts[i], i as u32)));
        assert(pv.contains((ts[i], i as u32)));
        let k = choose|k: int| 0 <= k < pv.len() && pv[k] == (ts[i], i as u32);
        assert((pv[k].1 as int) == i);
    }
}

/// Encodes the document metadata rows under the chosen codec; encoding
/// cannot fail.
pub fn encode_doc_metadata(docs: &DocTable, codec: SpillCodec) -> (r: Vec<u8>)
    ensures
        r@ == table_bytes(codec, docs@),
{
    let rows = docs.rows();
    let enc = match codec {
        SpillCodec::Binary => bincode_encode_pairs(&rows),
        SpillCodec::Readable => json_encode_pairs(&rows),
    };
    enc.unwrap()
}

/// Decodes persisted document metadata: bytes that encode a table yield
/// exactly that table.
pub fn decode_doc_metadata(bytes: &Vec<u8>, codec: SpillCodec) -> (r: Result<DocTable, IndexError>)
    ensures
        r is Err ==> r->Err_0 == IndexError::CorruptArtifact,
        forall|t: Seq<(Seq<char>, u32)>|
            bytes@ == table_bytes(codec, t) ==> r is Ok && r->Ok_0@ == t,
{
    let dec = match codec {
        SpillCodec::Binary => bincode_decode_pairs(bytes),
        SpillCodec::Readable => json_decode_pairs(bytes),
    };
    match dec {
        Some(rows) => Ok(DocTable::from_rows(&rows)),
        None => Err(IndexError::CorruptArtifact),
    }
}

} // verus!
