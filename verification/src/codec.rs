//! Binary codec for postings lists: the on-disk postings blob holds, for
//! each token, a little-endian count followed by fixed-width
//! (document id, frequency) pairs. Encoding is canonical, so equal byte
//! ranges mean equal lists, and decoding a list's byte range reproduces
//! the list exactly.

use vstd::prelude::*;
use vstd::arithmetic::div_mod::{
    lemma_fundamental_div_mod, lemma_fundamental_div_mod_converse_div,
    lemma_fundamental_div_mod_converse_mod,
};
use crate::postings::{Posting, wf_plist};
use crate::errors::IndexError;

verus! {

/// Longest postings list whose encoding still fits a directory entry's
/// 32-bit byte-length field: 4 + 12 * MAX_PLIST_LEN <= u32::MAX.
pub const MAX_PLIST_LEN: usize = 357913940;

/// 256 to the power `n`: the number of values `n` little-endian bytes span.
pub open spec fn pow256(n: nat) -> int
    decreases n,
{
    if n == 0 {
        1
    } else {
        256 * pow256((n - 1) as nat)
    }
}

/// The `n` little-endian bytes of the non-negative integer `x`.
pub open spec fn enc_le(x: int, n: nat) -> Seq<u8>
    decreases n,
{
    if n == 0 {
        Seq::empty()
    } else {
        seq![(x % 256) as u8] + enc_le(x / 256, (n - 1) as nat)
    }
}

/// The integer a little-endian byte sequence denotes.
pub open spec fn dec_le(s: Seq<u8>) -> int
    decreases s.len(),
{
    if s.len() == 0 {
        0
    } else {
        s[0] + 256 * dec_le(s.drop_first())
    }
}

pub proof fn lemma_enc_le_len(x: int, n: nat)
    ensures
        enc_le(x, n).len() == n,
    decreases n,
{
    if n > 0 {
        lemma_enc_le_len(x / 256, (n - 1) as nat);
    }
}

pub proof fn lemma_dec_le_bound(s: Seq<u8>)
    ensures
        0 <= dec_le(s) < pow256(s.len()),
    decreases s.len(),
{
    if s.len() > 0 {
        lemma_dec_le_bound(s.drop_first());
    }
}

/// Decoding inverts encoding: reading back the `n` bytes of `x` yields `x`.
pub proof fn lemma_dec_enc_le(x: int, n: nat)
    requires
        0 <= x < pow256(n),
    ensures
        dec_le(enc_le(x, n)) == x,
    decreases n,
{
    if n > 0 {
        lemma_fundamental_div_mod(x, 256);
        assert(0 <= x % 256 < 256);
        assert(x == 256 * (x / 256) + x % 256);
        assert(x / 256 < pow256((n - 1) as nat)) by {
            if x / 256 >= pow256((n - 1) as nat) {
                assert(256 * (x / 256) >= 256 * pow256((n - 1) as nat)) by (nonlinear_arith)
                    requires
                        x / 256 >= pow256((n - 1) as nat),
                ;
            }
        }
        lemma_dec_enc_le(x / 256, (n - 1) as nat);
        assert(enc_le(x, n).drop_first() =~= enc_le(x / 256, (n - 1) as nat));
    }
}

/// Encoding inverts decoding: any `n` bytes are the encoding of the
/// integer they denote, so the encoding is canonical.
pub proof fn lemma_enc_dec_le(s: Seq<u8>)
    ensures
        enc_le(dec_le(s), s.len()) =~= s,
    decreases s.len(),
{
    if s.len() > 0 {
        let rest = s.drop_first();
        lemma_dec_le_bound(rest);
        lemma_enc_dec_le(rest);
        let x = dec_le(s);
        lemma_fundamental_div_mod_converse_mod(x, 256, dec_le(rest), s[0] as int);
        lemma_fundamental_div_mod_converse_div(x, 256, dec_le(rest), s[0] as int);
        assert(enc_le(x, s.len())[0] == (x % 256) as u8);
        assert(enc_le(x, s.len()).drop_first() == enc_le(x / 256, (s.len() - 1) as nat));
    }
}

/// The 12 bytes one posting occupies in the blob.
pub open spec fn enc_posting(p: Posting) -> Seq<u8> {
    enc_le(p.doc_id as int, 8) + enc_le(p.freq as int, 4)
}

/// The payload bytes of a postings list: its postings, in order.
pub open spec fn enc_plist_body(s: Seq<Posting>) -> Seq<u8>
    decreases s.len(),
{
    if s.len() == 0 {
        Seq::empty()
    } else {
        enc_posting(s[0]) + enc_plist_body(s.drop_first())
    }
}

/// The full encoding of a postings list: a 4-byte little-endian count,
/// then each posting as 8 bytes of document id and 4 bytes of frequency.
pub open spec fn spec_encode_plist(s: Seq<Posting>) -> Seq<u8> {
    enc_le(s.len() as int, 4) + enc_plist_body(s)
}

pub proof fn lemma_body_len(s: Seq<Posting>)
    ensures
        enc_plist_body(s).len() == 12 * s.len(),
    decreases s.len(),
{
    if s.len() > 0 {
        lemma_enc_le_len(s[0].doc_id as int, 8);
        lemma_enc_le_len(s[0].freq as int, 4);
        lemma_body_len(s.drop_first());
    }
}

pub proof fn lemma_body_push(s: Seq<Posting>, p: Posting)
    ensures
        enc_plist_body(s.push(p)) =~= enc_plist_body(s) + enc_posting(p),
    decreases s.len(),
{
    assert(s.push(p).len() > 0);
    assert(enc_plist_body(s.push(p)) == enc_posting(s.push(p)[0]) + enc_plist_body(
        s.push(p).drop_first(),
    ));
    if s.len() == 0 {
        assert(s.push(p)[0] == p);
        assert(s.push(p).drop_first() =~= Seq::<Posting>::empty());
        assert(enc_plist_body(s.push(p).drop_first()) =~= Seq::<u8>::empty());
        assert(enc_plist_body(s) =~= Seq::<u8>::empty());
    } else {
        assert(s.push(p)[0] == s[0]);
        assert(s.push(p).drop_first() =~= s.drop_first().push(p));
        lemma_body_push(s.drop_first(), p);
        assert(enc_plist_body(s) == enc_posting(s[0]) + enc_plist_body(s.drop_first()));
    }
}

pub proof fn lemma_body_index(s: Seq<Posting>, i: int)
    requires
        0 <= i < s.len(),
    ensures
        enc_plist_body(s).subrange(12 * i, 12 * i + 12) =~= enc_posting(s[i]),
    decreases i,
{
    lemma_body_len(s);
    lemma_enc_le_len(s[0].doc_id as int, 8);
    lemma_enc_le_len(s[0].freq as int, 4);
    if i == 0 {
        lemma_body_len(s.drop_first());
    } else {
        lemma_body_index(s.drop_first(), i - 1);
        lemma_body_len(s.drop_first());
        assert(enc_plist_body(s.drop_first()).subrange(12 * (i - 1), 12 * (i - 1) + 12)
            =~= enc_plist_body(s).subrange(12 * i, 12 * i + 12));
    }
}

/// The encoding pins the list down: two well-formed lists with the same
/// encoding are the same list, so blob byte ranges are lossless.
pub proof fn lemma_encode_injective(l1: Seq<Posting>, l2: Seq<Posting>)
    requires
        l1.len() <= MAX_PLIST_LEN,
        l2.len() <= MAX_PLIST_LEN,
        spec_encode_plist(l1) == spec_encode_plist(l2),
    ensures
        l1 == l2,
{
    lemma_pow256_values();
    lemma_enc_le_len(l1.len() as int, 4);
    lemma_enc_le_len(l2.len() as int, 4);
    lemma_body_len(l1);
    lemma_body_len(l2);
    assert(enc_le(l1.len() as int, 4) =~= spec_encode_plist(l1).subrange(0, 4));
    assert(enc_le(l2.len() as int, 4) =~= spec_encode_plist(l2).subrange(0, 4));
    lemma_dec_enc_le(l1.len() as int, 4);
    lemma_dec_enc_le(l2.len() as int, 4);
    assert(l1.len() == l2.len());
    assert forall|i: int| 0 <= i < l1.len() implies l1[i] == l2[i] by {
        lemma_body_index(l1, i);
        lemma_body_index(l2, i);
        assert(enc_plist_body(l1) =~= spec_encode_plist(l1).subrange(
            4,
            spec_encode_plist(l1).len() as int,
        ));
        assert(enc_plist_body(l2) =~= spec_encode_plist(l2).subrange(
            4,
            spec_encode_plist(l2).len() as int,
        ));
        lemma_posting_enc_injective(l1[i], l2[i]);
    }
    assert(l1 =~= l2);
}

proof fn lemma_posting_enc_injective(p1: Posting, p2: Posting)
    requires
        enc_posting(p1) == enc_posting(p2),
    ensures
        p1 == p2,
{
    lemma_enc_le_len(p1.doc_id as int, 8);
    lemma_enc_le_len(p2.doc_id as int, 8);
    lemma_enc_le_len(p1.freq as int, 4);
    lemma_enc_le_len(p2.freq as int, 4);
    assert(enc_le(p1.doc_id as int, 8) =~= enc_posting(p1).subrange(0, 8));
    assert(enc_le(p2.doc_id as int, 8) =~= enc_posting(p2).subrange(0, 8));
    assert(enc_le(p1.freq as int, 4) =~= enc_posting(p1).subrange(8, 12));
    assert(enc_le(p2.freq as int, 4) =~= enc_posting(p2).subrange(8, 12));
    lemma_pow256_values();
    lemma_dec_enc_le(p1.doc_id as int, 8);
    lemma_dec_enc_le(p2.doc_id as int, 8);
    lemma_dec_enc_le(p1.freq as int, 4);
    lemma_dec_enc_le(p2.freq as int, 4);
}

/// The byte spans relevant here: 4 bytes cover `u32` and 8 bytes cover
/// `u64` (and hence `usize`) values.
pub proof fn lemma_pow256_values()
    ensures
        pow256(4) == 0x100000000,
        pow256(7) == 0x100000000000000,
        pow256(8) == 0x10000000000000000,
{
    reveal_with_fuel(pow256, 9);
    assert(pow256(4) == 0x100000000);
    assert(pow256(7) == 0x100000000000000);
    assert(pow256(8) == 0x10000000000000000);
}

/// Appends the `n` little-endian bytes of `x` (for `n <= 8`; higher
/// bytes of `x` must be zero, i.e. `x < 256^n`).
fn push_le(out: &mut Vec<u8>, x: u64, n: usize)
    ensures
        final(out)@ == old(out)@ + enc_le(x as int, n as nat),
    decreases n,
{
    proof {
        lemma_enc_le_len(x as int, n as nat);
    }
    if n == 0 {
        assert(out@ =~= old(out)@ + enc_le(x as int, 0));
    } else {
        let b: u8 = (x % 256) as u8;
        out.push(b);
        push_le(out, x / 256, n - 1);
        assert(out@ =~= old(out)@ + enc_le(x as int, n as nat));
    }
}

/// Reads the integer denoted by `n` little-endian bytes at `pos`
/// (for `n <= 8`).
fn read_le(bytes: &Vec<u8>, pos: usize, n: usize) -> (r: u64)
    requires
        pos + n <= bytes@.len(),
        n <= 8,
    ensures
        r as int == dec_le(bytes@.subrange(pos as int, pos as int + n as int)),
    decreases n,
{
    proof {
        lemma_dec_le_bound(bytes@.subrange(pos as int, pos as int + n as int));
        lemma_pow256_values();
        assert(bytes.len() == bytes@.len());
    }
    if n == 0 {
        0
    } else {
        let b = bytes[pos];
        let rest = read_le(bytes, pos + 1, n - 1);
        proof {
            let s = bytes@.subrange(pos as int, pos as int + n as int);
            assert(s.drop_first() =~= bytes@.subrange(pos as int + 1, pos as int + n as int));
            lemma_dec_le_bound(s.drop_first());
            lemma_pow256_le_monotone((n - 1) as nat, 7);
        }
        b as u64 + 256 * rest
    }
}

proof fn lemma_pow256_le_monotone(m: nat, n: nat)
    requires
        m <= n,
    ensures
        pow256(m) <= pow256(n),
    decreases n,
{
    if m < n {
        lemma_pow256_le_monotone(m, (n - 1) as nat);
        assert(pow256(n) == 256 * pow256((n - 1) as nat));
        assert(pow256(m) >= 1) by {
            lemma_pow256_pos(m);
        }
        assert(256 * pow256((n - 1) as nat) >= pow256((n - 1) as nat)) by (nonlinear_arith)
            requires
                pow256((n - 1) as nat) >= 1,
        ;
        lemma_pow256_pos((n - 1) as nat);
    }
}

proof fn lemma_pow256_pos(n: nat)
    ensures
        pow256(n) >= 1,
    decreases n,
{
    if n > 0 {
        lemma_pow256_pos((n - 1) as nat);
        assert(256 * pow256((n - 1) as nat) >= pow256((n - 1) as nat)) by (nonlinear_arith)
            requires
                pow256((n - 1) as nat) >= 1,
        ;
    }
}

/// Encodes one postings list for the blob: count first, then each
/// posting's document id and frequency, all little endian.
pub fn encode_plist(list: &Vec<Posting>) -> (r: Vec<u8>)
    requires
        list@.len() <= MAX_PLIST_LEN,
    ensures
        r@ == spec_encode_plist(list@),
        r@.len() == 4 + 12 * list@.len(),
{
    proof {
        lemma_pow256_values();
        lemma_enc_le_len(list@.len() as int, 4);
        lemma_body_len(list@);
    }
    let mut out: Vec<u8> = Vec::new();
    push_le(&mut out, list.len() as u64, 4);
    let n = list.len();
    let mut i: usize = 0;
    while i < n
        invariant
            i <= n,
            n == list@.len() <= MAX_PLIST_LEN,
            out@ == enc_le(n as int, 4) + enc_plist_body(list@.take(i as int)),
        decreases n - i,
    {
        let p = list[i];
        proof {
            lemma_pow256_values();
            assert(list@.take(i as int + 1) =~= list@.take(i as int).push(list@[i as int]));
            lemma_body_push(list@.take(i as int), list@[i as int]);
        }
        push_le(&mut out, p.doc_id as u64, 8);
        push_le(&mut out, p.freq as u64, 4);
        assert(out@ =~= enc_le(n as int, 4) + enc_plist_body(list@.take(i as int + 1)));
        i = i + 1;
    }
    proof {
        assert(list@.take(n as int) =~= list@);
        lemma_enc_le_len(n as int, 4);
        lemma_body_len(list@);
    }
    out
}

/// Decodes the byte range `[start, start + len)` of `bytes` as one
/// postings list. Succeeds exactly on ranges that are the canonical
/// encoding of a well-formed list of bounded length; anything else is a
/// corrupt artifact.
pub fn decode_plist(bytes: &Vec<u8>, start: usize, len: usize) -> (r: Result<
    Vec<Posting>,
    IndexError,
>)
    ensures
        r is Ok ==> {
            &&& start + len <= bytes@.len()
            &&& wf_plist(r->Ok_0@)
            &&& r->Ok_0@.len() <= MAX_PLIST_LEN
            &&& bytes@.subrange(start as int, start as int + len as int) == spec_encode_plist(
                r->Ok_0@,
            )
        },
        r is Err ==> r->Err_0 == IndexError::CorruptArtifact,
        forall|l: Seq<Posting>|
            wf_plist(l) && l.len() <= MAX_PLIST_LEN && start + len <= bytes@.len()
                && bytes@.subrange(start as int, start as int + len as int) == spec_encode_plist(l)
                ==> r is Ok && r->Ok_0@ == l,
{
    proof {
        lemma_pow256_values();
    }
    if start > bytes.len() || len > bytes.len() - start {
        proof {
            assert(forall|l: Seq<Posting>|
                !(wf_plist(l) && l.len() <= MAX_PLIST_LEN && start + len <= bytes@.len()
                    && bytes@.subrange(start as int, start as int + len as int)
                    == spec_encode_plist(l)));
        }
        return Err(IndexError::CorruptArtifact);
    }
    let ghost sub = bytes@.subrange(start as int, start as int + len as int);
    proof {
        assert forall|l: Seq<Posting>| sub == spec_encode_plist(l) implies sub.len() == 4 + 12
            * l.len() by {
            lemma_enc_le_len(l.len() as int, 4);
            lemma_body_len(l);
        }
    }
    if len < 4 {
        return Err(IndexError::CorruptArtifact);
    }
    let count64 = read_le(bytes, start, 4);
    proof {
        assert forall|l: Seq<Posting>|
            l.len() <= MAX_PLIST_LEN && sub == spec_encode_plist(l) implies count64 == l.len() by {
            lemma_enc_le_len(l.len() as int, 4);
            assert(sub.subrange(0, 4) =~= enc_le(l.len() as int, 4));
            assert(bytes@.subrange(start as int, start as int + 4) =~= sub.subrange(0, 4));
            lemma_dec_enc_le(l.len() as int, 4);
        }
    }
    if count64 > MAX_PLIST_LEN as u64 {
        return Err(IndexError::CorruptArtifact);
    }
    if len as u64 != 4 + 12 * count64 {
        return Err(IndexError::CorruptArtifact);
    }
    let count = count64 as usize;
    let mut out: Vec<Posting> = Vec::new();
    let mut i: usize = 0;
    let mut pos: usize = start + 4;
    proof {
        assert(bytes@.subrange(start as int + 4, start as int + 4) =~= enc_plist_body(out@));
        assert forall|l: Seq<Posting>|
            wf_plist(l) && l.len() <= MAX_PLIST_LEN && sub == spec_encode_plist(l) implies out@
            == l.take(0) by {
            assert(l.take(0) =~= out@);
        }
    }
    while i < count
        invariant
            i <= count,
            count as int == count64 as int,
            count <= MAX_PLIST_LEN,
            pos == start + 4 + 12 * i,
            start + len <= bytes@.len(),
            len == 4 + 12 * count64,
            sub == bytes@.subrange(start as int, start as int + len as int),
            out@.len() == i,
            wf_plist(out@),
            bytes@.subrange(start as int + 4, pos as int) == enc_plist_body(out@),
            forall|l: Seq<Posting>|
                wf_plist(l) && l.len() <= MAX_PLIST_LEN && sub == spec_encode_plist(l) ==> out@
                    == l.take(i as int),
        decreases count - i,
    {
        proof {
            assert(bytes.len() == bytes@.len());
        }
        let doc64 = read_le(bytes, pos, 8);
        let freq64 = read_le(bytes, pos + 8, 4);
        let ghost chunk = bytes@.subrange(pos as int, pos as int + 12);
        proof {
            lemma_pow256_values();
            assert(chunk.subrange(0, 8) =~= bytes@.subrange(pos as int, pos as int + 8));
            assert(chunk.subrange(8, 12) =~= bytes@.subrange(pos as int + 8, pos as int + 12));
            lemma_enc_dec_le(chunk.subrange(0, 8));
            lemma_enc_dec_le(chunk.subrange(8, 12));
            lemma_dec_le_bound(chunk.subrange(0, 8));
            lemma_dec_le_bound(chunk.subrange(8, 12));
            assert(chunk =~= chunk.subrange(0, 8) + chunk.subrange(8, 12));
            assert forall|l: Seq<Posting>|
                wf_plist(l) && l.len() <= MAX_PLIST_LEN && sub == spec_encode_plist(
                    l,
                ) implies (l.len() == count as int && chunk == enc_posting(l[i as int])
                && doc64 == l[i as int].doc_id && freq64 == l[i as int].freq) by {
                lemma_enc_le_len(l.len() as int, 4);
                assert(sub.subrange(0, 4) =~= enc_le(l.len() as int, 4));
                assert(bytes@.subrange(start as int, start as int + 4) =~= sub.subrange(0, 4));
                lemma_dec_enc_le(l.len() as int, 4);
                lemma_body_len(l);
                assert(enc_plist_body(l) =~= sub.subrange(4, sub.len() as int));
                lemma_body_index(l, i as int);
                assert(chunk =~= enc_plist_body(l).subrange(12 * i as int, 12 * i as int + 12));
                lemma_enc_le_len(l[i as int].doc_id as int, 8);
                lemma_enc_le_len(l[i as int].freq as int, 4);
                assert(enc_posting(l[i as int]).subrange(0, 8) =~= enc_le(
                    l[i as int].doc_id as int,
                    8,
                ));
                assert(enc_posting(l[i as int]).subrange(8, 12) =~= enc_le(
                    l[i as int].freq as int,
                    4,
                ));
                lemma_dec_enc_le(l[i as int].doc_id as int, 8);
                lemma_dec_enc_le(l[i as int].freq as int, 4);
            }
        }
        if doc64 > usize::MAX as u64 {
            return Err(IndexError::CorruptArtifact);
        }
        if freq64 < 1 {
            return Err(IndexError::CorruptArtifact);
        }
        let doc: usize = doc64 as usize;
        let freq: u32 = freq64 as u32;
        if i > 0 && out[i - 1].doc_id >= doc {
            proof {
                assert forall|l: Seq<Posting>|
                    !(wf_plist(l) && l.len() <= MAX_PLIST_LEN && sub == spec_encode_plist(
                        l,
                    )) by {
                    if wf_plist(l) && l.len() <= MAX_PLIST_LEN && sub == spec_encode_plist(l) {
                        assert(out@ == l.take(i as int));
                        assert(out@[i as int - 1] == l[i as int - 1]);
                        assert(l[i as int - 1].doc_id < l[i as int].doc_id);
                    }
                }
            }
            return Err(IndexError::CorruptArtifact);
        }
        let p = Posting { doc_id: doc, freq };
        proof {
            assert(enc_posting(p) =~= chunk);
            lemma_body_push(out@, p);
            assert(bytes@.subrange(start as int + 4, pos as int + 12) =~= bytes@.subrange(
                start as int + 4,
                pos as int,
            ) + chunk);
        }
        out.push(p);
        proof {
            assert(wf_plist(out@));
            assert forall|l: Seq<Posting>|
                wf_plist(l) && l.len() <= MAX_PLIST_LEN && sub == spec_encode_plist(l) implies out@
                == l.take(i as int + 1) by {
                assert(p == l[i as int]);
                assert(l.take(i as int + 1) =~= l.take(i as int).push(l[i as int]));
            }
        }
        pos = pos + 12;
        i = i + 1;
    }
    proof {
        assert(bytes@.subrange(start as int + 4, start as int + len as int) == enc_plist_body(
            out@,
        ));
        assert(sub =~= bytes@.subrange(start as int, start as int + 4) + bytes@.subrange(
            start as int + 4,
            start as int + len as int,
        ));
        lemma_enc_dec_le(bytes@.subrange(start as int, start as int + 4));
        assert(bytes@.subrange(start as int, start as int + 4) =~= enc_le(count as int, 4));
        assert(sub == spec_encode_plist(out@));
        assert forall|l: Seq<Posting>|
            wf_plist(l) && l.len() <= MAX_PLIST_LEN && sub == spec_encode_plist(l) implies out@
            == l by {
            lemma_enc_le_len(l.len() as int, 4);
            assert(sub.subrange(0, 4) =~= enc_le(l.len() as int, 4));
            assert(bytes@.subrange(start as int, start as int + 4) =~= sub.subrange(0, 4));
            lemma_dec_enc_le(l.len() as int, 4);
            assert(l.take(count as int) =~= l);
        }
    }
    Ok(out)
}

} // verus!
