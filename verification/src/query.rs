//! Query processor: resolves a term to its postings list with one
//! directory lookup and one decode of exactly that byte range, and
//! answers conjunctive (AND) queries by sorted-list intersection.

use vstd::prelude::*;
use crate::postings::{Posting, wf_plist};
use crate::codec::{spec_encode_plist, decode_plist, MAX_PLIST_LEN};
use crate::builder::{DirEntry, BinIndex};
use crate::lexicon::{Lexicon, DocTable};
use crate::errors::IndexError;
use crate::text::{split_ws, split_terms};

verus! {

/// Document `d` occurs in postings list `l`.
pub open spec fn plist_has_doc(l: Seq<Posting>, d: usize) -> bool {
    exists|i: int| 0 <= i < l.len() && #[trigger] l[i].doc_id == d
}

/// A directory entry whose byte range lies in the blob and holds the
/// canonical encoding of some well-formed postings list.
pub open spec fn entry_ok(blob: Seq<u8>, e: DirEntry) -> bool {
    &&& e.offset + e.length <= blob.len()
    &&& exists|l: Seq<Posting>|
        wf_plist(l) && l.len() <= MAX_PLIST_LEN && blob.subrange(
            e.offset as int,
            e.offset + e.length,
        ) == spec_encode_plist(l)
}

/// Read-only handles over the built artifacts: postings blob, directory,
/// lexicon and document metadata.
pub struct TermQueryProcessor {
    pub blob: Vec<u8>,
    pub directory: Vec<DirEntry>,
    pub lexicon: Lexicon,
    pub docs: DocTable,
}

impl TermQueryProcessor {
    /// The artifacts are usable: directory tokens strictly ascending and
    /// every entry's range decodes to a well-formed list.
    pub open spec fn wf(&self) -> bool {
        &&& self.lexicon.wf()
        &&& forall|i: int, j: int|
            0 <= i < j < self.directory@.len() ==> #[trigger] self.directory@[i].token_id
                < #[trigger] self.directory@[j].token_id
        &&& forall|i: int|
            0 <= i < self.directory@.len() ==> entry_ok(self.blob@, #[trigger] self.directory@[i])
    }

    /// The unique well-formed list entry `i`'s byte range encodes.
    pub open spec fn plist_at(&self, i: int) -> Seq<Posting> {
        choose|l: Seq<Posting>|
            wf_plist(l) && l.len() <= MAX_PLIST_LEN && self.blob@.subrange(
                self.directory@[i].offset as int,
                self.directory@[i].offset + self.directory@[i].length,
            ) == spec_encode_plist(l)
    }

    /// The directory has an entry for token `t`.
    pub open spec fn has_dir_token(&self, t: u32) -> bool {
        exists|i: int| 0 <= i < self.directory@.len() && #[trigger] self.directory@[i].token_id == t
    }

    /// The index of token `t`'s directory entry.
    pub open spec fn dir_index(&self, t: u32) -> int {
        choose|i: int| 0 <= i < self.directory@.len() && #[trigger] self.directory@[i].token_id == t
    }

    /// The position of `t` in the lexicon, i.e. its token id.
    pub open spec fn term_index(&self, t: Seq<char>) -> int {
        choose|i: int| 0 <= i < self.lexicon@.len() && self.lexicon@[i] == t
    }

    /// The term is indexed: the lexicon knows it and the directory maps
    /// its token id to a byte range.
    pub open spec fn known(&self, t: Seq<char>) -> bool {
        &&& self.lexicon.contains_term(t)
        &&& self.has_dir_token(self.term_index(t) as u32)
    }

    /// The postings list the index holds for term `t`.
    pub open spec fn spec_postings(&self, t: Seq<char>) -> Seq<Posting> {
        self.plist_at(self.dir_index(self.term_index(t) as u32))
    }

    /// Opens the artifacts for querying, validating the directory order
    /// and every postings byte range; succeeds exactly on well-formed
    /// artifacts, and anything else is a corrupt artifact.
    pub fn new(index: BinIndex, lexicon: Lexicon, docs: DocTable) -> (r: Result<
        TermQueryProcessor,
        IndexError,
    >)
        requires
            lexicon.wf(),
        ensures
            r is Ok ==> {
                &&& r->Ok_0.wf()
                &&& r->Ok_0.blob@ == index.blob@
                &&& r->Ok_0.directory@ == index.directory@
                &&& r->Ok_0.lexicon@ == lexicon@
                &&& r->Ok_0.docs@ == docs@
            },
            r is Ok <==> {
                &&& forall|i: int, j: int|
                    0 <= i < j < index.directory@.len() ==> #[trigger] index.directory@[i].token_id
                        < #[trigger] index.directory@[j].token_id
                &&& forall|i: int|
                    0 <= i < index.directory@.len() ==> entry_ok(
                        index.blob@,
                        #[trigger] index.directory@[i],
                    )
            },
            r is Err ==> r->Err_0 == IndexError::CorruptArtifact,
    {
        let n = index.directory.len();
        let mut i: usize = 0;
        while i < n
            invariant
                i <= n,
                n == index.directory@.len(),
                forall|a: int, b: int|
                    0 <= a < b < i ==> #[trigger] index.directory@[a].token_id
                        < #[trigger] index.directory@[b].token_id,
                forall|a: int|
                    0 <= a < i ==> entry_ok(index.blob@, #[trigger] index.directory@[a]),
            decreases n - i,
        {
            let e = index.directory[i];
            if i > 0 && index.directory[i - 1].token_id >= e.token_id {
                return Err(IndexError::CorruptArtifact);
            }
            proof {
                assert(index.blob.len() == index.blob@.len());
            }
            if e.offset > index.blob.len() as u64 {
                return Err(IndexError::CorruptArtifact);
            }
            match decode_plist(&index.blob, e.offset as usize, e.length as usize) {
                Ok(_) => {},
                Err(_) => {
                    proof {
                        assert(!entry_ok(index.blob@, e)) by {
                            if entry_ok(index.blob@, e) {
                                let l = choose|l: Seq<Posting>|
                                    wf_plist(l) && l.len() <= MAX_PLIST_LEN
                                        && index.blob@.subrange(
                                        e.offset as int,
                                        e.offset + e.length,
                                    ) == spec_encode_plist(l);
                                assert(wf_plist(l) && l.len() <= MAX_PLIST_LEN && e.offset as usize
                                    + e.length as usize <= index.blob@.len()
                                    && index.blob@.subrange(
                                    e.offset as int,
                                    e.offset as int + e.length as int,
                                ) == spec_encode_plist(l));
                            }
                        }
                    }
                    return Err(IndexError::CorruptArtifact);
                },
            }
            proof {
                assert forall|a: int, b: int|
                    0 <= a < b < i + 1 implies #[trigger] index.directory@[a].token_id
                    < #[trigger] index.directory@[b].token_id by {
                    if b == i && a < i - 1 {
                        assert(index.directory@[a].token_id < index.directory@[i - 1].token_id);
                    }
                }
            }
            i = i + 1;
        }
        Ok(TermQueryProcessor { blob: index.blob, directory: index.directory, lexicon, docs })
    }

    /// Resolves a term to its token id; an unindexed term is the
    /// non-fatal unknown-term outcome, not a failure of the index.
    pub fn lookup_term(&self, term: &String) -> (r: Result<u32, IndexError>)
        requires
            self.wf(),
        ensures
            r is Ok <==> self.lexicon.contains_term(term@),
            r is Ok ==> r->Ok_0 as int == self.term_index(term@) && self.lexicon@[
                r->Ok_0 as int
            ] == term@,
            r is Err ==> r->Err_0 == IndexError::UnknownTerm,
    {
        match self.lexicon.token_of(term) {
            Some(id) => {
                proof {
                    assert(self.lexicon@[id as int] == term@);
                    assert(self.lexicon@[self.term_index(term@)] == term@);
                }
                Ok(id)
            },
            None => Err(IndexError::UnknownTerm),
        }
    }

    /// Reads exactly the directory-given byte range out of the blob and
    /// decodes it: the term's full postings list, sorted by document id.
    pub fn postings_for_term(&self, term: &String) -> (r: Result<Vec<Posting>, IndexError>)
        requires
            self.wf(),
        ensures
            r is Ok <==> self.known(term@),
            r is Ok ==> r->Ok_0@ == self.spec_postings(term@) && wf_plist(r->Ok_0@),
            r is Err ==> r->Err_0 == IndexError::UnknownTerm,
    {
        let id = match self.lookup_term(term) {
            Ok(id) => id,
            Err(_) => {
                return Err(IndexError::UnknownTerm);
            },
        };
        let n = self.directory.len();
        let mut i: usize = 0;
        while i < n
            invariant
                i <= n,
                self.wf(),
                n == self.directory@.len(),
                (id as int) < self.lexicon@.len(),
                self.lexicon@[id as int] == term@,
                id as int == self.term_index(term@),
                forall|a: int| 0 <= a < i ==> #[trigger] self.directory@[a].token_id != id,
            decreases n - i,
        {
            let e = self.directory[i];
            if e.token_id == id {
                proof {
                    assert(self.dir_index(id) == i) by {
                        let w = self.dir_index(id);
                        assert(self.directory@[i as int].token_id == id);
                        if w < i {
                            assert(self.directory@[w].token_id != id);
                        }
                        if w > i {
                            assert(self.directory@[i as int].token_id
                                < self.directory@[w].token_id);
                        }
                    }
                    assert(entry_ok(self.blob@, self.directory@[i as int]));
                    assert(self.blob.len() == self.blob@.len());
                }
                let ghost l = self.plist_at(i as int);
                proof {
                    assert(wf_plist(l) && l.len() <= MAX_PLIST_LEN && self.blob@.subrange(
                        e.offset as int,
                        e.offset + e.length,
                    ) == spec_encode_plist(l));
                    assert(e.offset as usize as int == e.offset as int);
                    assert(e.length as usize as int == e.length as int);
                    assert(e.offset as usize + e.length as usize <= self.blob@.len());
                    assert(self.blob@.subrange(
                        e.offset as usize as int,
                        e.offset as usize as int + e.length as usize as int,
                    ) == spec_encode_plist(l));
                }
                match decode_plist(&self.blob, e.offset as usize, e.length as usize) {
                    Ok(pl) => {
                        proof {
                            assert(pl@ == l);
                            assert(self.lexicon@[id as int] == term@);
                            assert(self.lexicon.contains_term(term@));
                            assert(self.directory@[i as int].token_id == id);
                            assert(self.term_index(term@) == id as int);
                            assert(self.has_dir_token(self.term_index(term@) as u32));
                            assert(self.known(term@));
                        }
                        return Ok(pl);
                    },
                    Err(_) => {
                        proof {
                            assert(false);
                        }
                        return Err(IndexError::UnknownTerm);
                    },
                }
            }
            i = i + 1;
        }
        proof {
            assert(!self.has_dir_token(id));
            assert(!self.known(term@)) by {
                assert(self.term_index(term@) as u32 == id);
            }
        }
        Err(IndexError::UnknownTerm)
    }

    /// Splits the query into whitespace-delimited terms and intersects
    /// their postings: the ascending document ids carrying every term.
    /// An unknown term short-circuits to the empty result (AND with an
    /// empty set), as does an empty query.
    pub fn conjunctive_query(&self, text: &str) -> (r: Vec<usize>)
        requires
            self.wf(),
        ensures
            forall|a: int, b: int| 0 <= a < b < r@.len() ==> r@[a] < r@[b],
            forall|d: usize|
                #[trigger] r@.contains(d) <==> {
                    &&& split_ws(text@).len() > 0
                    &&& forall|k: int|
                        0 <= k < split_ws(text@).len() ==> self.known(#[trigger] split_ws(text@)[k])
                    &&& forall|k: int|
                        0 <= k < split_ws(text@).len() ==> plist_has_doc(
                            self.spec_postings(#[trigger] split_ws(text@)[k]),
                            d,
                        )
                },
    {
        let terms = split_terms(text);
        let ghost tv = split_ws(text@);
        proof {
            assert(terms@.len() == tv.len());
        }
        if terms.len() == 0 {
            let empty: Vec<usize> = Vec::new();
            proof {
                assert(forall|d: usize| !empty@.contains(d));
            }
            return empty;
        }
        let first = match self.postings_for_term(&terms[0]) {
            Ok(pl) => pl,
            Err(_) => {
                let empty: Vec<usize> = Vec::new();
                proof {
                    assert(terms@.map_values(|t: String| t@)[0] == tv[0]);
                    assert(!self.known(tv[0]));
                    assert(forall|d: usize| !empty@.contains(d));
                }
                return empty;
            },
        };
        let mut res = doc_ids(&first);
        proof {
            assert(terms@.map_values(|t: String| t@)[0] == tv[0]);
            assert(forall|d: usize|
                #[trigger] res@.contains(d) <==> plist_has_doc(self.spec_postings(tv[0]), d));
        }
        let mut k: usize = 1;
        while k < terms.len()
            invariant
                1 <= k <= terms@.len(),
                self.wf(),
                tv == split_ws(text@),
                terms@.map_values(|t: String| t@) == tv,
                forall|a: int, b: int| 0 <= a < b < res@.len() ==> res@[a] < res@[b],
                forall|kx: int| 0 <= kx < k ==> self.known(#[trigger] tv[kx]),
                forall|d: usize|
                    #[trigger] res@.contains(d) <==> forall|kx: int|
                        0 <= kx < k ==> plist_has_doc(self.spec_postings(#[trigger] tv[kx]), d),
            decreases terms@.len() - k,
        {
            let pl = match self.postings_for_term(&terms[k]) {
                Ok(pl) => pl,
                Err(_) => {
                    let empty: Vec<usize> = Vec::new();
                    proof {
                        assert(terms@.map_values(|t: String| t@)[k as int] == tv[k as int]);
                        assert(!self.known(tv[k as int]));
                        assert(forall|d: usize| !empty@.contains(d));
                    }
                    return empty;
                },
            };
            let ds = doc_ids(&pl);
            proof {
                assert(terms@.map_values(|t: String| t@)[k as int] == tv[k as int]);
                assert(forall|d: usize|
                    #[trigger] ds@.contains(d) <==> plist_has_doc(
                        self.spec_postings(tv[k as int]),
                        d,
                    ));
            }
            let ghost pre_res = res@;
            res = intersect(&res, &ds);
            proof {
                assert forall|d: usize| #[trigger] res@.contains(d) <==> (forall|kx: int|
                    0 <= kx < k + 1 ==> plist_has_doc(
                        self.spec_postings(#[trigger] tv[kx]),
                        d,
                    )) by {
                    if res@.contains(d) {
                        assert(pre_res.contains(d) && ds@.contains(d));
                        assert forall|kx: int|
                            0 <= kx < k + 1 implies plist_has_doc(
                            self.spec_postings(#[trigger] tv[kx]),
                            d,
                        ) by {
                            if kx < k {
                                assert(pre_res.contains(d));
                            }
                        }
                    } else {
                        if forall|kx: int|
                            0 <= kx < k + 1 ==> plist_has_doc(
                                self.spec_postings(#[trigger] tv[kx]),
                                d,
                            ) {
                            assert(forall|kx: int|
                                0 <= kx < k ==> plist_has_doc(
                                    self.spec_postings(#[trigger] tv[kx]),
                                    d,
                                ));
                            assert(pre_res.contains(d));
                            assert(plist_has_doc(self.spec_postings(tv[k as int]), d));
                            assert(ds@.contains(d));
                        }
                    }
                }
            }
            k = k + 1;
        }
        res
    }
}

/// The document ids of a postings list, in list (ascending) order.
fn doc_ids(pl: &Vec<Posting>) -> (r: Vec<usize>)
    ensures
        r@.len() == pl@.len(),
        forall|i: int| 0 <= i < pl@.len() ==> #[trigger] r@[i] == pl@[i].doc_id,
        forall|d: usize| #[trigger] r@.contains(d) <==> plist_has_doc(pl@, d),
{
    let n = pl.len();
    let mut r: Vec<usize> = Vec::new();
    let mut i: usize = 0;
    while i < n
        invariant
            i <= n,
            n == pl@.len(),
            r@.len() == i,
            forall|j: int| 0 <= j < i ==> #[trigger] r@[j] == pl@[j].doc_id,
        decreases n - i,
    {
        let p = pl[i];
        r.push(p.doc_id);
        i = i + 1;
    }
    proof {
        assert forall|d: usize| #[trigger] r@.contains(d) <==> plist_has_doc(pl@, d) by {
            if r@.contains(d) {
                let j = choose|j: int| 0 <= j < r@.len() && r@[j] == d;
                assert(pl@[j].doc_id == d);
            }
            if plist_has_doc(pl@, d) {
                let j = choose|j: int| 0 <= j < pl@.len() && #[trigger] pl@[j].doc_id == d;
                assert(r@[j] == d);
            }
        }
    }
    r
}

/// Merge-join intersection of two strictly sorted document-id lists.
pub fn intersect(a: &Vec<usize>, b: &Vec<usize>) -> (r: Vec<usize>)
    requires
        forall|x: int, y: int| 0 <= x < y < a@.len() ==> a@[x] < a@[y],
        forall|x: int, y: int| 0 <= x < y < b@.len() ==> b@[x] < b@[y],
    ensures
        forall|x: int, y: int| 0 <= x < y < r@.len() ==> r@[x] < r@[y],
        forall|d: usize| #[trigger] r@.contains(d) <==> a@.contains(d) && b@.contains(d),
{
    let mut out: Vec<usize> = Vec::new();
    let mut i: usize = 0;
    let mut j: usize = 0;
    proof {
        assert(a@.skip(0) =~= a@);
        assert(b@.skip(0) =~= b@);
    }
    while i < a.len() && j < b.len()
        invariant
            i <= a@.len(),
            j <= b@.len(),
            forall|x: int, y: int| 0 <= x < y < a@.len() ==> a@[x] < a@[y],
            forall|x: int, y: int| 0 <= x < y < b@.len() ==> b@[x] < b@[y],
            forall|x: int, y: int| 0 <= x < y < out@.len() ==> out@[x] < out@[y],
            forall|idx: int, x: int|
                0 <= idx < out@.len() && i <= x < a@.len() ==> #[trigger] out@[idx]
                    < #[trigger] a@[x],
            forall|idx: int, x: int|
                0 <= idx < out@.len() && j <= x < b@.len() ==> #[trigger] out@[idx]
                    < #[trigger] b@[x],
            forall|d: usize| #[trigger] out@.contains(d) ==> a@.contains(d) && b@.contains(d),
            forall|d: usize|
                a@.contains(d) && b@.contains(d) && !out@.contains(d)
                    ==> a@.skip(i as int).contains(d) && b@.skip(j as int).contains(d),
        decreases a@.len() - i + b@.len() - j,
    {
        let av = a[i];
        let bv = b[j];
        let ghost pre_out = out@;
        if av == bv {
            out.push(av);
            proof {
                assert(a@.contains(av)) by {
                    assert(a@[i as int] == av);
                }
                assert(b@.contains(av)) by {
                    assert(b@[j as int] == av);
                }
                lemma_step_skip(a@, i as int);
                lemma_step_skip(b@, j as int);
                assert forall|d: usize| #[trigger] out@.contains(d) implies a@.contains(d)
                    && b@.contains(d) by {
                    let x = choose|x: int| 0 <= x < out@.len() && out@[x] == d;
                    if x < pre_out.len() {
                        assert(pre_out[x] == d);
                        assert(pre_out.contains(d));
                    } else {
                        assert(d == av);
                    }
                }
                assert forall|d: usize|
                    a@.contains(d) && b@.contains(d) && !out@.contains(d) implies a@.skip(
                    i as int + 1,
                ).contains(d) && b@.skip(j as int + 1).contains(d) by {
                    assert(!pre_out.contains(d)) by {
                        if pre_out.contains(d) {
                            let x = choose|x: int| 0 <= x < pre_out.len() && pre_out[x] == d;
                            assert(out@[x] == d);
                        }
                    }
                    assert(a@.skip(i as int).contains(d));
                    assert(d != av) by {
                        if d == av {
                            assert(out@[out@.len() - 1] == d);
                        }
                    }
                    lemma_skip_shrink(a@, i as int, d);
                    lemma_skip_shrink(b@, j as int, d);
                }
            }
            i = i + 1;
            j = j + 1;
        } else if av < bv {
            proof {
                assert forall|d: usize|
                    a@.contains(d) && b@.contains(d) && !out@.contains(d) implies a@.skip(
                    i as int + 1,
                ).contains(d) && b@.skip(j as int).contains(d) by {
                    assert(a@.skip(i as int).contains(d));
                    assert(d != av) by {
                        if d == av {
                            let x = choose|x: int|
                                0 <= x < b@.skip(j as int).len() && b@.skip(j as int)[x] == d;
                            assert(b@[j as int + x] == d);
                            assert(b@[j as int] <= b@[j as int + x]);
                        }
                    }
                    lemma_skip_shrink(a@, i as int, d);
                }
            }
            i = i + 1;
        } else {
            proof {
                assert forall|d: usize|
                    a@.contains(d) && b@.contains(d) && !out@.contains(d) implies a@.skip(
                    i as int,
                ).contains(d) && b@.skip(j as int + 1).contains(d) by {
                    assert(b@.skip(j as int).contains(d));
                    assert(d != bv) by {
                        if d == bv {
                            let x = choose|x: int|
                                0 <= x < a@.skip(i as int).len() && a@.skip(i as int)[x] == d;
                            assert(a@[i as int + x] == d);
                            assert(a@[i as int] <= a@[i as int + x]);
                        }
                    }
                    lemma_skip_shrink(b@, j as int, d);
                }
            }
            j = j + 1;
        }
    }
    proof {
        assert forall|d: usize| #[trigger] out@.contains(d) <==> a@.contains(d) && b@.contains(
            d,
        ) by {
            if a@.contains(d) && b@.contains(d) && !out@.contains(d) {
                if i >= a@.len() {
                    let x = choose|x: int|
                        0 <= x < a@.skip(i as int).len() && a@.skip(i as int)[x] == d;
                    assert(false);
                } else {
                    let x = choose|x: int|
                        0 <= x < b@.skip(j as int).len() && b@.skip(j as int)[x] == d;
                    assert(false);
                }
            }
        }
    }
    out
}

/// The document ids a postings list covers, as a set.
pub open spec fn doc_set(l: Seq<Posting>) -> Set<usize> {
    Set::new(|d: usize| plist_has_doc(l, d))
}

/// Two strictly sorted id lists with the same members are the same list.
pub proof fn lemma_sorted_eq(s1: Seq<usize>, s2: Seq<usize>)
    requires
        forall|a: int, b: int| 0 <= a < b < s1.len() ==> s1[a] < s1[b],
        forall|a: int, b: int| 0 <= a < b < s2.len() ==> s2[a] < s2[b],
        forall|d: usize| s1.contains(d) <==> s2.contains(d),
    ensures
        s1 == s2,
    decreases s1.len(),
{
    if s1.len() == 0 && s2.len() == 0 {
        assert(s1 =~= s2);
    } else if s1.len() == 0 {
        assert(s2.contains(s2[0]));
        assert(s1.contains(s2[0]));
    } else if s2.len() == 0 {
        assert(s1.contains(s1[0]));
        assert(s2.contains(s1[0]));
    } else {
        assert(s1.contains(s1[0]));
        assert(s2.contains(s2[0]));
        assert(s1[0] == s2[0]) by {
            let j = choose|j: int| 0 <= j < s2.len() && s2[j] == s1[0];
            assert(s2[0] <= s2[j]);
            let k = choose|k: int| 0 <= k < s1.len() && s1[k] == s2[0];
            assert(s1[0] <= s1[k]);
        }
        lemma_sorted_tail_members(s1);
        lemma_sorted_tail_members(s2);
        assert forall|d: usize| s1.drop_first().contains(d) <==> s2.drop_first().contains(
            d,
        ) by {}
        lemma_sorted_eq(s1.drop_first(), s2.drop_first());
        assert(s1 =~= s2) by {
            assert(forall|x: int|
                1 <= x < s1.len() ==> s1[x] == s1.drop_first()[x - 1] && s2[x]
                    == s2.drop_first()[x - 1]);
        }
    }
}

/// A strictly sorted list's tail holds exactly the members above the
/// head.
proof fn lemma_sorted_tail_members(s: Seq<usize>)
    requires
        s.len() > 0,
        forall|a: int, b: int| 0 <= a < b < s.len() ==> s[a] < s[b],
    ensures
        forall|d: usize|
            #[trigger] s.drop_first().contains(d) <==> (s.contains(d) && d != s[0]),
{
    assert forall|d: usize|
        #[trigger] s.drop_first().contains(d) <==> (s.contains(d) && d != s[0]) by {
        if s.drop_first().contains(d) {
            let x = choose|x: int| 0 <= x < s.drop_first().len() && s.drop_first()[x] == d;
            assert(s[x + 1] == d);
            assert(s[0] < s[x + 1]);
        }
        if s.contains(d) && d != s[0] {
            let x = choose|x: int| 0 <= x < s.len() && s[x] == d;
            assert(x >= 1);
            assert(s.drop_first()[x - 1] == d);
        }
    }
}

/// A single-term conjunctive query reduces to `postings_for_term`: any
/// strictly sorted result whose members are exactly the list's documents
/// is the list's document ids, in order.
pub proof fn lemma_single_term_query(plist: Seq<Posting>, result: Seq<usize>)
    requires
        wf_plist(plist),
        forall|a: int, b: int| 0 <= a < b < result.len() ==> result[a] < result[b],
        forall|d: usize| #[trigger] result.contains(d) <==> plist_has_doc(plist, d),
    ensures
        result == plist.map_values(|p: Posting| p.doc_id),
{
    let docs = plist.map_values(|p: Posting| p.doc_id);
    assert(docs.len() == plist.len());
    assert(forall|x: int| 0 <= x < plist.len() ==> docs[x] == (#[trigger] plist[x]).doc_id);
    assert forall|d: usize| docs.contains(d) <==> result.contains(d) by {
        if docs.contains(d) {
            let x = choose|x: int| 0 <= x < docs.len() && docs[x] == d;
            assert(plist[x].doc_id == d);
        }
        if result.contains(d) {
            let x = choose|x: int| 0 <= x < plist.len() && #[trigger] plist[x].doc_id == d;
            assert(docs[x] == d);
        }
    }
    lemma_sorted_eq(result, docs);
}

/// For two terms, the conjunctive result is the set intersection of the
/// two postings lists' document ids. (That an unknown term empties the
/// result is part of `conjunctive_query`'s own contract.)
pub proof fn lemma_conjunctive_intersection(
    l1: Seq<Posting>,
    l2: Seq<Posting>,
    result: Seq<usize>,
)
    requires
        forall|d: usize|
            #[trigger] result.contains(d) <==> plist_has_doc(l1, d) && plist_has_doc(l2, d),
    ensures
        result.to_set() == doc_set(l1).intersect(doc_set(l2)),
{
    assert(result.to_set() =~= doc_set(l1).intersect(doc_set(l2)));
}

proof fn lemma_step_skip(s: Seq<usize>, i: int)
    requires
        0 <= i < s.len(),
    ensures
        forall|x: int|
            0 <= x < s.skip(i).len() ==> #[trigger] s.skip(i)[x] == s[i + x],
{
}

/// An element of the old suffix other than its head is in the new suffix.
proof fn lemma_skip_shrink(s: Seq<usize>, i: int, d: usize)
    requires
        0 <= i < s.len(),
        s.skip(i).contains(d),
        d != s[i],
    ensures
        s.skip(i + 1).contains(d),
{
    let x = choose|x: int| 0 <= x < s.skip(i).len() && s.skip(i)[x] == d;
    assert(s[i + x] == d);
    assert(x >= 1);
    assert(s.skip(i + 1)[x - 1] == d);
}

} // verus!
