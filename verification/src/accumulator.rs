//! Postings batch accumulator: an in-memory token -> postings structure
//! filled while scanning a bounded run of documents, flushed as a sorted
//! spill batch whenever the document-count threshold is reached. Token
//! ids are assigned in first-seen order, and document ids in arrival
//! order, so successive batches cover disjoint, increasing document-id
//! ranges.

use vstd::prelude::*;
use crate::postings::{
    Posting, TokenPostings, wf_batch, wf_plist, stream_view, doc_in_batch, batch_docs_below,
    batch_docs_at_least, batches_doc_increasing,
};
use crate::lexicon::{Lexicon, DocTable};

verus! {

/// One tokenized document, as the external tokenizer hands it over:
/// its external identifier, its length, and its distinct
/// (term, frequency) pairs.
pub struct RawDoc {
    pub external_id: String,
    pub length: u32,
    pub tokens: Vec<(String, u32)>,
}

/// The mathematical content of a document's token list.
pub open spec fn tokens_view(tokens: Seq<(String, u32)>) -> Seq<(Seq<char>, u32)> {
    tokens.map_values(|p: (String, u32)| (p.0@, p.1))
}

/// Each term occurs once per document and every frequency is positive.
pub open spec fn wf_tokens(toks: Seq<(Seq<char>, u32)>) -> bool {
    &&& forall|i: int, j: int| 0 <= i < j < toks.len() ==> (#[trigger] toks[i]).0 != (
    #[trigger] toks[j]).0
    &&& forall|i: int| 0 <= i < toks.len() ==> (#[trigger] toks[i]).1 >= 1
}

/// The accumulator's mathematical state: the terms seen so far (the
/// index of a term is its token id) and, per token id, the postings of
/// the current batch.
pub struct AccState {
    pub terms: Seq<Seq<char>>,
    pub posts: Seq<Seq<Posting>>,
}

pub open spec fn seq_has_term(ts: Seq<Seq<char>>, t: Seq<char>) -> bool {
    exists|i: int| 0 <= i < ts.len() && ts[i] == t
}

pub open spec fn seq_term_index(ts: Seq<Seq<char>>, t: Seq<char>) -> int {
    choose|i: int| 0 <= i < ts.len() && ts[i] == t
}

/// Folding one (term, frequency) pair of document `d` into the state.
pub open spec fn add_token(st: AccState, term: Seq<char>, freq: u32, d: usize) -> AccState {
    if seq_has_term(st.terms, term) {
        let id = seq_term_index(st.terms, term);
        AccState {
            terms: st.terms,
            posts: st.posts.update(id, st.posts[id].push(Posting { doc_id: d, freq })),
        }
    } else {
        AccState {
            terms: st.terms.push(term),
            posts: st.posts.push(seq![Posting { doc_id: d, freq }]),
        }
    }
}

/// Folding a whole document's token list into the state.
pub open spec fn add_doc_tokens(st: AccState, toks: Seq<(Seq<char>, u32)>, d: usize) -> AccState
    decreases toks.len(),
{
    if toks.len() == 0 {
        st
    } else {
        add_token(
            add_doc_tokens(st, toks.drop_last(), d),
            toks.last().0,
            toks.last().1,
            d,
        )
    }
}

/// The spill batch the first `i` token ids produce: the non-empty
/// postings lists, in ascending token-id order.
pub open spec fn spec_flush_upto(posts: Seq<Seq<Posting>>, i: int) -> Seq<(u32, Seq<Posting>)>
    decreases i,
{
    if i <= 0 {
        Seq::empty()
    } else if posts[i - 1].len() > 0 {
        spec_flush_upto(posts, i - 1).push(((i - 1) as u32, posts[i - 1]))
    } else {
        spec_flush_upto(posts, i - 1)
    }
}

/// The spill batch the whole accumulator state produces.
pub open spec fn spec_flush(posts: Seq<Seq<Posting>>) -> Seq<(u32, Seq<Posting>)> {
    spec_flush_upto(posts, posts.len() as int)
}

/// All-empty postings lists for `n` token ids: the state right after a
/// flush.
pub open spec fn cleared(n: nat) -> Seq<Seq<Posting>> {
    Seq::new(n, |i: int| Seq::<Posting>::empty())
}

impl Accumulator {
    /// The per-token-id postings lists of the current batch.
    pub open spec fn posts_view(&self) -> Seq<Seq<Posting>> {
        self.postings@.map_values(|v: Vec<Posting>| v@)
    }

    /// The accumulator's mathematical state.
    pub open spec fn st(&self) -> AccState {
        AccState { terms: self.lexicon@, posts: self.posts_view() }
    }

    pub open spec fn wf(&self) -> bool {
        &&& self.lexicon.wf()
        &&& self.postings@.len() == self.lexicon@.len()
        &&& forall|t: int|
            0 <= t < self.posts_view().len() ==> wf_plist(#[trigger] self.posts_view()[t])
        &&& forall|t: int, k: int|
            0 <= t < self.posts_view().len() && 0 <= k < self.posts_view()[t].len()
                ==> self.batch_start <= (#[trigger] self.posts_view()[t][k]).doc_id
                < self.docs@.len()
        &&& self.batch_start + self.batch_docs == self.docs@.len()
        &&& self.threshold >= 1
    }

    pub fn new(threshold: usize) -> (r: Accumulator)
        requires
            threshold >= 1,
        ensures
            r.wf(),
            r.st().terms =~= Seq::<Seq<char>>::empty(),
            r.st().posts =~= Seq::<Seq<Posting>>::empty(),
            r.docs@ =~= Seq::<(Seq<char>, u32)>::empty(),
            r.batch_start == 0,
            r.batch_docs == 0,
            r.threshold == threshold,
    {
        Accumulator {
            postings: Vec::new(),
            lexicon: Lexicon::new(),
            docs: DocTable::new(),
            batch_start: 0,
            batch_docs: 0,
            threshold,
        }
    }

    /// Folds one tokenized document into the in-memory state; the
    /// document's id is the next arrival position.
    pub fn add_document(&mut self, external_id: &String, length: u32, tokens: &Vec<(String, u32)>)
        requires
            old(self).wf(),
            wf_tokens(tokens_view(tokens@)),
            old(self).lexicon@.len() + tokens@.len() <= u32::MAX,
            old(self).docs@.len() < usize::MAX,
        ensures
            final(self).wf(),
            final(self).st() == add_doc_tokens(
                old(self).st(),
                tokens_view(tokens@),
                old(self).docs@.len() as usize,
            ),
            final(self).docs@ == old(self).docs@.push((external_id@, length)),
            final(self).batch_start == old(self).batch_start,
            final(self).batch_docs == old(self).batch_docs + 1,
            final(self).threshold == old(self).threshold,
    {
        let d = self.docs.len();
        let _ = self.docs.push_doc(external_id.clone(), length);
        let ghost st0 = old(self).st();
        let ghost tv = tokens_view(tokens@);
        let n = tokens.len();
        let mut i: usize = 0;
        proof {
            assert(tv.len() == n);
        }
        while i < n
            invariant
                i <= n,
                n == tokens@.len(),
                tv == tokens_view(tokens@),
                wf_tokens(tv),
                self.st() == add_doc_tokens(st0, tv.take(i as int), d),
                self.lexicon.wf(),
                self.postings@.len() == self.lexicon@.len(),
                self.lexicon@.len() <= st0.terms.len() + i,
                st0.terms.len() + n <= u32::MAX,
                d < self.docs@.len(),
                self.docs@.len() == d + 1,
                self.batch_start <= d,
                forall|t: int|
                    0 <= t < self.posts_view().len() ==> wf_plist(#[trigger] self.posts_view()[t]),
                forall|t: int, k: int|
                    0 <= t < self.posts_view().len() && 0 <= k < self.posts_view()[t].len()
                        ==> self.batch_start <= (#[trigger] self.posts_view()[t][k]).doc_id
                        < self.docs@.len(),
                forall|t: int, k: int|
                    0 <= t < self.posts_view().len() && 0 <= k < self.posts_view()[t].len()
                        && (#[trigger] self.posts_view()[t][k]).doc_id == d ==> exists|q: int|
                        0 <= q < i && (#[trigger] tv[q]).0 == self.lexicon@[t],
                self.batch_start == old(self).batch_start,
                self.batch_docs == old(self).batch_docs,
                self.threshold == old(self).threshold,
                self.docs@ == old(self).docs@.push((external_id@, length)),
            decreases n - i,
        {
            let ghost pre = self.st();
            let tok = &tokens[i];
            let freq = tok.1;
            proof {
                assert(tv[i as int] == (tok.0@, tok.1));
            }
            let id = self.lexicon.get_or_insert(&tok.0);
            let p = Posting { doc_id: d, freq };
            if (id as usize) < self.postings.len() {
                // Known term: append to its current-batch postings list.
                proof {
                    assert(pre.terms[id as int] == tok.0@);
                    assert(seq_has_term(pre.terms, tok.0@));
                    assert(seq_term_index(pre.terms, tok.0@) == id as int) by {
                        let w = seq_term_index(pre.terms, tok.0@);
                        assert(pre.terms[w] == tok.0@);
                        if w != id as int {
                            assert(pre.terms[w] != pre.terms[id as int]);
                        }
                    }
                    // The list holds no posting for this document yet:
                    // this term did not occur earlier in the document.
                    assert(forall|k: int|
                        0 <= k < pre.posts[id as int].len() ==> (
                        #[trigger] pre.posts[id as int][k]).doc_id < d) by {
                        assert forall|k: int|
                            0 <= k < pre.posts[id as int].len() implies (
                        #[trigger] pre.posts[id as int][k]).doc_id < d by {
                            if pre.posts[id as int][k].doc_id == d {
                                let q = choose|q: int|
                                    0 <= q < i && (#[trigger] tv[q]).0 == self.lexicon@[id as int];
                                assert(tv[q].0 == tv[i as int].0);
                            }
                        }
                    }
                }
                let mut lst = self.postings.remove(id as usize);
                lst.push(p);
                self.postings.insert(id as usize, lst);
                proof {
                    assert(self.posts_view() =~= pre.posts.update(
                        id as int,
                        pre.posts[id as int].push(p),
                    ));
                    assert(self.st() == add_token(pre, tv[i as int].0, tv[i as int].1, d));
                }
            } else {
                // New term: its token id is the next free index.
                proof {
                    assert(!seq_has_term(pre.terms, tok.0@)) by {
                        if seq_has_term(pre.terms, tok.0@) {
                            let w = choose|w: int|
                                0 <= w < pre.terms.len() && pre.terms[w] == tok.0@;
                            assert(self.lexicon@ == pre.terms);
                        }
                    }
                    assert(id as int == pre.terms.len());
                }
                let mut lst: Vec<Posting> = Vec::new();
                lst.push(p);
                self.postings.push(lst);
                proof {
                    assert(lst@ =~= seq![p]);
                    assert(self.posts_view() =~= pre.posts.push(seq![p]));
                    assert(self.st() == add_token(pre, tv[i as int].0, tv[i as int].1, d));
                }
            }
            proof {
                assert(tv.take(i as int + 1).drop_last() =~= tv.take(i as int));
                assert(tv.take(i as int + 1).last() == tv[i as int]);
                assert(self.st() == add_doc_tokens(st0, tv.take(i as int + 1), d));
            }
            i = i + 1;
        }
        self.batch_docs = self.batch_docs + 1;
        proof {
            assert(tv.take(n as int) =~= tv);
        }
    }

    /// The configured document-count threshold is reached: time to spill.
    pub fn should_flush(&self) -> (r: bool)
        ensures
            r == (self.batch_docs >= self.threshold),
    {
        self.batch_docs >= self.threshold
    }

    /// Serializes the current batch as a token-id-sorted run of records
    /// and clears the in-memory postings, starting the next batch at the
    /// next document id.
    pub fn flush(&mut self) -> (batch: Vec<TokenPostings>)
        requires
            old(self).wf(),
        ensures
            final(self).wf(),
            stream_view(batch@) == spec_flush(old(self).posts_view()),
            wf_batch(batch@),
            batch_docs_at_least(batch@, old(self).batch_start),
            batch_docs_below(batch@, old(self).docs@.len() as usize),
            final(self).lexicon@ == old(self).lexicon@,
            final(self).docs@ == old(self).docs@,
            final(self).threshold == old(self).threshold,
            final(self).posts_view() == cleared(old(self).lexicon@.len()),
            final(self).batch_start == old(self).docs@.len(),
            final(self).batch_docs == 0,
    {
        let ghost old_posts = self.posts_view();
        let mut batch: Vec<TokenPostings> = Vec::new();
        let n = self.postings.len();
        let doc_count = self.docs.len();
        let mut t: usize = 0;
        proof {
            assert(stream_view(batch@) =~= spec_flush_upto(old_posts, 0));
        }
        while t < n
            invariant
                t <= n,
                n == self.postings@.len(),
                n == old_posts.len(),
                n == self.lexicon@.len(),
                self.lexicon@.len() <= u32::MAX,
                self.lexicon@ == old(self).lexicon@,
                self.docs@ == old(self).docs@,
                self.threshold == old(self).threshold,
                self.batch_start == old(self).batch_start,
                doc_count == self.docs@.len(),
                forall|s: int| t <= s < n ==> #[trigger] self.posts_view()[s] == old_posts[s],
                forall|s: int| 0 <= s < t ==> (#[trigger] self.posts_view()[s]).len() == 0,
                stream_view(batch@) == spec_flush_upto(old_posts, t as int),
                forall|s: int| 0 <= s < old_posts.len() ==> wf_plist(#[trigger] old_posts[s]),
                forall|s: int, k: int|
                    0 <= s < old_posts.len() && 0 <= k < old_posts[s].len() ==> old(
                        self,
                    ).batch_start <= (#[trigger] old_posts[s][k]).doc_id < old(self).docs@.len(),
                forall|a: int|
                    0 <= a < batch@.len() ==> (#[trigger] batch@[a].token_id as int) < t,
                wf_batch(batch@),
                batch_docs_at_least(batch@, old(self).batch_start),
                batch_docs_below(batch@, old(self).docs@.len() as usize),
            decreases n - t,
        {
            let ghost pre_batch = batch@;
            let ghost pre_posts = self.postings@;
            proof {
                assert forall|s: int| t <= s < n implies pre_posts[s]@ == old_posts[s] by {
                    assert(self.posts_view()[s] == old_posts[s]);
                    assert(self.posts_view()[s] == pre_posts[s]@);
                }
                assert forall|s: int| 0 <= s < t implies pre_posts[s]@.len() == 0 by {
                    assert(self.posts_view()[s].len() == 0);
                    assert(self.posts_view()[s] == pre_posts[s]@);
                }
            }
            let lst = self.postings.remove(t);
            let empty_lst: Vec<Posting> = Vec::new();
            self.postings.insert(t, empty_lst);
            proof {
                assert(lst@ == old_posts[t as int]);
                assert(self.postings@.len() == n);
                assert forall|s: int| 0 <= s < n && s != t implies #[trigger] self.postings@[s]
                    == pre_posts[s] by {
                    if s < t {
                        assert(pre_posts.remove(t as int)[s] == pre_posts[s]);
                    } else {
                        assert(pre_posts.remove(t as int)[s - 1] == pre_posts[s]);
                    }
                }
                assert forall|s: int| t + 1 <= s < n implies #[trigger] self.posts_view()[s]
                    == old_posts[s] by {
                    assert(self.posts_view()[s] == self.postings@[s]@);
                }
                assert forall|s: int| 0 <= s < t + 1 implies (
                #[trigger] self.posts_view()[s]).len() == 0 by {
                    assert(self.posts_view()[s] == self.postings@[s]@);
                    if s == t {
                        assert(self.postings@[t as int]@.len() == 0);
                    }
                }
            }
            if lst.len() > 0 {
                let rec = TokenPostings { token_id: t as u32, postings: lst };
                batch.push(rec);
                proof {
                    assert(stream_view(batch@) =~= stream_view(pre_batch).push(
                        (t as u32, old_posts[t as int]),
                    ));
                    assert(forall|a: int|
                        0 <= a < pre_batch.len() ==> batch@[a] == pre_batch[a]);
                }
            }
            proof {
                assert(stream_view(batch@) == spec_flush_upto(old_posts, t as int + 1));
            }
            t = t + 1;
        }
        proof {
            assert forall|s: int|
                0 <= s < self.posts_view().len() implies #[trigger] self.posts_view()[s]
                == Seq::<Posting>::empty() by {
                assert(self.posts_view()[s].len() == 0);
                assert(self.posts_view()[s] =~= Seq::<Posting>::empty());
            }
            assert(self.posts_view() =~= cleared(old(self).lexicon@.len()));
        }
        self.batch_start = doc_count;
        self.batch_docs = 0;
        batch
    }
}

/// The in-memory accumulator: postings of the current batch indexed by
/// token id, the lexicon and document tables of the whole run, and the
/// batch bookkeeping.
pub struct Accumulator {
    pub postings: Vec<Vec<Posting>>,
    pub lexicon: Lexicon,
    pub docs: DocTable,
    pub batch_start: usize,
    pub batch_docs: usize,
    pub threshold: usize,
}

} // verus!
