//! The term <-> token-id mapping and the document metadata table.
//!
//! A term's token id is its position in an append-only table, so the two
//! lookup directions (term to id, id to term) are views of one structure,
//! built during accumulation and immutable afterwards.

use vstd::prelude::*;
use crate::errors::IndexError;

verus! {

/// The term-and-id (or metadata) rows of a persisted table.
pub open spec fn pairs_view(v: Seq<(String, u32)>) -> Seq<(Seq<char>, u32)> {
    v.map_values(|r: (String, u32)| (r.0@, r.1))
}

/// One row per term, each beside its token id, in id order.
pub open spec fn lexicon_rows(ts: Seq<Seq<char>>) -> Seq<(Seq<char>, u32)> {
    Seq::new(ts.len(), |i: int| (ts[i], i as u32))
}

/// Strict lexicographic order on terms from position `i` on, comparing
/// code points — the order Rust's own string ordering gives, since
/// UTF-8 byte order agrees with code-point order.
pub open spec fn term_lt_from(a: Seq<char>, b: Seq<char>, i: int) -> bool
    decreases b.len() - i,
{
    if i >= b.len() {
        false
    } else if i >= a.len() {
        true
    } else if a[i] != b[i] {
        (a[i] as u32) < (b[i] as u32)
    } else {
        term_lt_from(a, b, i + 1)
    }
}

/// Strict lexicographic order on whole terms.
pub open spec fn term_lt(a: Seq<char>, b: Seq<char>) -> bool {
    term_lt_from(a, b, 0)
}

/// Rows sorted strictly ascending by term.
pub open spec fn rows_sorted_by_term(l: Seq<(Seq<char>, u32)>) -> bool {
    forall|k1: int, k2: int|
        0 <= k1 < k2 < l.len() ==> term_lt((#[trigger] l[k1]).0, (#[trigger] l[k2]).0)
}

/// Inserts a row before the first resident row whose term is not below
/// the new one.
pub open spec fn insert_row(row: (Seq<char>, u32), l: Seq<(Seq<char>, u32)>) -> Seq<
    (Seq<char>, u32),
>
    decreases l.len(),
{
    if l.len() == 0 {
        seq![row]
    } else if term_lt(l[0].0, row.0) {
        seq![l[0]] + insert_row(row, l.drop_first())
    } else {
        seq![row] + l
    }
}

/// The first `k` rows of `l`, insertion-sorted by term.
pub open spec fn sort_upto(l: Seq<(Seq<char>, u32)>, k: int) -> Seq<(Seq<char>, u32)>
    decreases k,
{
    if k <= 0 {
        Seq::empty()
    } else {
        insert_row(l[k - 1], sort_upto(l, k - 1))
    }
}

/// The rows of `l` sorted by term: how a lexicon artifact is laid out.
pub open spec fn sort_rows(l: Seq<(Seq<char>, u32)>) -> Seq<(Seq<char>, u32)> {
    sort_upto(l, l.len() as int)
}

/// Some row of `pv` carries token id `i`.
pub open spec fn covers(pv: Seq<(Seq<char>, u32)>, i: int) -> bool {
    exists|k: int| 0 <= k < pv.len() && ((#[trigger] pv[k]).1 as int) == i
}

/// Persisted rows describe table `ts`: one row per token id of `ts`
/// (ids pairwise distinct and covering every id), each row naming that
/// id's term — the bijection of the table, in any row order.
pub open spec fn rows_describe(pv: Seq<(Seq<char>, u32)>, ts: Seq<Seq<char>>) -> bool {
    &&& pv.len() == ts.len()
    &&& forall|k: int|
        0 <= k < pv.len() ==> ((#[trigger] pv[k]).1 as int) < ts.len() && ts[pv[k].1 as int]
            == pv[k].0
    &&& forall|k1: int, k2: int|
        0 <= k1 < k2 < pv.len() ==> (#[trigger] pv[k1]).1 != (#[trigger] pv[k2]).1
    &&& forall|i: int| 0 <= i < ts.len() ==> covers(pv, i)
}

/// The order is irreflexive.
proof fn lemma_term_lt_irrefl(a: Seq<char>, i: int)
    ensures
        !term_lt_from(a, a, i),
    decreases a.len() - i,
{
    if i < a.len() {
        lemma_term_lt_irrefl(a, i + 1);
    }
}

/// The order is transitive.
proof fn lemma_term_lt_trans(a: Seq<char>, b: Seq<char>, c: Seq<char>, i: int)
    requires
        term_lt_from(a, b, i),
        term_lt_from(b, c, i),
    ensures
        term_lt_from(a, c, i),
    decreases b.len() - i,
{
    assert(i < b.len());
    assert(i < c.len());
    if i >= a.len() {
    } else {
        if a[i] == b[i] && b[i] == c[i] {
            lemma_term_lt_trans(a, b, c, i + 1);
        }
    }
}

/// Two distinct terms compare one way or the other.
proof fn lemma_term_connex(a: Seq<char>, b: Seq<char>, i: int)
    requires
        0 <= i <= a.len(),
        0 <= i <= b.len(),
    ensures
        term_lt_from(a, b, i) || term_lt_from(b, a, i) || a.skip(i) =~= b.skip(i),
    decreases a.len() - i,
{
    if i >= b.len() {
        if i >= a.len() {
            assert(a.skip(i) =~= b.skip(i));
        }
    } else if i >= a.len() {
    } else if a[i] == b[i] {
        lemma_term_connex(a, b, i + 1);
        if !term_lt_from(a, b, i + 1) && !term_lt_from(b, a, i + 1) {
            assert(a.skip(i + 1) =~= b.skip(i + 1));
            assert(a.skip(i).len() == b.skip(i).len());
            assert forall|x: int| 0 <= x < a.skip(i).len() implies #[trigger] a.skip(i)[x]
                == b.skip(i)[x] by {
                if x == 0 {
                    assert(a.skip(i)[0] == a[i]);
                    assert(b.skip(i)[0] == b[i]);
                } else {
                    assert(a.skip(i)[x] == a[i + x]);
                    assert(b.skip(i)[x] == b[i + x]);
                    assert(a.skip(i + 1)[x - 1] == a[i + x]);
                    assert(b.skip(i + 1)[x - 1] == b[i + x]);
                }
            }
            assert(a.skip(i) =~= b.skip(i));
        }
    } else {
        // Distinct characters have distinct code points.
        vstd::utf8::char_u32_cast(a[i], a[i] as u32);
        vstd::utf8::char_u32_cast(b[i], b[i] as u32);
        assert((a[i] as u32) != (b[i] as u32));
    }
}

/// Whole-term connexity: distinct terms are strictly ordered.
proof fn lemma_term_lt_total(a: Seq<char>, b: Seq<char>)
    requires
        a != b,
    ensures
        term_lt(a, b) || term_lt(b, a),
{
    lemma_term_connex(a, b, 0);
    if !term_lt(a, b) && !term_lt(b, a) {
        assert(a.skip(0) =~= a);
        assert(b.skip(0) =~= b);
    }
}

/// A singleton-plus-sequence holds exactly the head and the members.
proof fn lemma_cons_contains(x: (Seq<char>, u32), l: Seq<(Seq<char>, u32)>, p: (Seq<char>, u32))
    ensures
        (seq![x] + l).contains(p) <==> (p == x || l.contains(p)),
{
    let c = seq![x] + l;
    if c.contains(p) {
        let k = choose|k: int| 0 <= k < c.len() && c[k] == p;
        if k > 0 {
            assert(l[k - 1] == p);
        }
    }
    if l.contains(p) {
        let k = choose|k: int| 0 <= k < l.len() && l[k] == p;
        assert(c[k + 1] == p);
    }
    assert(c[0] == x);
}

/// Inserting a fresh term keeps the rows sorted and adds exactly it.
proof fn lemma_insert_row_props(row: (Seq<char>, u32), l: Seq<(Seq<char>, u32)>)
    requires
        rows_sorted_by_term(l),
        forall|k: int| 0 <= k < l.len() ==> (#[trigger] l[k]).0 != row.0,
    ensures
        rows_sorted_by_term(insert_row(row, l)),
        insert_row(row, l).len() == l.len() + 1,
        forall|p: (Seq<char>, u32)|
            #[trigger] insert_row(row, l).contains(p) <==> (p == row || l.contains(p)),
    decreases l.len(),
{
    let r = insert_row(row, l);
    if l.len() == 0 {
        assert forall|p: (Seq<char>, u32)| #[trigger] r.contains(p) <==> (p == row
            || l.contains(p)) by {
            if r.contains(p) {
                let k = choose|k: int| 0 <= k < r.len() && r[k] == p;
                assert(r[0] == row);
            }
            assert(r[0] == row);
        }
    } else if term_lt(l[0].0, row.0) {
        let ldf = l.drop_first();
        assert(rows_sorted_by_term(ldf)) by {
            assert(forall|j: int| 0 <= j < ldf.len() ==> ldf[j] == l[j + 1]);
        }
        assert(forall|k: int| 0 <= k < ldf.len() ==> (#[trigger] ldf[k]).0 != row.0) by {
            assert(forall|j: int| 0 <= j < ldf.len() ==> ldf[j] == l[j + 1]);
        }
        lemma_insert_row_props(row, ldf);
        let tail = insert_row(row, ldf);
        assert(r =~= seq![l[0]] + tail);
        assert forall|p: (Seq<char>, u32)| #[trigger] r.contains(p) <==> (p == row
            || l.contains(p)) by {
            lemma_cons_contains(l[0], tail, p);
            if p == l[0] {
                assert(l.contains(p)) by {
                    assert(l[0] == p);
                }
            }
            if l.contains(p) && p != l[0] {
                let k = choose|k: int| 0 <= k < l.len() && l[k] == p;
                assert(k >= 1);
                assert(ldf[k - 1] == p);
            }
            if ldf.contains(p) {
                let k = choose|k: int| 0 <= k < ldf.len() && ldf[k] == p;
                assert(l[k + 1] == p);
            }
        }
        assert forall|k1: int, k2: int|
            0 <= k1 < k2 < r.len() implies term_lt((#[trigger] r[k1]).0, (#[trigger] r[k2]).0) by {
            if k1 == 0 {
                assert(r[0] == l[0]);
                assert(r[k2] == tail[k2 - 1]);
                assert(tail.contains(tail[k2 - 1]));
                if tail[k2 - 1] == row {
                } else {
                    assert(ldf.contains(tail[k2 - 1]));
                    let m = choose|m: int| 0 <= m < ldf.len() && ldf[m] == tail[k2 - 1];
                    assert(ldf[m] == l[m + 1]);
                    assert(term_lt(l[0].0, l[m + 1].0));
                }
            } else {
                assert(r[k1] == tail[k1 - 1] && r[k2] == tail[k2 - 1]);
            }
        }
    } else {
        assert(r =~= seq![row] + l);
        assert forall|p: (Seq<char>, u32)| #[trigger] r.contains(p) <==> (p == row
            || l.contains(p)) by {
            lemma_cons_contains(row, l, p);
        }
        assert(row.0 != l[0].0);
        lemma_term_lt_total(row.0, l[0].0);
        assert(term_lt(row.0, l[0].0));
        assert forall|k1: int, k2: int|
            0 <= k1 < k2 < r.len() implies term_lt((#[trigger] r[k1]).0, (#[trigger] r[k2]).0) by {
            if k1 == 0 {
                assert(r[0] == row);
                assert(r[k2] == l[k2 - 1]);
                if k2 - 1 > 0 {
                    assert(term_lt(l[0].0, l[k2 - 1].0));
                    lemma_term_lt_trans(row.0, l[0].0, l[k2 - 1].0, 0);
                }
            } else {
                assert(r[k1] == l[k1 - 1] && r[k2] == l[k2 - 1]);
            }
        }
    }
}

/// Sorting the first `k` rows keeps exactly those rows, ordered by term.
proof fn lemma_sort_upto_props(l: Seq<(Seq<char>, u32)>, k: int)
    requires
        0 <= k <= l.len(),
        forall|k1: int, k2: int|
            0 <= k1 < k2 < l.len() ==> (#[trigger] l[k1]).0 != (#[trigger] l[k2]).0,
    ensures
        sort_upto(l, k).len() == k,
        rows_sorted_by_term(sort_upto(l, k)),
        forall|p: (Seq<char>, u32)|
            #[trigger] sort_upto(l, k).contains(p) <==> l.take(k).contains(p),
    decreases k,
{
    if k == 0 {
        assert forall|p: (Seq<char>, u32)| #[trigger] sort_upto(l, 0).contains(p) <==> l.take(
            0,
        ).contains(p) by {
            if sort_upto(l, 0).contains(p) {
                let m = choose|m: int| 0 <= m < sort_upto(l, 0).len() && sort_upto(l, 0)[m] == p;
            }
            if l.take(0).contains(p) {
                let m = choose|m: int| 0 <= m < l.take(0).len() && l.take(0)[m] == p;
            }
        }
    } else {
        lemma_sort_upto_props(l, k - 1);
        let prev = sort_upto(l, k - 1);
        assert(forall|m: int| 0 <= m < prev.len() ==> (#[trigger] prev[m]).0 != l[k - 1].0) by {
            assert forall|m: int| 0 <= m < prev.len() implies (#[trigger] prev[m]).0 != l[k
                - 1].0 by {
                assert(prev.contains(prev[m]));
                assert(l.take(k - 1).contains(prev[m]));
                let x = choose|x: int|
                    0 <= x < l.take(k - 1).len() && #[trigger] l.take(k - 1)[x] == prev[m];
                assert(l[x] == prev[m]);
                assert(l[x].0 != l[k - 1].0);
            }
        }
        lemma_insert_row_props(l[k - 1], prev);
        assert forall|p: (Seq<char>, u32)| #[trigger] sort_upto(l, k).contains(p) <==> l.take(
            k,
        ).contains(p) by {
            assert(sort_upto(l, k).contains(p) <==> (p == l[k - 1] || prev.contains(p)));
            if l.take(k).contains(p) {
                let m = choose|m: int| 0 <= m < l.take(k).len() && l.take(k)[m] == p;
                if m < k - 1 {
                    assert(l.take(k - 1)[m] == p);
                } else {
                    assert(p == l[k - 1]);
                }
            }
            if p == l[k - 1] {
                assert(l.take(k)[k - 1] == p);
            }
            if l.take(k - 1).contains(p) {
                let m = choose|m: int|
                    0 <= m < l.take(k - 1).len() && #[trigger] l.take(k - 1)[m] == p;
                assert(l.take(k)[m] == p);
            }
        }
    }
}

/// How the persisted lexicon artifact is laid out: its rows are sorted
/// strictly ascending by term, hold exactly one (term, id) row per term
/// of the table — each term beside its own token id — and their ids are
/// pairwise distinct, so the artifact preserves the bijection.
pub proof fn lemma_lexicon_artifact_rows(ts: Seq<Seq<char>>)
    requires
        forall|i: int, j: int| 0 <= i < j < ts.len() ==> ts[i] != ts[j],
        ts.len() <= u32::MAX,
    ensures
        sort_rows(lexicon_rows(ts)).len() == ts.len(),
        rows_sorted_by_term(sort_rows(lexicon_rows(ts))),
        forall|p: (Seq<char>, u32)|
            #[trigger] sort_rows(lexicon_rows(ts)).contains(p) <==> lexicon_rows(ts).contains(p),
        forall|k1: int, k2: int|
            0 <= k1 < k2 < ts.len() ==> (#[trigger] sort_rows(lexicon_rows(ts))[k1]).1 != (
            #[trigger] sort_rows(lexicon_rows(ts))[k2]).1,
{
    let rows = lexicon_rows(ts);
    assert(forall|k1: int, k2: int|
        0 <= k1 < k2 < rows.len() ==> (#[trigger] rows[k1]).0 != (#[trigger] rows[k2]).0);
    lemma_sort_upto_props(rows, rows.len() as int);
    assert(rows.take(rows.len() as int) =~= rows);
    let sorted = sort_rows(rows);
    assert forall|k1: int, k2: int|
        0 <= k1 < k2 < ts.len() implies (#[trigger] sorted[k1]).1 != (
    #[trigger] sorted[k2]).1 by {
        if sorted[k1].1 == sorted[k2].1 {
            assert(sorted.contains(sorted[k1]));
            assert(sorted.contains(sorted[k2]));
            assert(rows.contains(sorted[k1]));
            assert(rows.contains(sorted[k2]));
            let i1 = choose|i: int| 0 <= i < rows.len() && rows[i] == sorted[k1];
            let i2 = choose|i: int| 0 <= i < rows.len() && rows[i] == sorted[k2];
            assert(rows[i1] == (ts[i1], i1 as u32));
            assert(rows[i2] == (ts[i2], i2 as u32));
            assert(i1 == i2);
            assert(sorted[k1] == sorted[k2]);
            assert(term_lt(sorted[k1].0, sorted[k2].0));
            lemma_term_lt_irrefl(sorted[k1].0, 0);
        }
    }
}

/// Inserting before the first resident row whose term is not below the
/// new one splits the rows at exactly that position.
proof fn lemma_insert_row_at(row: (Seq<char>, u32), l: Seq<(Seq<char>, u32)>, p: int)
    requires
        0 <= p <= l.len(),
        forall|j: int| 0 <= j < p ==> term_lt((#[trigger] l[j]).0, row.0),
        p == l.len() || !term_lt(l[p].0, row.0),
    ensures
        insert_row(row, l) =~= l.take(p) + seq![row] + l.skip(p),
    decreases p,
{
    if p == 0 {
        if l.len() == 0 {
            assert(insert_row(row, l) =~= l.take(0) + seq![row] + l.skip(0));
        } else {
            assert(!term_lt(l[0].0, row.0));
            assert(l.take(0) =~= Seq::<(Seq<char>, u32)>::empty());
            assert(l.skip(0) =~= l);
        }
    } else {
        assert(term_lt(l[0].0, row.0));
        let ldf = l.drop_first();
        assert(forall|j: int| 0 <= j < ldf.len() ==> ldf[j] == l[j + 1]);
        lemma_insert_row_at(row, ldf, p - 1);
        assert(insert_row(row, l) == seq![l[0]] + insert_row(row, ldf));
        assert(insert_row(row, l) =~= l.take(p) + seq![row] + l.skip(p)) by {
            assert(insert_row(row, ldf) =~= ldf.take(p - 1) + seq![row] + ldf.skip(p - 1));
        }
    }
}

/// Code-point comparison of two terms from character `i` on: the order
/// the persisted lexicon rows are sorted in.
fn term_less(a: &str, b: &str, i: usize) -> (r: bool)
    requires
        i <= a@.len(),
        i <= b@.len(),
    ensures
        r == term_lt_from(a@, b@, i as int),
    decreases b@.len() - i,
{
    let bn = b.unicode_len();
    if i >= bn {
        return false;
    }
    let an = a.unicode_len();
    if i >= an {
        return true;
    }
    let ca = a.get_char(i);
    let cb = b.get_char(i);
    if ca != cb {
        return (ca as u32) < (cb as u32);
    }
    term_less(a, b, i + 1)
}

/// Bidirectional term <-> token-id table. Token ids are assigned densely
/// in first-seen order: the id of a term is its index in the table.
pub struct Lexicon {
    terms: Vec<String>,
}

impl View for Lexicon {
    type V = Seq<Seq<char>>;

    closed spec fn view(&self) -> Seq<Seq<char>> {
        self.terms@.map_values(|t: String| t@)
    }
}

impl Lexicon {
    /// No term occurs twice (each term has exactly one id) and every
    /// index fits a 32-bit token id.
    pub open spec fn wf(&self) -> bool {
        &&& forall|i: int, j: int| 0 <= i < j < self@.len() ==> self@[i] != self@[j]
        &&& self@.len() <= u32::MAX
    }

    /// The term is present in the table.
    pub open spec fn contains_term(&self, t: Seq<char>) -> bool {
        exists|i: int| 0 <= i < self@.len() && self@[i] == t
    }

    pub fn new() -> (r: Lexicon)
        ensures
            r.wf(),
            r@ =~= Seq::<Seq<char>>::empty(),
    {
        Lexicon { terms: Vec::new() }
    }

    pub fn len(&self) -> (r: usize)
        ensures
            r == self@.len(),
    {
        self.terms.len()
    }

    /// The token id of `term`, or `None` when the term was never indexed.
    pub fn token_of(&self, term: &String) -> (r: Option<u32>)
        requires
            self.wf(),
        ensures
            r is Some ==> 0 <= r->0 < self@.len() && self@[r->0 as int] == term@,
            r is None ==> !self.contains_term(term@),
    {
        let n = self.terms.len();
        let mut i: usize = 0;
        while i < n
            invariant
                i <= n,
                n == self@.len(),
                self.wf(),
                forall|j: int| 0 <= j < i ==> self@[j] != term@,
            decreases n - i,
        {
            if self.terms[i].eq(term) {
                return Some(i as u32);
            }
            i = i + 1;
        }
        None
    }

    /// The term a token id names, or `None` for an unassigned id.
    pub fn term_of(&self, id: u32) -> (r: Option<&String>)
        ensures
            (id as int) < self@.len() ==> r is Some && r->0@ == self@[id as int],
            (id as int) >= self@.len() ==> r is None,
    {
        if (id as usize) < self.terms.len() {
            Some(&self.terms[id as usize])
        } else {
            None
        }
    }

    /// The id of `term`, assigning the next free id when the term is new.
    pub fn get_or_insert(&mut self, term: &String) -> (id: u32)
        requires
            old(self).wf(),
            old(self)@.len() < u32::MAX,
        ensures
            final(self).wf(),
            old(self).contains_term(term@) ==> {
                &&& final(self)@ == old(self)@
                &&& 0 <= id < old(self)@.len()
                &&& old(self)@[id as int] == term@
            },
            !old(self).contains_term(term@) ==> {
                &&& final(self)@ =~= old(self)@.push(term@)
                &&& id as int == old(self)@.len()
            },
    {
        match self.token_of(term) {
            Some(id) => id,
            None => {
                let id = self.terms.len();
                self.terms.push(term.clone());
                proof {
                    assert(self@ =~= old(self)@.push(term@));
                }
                id as u32
            },
        }
    }

    /// The table as persistable (term, token id) rows, in id order.
    pub fn pairs(&self) -> (r: Vec<(String, u32)>)
        requires
            self.wf(),
        ensures
            pairs_view(r@) == lexicon_rows(self@),
    {
        let n = self.terms.len();
        let mut out: Vec<(String, u32)> = Vec::new();
        let mut i: usize = 0;
        proof {
            assert(pairs_view(out@) =~= lexicon_rows(self@).take(0));
        }
        while i < n
            invariant
                i <= n,
                self.wf(),
                n == self@.len(),
                pairs_view(out@) == lexicon_rows(self@).take(i as int),
            decreases n - i,
        {
            let term = self.terms[i].clone();
            proof {
                assert(term@ == self@[i as int]);
            }
            let ghost pre = out@;
            out.push((term, i as u32));
            proof {
                assert(pairs_view(pre).len() == pre.len());
                assert(pairs_view(pre) == lexicon_rows(self@).take(i as int));
                assert(pre.len() == i);
                assert(out@.len() == i + 1);
                assert forall|k: int|
                    0 <= k < i + 1 implies pairs_view(out@)[k] == lexicon_rows(self@).take(
                    i as int + 1,
                )[k] by {
                    if k < i {
                        assert(out@[k] == pre[k]);
                        assert(pairs_view(out@)[k] == (pre[k].0@, pre[k].1));
                        assert(pairs_view(pre)[k] == (pre[k].0@, pre[k].1));
                    } else {
                        assert(pairs_view(out@)[k] == (term@, i as u32));
                        assert(lexicon_rows(self@)[k] == (self@[k], k as u32));
                    }
                }
                assert(pairs_view(out@) =~= lexicon_rows(self@).take(i as int + 1));
            }
            i = i + 1;
        }
        proof {
            assert(lexicon_rows(self@).take(n as int) =~= lexicon_rows(self@));
        }
        out
    }

    /// The table as persistable rows sorted strictly ascending by term:
    /// how the lexicon artifact is laid out on disk.
    pub fn sorted_pairs(&self) -> (r: Vec<(String, u32)>)
        requires
            self.wf(),
        ensures
            pairs_view(r@) == sort_rows(lexicon_rows(self@)),
    {
        let rows = self.pairs();
        let ghost lv = lexicon_rows(self@);
        let n = rows.len();
        proof {
            assert(pairs_view(rows@).len() == rows@.len());
            assert(lv.len() == self@.len());
        }
        let mut out: Vec<(String, u32)> = Vec::new();
        let mut k: usize = 0;
        proof {
            assert(pairs_view(out@) =~= sort_upto(lv, 0));
        }
        while k < n
            invariant
                k <= n,
                n == rows@.len(),
                n == lv.len(),
                pairs_view(rows@) == lv,
                pairs_view(out@) == sort_upto(lv, k as int),
                out@.len() == k,
            decreases n - k,
        {
            let term = rows[k].0.clone();
            let id = rows[k].1;
            proof {
                assert(pairs_view(rows@)[k as int] == (rows@[k as int].0@, rows@[k as int].1));
                assert(lv[k as int] == (term@, id));
            }
            let mut p: usize = 0;
            loop
                invariant
                    p <= k,
                    k <= n,
                    n == rows@.len(),
                    n == lv.len(),
                    out@.len() == k,
                    pairs_view(out@) == sort_upto(lv, k as int),
                    term@ == lv[k as int].0,
                    forall|j: int|
                        0 <= j < p ==> term_lt((#[trigger] pairs_view(out@)[j]).0, term@),
                ensures
                    p <= k,
                    out@.len() == k,
                    pairs_view(out@) == sort_upto(lv, k as int),
                    forall|j: int|
                        0 <= j < p ==> term_lt((#[trigger] pairs_view(out@)[j]).0, term@),
                    p == k || !term_lt(pairs_view(out@)[p as int].0, term@),
                decreases k - p,
            {
                if p >= out.len() {
                    break;
                }
                let less = term_less(out[p].0.as_str(), term.as_str(), 0);
                proof {
                    assert(pairs_view(out@)[p as int] == (out@[p as int].0@, out@[p as int].1));
                }
                if !less {
                    break;
                }
                p = p + 1;
            }
            let ghost pre_out = out@;
            let ghost rowv = (term@, id);
            out.insert(p, (term, id));
            proof {
                lemma_insert_row_at(rowv, pairs_view(pre_out), p as int);
                assert(out@.len() == pre_out.len() + 1);
                assert forall|j: int|
                    0 <= j < out@.len() implies pairs_view(out@)[j] == insert_row(
                    rowv,
                    pairs_view(pre_out),
                )[j] by {
                    assert(pairs_view(out@)[j] == (out@[j].0@, out@[j].1));
                    assert(insert_row(rowv, pairs_view(pre_out)) =~= pairs_view(pre_out).take(
                        p as int,
                    ) + seq![rowv] + pairs_view(pre_out).skip(p as int));
                    if j < p {
                        assert(out@[j] == pre_out[j]);
                        assert(pairs_view(pre_out)[j] == (pre_out[j].0@, pre_out[j].1));
                    } else if j == p {
                        assert(out@[j].0@ == term@ && out@[j].1 == id);
                    } else {
                        assert(out@[j] == pre_out[j - 1]);
                        assert(pairs_view(pre_out)[j - 1] == (pre_out[j - 1].0@, pre_out[j
                            - 1].1));
                    }
                }
                assert(insert_row(rowv, pairs_view(pre_out)).len() == pre_out.len() + 1) by {
                    assert(insert_row(rowv, pairs_view(pre_out)) =~= pairs_view(pre_out).take(
                        p as int,
                    ) + seq![rowv] + pairs_view(pre_out).skip(p as int));
                }
                assert(pairs_view(out@) =~= insert_row(rowv, pairs_view(pre_out)));
                assert(rowv == lv[k as int]);
                assert(pairs_view(out@) == sort_upto(lv, k as int + 1));
            }
            k = k + 1;
        }
        proof {
            assert(sort_upto(lv, n as int) == sort_rows(lv));
        }
        out
    }

    /// Rebuilds the table from persisted rows, in any row order,
    /// checking that the ids are exactly one each of 0..n and the terms
    /// unique; the rows of any well-formed table round-trip to exactly
    /// that table.
    pub fn from_pairs(pairs: &Vec<(String, u32)>) -> (r: Result<Lexicon, IndexError>)
        ensures
            r is Ok ==> r->Ok_0.wf() && rows_describe(pairs_view(pairs@), r->Ok_0@),
            r is Err ==> r->Err_0 == IndexError::CorruptArtifact,
            forall|ts: Seq<Seq<char>>|
                (forall|i: int, j: int| 0 <= i < j < ts.len() ==> ts[i] != ts[j]) && ts.len()
                    <= u32::MAX && #[trigger] rows_describe(pairs_view(pairs@), ts) ==> r is Ok
                    && r->Ok_0@ == ts,
    {
        let ghost pv = pairs_view(pairs@);
        let n = pairs.len();
        proof {
            assert(pv.len() == n);
        }
        if n > u32::MAX as usize {
            return Err(IndexError::CorruptArtifact);
        }
        let mut k: usize = 0;
        while k < n
            invariant
                k <= n,
                n == pairs@.len(),
                pv == pairs_view(pairs@),
                forall|x: int| 0 <= x < k ==> ((#[trigger] pv[x]).1 as int) < n,
            decreases n - k,
        {
            proof {
                assert(pv[k as int] == (pairs@[k as int].0@, pairs@[k as int].1));
            }
            if pairs[k].1 as usize >= n {
                return Err(IndexError::CorruptArtifact);
            }
            k = k + 1;
        }
        let mut k1: usize = 0;
        while k1 < n
            invariant
                k1 <= n,
                n == pairs@.len(),
                pv == pairs_view(pairs@),
                forall|x: int, y: int|
                    0 <= x < y < n && x < k1 ==> (#[trigger] pv[x]).1 != (#[trigger] pv[y]).1,
            decreases n - k1,
        {
            let mut k2: usize = k1 + 1;
            while k2 < n
                invariant
                    k1 < n,
                    k1 + 1 <= k2 <= n,
                    n == pairs@.len(),
                    pv == pairs_view(pairs@),
                    forall|y: int| k1 < y < k2 ==> (#[trigger] pv[y]).1 != pv[k1 as int].1,
                decreases n - k2,
            {
                proof {
                    assert(pv[k1 as int] == (pairs@[k1 as int].0@, pairs@[k1 as int].1));
                    assert(pv[k2 as int] == (pairs@[k2 as int].0@, pairs@[k2 as int].1));
                }
                if pairs[k1].1 == pairs[k2].1 {
                    return Err(IndexError::CorruptArtifact);
                }
                k2 = k2 + 1;
            }
            k1 = k1 + 1;
        }
        let mut lex = Lexicon::new();
        let mut i: usize = 0;
        while i < n
            invariant
                i <= n,
                n == pairs@.len(),
                n <= u32::MAX,
                pv == pairs_view(pairs@),
                pv.len() == n,
                lex.wf(),
                lex@.len() == i,
                forall|x: int| 0 <= x < n ==> ((#[trigger] pv[x]).1 as int) < n,
                forall|x: int, y: int|
                    0 <= x < y < n ==> (#[trigger] pv[x]).1 != (#[trigger] pv[y]).1,
                forall|x: int|
                    0 <= x < n && ((#[trigger] pv[x]).1 as int) < i ==> lex@[pv[x].1 as int]
                        == pv[x].0,
                forall|j: int| 0 <= j < i ==> covers(pv, j),
                forall|ts: Seq<Seq<char>>|
                    (forall|a: int, b: int| 0 <= a < b < ts.len() ==> ts[a] != ts[b]) && ts.len()
                        <= u32::MAX && #[trigger] rows_describe(pv, ts) ==> lex@ == ts.take(
                        i as int,
                    ),
            decreases n - i,
        {
            let mut pos: usize = 0;
            while pos < n
                invariant
                    pos <= n,
                    n == pairs@.len(),
                    pv == pairs_view(pairs@),
                    forall|x: int| 0 <= x < pos ==> ((#[trigger] pv[x]).1 as int) != i as int,
                ensures
                    pos <= n,
                    pos < n ==> (pv[pos as int].1 as int) == i as int,
                    pos == n ==> forall|x: int|
                        0 <= x < n ==> ((#[trigger] pv[x]).1 as int) != i as int,
                decreases n - pos,
            {
                proof {
                    assert(pv[pos as int] == (pairs@[pos as int].0@, pairs@[pos as int].1));
                }
                if pairs[pos].1 as usize == i {
                    break;
                }
                pos = pos + 1;
            }
            if pos >= n {
                proof {
                    assert forall|ts: Seq<Seq<char>>|
                        (forall|a: int, b: int| 0 <= a < b < ts.len() ==> ts[a] != ts[b])
                            && ts.len() <= u32::MAX && #[trigger] rows_describe(pv, ts)
                        implies false by {
                        assert(covers(pv, i as int));
                        let w = choose|w: int|
                            0 <= w < pv.len() && ((#[trigger] pv[w]).1 as int) == i as int;
                    }
                }
                return Err(IndexError::CorruptArtifact);
            }
            let row = &pairs[pos];
            proof {
                assert(pv[pos as int] == (row.0@, row.1));
            }
            match lex.token_of(&row.0) {
                Some(_) => {
                    proof {
                        assert forall|ts: Seq<Seq<char>>|
                            (forall|a: int, b: int| 0 <= a < b < ts.len() ==> ts[a] != ts[b])
                                && ts.len() <= u32::MAX && #[trigger] rows_describe(pv, ts)
                            implies false by {
                            let w = choose|w: int| 0 <= w < lex@.len() && lex@[w] == row.0@;
                            assert(lex@ == ts.take(i as int));
                            assert(ts[pv[pos as int].1 as int] == pv[pos as int].0);
                            assert(ts[w] == ts[i as int]);
                        }
                    }
                    return Err(IndexError::CorruptArtifact);
                },
                None => {},
            }
            let ghost pre_lex = lex@;
            let id = lex.get_or_insert(&row.0);
            proof {
                assert(id as int == i as int);
                assert(lex@ == pre_lex.push(row.0@));
                assert forall|x: int|
                    0 <= x < n && ((#[trigger] pv[x]).1 as int) < i + 1 implies lex@[pv[x].1
                    as int] == pv[x].0 by {
                    if (pv[x].1 as int) == i as int {
                        if x != pos as int {
                            if x < pos as int {
                                assert(pv[x].1 != pv[pos as int].1);
                            } else {
                                assert(pv[pos as int].1 != pv[x].1);
                            }
                        }
                        assert(x == pos as int);
                        assert(lex@[i as int] == row.0@);
                    } else {
                        assert(lex@[pv[x].1 as int] == pre_lex[pv[x].1 as int]);
                    }
                }
                assert forall|ts: Seq<Seq<char>>|
                    (forall|a: int, b: int| 0 <= a < b < ts.len() ==> ts[a] != ts[b]) && ts.len()
                        <= u32::MAX && #[trigger] rows_describe(pv, ts) implies lex@ == ts.take(
                    i as int + 1,
                ) by {
                    assert(pre_lex == ts.take(i as int));
                    assert(ts[pv[pos as int].1 as int] == pv[pos as int].0);
                    assert(row.0@ == ts[i as int]);
                    assert(lex@ =~= ts.take(i as int + 1));
                }
            }
            i = i + 1;
        }
        proof {
            assert(rows_describe(pv, lex@));
            assert forall|ts: Seq<Seq<char>>|
                (forall|a: int, b: int| 0 <= a < b < ts.len() ==> ts[a] != ts[b]) && ts.len()
                    <= u32::MAX && #[trigger] rows_describe(pv, ts) implies lex@ == ts by {
                assert(lex@ == ts.take(n as int));
                assert(ts.take(n as int) =~= ts);
            }
        }
        Ok(lex)
    }
}

/// What is recorded per document: its external identifier and its length
/// in tokens.
pub struct DocMeta {
    pub external_id: String,
    pub length: u32,
}

/// The document-id -> (external id, length) table. Document ids are
/// assigned densely in arrival order: a document's id is its index.
pub struct DocTable {
    docs: Vec<DocMeta>,
}

impl View for DocTable {
    type V = Seq<(Seq<char>, u32)>;

    closed spec fn view(&self) -> Seq<(Seq<char>, u32)> {
        self.docs@.map_values(|d: DocMeta| (d.external_id@, d.length))
    }
}

impl DocTable {
    pub fn new() -> (r: DocTable)
        ensures
            r@ =~= Seq::<(Seq<char>, u32)>::empty(),
    {
        DocTable { docs: Vec::new() }
    }

    pub fn len(&self) -> (r: usize)
        ensures
            r == self@.len(),
    {
        self.docs.len()
    }

    /// Records one document's metadata; its id is the table index used.
    pub fn push_doc(&mut self, external_id: String, length: u32) -> (id: usize)
        ensures
            final(self)@ =~= old(self)@.push((external_id@, length)),
            id == old(self)@.len(),
    {
        let id = self.docs.len();
        self.docs.push(DocMeta { external_id, length });
        proof {
            assert(self@ =~= old(self)@.push((external_id@, length)));
        }
        id
    }

    /// The table as persistable (external id, length) rows, in document
    /// id order.
    pub fn rows(&self) -> (r: Vec<(String, u32)>)
        ensures
            pairs_view(r@) == self@,
    {
        let n = self.docs.len();
        let mut out: Vec<(String, u32)> = Vec::new();
        let mut i: usize = 0;
        proof {
            assert(pairs_view(out@) =~= self@.take(0));
        }
        while i < n
            invariant
                i <= n,
                n == self@.len(),
                n == self.docs@.len(),
                pairs_view(out@) == self@.take(i as int),
            decreases n - i,
        {
            let ext = self.docs[i].external_id.clone();
            let len = self.docs[i].length;
            proof {
                assert(self@[i as int] == (self.docs@[i as int].external_id@, self.docs@[
                    i as int
                ].length));
            }
            let ghost pre = out@;
            out.push((ext, len));
            proof {
                assert(pairs_view(pre).len() == pre.len());
                assert(pairs_view(pre) == self@.take(i as int));
                assert(pre.len() == i);
                assert(out@.len() == i + 1);
                assert forall|k: int|
                    0 <= k < i + 1 implies pairs_view(out@)[k] == self@.take(i as int + 1)[k] by {
                    if k < i {
                        assert(out@[k] == pre[k]);
                        assert(pairs_view(out@)[k] == (pre[k].0@, pre[k].1));
                        assert(pairs_view(pre)[k] == (pre[k].0@, pre[k].1));
                    } else {
                        assert(pairs_view(out@)[k] == (ext@, len));
                    }
                }
                assert(pairs_view(out@) =~= self@.take(i as int + 1));
            }
            i = i + 1;
        }
        proof {
            assert(self@.take(n as int) =~= self@);
        }
        out
    }

    /// Rebuilds the table from persisted rows; every run of rows is a
    /// valid table, so this cannot fail.
    pub fn from_rows(rows: &Vec<(String, u32)>) -> (r: DocTable)
        ensures
            r@ == pairs_view(rows@),
    {
        let n = rows.len();
        let mut out = DocTable::new();
        let mut i: usize = 0;
        proof {
            assert(out@ =~= pairs_view(rows@).take(0));
        }
        while i < n
            invariant
                i <= n,
                n == rows@.len(),
                out@ == pairs_view(rows@).take(i as int),
            decreases n - i,
        {
            let row = &rows[i];
            let _ = out.push_doc(row.0.clone(), row.1);
            proof {
                assert(out@ =~= pairs_view(rows@).take(i as int + 1));
            }
            i = i + 1;
        }
        proof {
            assert(pairs_view(rows@).take(n as int) =~= pairs_view(rows@));
        }
        out
    }

    /// The metadata of document `id`, or `None` for an unassigned id.
    pub fn meta_of(&self, id: usize) -> (r: Option<&DocMeta>)
        ensures
            (id as int) < self@.len() ==> r is Some && (r->0.external_id@, r->0.length)
                == self@[id as int],
            (id as int) >= self@.len() ==> r is None,
    {
        if id < self.docs.len() {
            Some(&self.docs[id])
        } else {
            None
        }
    }
}

} // verus!
