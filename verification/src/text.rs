//! Query-text splitting: a conjunctive query is its whitespace-delimited
//! terms, looked up with exactly the spelling the lexicon was built with.

use vstd::prelude::*;

verus! {

/// The delimiters a query is split on.
pub open spec fn is_ws(c: char) -> bool {
    c == ' ' || c == '\t' || c == '\n' || c == '\r'
}

/// One splitting step: a delimiter closes the current term (if any);
/// any other character extends it.
pub open spec fn split_step(acc: (Seq<Seq<char>>, Seq<char>), c: char) -> (
    Seq<Seq<char>>,
    Seq<char>,
) {
    if is_ws(c) {
        if acc.1.len() > 0 {
            (acc.0.push(acc.1), Seq::empty())
        } else {
            acc
        }
    } else {
        (acc.0, acc.1.push(c))
    }
}

/// The closed terms and the open partial term after reading the first
/// `i` characters of `s`.
pub open spec fn split_fold(s: Seq<char>, i: int) -> (Seq<Seq<char>>, Seq<char>)
    decreases i,
{
    if i <= 0 {
        (Seq::empty(), Seq::empty())
    } else {
        split_step(split_fold(s, i - 1), s[i - 1])
    }
}

/// The whitespace-delimited terms of `s`, in order.
pub open spec fn split_ws(s: Seq<char>) -> Seq<Seq<char>> {
    let (ts, cur) = split_fold(s, s.len() as int);
    if cur.len() > 0 {
        ts.push(cur)
    } else {
        ts
    }
}

/// Relies on String::push: appends exactly the one character.
#[verifier::external_body]
fn push_char(s: &mut String, c: char)
    ensures
        final(s)@ == old(s)@.push(c),
{
    s.push(c);
}

/// Splits query text into its whitespace-delimited terms.
pub fn split_terms(text: &str) -> (terms: Vec<String>)
    ensures
        terms@.map_values(|t: String| t@) == split_ws(text@),
{
    let n = text.unicode_len();
    let mut terms: Vec<String> = Vec::new();
    let mut cur = String::new();
    let mut i: usize = 0;
    proof {
        assert(terms@.map_values(|t: String| t@) =~= split_fold(text@, 0).0);
        assert(cur@ =~= split_fold(text@, 0).1);
    }
    while i < n
        invariant
            i <= n,
            n == text@.len(),
            terms@.map_values(|t: String| t@) == split_fold(text@, i as int).0,
            cur@ == split_fold(text@, i as int).1,
        decreases n - i,
    {
        let ghost pre_terms = terms@;
        let ghost pre_cur = cur@;
        let c = text.get_char(i);
        if c == ' ' || c == '\t' || c == '\n' || c == '\r' {
            if !cur.as_str().is_empty() {
                terms.push(cur);
                cur = String::new();
                proof {
                    assert(terms@.map_values(|t: String| t@) =~= pre_terms.map_values(
                        |t: String| t@,
                    ).push(pre_cur));
                }
            }
        } else {
            push_char(&mut cur, c);
        }
        proof {
            assert(split_fold(text@, i as int + 1) == split_step(
                split_fold(text@, i as int),
                text@[i as int],
            ));
        }
        i = i + 1;
    }
    if !cur.as_str().is_empty() {
        let ghost pre_terms = terms@;
        let ghost pre_cur = cur@;
        terms.push(cur);
        proof {
            assert(terms@.map_values(|t: String| t@) =~= pre_terms.map_values(
                |t: String| t@,
            ).push(pre_cur));
        }
    }
    terms
}

} // verus!
