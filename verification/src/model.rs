//! The mathematical model of the index: occurrence counts, document
//! frequencies and token totals over sequences of tokens.

use vstd::prelude::*;

verus! {

broadcast use vstd::seq_lib::lemma_seq_contains_after_push;

/// A token is a sequence of chars; a document is the sequence of its tokens.
pub type Doc = Seq<Seq<char>>;

/// Number of occurrences of the term `t` in the tokens of a document.
pub open spec fn count(tokens: Doc, t: Seq<char>) -> nat
    decreases tokens.len(),
{
    if tokens.len() == 0 {
        0
    } else {
        count(tokens.drop_last(), t) + if tokens.last() == t {
            1nat
        } else {
            0nat
        }
    }
}

/// Number of documents of `docs` in which the term `t` occurs.
pub open spec fn docs_containing(docs: Seq<Doc>, t: Seq<char>) -> nat
    decreases docs.len(),
{
    if docs.len() == 0 {
        0
    } else {
        docs_containing(docs.drop_last(), t) + if docs.last().contains(t) {
            1nat
        } else {
            0nat
        }
    }
}

/// Total number of tokens over all documents.
pub open spec fn token_total(docs: Seq<Doc>) -> nat
    decreases docs.len(),
{
    if docs.len() == 0 {
        0
    } else {
        token_total(docs.drop_last()) + docs.last().len()
    }
}

/// `m` is the term-frequency table of one document: it holds exactly the
/// terms of the document, each with its number of occurrences.
pub open spec fn counts_terms(m: Map<Seq<char>, usize>, tokens: Doc) -> bool {
    &&& forall|t: Seq<char>|
        #![trigger m.contains_key(t)]
        #![trigger tokens.contains(t)]
        m.contains_key(t) <==> tokens.contains(t)
    &&& forall|t: Seq<char>| #[trigger] m.contains_key(t) ==> m[t] == count(tokens, t)
}

/// `m` is the document-frequency table of `docs`: it holds exactly the terms
/// that occur in some document, each with the number of documents holding it.
pub open spec fn counts_docs(m: Map<Seq<char>, usize>, docs: Seq<Doc>) -> bool {
    &&& forall|t: Seq<char>| #[trigger] m.contains_key(t) <==> docs_containing(docs, t) > 0
    &&& forall|t: Seq<char>| #[trigger] m.contains_key(t) ==> m[t] == docs_containing(docs, t)
}

pub proof fn lemma_count_push(s: Doc, x: Seq<char>, t: Seq<char>)
    ensures
        count(s.push(x), t) == count(s, t) + if x == t {
            1nat
        } else {
            0nat
        },
{
    assert(s.push(x).drop_last() =~= s);
}

pub proof fn lemma_count_bounded(s: Doc, t: Seq<char>)
    ensures
        count(s, t) <= s.len(),
        count(s, t) > 0 <==> s.contains(t),
    decreases s.len(),
{
    if s.len() > 0 {
        lemma_count_bounded(s.drop_last(), t);
        assert(s.drop_last().push(s.last()) =~= s);
    }
}

pub proof fn lemma_docs_containing_push(docs: Seq<Doc>, d: Doc, t: Seq<char>)
    ensures
        docs_containing(docs.push(d), t) == docs_containing(docs, t) + if d.contains(t) {
            1nat
        } else {
            0nat
        },
{
    assert(docs.push(d).drop_last() =~= docs);
}

pub proof fn lemma_docs_containing_bounded(docs: Seq<Doc>, t: Seq<char>)
    ensures
        docs_containing(docs, t) <= docs.len(),
        docs_containing(docs, t) > 0 <==> exists|i: int|
            0 <= i < docs.len() && (#[trigger] docs[i]).contains(t),
    decreases docs.len(),
{
    if docs.len() > 0 {
        let prev = docs.drop_last();
        lemma_docs_containing_bounded(prev, t);
        if docs_containing(docs, t) > 0 {
            if docs.last().contains(t) {
                assert(docs[docs.len() - 1].contains(t));
            } else {
                let i = choose|i: int| 0 <= i < prev.len() && (#[trigger] prev[i]).contains(t);
                assert(docs[i] == prev[i]);
            }
        }
        if exists|i: int| 0 <= i < docs.len() && (#[trigger] docs[i]).contains(t) {
            let i = choose|i: int| 0 <= i < docs.len() && (#[trigger] docs[i]).contains(t);
            if i < docs.len() - 1 {
                assert(prev[i] == docs[i]);
            }
        }
    }
}

pub proof fn lemma_token_total_push(docs: Seq<Doc>, d: Doc)
    ensures
        token_total(docs.push(d)) == token_total(docs) + d.len(),
{
    assert(docs.push(d).drop_last() =~= docs);
}

pub proof fn lemma_token_total_append(a: Seq<Doc>, b: Seq<Doc>)
    ensures
        token_total(a + b) == token_total(a) + token_total(b),
    decreases b.len(),
{
    if b.len() == 0 {
        assert(a + b =~= a);
    } else {
        lemma_token_total_append(a, b.drop_last());
        assert((a + b).drop_last() =~= a + b.drop_last());
    }
}

pub proof fn lemma_token_total_prefix(docs: Seq<Doc>, i: int)
    requires
        0 <= i <= docs.len(),
    ensures
        token_total(docs.take(i)) <= token_total(docs),
{
    lemma_token_total_append(docs.take(i), docs.skip(i));
    assert(docs.take(i) + docs.skip(i) =~= docs);
}

/// Adding one more token to a document keeps its term table exact.
pub proof fn lemma_counts_terms_push(m: Map<Seq<char>, usize>, s: Doc, x: Seq<char>)
    requires
        counts_terms(m, s),
        count(s, x) + 1 <= usize::MAX,
    ensures
        counts_terms(m.insert(x, (count(s, x) + 1) as usize), s.push(x)),
{
    let m2 = m.insert(x, (count(s, x) + 1) as usize);
    lemma_count_bounded(s, x);
    assert forall|t: Seq<char>| #[trigger] m2.contains_key(t) implies m2[t] == count(s.push(x), t) by {
        lemma_count_push(s, x, t);
        if t != x {
            lemma_count_bounded(s, t);
        }
    }
}

/// Folding one more token of the current document into the document
/// frequencies: a term counts once per document, however often it occurs.
pub proof fn lemma_counts_docs_push(
    m: Map<Seq<char>, usize>,
    prev: Seq<Doc>,
    s: Doc,
    x: Seq<char>,
)
    requires
        counts_docs(m, prev.push(s)),
        prev.len() < usize::MAX,
    ensures
        s.contains(x) ==> counts_docs(m, prev.push(s.push(x))),
        !s.contains(x) ==> counts_docs(
            m.insert(x, (docs_containing(prev, x) + 1) as usize),
            prev.push(s.push(x)),
        ),
{
    assert forall|t: Seq<char>| true implies docs_containing(prev.push(s.push(x)), t)
        == docs_containing(prev, t) + if s.push(x).contains(t) {
        1nat
    } else {
        0nat
    } && docs_containing(prev.push(s), t) == docs_containing(prev, t) + if s.contains(t) {
        1nat
    } else {
        0nat
    } by {
        lemma_docs_containing_push(prev, s.push(x), t);
        lemma_docs_containing_push(prev, s, t);
    }
    lemma_docs_containing_bounded(prev, x);
    if !s.contains(x) {
        let m2 = m.insert(x, (docs_containing(prev, x) + 1) as usize);
        assert forall|t: Seq<char>| #[trigger] m2.contains_key(t) implies m2[t]
            == docs_containing(prev.push(s.push(x)), t) by {
            lemma_docs_containing_push(prev, s.push(x), t);
            lemma_docs_containing_push(prev, s, t);
        }
        assert forall|t: Seq<char>| #[trigger] m2.contains_key(t) <==> docs_containing(
            prev.push(s.push(x)),
            t,
        ) > 0 by {}
    }
}

/// Law: a term that occurs in one of the documents has a positive document
/// frequency.
pub proof fn lemma_occurring_term_has_doc_freq(docs: Seq<Doc>, i: int, t: Seq<char>)
    requires
        0 <= i < docs.len(),
        count(docs[i], t) > 0,
    ensures
        docs_containing(docs, t) > 0,
{
    lemma_count_bounded(docs[i], t);
    lemma_docs_containing_bounded(docs, t);
}

} // verus!
