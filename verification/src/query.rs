//! Reading the index for a query: the counts BM25 scores from, snippets
//! around the first match, and corpus statistics.

use vstd::prelude::*;

use crate::model::Doc;

verus! {

/// The set of terms of a query.
pub open spec fn term_set(q: Seq<String>) -> Set<Seq<char>> {
    Set::new(|t: Seq<char>| exists|j: int| 0 <= j < q.len() && (#[trigger] q[j])@ == t)
}

/// The first position, at `from` or after, of a token that is in `q`.
pub open spec fn first_match(tokens: Doc, q: Set<Seq<char>>, from: int) -> Option<int>
    decreases tokens.len() - from,
{
    if from < 0 || from >= tokens.len() {
        None
    } else if q.contains(tokens[from]) {
        Some(from)
    } else {
        first_match(tokens, q, from + 1)
    }
}

/// Words joined by single spaces.
pub open spec fn join_words(ws: Doc) -> Seq<char>
    decreases ws.len(),
{
    if ws.len() == 0 {
        Seq::empty()
    } else if ws.len() == 1 {
        ws[0]
    } else {
        join_words(ws.drop_last()) + " "@ + ws.last()
    }
}

/// The snippet of a document for a query: the tokens from `context` before
/// to `context` after the first token in the query (that token included,
/// the last one excluded), joined by spaces between "..." marks; empty when
/// no token of the document is in the query.
pub open spec fn snippet_of(tokens: Doc, q: Set<Seq<char>>, context: nat) -> Seq<char> {
    match first_match(tokens, q, 0) {
        None => Seq::empty(),
        Some(i) => {
            let start = if i > context {
                i - context
            } else {
                0
            };
            let end = if i + context < tokens.len() {
                i + context
            } else {
                tokens.len() as int
            };
            "..."@ + join_words(tokens.subrange(start, end)) + "..."@
        },
    }
}

/// The set of terms occurring in some document.
pub open spec fn vocabulary(docs: Seq<Doc>) -> Set<Seq<char>> {
    Set::new(|t: Seq<char>| exists|i: int| 0 <= i < docs.len() && (#[trigger] docs[i]).contains(t))
}

/// The number of tokens taken on each side of the first match in the
/// snippets of search results.
pub const SNIPPET_CONTEXT: usize = 50;

/// The keys by which scored documents rank.
pub open spec fn score_keys(scored: Seq<(usize, u64)>) -> Seq<u64> {
    scored.map_values(|p: (usize, u64)| p.1)
}

/// Law: each scored entry ranks by its score itself, unchanged.
pub proof fn lemma_score_keys_are_scores(scored: Seq<(usize, u64)>)
    ensures
        score_keys(scored).len() == scored.len(),
        forall|i: int| 0 <= i < scored.len() ==> #[trigger] score_keys(scored)[i] == scored[i].1,
{
}

/// One result of a search.
pub struct SearchHit {
    /// Position of the document in the scored list handed to the search.
    pub position: usize,
    /// Absolute path to the file.
    pub path: String,
    /// Relative path from the index root.
    pub rel_path: String,
    /// Text snippet around the first match.
    pub snippet: String,
}

/// Statistics about the indexed corpus.
pub struct CorpusStats {
    /// Number of documents searched.
    pub total_docs: usize,
    /// Number of tokens over all indexed documents.
    pub total_terms: usize,
    /// Number of distinct terms over all indexed documents.
    pub unique_terms: usize,
}

proof fn lemma_first_match_found(tokens: Doc, q: Set<Seq<char>>, from: int)
    requires
        0 <= from,
    ensures
        first_match(tokens, q, from) matches Some(i) ==> from <= i < tokens.len() && q.contains(
            tokens[i],
        ) && forall|j: int| from <= j < i ==> !q.contains(#[trigger] tokens[j]),
        first_match(tokens, q, from) is None ==> forall|j: int|
            from <= j < tokens.len() ==> !q.contains(#[trigger] tokens[j]),
    decreases tokens.len() - from,
{
    if from < tokens.len() && !q.contains(tokens[from]) {
        lemma_first_match_found(tokens, q, from + 1);
    }
}

/// Law: the match a snippet is built around is the earliest token of the
/// document that is a query term; there is none exactly when no token is.
pub proof fn lemma_first_match_is_earliest(tokens: Doc, q: Set<Seq<char>>)
    ensures
        first_match(tokens, q, 0) matches Some(i) ==> {
            &&& 0 <= i < tokens.len()
            &&& q.contains(tokens[i])
            &&& forall|j: int| 0 <= j < i ==> !q.contains(#[trigger] tokens[j])
        },
        first_match(tokens, q, 0) is None <==> forall|j: int|
            0 <= j < tokens.len() ==> !q.contains(#[trigger] tokens[j]),
{
    lemma_first_match_found(tokens, q, 0);
}

/// Law: the snippet of a document whose earliest query term stands at
/// position `i` is made of the tokens from `context` before `i` (or from
/// the start) up to `context` after `i` (or to the end), joined by spaces
/// between "..." marks.
pub proof fn lemma_snippet_window(tokens: Doc, q: Set<Seq<char>>, context: nat, i: int)
    requires
        0 <= i < tokens.len(),
        q.contains(tokens[i]),
        forall|j: int| 0 <= j < i ==> !q.contains(#[trigger] tokens[j]),
    ensures
        snippet_of(tokens, q, context) == "..."@ + join_words(
            tokens.subrange(
                i - (if i < context { i } else { context as int }),
                if tokens.len() - i < context { tokens.len() as int } else { i + context },
            ),
        ) + "..."@,
{
    lemma_first_match_found(tokens, q, 0);
    if let Some(m) = first_match(tokens, q, 0) {
        if m < i {
            assert(!q.contains(tokens[m]));
        }
        if i < m {
            assert(!q.contains(tokens[i]));
        }
    } else {
        assert(!q.contains(tokens[i]));
    }
}

/// Law: words joined by spaces: one word alone, and one more word after a
/// space.
pub proof fn lemma_join_words(ws: Doc, w: Seq<char>)
    ensures
        join_words(seq![w]) == w,
        ws.len() > 0 ==> join_words(ws.push(w)) == join_words(ws) + " "@ + w,
{
    assert(ws.push(w).drop_last() =~= ws);
}

/// Law: a snippet is produced exactly when some token of the document is a
/// query term.
pub proof fn lemma_snippet_nonempty(tokens: Doc, q: Set<Seq<char>>, context: nat)
    ensures
        snippet_of(tokens, q, context).len() > 0 <==> exists|i: int|
            0 <= i < tokens.len() && q.contains(#[trigger] tokens[i]),
{
    lemma_first_match_found(tokens, q, 0);
    reveal_strlit("...");
    if let Some(i) = first_match(tokens, q, 0) {
        assert(q.contains(tokens[i]));
    }
}

/// Law: a snippet depends only on the set of query terms: two queries with
/// the same terms, in any order and with any repetition, give the same
/// snippet.
pub proof fn lemma_snippet_depends_on_term_set(
    tokens: Doc,
    q1: Seq<String>,
    q2: Seq<String>,
    context: nat,
)
    requires
        forall|j: int| 0 <= j < q1.len() ==> exists|k: int| 0 <= k < q2.len() && (#[trigger] q2[k])@ == (#[trigger] q1[j])@,
        forall|k: int| 0 <= k < q2.len() ==> exists|j: int| 0 <= j < q1.len() && (#[trigger] q1[j])@ == (#[trigger] q2[k])@,
    ensures
        snippet_of(tokens, term_set(q1), context) == snippet_of(tokens, term_set(q2), context),
{
    assert forall|t: Seq<char>| #[trigger] term_set(q1).contains(t) <==> term_set(q2).contains(t) by {
        if term_set(q1).contains(t) {
            let j = choose|j: int| 0 <= j < q1.len() && (#[trigger] q1[j])@ == t;
            let k = choose|k: int| 0 <= k < q2.len() && (#[trigger] q2[k])@ == q1[j]@;
            assert(q2[k]@ == t);
        }
        if term_set(q2).contains(t) {
            let k = choose|k: int| 0 <= k < q2.len() && (#[trigger] q2[k])@ == t;
            let j = choose|j: int| 0 <= j < q1.len() && (#[trigger] q1[j])@ == q2[k]@;
            assert(q1[j]@ == t);
        }
    }
    assert(term_set(q1) =~= term_set(q2));
}

} // verus!
