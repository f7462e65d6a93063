//! The retriever's index: the files kept for indexing, their tokens, and the
//! term and document frequencies that BM25 scoring reads.

use vstd::prelude::*;
use vstd::hash_map::StringHashMap;
use vstd::hash_set::StringHashSet;

use crate::FileEntry;
use crate::model::{
    count, counts_docs, counts_terms, docs_containing, lemma_count_bounded,
    lemma_counts_docs_push, lemma_docs_containing_bounded, lemma_counts_terms_push, lemma_docs_containing_push,
    token_total, lemma_token_total_push, lemma_token_total_prefix, Doc,
};
use crate::text::{lowercase, words, is_word, may_stand_in_token, lemma_words_are_alphanumeric, split_words, to_lowercase, tokens_of};
use crate::query::{
    first_match, join_words, lemma_score_keys_are_scores, score_keys, snippet_of, term_set, vocabulary, CorpusStats, SearchHit,
    SNIPPET_CONTEXT,
};
use crate::rank::{is_top_ranking, lemma_top_ranking_descends, min_nat, rank};

verus! {

broadcast use vstd::seq_lib::lemma_seq_contains_after_push;

/// The files that are indexed: those with at least one word, in order.
pub open spec fn kept_files(files: Seq<FileEntry>) -> Seq<FileEntry> {
    files.filter(|f: FileEntry| f.words > 0)
}

/// Law: the kept files are files with words, every file with words is kept,
/// and none is added.
pub proof fn lemma_kept_files(files: Seq<FileEntry>)
    ensures
        forall|i: int| 0 <= i < kept_files(files).len() ==> (#[trigger] kept_files(files)[i]).words > 0,
        forall|i: int|
            0 <= i < files.len() && files[i].words > 0 ==> #[trigger] kept_files(files).contains(
                files[i],
            ),
        kept_files(files).len() <= files.len(),
{
    files.filter_lemma(|f: FileEntry| f.words > 0);
}

/// The tokens of each text, in order.
pub open spec fn texts_tokens(contents: Seq<String>) -> Seq<Doc> {
    contents.map_values(|c: String| tokens_of(c@))
}

/// Law: each text is indexed as all of its tokens.
pub proof fn lemma_texts_tokens(contents: Seq<String>)
    ensures
        texts_tokens(contents).len() == contents.len(),
        forall|i: int| 0 <= i < contents.len() ==> #[trigger] texts_tokens(contents)[i] == words(
            lowercase(contents[i]@),
        ),
{
}

/// The tables of an index agree with the tokens of its documents: each
/// recorded length is the document's token count, each term-frequency table
/// counts its document, the document-frequency table counts documents, and
/// the token count is the total over all documents.
pub open spec fn index_agrees(
    docs: Seq<Doc>,
    lens: Seq<usize>,
    tfs: Seq<Map<Seq<char>, usize>>,
    df: Map<Seq<char>, usize>,
    tokens: nat,
) -> bool {
    &&& lens.len() == docs.len()
    &&& tfs.len() == docs.len()
    &&& forall|i: int| 0 <= i < docs.len() ==> #[trigger] lens[i] == docs[i].len()
    &&& forall|i: int| 0 <= i < docs.len() ==> counts_terms(#[trigger] tfs[i], docs[i])
    &&& counts_docs(df, docs)
    &&& tokens == token_total(docs)
}

/// The token tables of a list of documents.
struct Tables {
    /// Document lengths, in tokens.
    doc_len: Vec<usize>,
    /// Term frequencies per document: term -> count.
    term_freqs: Vec<StringHashMap<usize>>,
    /// Document frequency: term -> number of documents containing the term.
    doc_freq: StringHashMap<usize>,
    /// Tokenized documents, kept for snippets.
    doc_tokens: Vec<Vec<String>>,
    /// Number of tokens over all documents.
    total_tokens: usize,
}

impl Tables {
    spec fn docs(&self) -> Seq<Doc> {
        self.doc_tokens.deep_view()
    }

    spec fn term_freq_maps(&self) -> Seq<Map<Seq<char>, usize>> {
        self.term_freqs@.map_values(|m: StringHashMap<usize>| m@)
    }

    spec fn wf(&self) -> bool {
        index_agrees(
            self.docs(),
            self.doc_len@,
            self.term_freq_maps(),
            self.doc_freq@,
            self.total_tokens as nat,
        )
    }

    /// Tables of no documents.
    fn empty() -> (t: Tables)
        ensures
            t.wf(),
            t.docs() == Seq::<Doc>::empty(),
    {
        let t = Tables {
            doc_len: Vec::new(),
            term_freqs: Vec::new(),
            doc_freq: StringHashMap::new(),
            doc_tokens: Vec::new(),
            total_tokens: 0,
        };
        assert(t.docs() =~= Seq::<Doc>::empty());
        assert(t.term_freq_maps() =~= Seq::<Map<Seq<char>, usize>>::empty());
        t
    }

    /// Tables of the tokens of `contents`, one document per text; `None`
    /// when their number of tokens does not fit in a `usize`.
    fn build(contents: &[String]) -> (r: Option<Tables>)
        ensures
            r is Some <==> token_total(texts_tokens(contents@)) <= usize::MAX,
            r matches Some(t) ==> t.wf() && t.docs() == texts_tokens(contents@),
    {
        let ghost texts = texts_tokens(contents@);
        let mut docs: Vec<Vec<String>> = Vec::new();
        let mut total: usize = 0;
        let mut fits = true;
        let mut i: usize = 0;
        while i < contents.len()
            invariant
                i <= contents.len(),
                texts == texts_tokens(contents@),
                docs.deep_view() == texts.take(i as int),
                fits ==> total == token_total(docs.deep_view()),
                !fits ==> token_total(texts.take(i as int)) > usize::MAX,
            decreases contents.len() - i,
        {
            let toks = Retriever::tokenize(contents[i].as_str());
            let ghost tv = toks.deep_view();
            proof {
                assert(texts.take(i + 1) =~= texts.take(i as int).push(tv));
                lemma_token_total_push(texts.take(i as int), tv);
            }
            if fits {
                if toks.len() <= usize::MAX - total {
                    total = total + toks.len();
                } else {
                    fits = false;
                }
            }
            docs.push(toks);
            assert(docs.deep_view() =~= texts.take(i + 1));
            i += 1;
        }
        assert(texts.take(contents.len() as int) =~= texts);
        if !fits {
            return None;
        }
        let mut t = Tables::empty();
        let ghost all = docs.deep_view();
        let ghost dv = docs@;
        for d in it: docs
            invariant
                it.seq() == dv,
                all.len() == dv.len(),
                forall|j: int| 0 <= j < dv.len() ==> all[j] == (#[trigger] dv[j]).deep_view(),
                t.wf(),
                t.docs() == all.take(it.index() as int),
                token_total(all) <= usize::MAX,
        {
            proof {
                let j = it.index() as int;
                assert(all[j] == dv[j].deep_view());
                lemma_token_total_prefix(all, j + 1);
                assert(all.take(j + 1) =~= all.take(j).push(all[j]));
                lemma_token_total_push(all.take(j), all[j]);
            }
            t.add_document(d);
            assert(t.docs() =~= all.take(it.index() + 1));
        }
        assert(all.take(all.len() as int) =~= all);
        Some(t)
    }

    /// Adds one tokenized document.
    fn add_document(&mut self, tokens: Vec<String>)
        requires
            old(self).wf(),
            token_total(old(self).docs()) + tokens.len() <= usize::MAX,
        ensures
            final(self).wf(),
            final(self).docs() == old(self).docs().push(tokens.deep_view()),
    {
        let tf = term_counts(&tokens);
        let len = tokens.len();
        let ghost prev = self.docs();
        let ghost tv = tokens.deep_view();
        self.doc_tokens.push(tokens);
        assert(self.docs() =~= prev.push(tv));
        let last = self.doc_tokens.len() - 1;
        add_doc_freqs(&mut self.doc_freq, &self.doc_tokens[last], Ghost(prev));
        self.term_freqs.push(tf);
        self.doc_len.push(len);
        proof {
            lemma_token_total_push(prev, tv);
        }
        self.total_tokens = self.total_tokens + len;
        proof {
            assert(self.term_freq_maps() =~= old(self).term_freq_maps().push(tf@));
            assert forall|i: int| 0 <= i < self.docs().len() implies counts_terms(
                #[trigger] self.term_freq_maps()[i],
                self.docs()[i],
            ) by {
                if i < prev.len() {
                    assert(self.term_freq_maps()[i] == old(self).term_freq_maps()[i]);
                    assert(self.docs()[i] == prev[i]);
                }
            }
        }
    }
}

/// BM25 index over a set of files.
pub struct Retriever {
    /// Files in the index (those with words > 0).
    files: Vec<FileEntry>,
    /// Total number of documents.
    total_docs: usize,
    /// The tokens of the files and their term and document frequencies.
    tables: Tables,
}

impl Retriever {
    /// The indexed files.
    pub closed spec fn files_of(&self) -> Seq<FileEntry> {
        self.files@
    }

    /// The number of documents searched.
    pub closed spec fn doc_count(&self) -> nat {
        self.total_docs as nat
    }

    /// The tokens of every indexed document, in file order.
    pub closed spec fn docs(&self) -> Seq<Doc> {
        self.tables.docs()
    }

    /// The recorded length of every indexed document.
    pub closed spec fn doc_lengths(&self) -> Seq<usize> {
        self.tables.doc_len@
    }

    /// The term-frequency table of every indexed document.
    pub closed spec fn term_freq_maps(&self) -> Seq<Map<Seq<char>, usize>> {
        self.tables.term_freq_maps()
    }

    /// The document-frequency table.
    pub closed spec fn doc_freq_map(&self) -> Map<Seq<char>, usize> {
        self.tables.doc_freq@
    }

    /// The number of tokens held, over all indexed documents.
    pub closed spec fn token_count(&self) -> nat {
        self.tables.total_tokens as nat
    }

    /// One document per indexed file, and tables that agree with the tokens.
    pub open spec fn wf(&self) -> bool {
        &&& self.files_of().len() == self.doc_count()
        &&& self.docs().len() == self.doc_count()
        &&& index_agrees(
            self.docs(),
            self.doc_lengths(),
            self.term_freq_maps(),
            self.doc_freq_map(),
            self.token_count(),
        )
    }

    #[verifier::type_invariant]
    closed spec fn inv(&self) -> bool {
        self.wf()
    }

    /// Tokenize text into lowercase alphanumeric words.
    pub fn tokenize(text: &str) -> (r: Vec<String>)
        ensures
            r.deep_view() == tokens_of(text@),
            r.deep_view() == words(lowercase(text@)),
            forall|i: int| 0 <= i < r.len() ==> is_word(#[trigger] r[i]@),
            forall|i: int, k: int|
                0 <= i < r.len() && 0 <= k < r[i]@.len() ==> may_stand_in_token(#[trigger] r[i]@[k]),
    {
        let lower = to_lowercase(text);
        let r = split_words(lower.as_str());
        proof {
            lemma_words_are_alphanumeric(lower@);
            assert forall|i: int| 0 <= i < r.len() implies is_word(#[trigger] r[i]@) by {
                assert(r.deep_view()[i] == r[i]@);
            }
        }
        r
    }

    /// The files with at least one word, in their order: the ones indexed.
    pub fn kept_files(files: &[FileEntry]) -> (r: Vec<FileEntry>)
        ensures
            r@ == kept_files(files@),
    {
        let mut r: Vec<FileEntry> = Vec::new();
        let mut i: usize = 0;
        while i < files.len()
            invariant
                i <= files.len(),
                r@ == files@.take(i as int).filter(|f: FileEntry| f.words > 0),
            decreases files.len() - i,
        {
            proof {
                reveal_with_fuel(Seq::filter, 1);
                assert(files@.take(i + 1).drop_last() =~= files@.take(i as int));
            }
            if files[i].words > 0 {
                r.push(files[i].clone());
            }
            i += 1;
        }
        assert(files@.take(files.len() as int) =~= files@);
        r
    }

    /// Creates the index of the files with at least one word; `contents`
    /// holds the text of each of them, in their order.  `None` when the
    /// number of tokens would not fit in a `usize`.
    pub fn new(files: &[FileEntry], contents: &[String]) -> (r: Option<Retriever>)
        requires
            contents@.len() == kept_files(files@).len(),
        ensures
            r is Some <==> token_total(texts_tokens(contents@)) <= usize::MAX,
            r matches Some(r) ==> {
                &&& r.wf()
                &&& r.files_of() == kept_files(files@)
                &&& r.doc_count() == kept_files(files@).len()
                &&& r.docs() == texts_tokens(contents@)
                &&& r.docs().len() == contents.len()
                &&& forall|i: int|
                    0 <= i < contents.len() ==> #[trigger] r.docs()[i] == words(
                        lowercase(contents@[i]@),
                    )
            },
    {
        let kept = Self::kept_files(files);
        let total_docs = kept.len();
        match Tables::build(contents) {
            Some(tables) => {
                proof {
                    lemma_texts_tokens(contents@);
                }
                Some(Retriever { files: kept, total_docs, tables })
            },
            None => None,
        }
    }

    /// Builds the index afresh from `contents`, the text of each indexed
    /// file in order: the earlier documents and tables are replaced.
    /// Returns the number of tokens indexed, or `None`, with the index
    /// unchanged, when that number would not fit in a `usize`.
    pub fn build_index(&mut self, contents: &[String]) -> (r: Option<usize>)
        requires
            contents@.len() == old(self).files_of().len(),
        ensures
            final(self).wf(),
            r is Some <==> token_total(texts_tokens(contents@)) <= usize::MAX,
            r matches Some(t) ==> {
                &&& t == token_total(texts_tokens(contents@))
                &&& final(self).docs() == texts_tokens(contents@)
                &&& forall|i: int|
                    0 <= i < contents.len() ==> #[trigger] final(self).docs()[i] == words(
                        lowercase(contents@[i]@),
                    )
                &&& final(self).files_of() == old(self).files_of()
                &&& final(self).doc_count() == old(self).doc_count()
            },
            r is None ==> *final(self) == *old(self),
    {
        proof {
            use_type_invariant(&*self);
        }
        match Tables::build(contents) {
            Some(tables) => {
                let total = tables.total_tokens;
                self.tables = tables;
                proof {
                    use_type_invariant(&*self);
                    lemma_texts_tokens(contents@);
                }
                Some(total)
            },
            None => {
                proof {
                    use_type_invariant(&*self);
                }
                None
            },
        }
    }
}

/// The term-frequency table of one document.
fn term_counts(tokens: &Vec<String>) -> (tf: StringHashMap<usize>)
    ensures
        counts_terms(tf@, tokens.deep_view()),
{
    let ghost toks = tokens.deep_view();
    let mut tf: StringHashMap<usize> = StringHashMap::new();
    let mut j: usize = 0;
    assert(toks.take(0) =~= Seq::<Seq<char>>::empty());
    while j < tokens.len()
        invariant
            j <= tokens.len(),
            toks == tokens.deep_view(),
            counts_terms(tf@, toks.take(j as int)),
        decreases tokens.len() - j,
    {
        let tok = &tokens[j];
        let ghost pre = toks.take(j as int);
        proof {
            assert(toks[j as int] == tok@);
            assert(toks.take(j + 1) =~= pre.push(tok@));
            lemma_count_bounded(pre, tok@);
        }
        let c: usize = match tf.get(tok.as_str()) {
            Some(v) => *v,
            None => 0,
        };
        proof {
            lemma_counts_terms_push(tf@, pre, tok@);
        }
        tf.insert(tok.clone(), c + 1);
        j += 1;
    }
    assert(toks.take(toks.len() as int) =~= toks);
    tf
}

/// Counts one more document in the document frequencies: each distinct term
/// of the document once.
fn add_doc_freqs(
    df: &mut StringHashMap<usize>,
    tokens: &Vec<String>,
    Ghost(prev): Ghost<Seq<Doc>>,
)
    requires
        counts_docs(old(df)@, prev),
        prev.len() < usize::MAX,
    ensures
        counts_docs(final(df)@, prev.push(tokens.deep_view())),
{
    let ghost toks = tokens.deep_view();
    let mut seen = StringHashSet::new();
    let mut j: usize = 0;
    assert(toks.take(0) =~= Seq::<Seq<char>>::empty());
    assert forall|t: Seq<char>| true implies docs_containing(prev.push(Seq::empty()), t)
        == docs_containing(prev, t) by {
        lemma_docs_containing_push(prev, Seq::empty(), t);
    }
    while j < tokens.len()
        invariant
            j <= tokens.len(),
            toks == tokens.deep_view(),
            prev.len() < usize::MAX,
            counts_docs(df@, prev.push(toks.take(j as int))),
            forall|t: Seq<char>| #[trigger] seen@.contains(t) <==> toks.take(j as int).contains(t),
        decreases tokens.len() - j,
    {
        let tok = &tokens[j];
        let ghost pre = toks.take(j as int);
        proof {
            assert(toks[j as int] == tok@);
            assert(toks.take(j + 1) =~= pre.push(tok@));
            lemma_counts_docs_push(df@, prev, pre, tok@);
            lemma_docs_containing_push(prev, pre, tok@);
            lemma_docs_containing_bounded(prev, tok@);
        }
        if seen.insert(tok.clone()) {
            let c: usize = match df.get(tok.as_str()) {
                Some(v) => *v,
                None => 0,
            };
            df.insert(tok.clone(), c + 1);
        }
        j += 1;
    }
    assert(toks.take(toks.len() as int) =~= toks);
}

impl Retriever {
    /// The number of documents searched.
    pub fn total_docs(&self) -> (n: usize)
        ensures
            n == self.doc_count(),
    {
        self.total_docs
    }

    /// The file of a searched document.
    pub fn file(&self, doc_idx: usize) -> (f: &FileEntry)
        requires
            doc_idx < self.doc_count(),
        ensures
            *f == self.files_of()[doc_idx as int],
    {
        proof {
            use_type_invariant(self);
        }
        &self.files[doc_idx]
    }

    /// The number of tokens of a document.
    pub fn doc_length(&self, doc_idx: usize) -> (n: usize)
        requires
            doc_idx < self.doc_count(),
        ensures
            n == self.docs()[doc_idx as int].len(),
    {
        proof {
            use_type_invariant(self);
        }
        self.tables.doc_len[doc_idx]
    }

    /// For each query term, in order: the number of indexed documents that
    /// hold it, and its number of occurrences in document `doc_idx`.  These
    /// are the counts from which the BM25 score of the document is computed.
    pub fn term_stats(&self, query_terms: &[String], doc_idx: usize) -> (r: Vec<(usize, usize)>)
        requires
            doc_idx < self.doc_count(),
        ensures
            r.len() == query_terms.len(),
            forall|k: int|
                0 <= k < r.len() ==> (#[trigger] r[k]).0 == docs_containing(
                    self.docs(),
                    query_terms[k]@,
                ) && r[k].1 == count(self.docs()[doc_idx as int], query_terms[k]@),
    {
        proof {
            use_type_invariant(self);
        }
        let tf = &self.tables.term_freqs[doc_idx];
        proof {
            assert(self.term_freq_maps()[doc_idx as int] == tf@);
        }
        let mut r: Vec<(usize, usize)> = Vec::new();
        let mut k: usize = 0;
        while k < query_terms.len()
            invariant
                self.wf(),
                doc_idx < self.doc_count(),
                self.term_freq_maps()[doc_idx as int] == tf@,
                k <= query_terms.len(),
                r.len() == k,
                forall|j: int|
                    0 <= j < k ==> (#[trigger] r[j]).0 == docs_containing(
                        self.docs(),
                        query_terms[j]@,
                    ) && r[j].1 == count(self.docs()[doc_idx as int], query_terms[j]@),
            decreases query_terms.len() - k,
        {
            let term = query_terms[k].as_str();
            let df: usize = match self.tables.doc_freq.get(term) {
                Some(v) => *v,
                None => 0,
            };
            let f: usize = match tf.get(term) {
                Some(v) => *v,
                None => 0,
            };
            proof {
                let t = query_terms[k as int]@;
                assert(counts_terms(self.term_freq_maps()[doc_idx as int], self.docs()[doc_idx as int]));
                lemma_count_bounded(self.docs()[doc_idx as int], t);
                assert(counts_docs(self.doc_freq_map(), self.docs()));
            }
            r.push((df, f));
            k += 1;
        }
        r
    }

    /// A snippet of document `doc_idx` around the first of its tokens that
    /// is one of the query terms: `context` tokens before it, and the tokens
    /// after it up to `context` past it, joined by spaces between "..."
    /// marks.  Empty when no token of the document is a query term.
    pub fn snippet(&self, doc_idx: usize, query_terms: &[String], context: usize) -> (r: String)
        requires
            doc_idx < self.doc_count(),
            first_match(self.docs()[doc_idx as int], term_set(query_terms@), 0) matches Some(i)
                ==> i + context <= usize::MAX,
        ensures
            r@ == snippet_of(self.docs()[doc_idx as int], term_set(query_terms@), context as nat),
    {
        proof {
            use_type_invariant(self);
        }
        let tokens = &self.tables.doc_tokens[doc_idx];
        let ghost toks = tokens.deep_view();
        let ghost qs = term_set(query_terms@);
        proof {
            assert(toks == self.docs()[doc_idx as int]);
        }
        let mut query_set = StringHashSet::new();
        let mut k: usize = 0;
        while k < query_terms.len()
            invariant
                k <= query_terms.len(),
                forall|t: Seq<char>|
                    #[trigger] query_set@.contains(t) <==> exists|j: int|
                        0 <= j < k && (#[trigger] query_terms[j])@ == t,
            decreases query_terms.len() - k,
        {
            query_set.insert(query_terms[k].clone());
            proof {
                assert forall|t: Seq<char>| #[trigger] query_set@.contains(t) <==> exists|j: int|
                    0 <= j < k + 1 && (#[trigger] query_terms[j])@ == t by {
                    if t == query_terms[k as int]@ {
                        assert(query_terms[k as int]@ == t);
                    }
                }
            }
            k += 1;
        }
        assert(query_set@ =~= qs);
        let mut i: usize = 0;
        while i < tokens.len()
            invariant
                i <= tokens.len(),
                toks == tokens.deep_view(),
                toks == self.docs()[doc_idx as int],
                qs == term_set(query_terms@),
                query_set@ == qs,
                first_match(toks, qs, 0) == first_match(toks, qs, i as int),
                first_match(toks, qs, 0) matches Some(m) ==> m + context <= usize::MAX,
            decreases tokens.len() - i,
        {
            assert(toks[i as int] == tokens[i as int]@);
            if query_set.contains(tokens[i].as_str()) {
                let start = if i > context {
                    i - context
                } else {
                    0
                };
                let end = if i + context < tokens.len() {
                    i + context
                } else {
                    tokens.len()
                };
                let mut res = String::new();
                res.append("...");
                let mut j: usize = start;
                assert(toks.subrange(start as int, start as int) =~= Seq::<Seq<char>>::empty());
                while j < end
                    invariant
                        start <= j <= end <= tokens.len(),
                        toks == tokens.deep_view(),
                        res@ == "..."@ + join_words(toks.subrange(start as int, j as int)),
                    decreases end - j,
                {
                    let ghost before = res@;
                    proof {
                        let sub = toks.subrange(start as int, j + 1);
                        assert(sub.drop_last() =~= toks.subrange(start as int, j as int));
                        assert(sub.last() == tokens[j as int]@);
                    }
                    if j > start {
                        res.append(" ");
                    }
                    res.append(tokens[j].as_str());
                    proof {
                        let sub = toks.subrange(start as int, j + 1);
                        if j == start {
                            assert(sub.len() == 1);
                            assert(join_words(toks.subrange(start as int, j as int)) =~= Seq::<char>::empty());
                            assert(res@ =~= "..."@ + join_words(sub));
                        } else {
                            assert(res@ =~= "..."@ + join_words(sub));
                        }
                    }
                    j += 1;
                }
                res.append("...");
                proof {
                    assert(qs.contains(toks[i as int]));
                    assert(first_match(toks, qs, i as int) == Some(i as int));
                    assert(res@ =~= snippet_of(toks, qs, context as nat));
                }
                return res;
            }
            i += 1;
        }
        String::new()
    }

    /// `h` is the hit for position `pos` of `scored`: the file of the scored
    /// document and its snippet for the query.
    pub open spec fn is_hit(
        &self,
        query_terms: Seq<String>,
        scored: Seq<(usize, u64)>,
        pos: usize,
        h: SearchHit,
    ) -> bool {
        let idx = scored[pos as int].0 as int;
        &&& h.position == pos
        &&& h.path == self.files_of()[idx].path
        &&& h.rel_path == self.files_of()[idx].rel_path
        &&& h.snippet@ == snippet_of(
            self.docs()[idx],
            term_set(query_terms),
            SNIPPET_CONTEXT as nat,
        )
    }

    /// The results of a search, given each scored document as its index and
    /// the key it ranks by: nothing for a query without terms; otherwise the
    /// `top_k` best-ranked entries of `scored` (largest key first, equal
    /// keys in their order in `scored`), each with its file and snippet.
    pub fn search_hits(&self, query_terms: &[String], scored: &[(usize, u64)], top_k: usize) -> (r:
        Vec<SearchHit>)
        requires
            forall|i: int|
                0 <= i < scored.len() ==> (#[trigger] scored[i]).0 < self.doc_count() && (
                first_match(self.docs()[scored[i].0 as int], term_set(query_terms@), 0) matches Some(
                    m,
                ) ==> m + SNIPPET_CONTEXT <= usize::MAX),
        ensures
            query_terms.len() == 0 ==> r.len() == 0,
            query_terms.len() > 0 ==> exists|order: Seq<usize>|
                {
                    &&& is_top_ranking(score_keys(scored@), top_k as nat, order)
                    &&& r.len() == order.len()
                    &&& forall|k: int|
                        0 <= k < r.len() ==> self.is_hit(
                            query_terms@,
                            scored@,
                            order[k],
                            #[trigger] r[k],
                        )
                },
            query_terms.len() > 0 ==> r.len() == min_nat(top_k as nat, scored.len() as nat),
            forall|k: int| 0 <= k < r.len() ==> (#[trigger] r[k]).position < scored.len(),
            forall|k: int, l: int|
                0 <= k < l < r.len() ==> scored@[(#[trigger] r[k]).position as int].1 > scored@[(
                #[trigger] r[l]).position as int].1 || (scored@[r[k].position as int].1
                    == scored@[r[l].position as int].1 && r[k].position < r[l].position),
            forall|p: int, k: int|
                #![trigger scored@[p], r[k]]
                0 <= p < scored.len() && 0 <= k < r.len() && (forall|l: int|
                    0 <= l < r.len() ==> (#[trigger] r[l]).position != p) ==> scored@[p].1
                    <= scored@[r[k].position as int].1,
    {
        if query_terms.len() == 0 {
            return Vec::new();
        }
        let mut keys: Vec<u64> = Vec::new();
        let mut i: usize = 0;
        while i < scored.len()
            invariant
                i <= scored.len(),
                keys@ == score_keys(scored@).take(i as int),
            decreases scored.len() - i,
        {
            keys.push(scored[i].1);
            assert(keys@ =~= score_keys(scored@).take(i + 1));
            i += 1;
        }
        assert(keys@ =~= score_keys(scored@));
        let order = rank(&keys, top_k);
        let mut hits: Vec<SearchHit> = Vec::new();
        let mut k: usize = 0;
        while k < order.len()
            invariant
                k <= order.len(),
                keys@ == score_keys(scored@),
                is_top_ranking(keys@, top_k as nat, order@),
                hits.len() == k,
                forall|i: int|
                    0 <= i < scored.len() ==> (#[trigger] scored[i]).0 < self.doc_count() && (
                    first_match(self.docs()[scored[i].0 as int], term_set(query_terms@), 0) matches Some(
                        m,
                    ) ==> m + SNIPPET_CONTEXT <= usize::MAX),
                forall|j: int|
                    0 <= j < k ==> self.is_hit(query_terms@, scored@, order@[j], #[trigger] hits[j]),
            decreases order.len() - k,
        {
            let pos = order[k];
            assert(order@[k as int] < keys@.len());
            let idx = scored[pos].0;
            let f = self.file(idx);
            let snippet = self.snippet(idx, query_terms, SNIPPET_CONTEXT);
            hits.push(SearchHit { position: pos, path: f.path.clone(), rel_path: f.rel_path.clone(), snippet });
            k += 1;
        }
        proof {
            lemma_score_keys_are_scores(scored@);
            lemma_top_ranking_descends(keys@, top_k as nat, order@);
            assert forall|k: int| 0 <= k < hits.len() implies (#[trigger] hits[k]).position == order@[k] by {
                assert(self.is_hit(query_terms@, scored@, order@[k], hits[k]));
            }
            assert forall|p: int, k: int|
                #![trigger scored@[p], hits[k]]
                0 <= p < scored.len() && 0 <= k < hits.len() && (forall|l: int|
                    0 <= l < hits.len() ==> (#[trigger] hits[l]).position != p) implies scored@[p].1
                    <= scored@[hits[k].position as int].1 by {
                assert(hits[k].position == order@[k]);
                if order@.contains(p as usize) {
                    let l = choose|l: int| 0 <= l < order@.len() && order@[l] == p as usize;
                    assert(hits[l].position == order@[l]);
                }
                assert(order@[k] < keys@.len());
                assert(keys@[order@[k] as int] >= keys@[p]);
            }
        }
        hits
    }

    /// Corpus statistics: the number of documents searched, the number of
    /// tokens and the number of distinct terms over all indexed documents.
    pub fn stats(&self) -> (s: CorpusStats)
        ensures
            s.total_docs == self.doc_count(),
            s.total_terms == token_total(self.docs()),
            s.unique_terms == vocabulary(self.docs()).len(),
    {
        proof {
            use_type_invariant(self);
        }
        let doc_len = &self.tables.doc_len;
        let mut total: usize = 0;
        let mut i: usize = 0;
        let ghost docs = self.docs();
        while i < doc_len.len()
            invariant
                self.wf(),
                docs == self.docs(),
                doc_len@ == self.doc_lengths(),
                i <= doc_len.len(),
                total == token_total(docs.take(i as int)),
            decreases doc_len.len() - i,
        {
            proof {
                assert(self.doc_lengths()[i as int] == docs[i as int].len());
                assert(docs.take(i + 1) =~= docs.take(i as int).push(docs[i as int]));
                lemma_token_total_push(docs.take(i as int), docs[i as int]);
                lemma_token_total_prefix(docs, i + 1);
            }
            total = total + doc_len[i];
            i += 1;
        }
        assert(docs.take(docs.len() as int) =~= docs);
        proof {
            lemma_doc_freq_domain(self);
        }
        CorpusStats { total_docs: self.total_docs, total_terms: total, unique_terms: self.tables.doc_freq.len() }
    }
}

/// Law: the document-frequency table holds exactly the terms that occur in
/// some indexed document, so its size is the number of distinct terms.
pub proof fn lemma_doc_freq_domain(r: &Retriever)
    requires
        r.wf(),
    ensures
        r.doc_freq_map().dom() == vocabulary(r.docs()),
{
    assert forall|t: Seq<char>| r.doc_freq_map().dom().contains(t) <==> #[trigger] vocabulary(r.docs()).contains(t) by {
        lemma_docs_containing_bounded(r.docs(), t);
    }
    assert(r.doc_freq_map().dom() =~= vocabulary(r.docs()));
}

/// Law: the two tables agree: a term has a document frequency exactly when
/// some document's term-frequency table holds it, and that frequency is at
/// least one and at most the number of indexed documents.
pub proof fn lemma_doc_freq_agrees_with_term_freqs(r: &Retriever, t: Seq<char>)
    requires
        r.wf(),
    ensures
        r.doc_freq_map().contains_key(t) <==> exists|i: int|
            0 <= i < r.docs().len() && (#[trigger] r.term_freq_maps()[i]).contains_key(t),
        r.doc_freq_map().contains_key(t) ==> 1 <= r.doc_freq_map()[t] <= r.docs().len(),
{
    lemma_docs_containing_bounded(r.docs(), t);
    if r.doc_freq_map().contains_key(t) {
        let i = choose|i: int| 0 <= i < r.docs().len() && (#[trigger] r.docs()[i]).contains(t);
        assert(counts_terms(r.term_freq_maps()[i], r.docs()[i]));
        assert(r.term_freq_maps()[i].contains_key(t));
    }
    if exists|i: int| 0 <= i < r.docs().len() && (#[trigger] r.term_freq_maps()[i]).contains_key(t) {
        let i = choose|i: int| 0 <= i < r.docs().len() && (#[trigger] r.term_freq_maps()[i]).contains_key(t);
        assert(counts_terms(r.term_freq_maps()[i], r.docs()[i]));
        assert(r.docs()[i].contains(t));
    }
}

} // verus!
