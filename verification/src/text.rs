//! Tokenization: the text is lowercased and cut into maximal runs of
//! alphanumeric characters.

use vstd::prelude::*;

verus! {

/// What `str::to_lowercase` returns for a string, taken as a sequence of chars.
pub uninterp spec fn lowercase(s: Seq<char>) -> Seq<char>;

/// Whether `char::is_alphanumeric` holds of a char.
pub uninterp spec fn is_alphanumeric(c: char) -> bool;

/// Calls `str::to_lowercase`; its result is stated only through the name
/// `lowercase`, since the Unicode case tables take pages to write down.
#[verifier::external_body]
pub(crate) fn to_lowercase(s: &str) -> (r: String)
    ensures
        r@ == lowercase(s@),
{
    s.to_lowercase()
}

/// An ASCII letter or digit.
pub open spec fn is_ascii_alphanumeric(c: char) -> bool {
    let n = c as u32;
    (48 <= n <= 57) || (65 <= n <= 90) || (97 <= n <= 122)
}

/// Calls `char::is_alphanumeric`, which holds of the chars with the Unicode
/// Alphabetic property or a Number general category.  Its result is named
/// `is_alphanumeric`; of it the contract states only the ASCII range, where
/// exactly the letters `A`-`Z`, `a`-`z` and the digits `0`-`9` have one of
/// those properties (space, punctuation such as `_`, and control chars have
/// none).
#[verifier::external_body]
fn char_is_alphanumeric(c: char) -> (r: bool)
    ensures
        r == is_alphanumeric(c),
        (c as u32) < 128 ==> (r <==> is_ascii_alphanumeric(c)),
{
    c.is_alphanumeric()
}

/// Calls `String::push`, which appends one char at the end of the string.
#[verifier::external_body]
pub(crate) fn push_char(s: &mut String, c: char)
    ensures
        final(s)@ == old(s)@.push(c),
{
    s.push(c)
}

/// Scans `s` from the left: the completed words, and the word being read at
/// the end of `s` (empty when `s` ends in a separator).
pub open spec fn scan(s: Seq<char>) -> (Seq<Seq<char>>, Seq<char>)
    decreases s.len(),
{
    if s.len() == 0 {
        (Seq::empty(), Seq::empty())
    } else {
        let (done, cur) = scan(s.drop_last());
        let c = s.last();
        if is_alphanumeric(c) {
            (done, cur.push(c))
        } else if cur.len() > 0 {
            (done.push(cur), Seq::empty())
        } else {
            (done, cur)
        }
    }
}

/// The maximal runs of alphanumeric chars of `s`, in order.
pub open spec fn words(s: Seq<char>) -> Seq<Seq<char>> {
    let (done, cur) = scan(s);
    if cur.len() > 0 {
        done.push(cur)
    } else {
        done
    }
}

/// The tokens of a text: the words of its lowercase form.
pub open spec fn tokens_of(text: Seq<char>) -> Seq<Seq<char>> {
    words(lowercase(text))
}

/// Law: the tokens of a text are the words of its lowercase form.
pub proof fn lemma_tokens_of(text: Seq<char>)
    ensures
        tokens_of(text) == words(lowercase(text)),
{
}

/// Every token is a non-empty run of alphanumeric chars.
pub open spec fn is_word(w: Seq<char>) -> bool {
    &&& w.len() > 0
    &&& forall|k: int| 0 <= k < w.len() ==> is_alphanumeric(#[trigger] w[k])
}

proof fn lemma_scan_words(s: Seq<char>)
    ensures
        forall|i: int| 0 <= i < scan(s).0.len() ==> is_word(#[trigger] scan(s).0[i]),
        forall|k: int| 0 <= k < scan(s).1.len() ==> is_alphanumeric(#[trigger] scan(s).1[k]),
    decreases s.len(),
{
    if s.len() > 0 {
        let (done, cur) = scan(s.drop_last());
        lemma_scan_words(s.drop_last());
        let c = s.last();
        if is_alphanumeric(c) {
            assert forall|k: int| 0 <= k < cur.push(c).len() implies is_alphanumeric(
                #[trigger] cur.push(c)[k],
            ) by {
                if k < cur.len() {
                    assert(cur.push(c)[k] == cur[k]);
                }
            }
        } else if cur.len() > 0 {
            assert forall|i: int| 0 <= i < done.push(cur).len() implies is_word(
                #[trigger] done.push(cur)[i],
            ) by {
                if i < done.len() {
                    assert(done.push(cur)[i] == done[i]);
                }
            }
        }
    }
}

/// Law: every word of a text is a non-empty run of alphanumeric chars.
pub proof fn lemma_words_are_alphanumeric(s: Seq<char>)
    ensures
        forall|i: int| 0 <= i < words(s).len() ==> is_word(#[trigger] words(s)[i]),
{
    lemma_scan_words(s);
}

/// Words joined by a separator char.
pub open spec fn join_with(ws: Seq<Seq<char>>, sep: char) -> Seq<char>
    decreases ws.len(),
{
    if ws.len() == 0 {
        Seq::empty()
    } else if ws.len() == 1 {
        ws[0]
    } else {
        join_with(ws.drop_last(), sep).push(sep) + ws.last()
    }
}

proof fn lemma_scan_after_separator(a: Seq<char>, sep: char, b: Seq<char>)
    requires
        !is_alphanumeric(sep),
    ensures
        scan(a.push(sep) + b) == (words(a) + scan(b).0, scan(b).1),
    decreases b.len(),
{
    if b.len() == 0 {
        assert(a.push(sep) + b =~= a.push(sep));
        assert(a.push(sep).drop_last() =~= a);
        let (done, cur) = scan(a);
        if cur.len() == 0 {
            assert(cur =~= Seq::<char>::empty());
        }
        assert(words(a) + scan(b).0 =~= words(a));
    } else {
        let s = a.push(sep) + b;
        assert(s.drop_last() =~= a.push(sep) + b.drop_last());
        assert(s.last() == b.last());
        lemma_scan_after_separator(a, sep, b.drop_last());
        let (d, c) = scan(b.drop_last());
        assert((words(a) + d).push(c) =~= words(a) + d.push(c));
    }
}

/// Law: a separator splits the words: the words of `a`, a non-alphanumeric
/// char, then `b` are the words of `a` followed by the words of `b`.
pub proof fn lemma_words_split_at_separator(a: Seq<char>, sep: char, b: Seq<char>)
    requires
        !is_alphanumeric(sep),
    ensures
        words(a.push(sep) + b) == words(a) + words(b),
{
    lemma_scan_after_separator(a, sep, b);
    let (d, c) = scan(b);
    assert((words(a) + d).push(c) =~= words(a) + d.push(c));
}

proof fn lemma_scan_of_word(w: Seq<char>)
    requires
        forall|k: int| 0 <= k < w.len() ==> is_alphanumeric(#[trigger] w[k]),
    ensures
        scan(w) == (Seq::<Seq<char>>::empty(), w),
    decreases w.len(),
{
    if w.len() > 0 {
        lemma_scan_of_word(w.drop_last());
        assert(is_alphanumeric(w[w.len() - 1]));
        assert(w.drop_last().push(w.last()) =~= w);
    } else {
        assert(w =~= Seq::<char>::empty());
    }
}

/// Law: a non-empty run of alphanumeric chars is one word.
pub proof fn lemma_single_word(w: Seq<char>)
    requires
        is_word(w),
    ensures
        words(w) == seq![w],
{
    lemma_scan_of_word(w);
    assert(Seq::<Seq<char>>::empty().push(w) =~= seq![w]);
}

/// Law: a text without alphanumeric chars has no words.
pub proof fn lemma_no_words(s: Seq<char>)
    requires
        forall|k: int| 0 <= k < s.len() ==> !is_alphanumeric(#[trigger] s[k]),
    ensures
        words(s) == Seq::<Seq<char>>::empty(),
    decreases s.len(),
{
    if s.len() > 0 {
        let init = s.drop_last();
        assert forall|k: int| 0 <= k < init.len() implies !is_alphanumeric(#[trigger] init[k]) by {
            assert(init[k] == s[k]);
        }
        lemma_no_words(init);
        assert(!is_alphanumeric(s[s.len() - 1]));
        let (d, c) = scan(init);
        if c.len() > 0 {
            assert(d.push(c).len() > 0);
        }
        assert(scan(init).1.len() == 0);
        assert(scan(init).0 =~= Seq::<Seq<char>>::empty());
    } else {
        assert(words(s) =~= Seq::<Seq<char>>::empty());
    }
}

/// Law: words joined by a non-alphanumeric separator split back into the
/// same words.
pub proof fn lemma_words_of_joined(ws: Seq<Seq<char>>, sep: char)
    requires
        !is_alphanumeric(sep),
        forall|i: int| 0 <= i < ws.len() ==> is_word(#[trigger] ws[i]),
    ensures
        words(join_with(ws, sep)) == ws,
    decreases ws.len(),
{
    if ws.len() == 0 {
        assert(words(Seq::<char>::empty()) =~= ws);
    } else if ws.len() == 1 {
        assert(is_word(ws[0]));
        lemma_scan_of_word(ws[0]);
        assert(words(ws[0]) =~= ws);
    } else {
        let init = ws.drop_last();
        assert forall|i: int| 0 <= i < init.len() implies is_word(#[trigger] init[i]) by {
            assert(init[i] == ws[i]);
        }
        lemma_words_of_joined(init, sep);
        lemma_words_split_at_separator(join_with(init, sep), sep, ws.last());
        assert(is_word(ws[ws.len() - 1]));
        lemma_scan_of_word(ws.last());
        assert(words(ws.last()) =~= seq![ws.last()]);
        assert(init + seq![ws.last()] =~= ws);
    }
}

/// Law: splitting is idempotent: the words of a text, joined by a
/// non-alphanumeric separator, split into the same words again.
pub proof fn lemma_words_idempotent(s: Seq<char>, sep: char)
    requires
        !is_alphanumeric(sep),
    ensures
        words(join_with(words(s), sep)) == words(s),
{
    lemma_words_are_alphanumeric(s);
    lemma_words_of_joined(words(s), sep);
}

/// A char that may stand in a token: any non-ASCII char, and among ASCII
/// chars the letters and digits only.
pub open spec fn may_stand_in_token(c: char) -> bool {
    (c as u32) < 128 ==> is_ascii_alphanumeric(c)
}

/// The words of `s`: its maximal runs of alphanumeric chars, in order.  No
/// word holds an ASCII char other than a letter or digit: `_`, `-`, spaces
/// and punctuation always separate words.
pub fn split_words(s: &str) -> (r: Vec<String>)
    ensures
        r.deep_view() == words(s@),
        forall|i: int, k: int|
            0 <= i < r.len() && 0 <= k < r[i]@.len() ==> may_stand_in_token(#[trigger] r[i]@[k]),
{
    let mut out: Vec<String> = Vec::new();
    let mut cur = String::new();
    for c in it: s.chars()
        invariant
            (out.deep_view(), cur@) == scan(it.seq().take(it.index() as int)),
            it.seq() == s@,
            forall|i: int, k: int|
                0 <= i < out.len() && 0 <= k < out[i]@.len() ==> may_stand_in_token(
                    #[trigger] out[i]@[k],
                ),
            forall|k: int| 0 <= k < cur@.len() ==> may_stand_in_token(#[trigger] cur@[k]),
    {
        proof {
            let i = it.index() as int;
            assert(it.seq().take(i + 1).drop_last() =~= it.seq().take(i));
            assert(it.seq().take(i + 1).last() == c);
        }
        if char_is_alphanumeric(c) {
            let ghost before = cur@;
            push_char(&mut cur, c);
            assert forall|k: int| 0 <= k < cur@.len() implies may_stand_in_token(
                #[trigger] cur@[k],
            ) by {
                if k < before.len() {
                    assert(cur@[k] == before[k]);
                }
            }
        } else if !cur.as_str().is_empty() {
            let ghost w = cur@;
            let ghost prev = out@;
            out.push(cur);
            assert forall|i: int, k: int|
                0 <= i < out.len() && 0 <= k < out[i]@.len() implies may_stand_in_token(
                #[trigger] out[i]@[k],
            ) by {
                if i < prev.len() {
                    assert(out[i] == prev[i]);
                } else {
                    assert(out[i]@ == w);
                }
            }
            cur = String::new();
        }
    }
    assert(s@.take(s@.len() as int) =~= s@);
    if !cur.as_str().is_empty() {
        let ghost w = cur@;
        let ghost prev = out@;
        out.push(cur);
        assert forall|i: int, k: int|
            0 <= i < out.len() && 0 <= k < out[i]@.len() implies may_stand_in_token(
            #[trigger] out[i]@[k],
        ) by {
            if i < prev.len() {
                assert(out[i] == prev[i]);
            } else {
                assert(out[i]@ == w);
            }
        }
    }
    out
}

} // verus!
