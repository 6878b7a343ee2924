//! The inverted index: each normalized word of the titles, mapped to the
//! set of surrogate ids of the documents whose title holds it.

use crate::query::{is_whitespace, whitespace_char};
use crate::postings::{bitmap_ids, bitmap_insert, empty_bitmap};
use crate::words::{chars_of, compare_chars, lemma_lex_irreflexive, lemma_lex_total, lemma_lex_transitive, lex_lt, sorted_words};
use roaring::RoaringBitmap;
use std::cmp::Ordering;
use vstd::prelude::*;

verus! {

/// The length of the run of non-whitespace characters that starts at `i`.
pub open spec fn word_run(s: Seq<char>, i: int) -> nat
    decreases s.len() - i,
{
    if 0 <= i < s.len() && !whitespace_char(s[i]) {
        1 + word_run(s, i + 1)
    } else {
        0
    }
}

pub proof fn lemma_word_run_bound(s: Seq<char>, i: int)
    requires
        0 <= i <= s.len(),
    ensures
        i + word_run(s, i) <= s.len(),
    decreases s.len() - i,
{
    if i < s.len() {
        lemma_word_run_bound(s, i + 1);
    }
}

/// The tokens of `s` from position `i` on: the maximal runs of characters
/// that are not whitespace, in order.
pub open spec fn tokens_from(s: Seq<char>, i: int) -> Seq<Seq<char>>
    decreases s.len() - i,
{
    if i < 0 || i >= s.len() {
        Seq::empty()
    } else if whitespace_char(s[i]) {
        tokens_from(s, i + 1)
    } else {
        let e = i + 1 + word_run(s, i + 1);
        proof {
            lemma_word_run_bound(s, i + 1);
        }
        seq![s.subrange(i, e)] + tokens_from(s, e)
    }
}

/// The tokens of a text split at whitespace, as Rust's `str::split_whitespace`
/// gives them.
pub open spec fn whitespace_tokens(s: Seq<char>) -> Seq<Seq<char>> {
    tokens_from(s, 0)
}

/// Splits a text at whitespace into its tokens.
pub fn split_whitespace(text: &str) -> (r: Vec<String>)
    ensures
        r@.map_values(|w: String| w@) == whitespace_tokens(text@),
{
    let s = chars_of(text);
    let mut tokens: Vec<String> = Vec::new();
    let mut i: usize = 0;
    while i < s.len()
        invariant
            s@ == text@,
            i <= s.len(),
            tokens@.map_values(|w: String| w@) + tokens_from(s@, i as int) == tokens_from(s@, 0),
        decreases s.len() - i,
    {
        if is_whitespace(s[i]) {
            i = i + 1;
        } else {
            let mut e = i + 1;
            while e < s.len() && !is_whitespace(s[e])
                invariant
                    i < e <= s.len(),
                    word_run(s@, i + 1) == (e - i - 1) + word_run(s@, e as int),
                decreases s.len() - e,
            {
                e = e + 1;
            }
            let ghost pre = tokens@.map_values(|w: String| w@);
            let token = text.substring_char(i, e).to_owned();
            tokens.push(token);
            proof {
                assert(word_run(s@, e as int) == 0);
                assert(tokens_from(s@, i as int) == seq![s@.subrange(i as int, e as int)] + tokens_from(s@, e as int));
                assert(tokens@.map_values(|w: String| w@) =~= pre.push(s@.subrange(i as int, e as int)));
                assert(tokens@.map_values(|w: String| w@) + tokens_from(s@, e as int)
                    =~= pre + tokens_from(s@, i as int));
            }
            i = e;
        }
    }
    proof {
        assert(tokens@.map_values(|w: String| w@) + tokens_from(s@, i as int) =~= tokens@.map_values(|w: String| w@));
    }
    tokens
}

/// A text with its letters lower-cased, as Rust's `str::to_lowercase` gives it.
pub uninterp spec fn lowercase(s: Seq<char>) -> Seq<char>;

/// Relies on `str::to_lowercase`: the result depends on the text alone.
#[verifier::external_body]
fn to_lowercase(s: &str) -> (r: String)
    ensures
        r@ == lowercase(s@),
{
    s.to_lowercase()
}

/// The normalized words among the first `n` tokens: each lower-cased, the
/// empty ones left out.
pub open spec fn words_of_tokens(tokens: Seq<Seq<char>>, n: int) -> Set<Seq<char>> {
    Set::new(|w: Seq<char>| w.len() > 0 && exists|j: int| 0 <= j < n && lowercase(tokens[j]) == w)
}

/// The normalized words of a title.
pub open spec fn title_words(title: Seq<char>) -> Set<Seq<char>> {
    words_of_tokens(whitespace_tokens(title), whitespace_tokens(title).len() as int)
}

/// The surrogate ids of the documents among `titles` whose title holds `w`:
/// a document's id is its position.
pub open spec fn docs_with(titles: Seq<Seq<char>>, w: Seq<char>) -> Set<u32> {
    Set::new(|id: u32| (id as int) < titles.len() && title_words(titles[id as int]).contains(w))
}

/// One document of the dataset.
#[derive(Debug)]
pub struct Record {
    pub id: u64,
    pub by: String,
    pub score: Option<u64>,
    pub time: Option<u64>,
    pub time_ts: String,
    pub title: String,
    pub url: String,
    pub text: String,
    pub deleted: Option<bool>,
    pub dead: Option<bool>,
    pub descendants: Option<i64>,
    pub author: String,
}

/// The titles of the records, in order.
pub open spec fn titles_of(records: Seq<Record>) -> Seq<Seq<char>> {
    records.map_values(|r: Record| r.title@)
}

/// Building an index failed.
#[derive(Debug, Clone, Copy, PartialEq, Eq)]
pub enum BuildError {
    /// More documents than 32-bit surrogate ids can number.
    TooManyDocuments,
}

/// The largest number of documents that 32-bit surrogate ids can number.
pub open spec fn max_documents() -> int {
    u32::MAX as int + 1
}

/// Whether `entries` pairs a word whose characters are `w` with id `x`.
pub open spec fn has_entry(entries: Seq<(String, u32)>, w: Seq<char>, x: u32) -> bool {
    exists|k: int| 0 <= k < entries.len() && (#[trigger] entries[k]).0@ == w && entries[k].1 == x
}

/// Relies on `slice::sort_unstable` for `(String, u32)` pairs: the same
/// pairs, reordered so that the words come in `str`'s order, which is the
/// lexicographic order of code points.
#[verifier::external_body]
fn sort_entries(entries: &mut Vec<(String, u32)>)
    ensures
        final(entries)@.to_multiset() == old(entries)@.to_multiset(),
        forall|i: int, j: int|
            0 <= i < j < final(entries).len() ==> !lex_lt(#[trigger] final(entries)@[j].0@, #[trigger] final(entries)@[i].0@),
{
    entries.sort_unstable();
}

/// Whether one of the words of `doc` has the characters `w`.
pub open spec fn doc_has(doc: Vec<String>, w: Seq<char>) -> bool {
    exists|j: int| 0 <= j < doc.len() && #[trigger] doc@[j]@ == w
}

/// The surrogate ids of the documents, each given as its words, that hold
/// `w`: a document's id is its position.
pub open spec fn docs_holding(docs: Seq<Vec<String>>, w: Seq<char>) -> Set<u32> {
    Set::new(|id: u32| (id as int) < docs.len() && doc_has(docs[id as int], w))
}

/// The normalized words of a title: its whitespace-separated tokens,
/// lower-cased, the empty ones left out.
fn normalized_words(title: &str) -> (r: Vec<String>)
    ensures
        forall|w: Seq<char>| #[trigger] title_words(title@).contains(w) <==> doc_has(r, w),
{
    let tokens = split_whitespace(title);
    let ghost toks = whitespace_tokens(title@);
    let mut words: Vec<String> = Vec::new();
    let mut t: usize = 0;
    while t < tokens.len()
        invariant
            tokens@.map_values(|w: String| w@) == toks,
            t <= tokens.len(),
            forall|w: Seq<char>| #[trigger] words_of_tokens(toks, t as int).contains(w) <==> doc_has(words, w),
        decreases tokens.len() - t,
    {
        let word = to_lowercase(tokens[t].as_str());
        assert(toks[t as int] == tokens@[t as int]@);
        let ghost pre = words;
        if !word.as_str().is_empty() {
            let ghost wv = word@;
            words.push(word);
            proof {
                assert forall|w: Seq<char>| #[trigger] words_of_tokens(toks, t + 1).contains(w) <==> doc_has(words, w) by {
                    if doc_has(pre, w) {
                        let j = choose|j: int| 0 <= j < pre.len() && #[trigger] pre@[j]@ == w;
                        assert(words@[j] == pre@[j]);
                    }
                    if doc_has(words, w) && w != wv {
                        let j = choose|j: int| 0 <= j < words.len() && #[trigger] words@[j]@ == w;
                        assert(j < pre.len());
                        assert(pre@[j] == words@[j]);
                    }
                    if w == wv {
                        assert(words@[pre.len() as int]@ == w);
                    }
                    if words_of_tokens(toks, t + 1).contains(w) && w != wv {
                        let j = choose|j: int| 0 <= j < t + 1 && lowercase(toks[j]) == w;
                        assert(words_of_tokens(toks, t as int).contains(w));
                    }
                    if words_of_tokens(toks, t as int).contains(w) {
                        let j = choose|j: int| 0 <= j < t && lowercase(toks[j]) == w;
                        assert(words_of_tokens(toks, t + 1).contains(w));
                    }
                    if w == wv {
                        assert(lowercase(toks[t as int]) == w);
                        assert(words_of_tokens(toks, t + 1).contains(w));
                    }
                }
            }
        } else {
            proof {
                assert forall|w: Seq<char>| #[trigger] words_of_tokens(toks, t + 1).contains(w) <==> doc_has(words, w) by {
                    if words_of_tokens(toks, t + 1).contains(w) {
                        let j = choose|j: int| 0 <= j < t + 1 && lowercase(toks[j]) == w;
                        assert(w.len() > 0 && word@.len() == 0);
                        assert(j != t);
                        assert(words_of_tokens(toks, t as int).contains(w));
                    }
                    if words_of_tokens(toks, t as int).contains(w) {
                        let j = choose|j: int| 0 <= j < t && lowercase(toks[j]) == w;
                        assert(words_of_tokens(toks, t + 1).contains(w));
                    }
                }
            }
        }
        t = t + 1;
    }
    proof {
        assert(toks.len() == tokens.len());
    }
    words
}

/// Every pair of a word of a document and the document's surrogate id.
fn collect_entries(docs: &Vec<Vec<String>>) -> (r: Vec<(String, u32)>)
    requires
        docs.len() <= max_documents(),
    ensures
        forall|w: Seq<char>, x: u32| #[trigger] has_entry(r@, w, x) <==> docs_holding(docs@, w).contains(x),
{
    let mut entries: Vec<(String, u32)> = Vec::new();
    let mut d: usize = 0;
    while d < docs.len()
        invariant
            docs.len() <= max_documents(),
            d <= docs.len(),
            forall|w: Seq<char>, x: u32| #[trigger] has_entry(entries@, w, x) <==> ((x as int) < d && doc_has(docs@[x as int], w)),
        decreases docs.len() - d,
    {
        let id = d as u32;
        let doc = &docs[d];
        let mut j: usize = 0;
        while j < doc.len()
            invariant
                docs.len() <= max_documents(),
                d < docs.len(),
                id == d,
                *doc == docs@[d as int],
                j <= doc.len(),
                forall|w: Seq<char>, x: u32| #[trigger] has_entry(entries@, w, x) <==> (
                    ((x as int) < d && doc_has(docs@[x as int], w))
                        || (x == id && exists|k: int| 0 <= k < j && #[trigger] doc@[k]@ == w)),
            decreases doc.len() - j,
        {
            let ghost pre = entries@;
            let ghost wv = doc@[j as int]@;
            entries.push((doc[j].clone(), id));
            proof {
                assert forall|w: Seq<char>, x: u32| #[trigger] has_entry(entries@, w, x) <==> (
                    ((x as int) < d && doc_has(docs@[x as int], w))
                        || (x == id && exists|k: int| 0 <= k < j + 1 && #[trigger] doc@[k]@ == w)) by {
                    if has_entry(pre, w, x) {
                        let k = choose|k: int| 0 <= k < pre.len() && (#[trigger] pre[k]).0@ == w && pre[k].1 == x;
                        assert(entries@[k] == pre[k]);
                    }
                    if has_entry(entries@, w, x) && !(w == wv && x == id) {
                        let k = choose|k: int| 0 <= k < entries.len() && (#[trigger] entries@[k]).0@ == w && entries@[k].1 == x;
                        assert(k < pre.len());
                        assert(pre[k] == entries@[k]);
                    }
                    if w == wv && x == id {
                        assert(entries@[pre.len() as int].0@ == w);
                        assert(doc@[j as int]@ == w);
                    }
                    if x == id && w != wv && exists|k: int| 0 <= k < j + 1 && #[trigger] doc@[k]@ == w {
                        let k = choose|k: int| 0 <= k < j + 1 && #[trigger] doc@[k]@ == w;
                        assert(k < j);
                    }
                }
            }
            j = j + 1;
        }
        d = d + 1;
    }
    entries
}

/// Builds the inverted index of the records' titles. The record at
/// position `i` gets surrogate id `i`; each whitespace-separated token of its
/// title, lower-cased, is a word of that document, empty words aside.
pub fn build_index(records: &Vec<Record>) -> (r: Result<InvertedIndex, BuildError>)
    ensures
        r is Err <==> records.len() > max_documents(),
        r matches Err(e) ==> e == BuildError::TooManyDocuments,
        r matches Ok(index) ==> {
            &&& index.wf()
            &&& forall|w: Seq<char>| #[trigger] index.postings(w) == docs_with(titles_of(records@), w)
            &&& forall|w: Seq<char>| #[trigger] index.has_word(w) <==> exists|id: u32| docs_with(titles_of(records@), w).contains(id)
        },
{
    let ghost titles = titles_of(records@);
    let mut docs: Vec<Vec<String>> = Vec::new();
    let mut d: usize = 0;
    while d < records.len()
        invariant
            titles == titles_of(records@),
            d <= records.len(),
            docs.len() == d,
            forall|x: int, w: Seq<char>| 0 <= x < d ==> (#[trigger] title_words(titles[x]).contains(w) <==> doc_has(docs@[x], w)),
        decreases records.len() - d,
    {
        let words = normalized_words(records[d].title.as_str());
        docs.push(words);
        proof {
            assert forall|x: int, w: Seq<char>| 0 <= x < d + 1 implies (#[trigger] title_words(titles[x]).contains(w) <==> doc_has(docs@[x], w)) by {
                if x == d {
                    assert(title_words(records@[x].title@).contains(w) <==> doc_has(words, w));
                }
            }
        }
        d = d + 1;
    }
    let r = index_documents(&docs);
    proof {
        assert forall|w: Seq<char>| #[trigger] docs_holding(docs@, w) == docs_with(titles, w) by {
            assert(docs_holding(docs@, w) =~= docs_with(titles, w));
        }
        if r is Ok {
            let index = r->Ok_0;
            assert forall|w: Seq<char>| #[trigger] index.postings(w) == docs_with(titles, w) by {
                assert(docs_holding(docs@, w) == docs_with(titles, w));
            }
            assert forall|w: Seq<char>| #[trigger] index.has_word(w) <==> exists|id: u32| docs_with(titles, w).contains(id) by {
                assert(docs_holding(docs@, w) == docs_with(titles, w));
            }
        }
    }
    r
}

/// Builds the inverted index of documents given as their words: the
/// document at position `i` gets surrogate id `i`, and each of its words
/// lists it.
pub fn index_documents(docs: &Vec<Vec<String>>) -> (r: Result<InvertedIndex, BuildError>)
    ensures
        r is Err <==> docs.len() > max_documents(),
        r matches Err(e) ==> e == BuildError::TooManyDocuments,
        r matches Ok(index) ==> {
            &&& index.wf()
            &&& forall|w: Seq<char>| #[trigger] index.postings(w) == docs_holding(docs@, w)
            &&& forall|w: Seq<char>| #[trigger] index.has_word(w) <==> exists|id: u32| docs_holding(docs@, w).contains(id)
        },
{
    broadcast use vstd::seq_lib::group_to_multiset_ensures;

    if docs.len() > 0 && docs.len() - 1 > u32::MAX as usize {
        return Err(BuildError::TooManyDocuments);
    }
    let mut entries = collect_entries(docs);
    let ghost collected = entries@;
    sort_entries(&mut entries);
    proof {
        assert forall|w: Seq<char>, x: u32| #[trigger] has_entry(entries@, w, x) <==> docs_holding(docs@, w).contains(x) by {
            if has_entry(entries@, w, x) {
                let k = choose|k: int| 0 <= k < entries.len() && (#[trigger] entries@[k]).0@ == w && entries@[k].1 == x;
                assert(entries@.contains(entries@[k]));
                assert(entries@.to_multiset().count(entries@[k]) > 0);
                assert(collected.to_multiset().count(entries@[k]) > 0);
                assert(collected.contains(entries@[k]));
                let j = choose|j: int| 0 <= j < collected.len() && collected[j] == entries@[k];
                assert(has_entry(collected, w, x));
            }
            if has_entry(collected, w, x) {
                let k = choose|k: int| 0 <= k < collected.len() && (#[trigger] collected[k]).0@ == w && collected[k].1 == x;
                assert(collected.contains(collected[k]));
                assert(collected.to_multiset().count(collected[k]) > 0);
                assert(entries@.to_multiset().count(collected[k]) > 0);
                assert(entries@.contains(collected[k]));
                let j = choose|j: int| 0 <= j < entries.len() && entries@[j] == collected[k];
                assert(has_entry(entries@, w, x));
            }
        }
    }
    let mut index = InvertedIndex::new();
    let mut i: usize = 0;
    while i < entries.len()
        invariant
            forall|w: Seq<char>, x: u32| #[trigger] has_entry(entries@, w, x) <==> docs_holding(docs@, w).contains(x),
            forall|a: int, b: int| 0 <= a < b < entries.len() ==> !lex_lt(#[trigger] entries@[b].0@, #[trigger] entries@[a].0@),
            i <= entries.len(),
            index.wf(),
            i == 0 <==> index.words.len() == 0,
            i > 0 ==> index.words@.last()@ == entries@[i - 1].0@,
            forall|w: Seq<char>| #[trigger] index.has_word(w) <==> exists|x: u32| has_entry(entries@.take(i as int), w, x),
            forall|w: Seq<char>| #[trigger] index.postings(w) == Set::new(|x: u32| has_entry(entries@.take(i as int), w, x)),
        decreases entries.len() - i,
    {
        let ghost pre = index;
        let ghost upto = entries@.take(i as int);
        let ghost next = entries@.take(i + 1);
        let ghost ew = entries@[i as int].0@;
        let ghost ex = entries@[i as int].1;
        proof {
            assert(next == upto.push(entries@[i as int]));
            assert forall|w: Seq<char>, x: u32| #[trigger] has_entry(next, w, x) <==> (has_entry(upto, w, x) || (w == ew && x == ex)) by {
                if has_entry(next, w, x) {
                    let k = choose|k: int| 0 <= k < next.len() && (#[trigger] next[k]).0@ == w && next[k].1 == x;
                    if k < upto.len() {
                        assert(upto[k] == next[k]);
                    }
                }
                if has_entry(upto, w, x) {
                    let k = choose|k: int| 0 <= k < upto.len() && (#[trigger] upto[k]).0@ == w && upto[k].1 == x;
                    assert(next[k] == upto[k]);
                }
                if w == ew && x == ex {
                    assert(next[i as int] == entries@[i as int]);
                }
            }
        }
        let key = chars_of(entries[i].0.as_str());
        let same = index.words.len() > 0 && match compare_chars(&chars_of(index.words[index.words.len() - 1].as_str()), &key) {
            Ordering::Equal => true,
            _ => false,
        };
        if same {
            let last = index.lists.len() - 1;
            bitmap_insert(&mut index.lists[last], entries[i].1);
            proof {
                assert(index.words@ == pre.words@);
                index.lemma_postings_at(last as int);
                pre.lemma_postings_at(last as int);
                assert forall|w: Seq<char>| #[trigger] index.has_word(w) == pre.has_word(w) by {
                    if index.has_word(w) {
                        let p = index.position(w);
                        assert(pre.words@[p]@ == w);
                    }
                    if pre.has_word(w) {
                        let p = pre.position(w);
                        assert(index.words@[p]@ == w);
                    }
                }
                assert forall|w: Seq<char>| #[trigger] index.postings(w) == Set::new(|x: u32| has_entry(next, w, x)) by {
                    if w != ew && pre.has_word(w) {
                        let p = pre.position(w);
                        index.lemma_postings_at(p);
                        pre.lemma_postings_at(p);
                    }
                    assert(index.postings(w) =~= Set::new(|x: u32| has_entry(next, w, x)));
                }
                assert forall|w: Seq<char>| #[trigger] index.has_word(w) <==> exists|x: u32| has_entry(next, w, x) by {
                    if w == ew {
                        assert(has_entry(next, w, ex));
                    } else {
                        if pre.has_word(w) {
                            let x = choose|x: u32| has_entry(upto, w, x);
                            assert(has_entry(next, w, x));
                        }
                        if exists|x: u32| has_entry(next, w, x) {
                            let x = choose|x: u32| has_entry(next, w, x);
                            assert(has_entry(upto, w, x));
                        }
                    }
                }
            }
        } else {
            let mut list = empty_bitmap();
            bitmap_insert(&mut list, entries[i].1);
            proof {
                if i > 0 {
                    let lw = pre.words@.last()@;
                    lemma_lex_total(lw, ew);
                    assert(!lex_lt(entries@[i as int].0@, entries@[i - 1].0@));
                    assert(lex_lt(lw, ew));
                    assert forall|a: int| 0 <= a < pre.words.len() implies lex_lt(#[trigger] pre.words@[a]@, ew) by {
                        if a < pre.words.len() - 1 {
                            lemma_lex_transitive(pre.words@[a]@, lw, ew);
                        }
                    }
                    assert forall|a: int| 0 <= a < pre.words.len() implies #[trigger] pre.words@[a]@ != ew by {
                        lemma_lex_irreflexive(ew);
                    }
                }
            }
            index.words.push(entries[i].0.clone());
            index.lists.push(list);
            proof {
                let n = pre.words.len() as int;
                assert(index.words@[n]@ == ew);
                assert forall|a: int, b: int| 0 <= a < b < index.words.len() implies lex_lt(
                    #[trigger] index.words@[a]@,
                    #[trigger] index.words@[b]@,
                ) by {
                    if b < n {
                        assert(index.words@[a] == pre.words@[a] && index.words@[b] == pre.words@[b]);
                    }
                }
                index.lemma_postings_at(n);
                assert(bitmap_ids(list) =~= Set::<u32>::empty().insert(ex));
                assert forall|w: Seq<char>| #[trigger] index.has_word(w) == (pre.has_word(w) || w == ew) by {
                    if index.has_word(w) && w != ew {
                        let p = index.position(w);
                        assert(pre.words@[p]@ == w);
                    }
                    if pre.has_word(w) {
                        let p = pre.position(w);
                        assert(index.words@[p]@ == w);
                    }
                }
                assert forall|w: Seq<char>| #[trigger] index.postings(w) == Set::new(|x: u32| has_entry(next, w, x)) by {
                    if w != ew && pre.has_word(w) {
                        let p = pre.position(w);
                        pre.lemma_postings_at(p);
                        index.lemma_postings_at(p);
                    }
                    if w == ew {
                        assert(!pre.has_word(w));
                        assert forall|x: u32| !has_entry(upto, w, x) by {
                            if has_entry(upto, w, x) {
                                assert(pre.has_word(w));
                            }
                        }
                    }
                    assert(index.postings(w) =~= Set::new(|x: u32| has_entry(next, w, x)));
                }
                assert forall|w: Seq<char>| #[trigger] index.has_word(w) <==> exists|x: u32| has_entry(next, w, x) by {
                    if w == ew {
                        assert(has_entry(next, w, ex));
                    } else {
                        if pre.has_word(w) {
                            let x = choose|x: u32| has_entry(upto, w, x);
                            assert(has_entry(next, w, x));
                        }
                        if exists|x: u32| has_entry(next, w, x) {
                            let x = choose|x: u32| has_entry(next, w, x);
                            assert(has_entry(upto, w, x));
                        }
                    }
                }
            }
        }
        i = i + 1;
    }
    proof {
        assert(entries@.take(i as int) =~= entries@);
        assert forall|w: Seq<char>| #[trigger] index.postings(w) == docs_holding(docs@, w) by {
            assert(index.postings(w) =~= docs_holding(docs@, w));
        }
        assert forall|w: Seq<char>| #[trigger] index.has_word(w) <==> exists|id: u32| docs_holding(docs@, w).contains(id) by {
            if exists|id: u32| docs_holding(docs@, w).contains(id) {
                let id = choose|id: u32| docs_holding(docs@, w).contains(id);
                assert(has_entry(entries@, w, id));
            }
            if index.has_word(w) {
                let x = choose|x: u32| has_entry(entries@, w, x);
                assert(docs_holding(docs@, w).contains(x));
            }
        }
    }
    Ok(index)
}

/// An inverted index: words in strictly increasing order, each with the
/// bitmap of the documents that hold it.
pub struct InvertedIndex {
    pub words: Vec<String>,
    pub lists: Vec<RoaringBitmap>,
}

impl InvertedIndex {
    pub open spec fn wf(&self) -> bool {
        &&& self.words.len() == self.lists.len()
        &&& sorted_words(self.words@)
    }

    pub open spec fn has_word(&self, w: Seq<char>) -> bool {
        exists|i: int| 0 <= i < self.words.len() && #[trigger] self.words@[i]@ == w
    }

    /// Where `w` stands among the words, if it does.
    pub open spec fn position(&self, w: Seq<char>) -> int {
        choose|i: int| 0 <= i < self.words.len() && #[trigger] self.words@[i]@ == w
    }

    /// The posting list of `w`: empty for a word that the index lacks.
    pub open spec fn postings(&self, w: Seq<char>) -> Set<u32> {
        if self.has_word(w) {
            bitmap_ids(self.lists@[self.position(w)])
        } else {
            Set::empty()
        }
    }

    pub proof fn lemma_postings_at(&self, i: int)
        requires
            self.wf(),
            0 <= i < self.words.len(),
        ensures
            self.has_word(self.words@[i]@),
            self.postings(self.words@[i]@) == bitmap_ids(self.lists@[i]),
    {
        let w = self.words@[i]@;
        assert(self.words@[i]@ == w);
        assert(self.has_word(w));
        let j = self.position(w);
        if j < i {
            assert(lex_lt(self.words@[j]@, self.words@[i]@));
            lemma_lex_irreflexive(w);
        } else if i < j {
            assert(lex_lt(self.words@[i]@, self.words@[j]@));
            lemma_lex_irreflexive(w);
        }
        assert(j == i);
    }

    /// An index with no words.
    pub fn new() -> (r: Self)
        ensures
            r.wf(),
            r.words.len() == 0,
            forall|w: Seq<char>| !r.has_word(w),
    {
        InvertedIndex { words: Vec::new(), lists: Vec::new() }
    }

}

} // verus!
