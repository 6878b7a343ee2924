//! Query evaluation: each word resolves to its posting list in the store,
//! `AND` intersects and `OR` unites the results of both sides.

use crate::index::{build_index, docs_with, max_documents, title_words, titles_of, BuildError, Record};
use crate::postings::{bitmap_clone, bitmap_ids, bitmap_intersection, bitmap_union, empty_bitmap};
use crate::query::{Ast, Query};
use crate::store::{find_postings_list, first_match, first_row_of, write_postings, PostingsStore, StoreError};
use roaring::RoaringBitmap;
use vstd::prelude::*;

verus! {

/// The set of ids that `q` selects in `store`, or `None` where a word's
/// posting list does not decode.
pub open spec fn evaluate(q: Ast, store: PostingsStore) -> Option<Set<u32>>
    decreases q,
{
    match q {
        Ast::Word(w) => store.lookup(w),
        Ast::And(l, r) => match (evaluate(*l, store), evaluate(*r, store)) {
            (Some(a), Some(b)) => Some(a.intersect(b)),
            _ => None,
        },
        Ast::Or(l, r) => match (evaluate(*l, store), evaluate(*r, store)) {
            (Some(a), Some(b)) => Some(a.union(b)),
            _ => None,
        },
    }
}

/// Evaluates `query` against the store. Both sides of every `AND` and `OR`
/// are evaluated.
pub fn eval_query(query: &Query, store: &PostingsStore) -> (r: Result<RoaringBitmap, StoreError>)
    requires
        store.wf(),
    ensures
        match r {
            Ok(b) => evaluate(query@, *store) == Some(bitmap_ids(b)),
            Err(e) => evaluate(query@, *store) is None && e == StoreError::CorruptPostings,
        },
    decreases query,
{
    match query {
        Query::Word(word) => find_postings_list(word.as_str(), store),
        Query::And(lhs, rhs) => {
            let lhs = eval_query(lhs, store)?;
            let rhs = eval_query(rhs, store)?;
            Ok(bitmap_intersection(&lhs, &rhs))
        },
        Query::Or(lhs, rhs) => {
            let lhs = eval_query(lhs, store)?;
            let rhs = eval_query(rhs, store)?;
            Ok(bitmap_union(&lhs, &rhs))
        },
    }
}

/// Whether `w` is one of the words of the query.
pub open spec fn has_query_word(q: Ast, w: Seq<char>) -> bool
    decreases q,
{
    match q {
        Ast::Word(v) => v == w,
        Ast::And(l, r) => has_query_word(*l, w) || has_query_word(*r, w),
        Ast::Or(l, r) => has_query_word(*l, w) || has_query_word(*r, w),
    }
}

/// The words of the query, so that their posting lists can be fetched
/// before the query is evaluated over them.
pub fn query_words(query: &Query) -> (r: Vec<String>)
    ensures
        forall|w: Seq<char>| has_query_word(query@, w) <==> exists|i: int| 0 <= i < r.len() && #[trigger] r@[i]@ == w,
    decreases query,
{
    match query {
        Query::Word(word) => {
            let r = vec![word.clone()];
            assert(r@[0]@ == word@);
            r
        },
        Query::And(lhs, rhs) | Query::Or(lhs, rhs) => {
            let mut a = query_words(lhs);
            let mut b = query_words(rhs);
            let ghost pa = a@;
            let ghost pb = b@;
            a.append(&mut b);
            proof {
                assert forall|w: Seq<char>| has_query_word(query@, w) <==> exists|i: int| 0 <= i < a.len() && #[trigger] a@[i]@ == w by {
                    if has_query_word(lhs@, w) {
                        let i = choose|i: int| 0 <= i < pa.len() && #[trigger] pa[i]@ == w;
                        assert(a@[i] == pa[i]);
                    }
                    if has_query_word(rhs@, w) {
                        let i = choose|i: int| 0 <= i < pb.len() && #[trigger] pb[i]@ == w;
                        assert(a@[pa.len() + i] == pb[i]);
                    }
                    if exists|i: int| 0 <= i < a.len() && #[trigger] a@[i]@ == w {
                        let i = choose|i: int| 0 <= i < a.len() && #[trigger] a@[i]@ == w;
                        if i < pa.len() {
                            assert(pa[i]@ == w);
                        } else {
                            assert(pb[i - pa.len()]@ == w);
                        }
                    }
                }
            }
            a
        },
    }
}

/// The posting list that fetched `words` and `lists` give `w`: the list of
/// the first position that holds the word, empty where none does.
pub open spec fn listed_postings(words: Seq<String>, lists: Seq<RoaringBitmap>, w: Seq<char>) -> Set<u32> {
    match first_match(words, w) {
        Some(i) => bitmap_ids(lists[i]),
        None => Set::empty(),
    }
}

/// The set of ids that `q` selects over fetched posting lists.
pub open spec fn evaluate_listed(q: Ast, words: Seq<String>, lists: Seq<RoaringBitmap>) -> Set<u32>
    decreases q,
{
    match q {
        Ast::Word(w) => listed_postings(words, lists, w),
        Ast::And(l, r) => evaluate_listed(*l, words, lists).intersect(evaluate_listed(*r, words, lists)),
        Ast::Or(l, r) => evaluate_listed(*l, words, lists).union(evaluate_listed(*r, words, lists)),
    }
}

/// Evaluates `query` over posting lists fetched beforehand: `lists[i]` is
/// the posting list of `words[i]`.
pub fn eval_query_listed(query: &Query, words: &Vec<String>, lists: &Vec<RoaringBitmap>) -> (r: RoaringBitmap)
    requires
        words.len() == lists.len(),
    ensures
        bitmap_ids(r) == evaluate_listed(query@, words@, lists@),
    decreases query,
{
    match query {
        Query::Word(word) => match first_row_of(words, word.as_str()) {
            Some(i) => bitmap_clone(&lists[i]),
            None => empty_bitmap(),
        },
        Query::And(lhs, rhs) => {
            let lhs = eval_query_listed(lhs, words, lists);
            let rhs = eval_query_listed(rhs, words, lists);
            bitmap_intersection(&lhs, &rhs)
        },
        Query::Or(lhs, rhs) => {
            let lhs = eval_query_listed(lhs, words, lists);
            let rhs = eval_query_listed(rhs, words, lists);
            bitmap_union(&lhs, &rhs)
        },
    }
}

/// Builds the index of the records' titles and writes it into a postings
/// store, in which each word looks up exactly the documents whose title
/// holds it.
pub fn build_store(records: &Vec<Record>) -> (r: Result<PostingsStore, BuildError>)
    ensures
        r is Err <==> records.len() > max_documents(),
        r matches Err(e) ==> e == BuildError::TooManyDocuments,
        r matches Ok(store) ==> {
            &&& store.wf()
            &&& forall|w: Seq<char>| #[trigger] store.lookup(w) == Some(docs_with(titles_of(records@), w))
        },
{
    let index = build_index(records)?;
    Ok(write_postings(&index))
}

/// An `AND` query selects the intersection of what its sides select, an
/// `OR` query their union.
pub proof fn law_and_or_are_set_operations(a: Ast, b: Ast, store: PostingsStore)
    requires
        evaluate(a, store) is Some,
        evaluate(b, store) is Some,
    ensures
        evaluate(Ast::And(Box::new(a), Box::new(b)), store) == Some(
            evaluate(a, store)->0.intersect(evaluate(b, store)->0),
        ),
        evaluate(Ast::Or(Box::new(a), Box::new(b)), store) == Some(
            evaluate(a, store)->0.union(evaluate(b, store)->0),
        ),
{
}

/// `AND` and `OR` are commutative in what they select.
pub proof fn law_commutative(a: Ast, b: Ast, store: PostingsStore)
    ensures
        evaluate(Ast::And(Box::new(a), Box::new(b)), store) == evaluate(Ast::And(Box::new(b), Box::new(a)), store),
        evaluate(Ast::Or(Box::new(a), Box::new(b)), store) == evaluate(Ast::Or(Box::new(b), Box::new(a)), store),
{
    if evaluate(a, store) is Some && evaluate(b, store) is Some {
        let x = evaluate(a, store)->0;
        let y = evaluate(b, store)->0;
        assert(x.intersect(y) =~= y.intersect(x));
        assert(x.union(y) =~= y.union(x));
    }
}

/// `AND` and `OR` are associative in what they select, though the query
/// trees differ.
pub proof fn law_associative(a: Ast, b: Ast, c: Ast, store: PostingsStore)
    ensures
        evaluate(Ast::And(Box::new(Ast::And(Box::new(a), Box::new(b))), Box::new(c)), store)
            == evaluate(Ast::And(Box::new(a), Box::new(Ast::And(Box::new(b), Box::new(c)))), store),
        evaluate(Ast::Or(Box::new(Ast::Or(Box::new(a), Box::new(b))), Box::new(c)), store)
            == evaluate(Ast::Or(Box::new(a), Box::new(Ast::Or(Box::new(b), Box::new(c)))), store),
{
    let ab = Ast::And(Box::new(a), Box::new(b));
    let bc = Ast::And(Box::new(b), Box::new(c));
    let oab = Ast::Or(Box::new(a), Box::new(b));
    let obc = Ast::Or(Box::new(b), Box::new(c));
    assert(evaluate(ab, store) == evaluate(Ast::And(Box::new(a), Box::new(b)), store));
    if evaluate(a, store) is Some && evaluate(b, store) is Some && evaluate(c, store) is Some {
        let x = evaluate(a, store)->0;
        let y = evaluate(b, store)->0;
        let z = evaluate(c, store)->0;
        assert(evaluate(ab, store) == Some(x.intersect(y)));
        assert(evaluate(bc, store) == Some(y.intersect(z)));
        assert(x.intersect(y).intersect(z) =~= x.intersect(y.intersect(z)));
        assert(evaluate(oab, store) == Some(x.union(y)));
        assert(evaluate(obc, store) == Some(y.union(z)));
        assert(x.union(y).union(z) =~= x.union(y.union(z)));
    } else {
        assert(evaluate(ab, store) is None || evaluate(c, store) is None);
        assert(evaluate(a, store) is None || evaluate(bc, store) is None);
        assert(evaluate(oab, store) is None || evaluate(c, store) is None);
        assert(evaluate(a, store) is None || evaluate(obc, store) is None);
    }
}

/// In a store built from a set of titles, a one-word query selects exactly
/// the documents whose title holds the word, case-insensitively, as a
/// whitespace-separated token.
pub proof fn law_word_query_selects_its_documents(titles: Seq<Seq<char>>, store: PostingsStore, w: Seq<char>)
    requires
        forall|v: Seq<char>| #[trigger] store.lookup(v) == Some(docs_with(titles, v)),
    ensures
        evaluate(Ast::Word(w), store) == Some(docs_with(titles, w)),
        forall|id: u32| #[trigger] docs_with(titles, w).contains(id) <==> (
            (id as int) < titles.len() && title_words(titles[id as int]).contains(w)),
{
}

/// In a store built from a set of titles, a word that no title holds looks
/// up the empty set, not an error.
pub proof fn law_unseen_word_is_empty(titles: Seq<Seq<char>>, store: PostingsStore, w: Seq<char>)
    requires
        forall|v: Seq<char>| #[trigger] store.lookup(v) == Some(docs_with(titles, v)),
        forall|i: int| 0 <= i < titles.len() ==> !(#[trigger] title_words(titles[i])).contains(w),
    ensures
        store.lookup(w) == Some(Set::<u32>::empty()),
        evaluate(Ast::Word(w), store) == Some(Set::<u32>::empty()),
{
    assert(docs_with(titles, w) =~= Set::<u32>::empty());
}

} // verus!
