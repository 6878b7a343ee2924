//! Words as character sequences, and their lexicographic order.

use std::cmp::Ordering;
use vstd::prelude::*;
use vstd::std_specs::iter::IteratorSpec;

verus! {

/// Lexicographic order on character sequences, by code point: the order of
/// Rust's `str` comparison.
pub open spec fn lex_lt(a: Seq<char>, b: Seq<char>) -> bool
    decreases a.len(),
{
    if b.len() == 0 {
        false
    } else if a.len() == 0 {
        true
    } else if a[0] != b[0] {
        a[0] < b[0]
    } else {
        lex_lt(a.drop_first(), b.drop_first())
    }
}

pub proof fn lemma_lex_irreflexive(a: Seq<char>)
    ensures
        !lex_lt(a, a),
    decreases a.len(),
{
    if a.len() > 0 {
        lemma_lex_irreflexive(a.drop_first());
    }
}

pub proof fn lemma_lex_total(a: Seq<char>, b: Seq<char>)
    ensures
        a == b || lex_lt(a, b) || lex_lt(b, a),
        !(lex_lt(a, b) && lex_lt(b, a)),
    decreases a.len(),
{
    if a.len() > 0 && b.len() > 0 {
        if a[0] == b[0] {
            lemma_lex_total(a.drop_first(), b.drop_first());
            if a.drop_first() == b.drop_first() {
                assert(a =~= seq![a[0]] + a.drop_first());
                assert(b =~= seq![b[0]] + b.drop_first());
            }
        }
    } else if a.len() == 0 && b.len() == 0 {
        assert(a =~= b);
    }
}

pub proof fn lemma_lex_transitive(a: Seq<char>, b: Seq<char>, c: Seq<char>)
    requires
        lex_lt(a, b),
        lex_lt(b, c),
    ensures
        lex_lt(a, c),
    decreases a.len(),
{
    if a.len() > 0 && b.len() > 0 && c.len() > 0 {
        if a[0] == b[0] && b[0] == c[0] {
            lemma_lex_transitive(a.drop_first(), b.drop_first(), c.drop_first());
        }
    }
}

/// Words in strictly increasing lexicographic order.
pub open spec fn sorted_words(words: Seq<String>) -> bool {
    forall|i: int, j: int| 0 <= i < j < words.len() ==> lex_lt(#[trigger] words[i]@, #[trigger] words[j]@)
}

/// Where `locate` finds a word other than `key`, `key` is absent and
/// every word from there on is above it.
pub proof fn lemma_absent(words: Seq<String>, key: Seq<char>, lo: int)
    requires
        sorted_words(words),
        0 <= lo <= words.len(),
        forall|i: int| 0 <= i < lo ==> lex_lt(#[trigger] words[i]@, key),
        forall|i: int| lo <= i < words.len() ==> !lex_lt(#[trigger] words[i]@, key),
        lo < words.len() ==> words[lo]@ != key,
    ensures
        forall|i: int| 0 <= i < words.len() ==> #[trigger] words[i]@ != key,
        forall|i: int| lo <= i < words.len() ==> lex_lt(key, #[trigger] words[i]@),
{
    assert forall|i: int| lo <= i < words.len() implies lex_lt(key, #[trigger] words[i]@) by {
        lemma_lex_total(key, words[lo]@);
        if lo < i {
            lemma_lex_transitive(key, words[lo]@, words[i]@);
        }
    }
    assert forall|i: int| 0 <= i < words.len() implies #[trigger] words[i]@ != key by {
        lemma_lex_irreflexive(key);
    }
}

/// The first position whose word is not below `key`.
pub fn locate(words: &Vec<String>, key: &Vec<char>) -> (lo: usize)
    requires
        sorted_words(words@),
    ensures
        lo <= words.len(),
        forall|i: int| 0 <= i < lo ==> lex_lt(#[trigger] words@[i]@, key@),
        forall|i: int| lo <= i < words.len() ==> !lex_lt(#[trigger] words@[i]@, key@),
{
    let mut lo: usize = 0;
    let mut hi: usize = words.len();
    while lo < hi
        invariant
            sorted_words(words@),
            lo <= hi <= words.len(),
            forall|i: int| 0 <= i < lo ==> lex_lt(#[trigger] words@[i]@, key@),
            forall|i: int| hi <= i < words.len() ==> !lex_lt(#[trigger] words@[i]@, key@),
        decreases hi - lo,
    {
        let mid = lo + (hi - lo) / 2;
        let w = chars_of(words[mid].as_str());
        match compare_chars(&w, key) {
            Ordering::Less => {
                assert forall|i: int| 0 <= i <= mid implies lex_lt(#[trigger] words@[i]@, key@) by {
                    if i < mid {
                        lemma_lex_transitive(words@[i]@, words@[mid as int]@, key@);
                    }
                }
                lo = mid + 1;
            },
            _ => {
                assert forall|i: int| mid <= i < words.len() implies !lex_lt(#[trigger] words@[i]@, key@) by {
                    if mid < i && lex_lt(words@[i]@, key@) {
                        lemma_lex_transitive(words@[mid as int]@, words@[i]@, key@);
                    }
                }
                hi = mid;
            },
        }
    }
    lo
}

/// Compares two character sequences lexicographically.
pub fn compare_chars(a: &Vec<char>, b: &Vec<char>) -> (r: Ordering)
    ensures
        (r == Ordering::Less) == lex_lt(a@, b@),
        (r == Ordering::Equal) == (a@ == b@),
        (r == Ordering::Greater) == lex_lt(b@, a@),
{
    proof {
        lemma_lex_total(a@, b@);
        assert(a@.skip(0) =~= a@);
        assert(b@.skip(0) =~= b@);
    }
    let mut i: usize = 0;
    while i < a.len() && i < b.len() && a[i] == b[i]
        invariant
            i <= a.len(),
            i <= b.len(),
            a@.subrange(0, i as int) == b@.subrange(0, i as int),
            lex_lt(a@, b@) == lex_lt(a@.skip(i as int), b@.skip(i as int)),
            lex_lt(b@, a@) == lex_lt(b@.skip(i as int), a@.skip(i as int)),
        decreases a.len() - i,
    {
        proof {
            assert(a@.skip(i as int).drop_first() =~= a@.skip(i + 1));
            assert(b@.skip(i as int).drop_first() =~= b@.skip(i + 1));
            assert(a@.subrange(0, i + 1) =~= a@.subrange(0, i as int).push(a[i as int]));
            assert(b@.subrange(0, i + 1) =~= b@.subrange(0, i as int).push(b[i as int]));
        }
        i = i + 1;
    }
    if i < a.len() && i < b.len() {
        if a[i] < b[i] {
            Ordering::Less
        } else {
            Ordering::Greater
        }
    } else if i < b.len() {
        assert(a@ =~= a@.subrange(0, i as int));
        Ordering::Less
    } else if i < a.len() {
        assert(b@ =~= b@.subrange(0, i as int));
        Ordering::Greater
    } else {
        assert(a@ =~= a@.subrange(0, i as int));
        assert(b@ =~= b@.subrange(0, i as int));
        Ordering::Equal
    }
}

/// The characters of `text`, in order.
pub fn chars_of(text: &str) -> (r: Vec<char>)
    ensures
        r@ == text@,
{
    let mut v: Vec<char> = Vec::new();
    let mut it = text.chars();
    proof {
        assert(it.remaining() == text@);
    }
    loop
        invariant
            v@ + it.remaining() == text@,
            it.decrease() is Some,
        decreases it.decrease()->0,
    {
        let ghost before = it.remaining();
        match it.next() {
            Some(c) => {
                proof {
                    assert(v@.push(c) + before.drop_first() =~= v@ + before);
                }
                v.push(c);
            },
            None => {
                proof {
                    assert(v@ + before =~= v@);
                }
                return v;
            },
        }
    }
}

} // verus!
