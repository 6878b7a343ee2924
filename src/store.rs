//! The postings store: every posting list serialized into one byte blob,
//! with a table of words and byte offsets that locates one word's list by
//! binary search, without reading the others.

use crate::index::InvertedIndex;
use crate::postings::{bitmap_deserialize, bitmap_ids, bitmap_serialize, empty_bitmap, roaring_decode};
use crate::words::{chars_of, compare_chars, lemma_absent, lemma_lex_irreflexive, lemma_lex_transitive, lex_lt, locate, sorted_words};
use roaring::RoaringBitmap;
use std::cmp::Ordering;
use vstd::prelude::*;
use vstd::slice::slice_subrange;

verus! {

/// Reading or writing the postings store failed.
#[derive(Debug, Clone, Copy, PartialEq, Eq)]
pub enum StoreError {
    /// The offset table is not sorted, or its offsets run backwards or past the blob.
    MalformedOffsets,
    /// A word's bytes do not decode to a posting list.
    CorruptPostings,
}

/// For each word, in strictly increasing order, the byte offset at which its
/// posting list starts in the blob; a list ends where the next one starts,
/// the last one at `end`.
pub struct OffsetTable {
    pub words: Vec<String>,
    pub offsets: Vec<usize>,
    pub end: usize,
}

/// Whether words, offsets and an end make a well-formed table: as many
/// offsets as words, each word above the one before it, each offset at
/// least the one before it, and none past `end`.
pub open spec fn valid_table(words: Seq<String>, offsets: Seq<usize>, end: usize) -> bool {
    &&& words.len() == offsets.len()
    &&& forall|i: int| 0 < i < words.len() ==> lex_lt(#[trigger] words[i - 1]@, words[i]@)
    &&& forall|i: int| 0 < i < offsets.len() ==> #[trigger] offsets[i - 1] <= offsets[i]
    &&& offsets.len() > 0 ==> offsets.last() <= end
}

impl OffsetTable {
    pub open spec fn wf(&self) -> bool {
        &&& self.words.len() == self.offsets.len()
        &&& sorted_words(self.words@)
        &&& forall|i: int, j: int| 0 <= i <= j < self.offsets.len() ==> #[trigger] self.offsets@[i] <= #[trigger] self.offsets@[j]
        &&& forall|i: int| 0 <= i < self.offsets.len() ==> #[trigger] self.offsets@[i] <= self.end
    }

    /// Where the list at position `i` ends.
    pub open spec fn span_end(&self, i: int) -> int {
        if i + 1 < self.offsets.len() {
            self.offsets@[i + 1] as int
        } else {
            self.end as int
        }
    }

    pub open spec fn has_word(&self, w: Seq<char>) -> bool {
        exists|i: int| 0 <= i < self.words.len() && #[trigger] self.words@[i]@ == w
    }

    pub open spec fn position(&self, w: Seq<char>) -> int {
        choose|i: int| 0 <= i < self.words.len() && #[trigger] self.words@[i]@ == w
    }

    /// The offset and length of `w`'s list, or `None` for a word that the
    /// table lacks.
    pub open spec fn span(&self, w: Seq<char>) -> Option<(int, int)> {
        if self.has_word(w) {
            let p = self.position(w);
            Some((self.offsets@[p] as int, self.span_end(p) - self.offsets@[p]))
        } else {
            None
        }
    }

    pub proof fn lemma_span_at(&self, i: int)
        requires
            self.wf(),
            0 <= i < self.words.len(),
        ensures
            self.has_word(self.words@[i]@),
            self.position(self.words@[i]@) == i,
    {
        let w = self.words@[i]@;
        assert(self.words@[i]@ == w);
        let j = self.position(w);
        if j != i {
            lemma_lex_irreflexive(w);
        }
    }

    /// A table from its parts, or `MalformedOffsets` where they do not make
    /// a well-formed one.
    pub fn new(words: Vec<String>, offsets: Vec<usize>, end: usize) -> (r: Result<Self, StoreError>)
        ensures
            r is Ok <==> valid_table(words@, offsets@, end),
            r matches Ok(t) ==> t.wf() && t.words@ == words@ && t.offsets@ == offsets@ && t.end == end,
            r matches Err(e) ==> e == StoreError::MalformedOffsets,
    {
        if words.len() != offsets.len() {
            return Err(StoreError::MalformedOffsets);
        }
        let mut i: usize = 1;
        while i < words.len()
            invariant
                words.len() == offsets.len(),
                1 <= i,
                i <= words.len() || words.len() == 0,
                forall|k: int| 0 < k < i && k < words.len() ==> lex_lt(#[trigger] words@[k - 1]@, words@[k]@),
                forall|k: int| 0 < k < i && k < words.len() ==> #[trigger] offsets@[k - 1] <= offsets@[k],
            decreases words.len() - i,
        {
            let a = chars_of(words[i - 1].as_str());
            let b = chars_of(words[i].as_str());
            match compare_chars(&a, &b) {
                Ordering::Less => {},
                _ => {
                    return Err(StoreError::MalformedOffsets);
                },
            }
            if offsets[i - 1] > offsets[i] {
                return Err(StoreError::MalformedOffsets);
            }
            i = i + 1;
        }
        if offsets.len() > 0 && offsets[offsets.len() - 1] > end {
            return Err(StoreError::MalformedOffsets);
        }
        let t = OffsetTable { words, offsets, end };
        proof {
            assert forall|i: int, j: int| 0 <= i < j < t.words.len() implies lex_lt(#[trigger] t.words@[i]@, #[trigger] t.words@[j]@) by {
                lemma_chain_words(t.words@, i, j);
            }
            assert forall|i: int, j: int| 0 <= i <= j < t.offsets.len() implies #[trigger] t.offsets@[i] <= #[trigger] t.offsets@[j] by {
                lemma_chain_offsets(t.offsets@, i, j);
            }
            assert forall|i: int| 0 <= i < t.offsets.len() implies #[trigger] t.offsets@[i] <= t.end by {
                lemma_chain_offsets(t.offsets@, i, t.offsets.len() - 1);
            }
        }
        Ok(t)
    }
}

proof fn lemma_chain_words(words: Seq<String>, i: int, j: int)
    requires
        0 <= i < j < words.len(),
        forall|k: int| 0 < k < words.len() ==> lex_lt(#[trigger] words[k - 1]@, words[k]@),
    ensures
        lex_lt(words[i]@, words[j]@),
    decreases j - i,
{
    if i + 1 < j {
        lemma_chain_words(words, i, j - 1);
        assert(lex_lt(words[j - 1]@, words[j]@));
        lemma_lex_transitive(words[i]@, words[j - 1]@, words[j]@);
    } else {
        assert(lex_lt(words[j - 1]@, words[j]@));
    }
}

proof fn lemma_chain_offsets(offsets: Seq<usize>, i: int, j: int)
    requires
        0 <= i <= j < offsets.len(),
        forall|k: int| 0 < k < offsets.len() ==> #[trigger] offsets[k - 1] <= offsets[k],
    ensures
        offsets[i] <= offsets[j],
    decreases j - i,
{
    if i < j {
        lemma_chain_offsets(offsets, i, j - 1);
        assert(offsets[j - 1] <= offsets[j]);
    }
}

/// The offset and length of `query`'s posting list in the blob, or `None`
/// where the table lacks the word. Finds the first word at or above `query`
/// by binary search; the list runs to the next word's offset, or to the end
/// of the blob for the last word.
pub fn find_offset_and_length(offsets: &OffsetTable, query: &str) -> (r: Option<(usize, usize)>)
    requires
        offsets.wf(),
    ensures
        match r {
            Some((o, l)) => offsets.span(query@) == Some((o as int, l as int)),
            None => offsets.span(query@) is None,
        },
{
    let key = chars_of(query);
    let lo = locate(&offsets.words, &key);
    if lo < offsets.words.len() {
        match compare_chars(&chars_of(offsets.words[lo].as_str()), &key) {
            Ordering::Equal => {
                let start = offsets.offsets[lo];
                let next = if lo + 1 < offsets.offsets.len() {
                    offsets.offsets[lo + 1]
                } else {
                    offsets.end
                };
                proof {
                    offsets.lemma_span_at(lo as int);
                }
                return Some((start, next - start));
            },
            _ => {},
        }
    }
    proof {
        lemma_absent(offsets.words@, key@, lo as int);
    }
    None
}

/// The serialized posting lists and the table that locates them.
pub struct PostingsStore {
    pub blob: Vec<u8>,
    pub table: OffsetTable,
}

impl PostingsStore {
    pub open spec fn wf(&self) -> bool {
        self.table.wf() && self.table.end == self.blob.len()
    }

    /// What looking up `w` gives: the decoded list of a word that the table
    /// holds (`None` where its bytes do not decode), the empty set for any
    /// other word.
    pub open spec fn lookup(&self, w: Seq<char>) -> Option<Set<u32>> {
        match self.table.span(w) {
            Some((o, l)) => roaring_decode(self.blob@.subrange(o, o + l)),
            None => Some(Set::empty()),
        }
    }

    /// A store from a blob and its table, or `MalformedOffsets` where the
    /// table's end is not the blob's length.
    pub fn new(blob: Vec<u8>, table: OffsetTable) -> (r: Result<Self, StoreError>)
        requires
            table.wf(),
        ensures
            r is Ok <==> table.end == blob.len(),
            r matches Ok(s) ==> s.wf() && s.blob@ == blob@ && s.table == table,
            r matches Err(e) ==> e == StoreError::MalformedOffsets,
    {
        if table.end != blob.len() {
            Err(StoreError::MalformedOffsets)
        } else {
            Ok(PostingsStore { blob, table })
        }
    }
}

/// Serializes each posting list of the index, in word order, into one
/// blob, with the table that locates each list. Looking a word up in the
/// result gives back exactly its posting list in the index.
pub fn write_postings(index: &InvertedIndex) -> (store: PostingsStore)
    requires
        index.wf(),
    ensures
        store.wf(),
        store.table.words@ == index.words@,
        forall|w: Seq<char>| #[trigger] store.lookup(w) == Some(index.postings(w)),
{
    let mut blob: Vec<u8> = Vec::new();
    let mut words: Vec<String> = Vec::new();
    let mut offsets: Vec<usize> = Vec::new();
    let mut i: usize = 0;
    while i < index.words.len()
        invariant
            index.wf(),
            i <= index.words.len(),
            words@ == index.words@.take(i as int),
            offsets.len() == i,
            forall|a: int, b: int| 0 <= a <= b < i ==> #[trigger] offsets@[a] <= #[trigger] offsets@[b],
            forall|a: int| 0 <= a < i ==> #[trigger] offsets@[a] <= blob.len(),
            forall|a: int| 0 <= a < i ==> roaring_decode(blob@.subrange(
                offsets@[a] as int,
                if a + 1 < i { offsets@[a + 1] as int } else { blob.len() as int },
            )) == Some(bitmap_ids(#[trigger] index.lists@[a])),
        decreases index.words.len() - i,
    {
        let mut bytes = bitmap_serialize(&index.lists[i]);
        let ghost pre_blob = blob@;
        let ghost pre_offsets = offsets@;
        let ghost new_bytes = bytes@;
        offsets.push(blob.len());
        blob.append(&mut bytes);
        words.push(index.words[i].clone());
        proof {
            assert(blob@ == pre_blob + new_bytes);
            assert forall|a: int| 0 <= a < i + 1 implies roaring_decode(blob@.subrange(
                offsets@[a] as int,
                if a + 1 < i + 1 { offsets@[a + 1] as int } else { blob.len() as int },
            )) == Some(bitmap_ids(#[trigger] index.lists@[a])) by {
                if a < i {
                    assert(offsets@[a] == pre_offsets[a]);
                    let hi = if a + 1 < i { pre_offsets[a + 1] as int } else { pre_blob.len() as int };
                    assert(blob@.subrange(offsets@[a] as int, if a + 1 < i + 1 { offsets@[a + 1] as int } else { blob.len() as int })
                        =~= pre_blob.subrange(pre_offsets[a] as int, hi));
                } else {
                    assert(blob@.subrange(offsets@[a] as int, blob.len() as int) =~= new_bytes);
                }
            }
            assert(words@ =~= index.words@.take(i + 1));
        }
        i = i + 1;
    }
    let end = blob.len();
    let table = OffsetTable { words, offsets, end };
    proof {
        assert(words@ =~= index.words@);
        assert forall|w: Seq<char>| #[trigger] table.has_word(w) == index.has_word(w) by {
            if table.has_word(w) {
                let p = table.position(w);
                assert(index.words@[p]@ == w);
            }
            if index.has_word(w) {
                let p = index.position(w);
                assert(table.words@[p]@ == w);
            }
        }
    }
    let store = PostingsStore { blob, table };
    proof {
        assert forall|w: Seq<char>| #[trigger] store.lookup(w) == Some(index.postings(w)) by {
            if table.has_word(w) {
                let p = table.position(w);
                table.lemma_span_at(p);
                index.lemma_postings_at(p);
                assert(index.words@[p]@ == w);
            }
        }
    }
    store
}

/// The posting list of `word`: decoded from its bytes where the table holds
/// the word, empty where it does not. Bytes that do not decode are an error.
pub fn find_postings_list(word: &str, store: &PostingsStore) -> (r: Result<RoaringBitmap, StoreError>)
    requires
        store.wf(),
    ensures
        match r {
            Ok(b) => store.lookup(word@) == Some(bitmap_ids(b)),
            Err(e) => store.lookup(word@) is None && e == StoreError::CorruptPostings,
        },
{
    match find_offset_and_length(&store.table, word) {
        Some((offset, length)) => {
            proof {
                let p = store.table.position(word@);
                assert(store.table.offsets@[p] <= store.table.span_end(p) <= store.blob.len()) by {
                    if p + 1 < store.table.offsets.len() {
                        assert(store.table.offsets@[p] <= store.table.offsets@[p + 1]);
                    }
                }
            }
            let bytes = slice_subrange(store.blob.as_slice(), offset, offset + length);
            match bitmap_deserialize(bytes) {
                Some(b) => Ok(b),
                None => Err(StoreError::CorruptPostings),
            }
        },
        None => Ok(empty_bitmap()),
    }
}


/// The first position among `words` that holds `w`, if any.
pub open spec fn first_match(words: Seq<String>, w: Seq<char>) -> Option<int>
    decreases words.len(),
{
    if words.len() == 0 {
        None
    } else {
        match first_match(words.drop_last(), w) {
            Some(i) => Some(i),
            None => if words.last()@ == w {
                Some(words.len() - 1)
            } else {
                None
            },
        }
    }
}

/// The posting list of `word` among rows read from a column store, each a
/// word with its serialized posting list: decoded from the first row that
/// holds the word, empty where none does.
pub fn postings_from_rows(words: &Vec<String>, lists: &Vec<Vec<u8>>, word: &str) -> (r: Result<RoaringBitmap, StoreError>)
    requires
        words.len() == lists.len(),
    ensures
        match first_match(words@, word@) {
            Some(i) => match r {
                Ok(b) => roaring_decode(lists@[i]@) == Some(bitmap_ids(b)),
                Err(e) => roaring_decode(lists@[i]@) is None && e == StoreError::CorruptPostings,
            },
            None => r matches Ok(b) && bitmap_ids(b) == Set::<u32>::empty(),
        },
{
    match first_row_of(words, word) {
        Some(k) => match bitmap_deserialize(lists[k].as_slice()) {
            Some(b) => Ok(b),
            None => Err(StoreError::CorruptPostings),
        },
        None => Ok(empty_bitmap()),
    }
}

/// The first position among `words` that holds `word`, if any.
pub fn first_row_of(words: &Vec<String>, word: &str) -> (r: Option<usize>)
    ensures
        match r {
            Some(k) => k < words.len() && first_match(words@, word@) == Some(k as int),
            None => first_match(words@, word@) is None,
        },
{
    let key = chars_of(word);
    let mut k: usize = 0;
    while k < words.len()
        invariant
            key@ == word@,
            k <= words.len(),
            first_match(words@.take(k as int), word@) is None,
        decreases words.len() - k,
    {
        proof {
            assert(words@.take(k + 1).drop_last() =~= words@.take(k as int));
        }
        let found = match compare_chars(&chars_of(words[k].as_str()), &key) {
            Ordering::Equal => true,
            _ => false,
        };
        if found {
            proof {
                assert(words@.take(k + 1).last() == words@[k as int]);
                lemma_first_match_prefix(words@, word@, k + 1);
            }
            return Some(k);
        }
        proof {
            assert(words@.take(k + 1).last() == words@[k as int]);
        }
        k = k + 1;
    }
    proof {
        assert(words@.take(k as int) =~= words@);
    }
    None
}

proof fn lemma_first_match_prefix(words: Seq<String>, w: Seq<char>, n: int)
    requires
        0 <= n <= words.len(),
        first_match(words.take(n), w) is Some,
    ensures
        first_match(words, w) == first_match(words.take(n), w),
    decreases words.len(),
{
    if n < words.len() {
        assert(words.take(n) =~= words.drop_last().take(n));
        lemma_first_match_prefix(words.drop_last(), w, n);
    } else {
        assert(words.take(n) =~= words);
    }
}


proof fn lemma_first_match(words: Seq<String>, w: Seq<char>)
    ensures
        first_match(words, w) matches Some(i) ==> 0 <= i < words.len() && words[i]@ == w,
        first_match(words, w) is None ==> forall|j: int| 0 <= j < words.len() ==> (#[trigger] words[j])@ != w,
    decreases words.len(),
{
    if words.len() > 0 {
        lemma_first_match(words.drop_last(), w);
        if first_match(words, w) is None {
            assert forall|j: int| 0 <= j < words.len() implies (#[trigger] words[j])@ != w by {
                if j < words.len() - 1 {
                    assert(words.drop_last()[j] == words[j]);
                }
            }
        }
    }
}

/// Whether a row read from a column store, a word and some bytes, is a row
/// of the postings table of `store`: a word of the table with the bytes of
/// its list.
pub open spec fn is_table_row(store: PostingsStore, word: String, list: Seq<u8>) -> bool {
    exists|p: int| 0 <= p < store.table.words.len() && (#[trigger] store.table.words@[p])@ == word@
        && list == store.blob@.subrange(store.table.offsets@[p] as int, store.table.span_end(p))
}

/// Looking a word up among rows read from a column store of the postings
/// table, where the rows read include the word's row if the table has the
/// word, gives what looking it up in the store gives.
pub proof fn law_rows_lookup_matches_store(store: PostingsStore, words: Seq<String>, lists: Seq<Vec<u8>>, w: Seq<char>)
    requires
        store.wf(),
        words.len() == lists.len(),
        forall|j: int| 0 <= j < words.len() ==> is_table_row(store, #[trigger] words[j], lists[j]@),
        store.table.has_word(w) ==> exists|j: int| 0 <= j < words.len() && (#[trigger] words[j])@ == w,
    ensures
        match first_match(words, w) {
            Some(i) => store.lookup(w) == roaring_decode(lists[i]@),
            None => store.lookup(w) == Some(Set::<u32>::empty()),
        },
{
    lemma_first_match(words, w);
    match first_match(words, w) {
        Some(i) => {
            assert(is_table_row(store, words[i], lists[i]@));
            let p = choose|p: int| 0 <= p < store.table.words.len() && (#[trigger] store.table.words@[p])@ == words[i]@
                && lists[i]@ == store.blob@.subrange(store.table.offsets@[p] as int, store.table.span_end(p));
            store.table.lemma_span_at(p);
        },
        None => {
            if store.table.has_word(w) {
                let j = choose|j: int| 0 <= j < words.len() && (#[trigger] words[j])@ == w;
            }
        },
    }
}

} // verus!
