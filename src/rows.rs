//! The stored fields: one row per document, addressed by surrogate id.
//! Retrieval projects a result set back onto the rows; aggregation sums a
//! score per date over the rows of a result set.

use crate::index::{max_documents, BuildError, Record};
use crate::postings::{bitmap_contains, bitmap_ids};
use crate::words::{chars_of, compare_chars, lemma_absent, lemma_lex_transitive, lex_lt, locate, sorted_words};
use std::cmp::Ordering;
use roaring::RoaringBitmap;
use vstd::prelude::*;

verus! {

/// The stored fields of one document.
#[derive(Debug)]
pub struct StoredRow {
    pub id: u32,
    pub doc_id: u64,
    pub title: String,
    pub date: Option<String>,
    pub score: Option<u64>,
    pub descendants: Option<i64>,
}

/// A matching document, as retrieval reports it.
#[derive(Debug, PartialEq, Eq)]
pub struct Document {
    pub roaring_id: u32,
    pub doc_id: u64,
    pub title: String,
}

/// The stored row of the record at position `i`, dated `date`.
pub open spec fn row_of(record: Record, i: int, date: Option<String>) -> StoredRow {
    StoredRow {
        id: i as u32,
        doc_id: record.id,
        title: record.title,
        date,
        score: record.score,
        descendants: record.descendants,
    }
}

/// The stored-fields table of the records, one row per record in order:
/// the record at position `i` gets surrogate id `i`, with its display date
/// `dates[i]`.
pub fn stored_rows(records: &Vec<Record>, dates: &Vec<Option<String>>) -> (r: Result<Vec<StoredRow>, BuildError>)
    requires
        dates.len() == records.len(),
    ensures
        r is Err <==> records.len() > max_documents(),
        r matches Err(e) ==> e == BuildError::TooManyDocuments,
        r matches Ok(rows) ==> rows.len() == records.len() && forall|i: int|
            0 <= i < rows.len() ==> #[trigger] rows@[i] == row_of(records@[i], i, dates@[i]),
{
    if records.len() > 0 && records.len() - 1 > u32::MAX as usize {
        return Err(BuildError::TooManyDocuments);
    }
    let mut rows: Vec<StoredRow> = Vec::new();
    let mut i: usize = 0;
    while i < records.len()
        invariant
            records.len() <= max_documents(),
            dates.len() == records.len(),
            i <= records.len(),
            rows.len() == i,
            forall|j: int| 0 <= j < i ==> #[trigger] rows@[j] == row_of(records@[j], j, dates@[j]),
        decreases records.len() - i,
    {
        let date = clone_date(&dates[i]);
        let record = &records[i];
        rows.push(StoredRow {
            id: i as u32,
            doc_id: record.id,
            title: record.title.clone(),
            date,
            score: record.score,
            descendants: record.descendants,
        });
        i = i + 1;
    }
    Ok(rows)
}

/// The rows whose surrogate id is in `ids`, in storage order.
pub open spec fn matching_rows(rows: Seq<StoredRow>, ids: Set<u32>) -> Seq<StoredRow>
    decreases rows.len(),
{
    if rows.len() == 0 {
        Seq::empty()
    } else {
        let prev = matching_rows(rows.drop_last(), ids);
        if ids.contains(rows.last().id) {
            prev.push(rows.last())
        } else {
            prev
        }
    }
}

pub open spec fn document_of(row: StoredRow) -> Document {
    Document { roaring_id: row.id, doc_id: row.doc_id, title: row.title }
}

/// The documents of the rows whose surrogate id is in `filter`, in storage
/// order.
pub fn retrieve_stored_fields(rows: &Vec<StoredRow>, filter: &RoaringBitmap) -> (r: Vec<Document>)
    ensures
        r@ == matching_rows(rows@, bitmap_ids(*filter)).map_values(|row: StoredRow| document_of(row)),
{
    let ghost ids = bitmap_ids(*filter);
    let mut documents: Vec<Document> = Vec::new();
    let mut i: usize = 0;
    while i < rows.len()
        invariant
            ids == bitmap_ids(*filter),
            i <= rows.len(),
            documents@ == matching_rows(rows@.take(i as int), ids).map_values(|row: StoredRow| document_of(row)),
        decreases rows.len() - i,
    {
        let row = &rows[i];
        proof {
            assert(rows@.take(i + 1).drop_last() =~= rows@.take(i as int));
            assert(rows@.take(i + 1).last() == rows@[i as int]);
        }
        if bitmap_contains(filter, row.id) {
            documents.push(Document { roaring_id: row.id, doc_id: row.doc_id, title: row.title.clone() });
            proof {
                assert(documents@ =~= matching_rows(rows@.take(i + 1), ids).map_values(|row: StoredRow| document_of(row)));
            }
        }
        i = i + 1;
    }
    proof {
        assert(rows@.take(i as int) =~= rows@);
    }
    documents
}

/// The date of a row, as a group key.
pub open spec fn date_key(row: StoredRow) -> Option<Seq<char>> {
    match row.date {
        Some(d) => Some(d@),
        None => None,
    }
}

/// The score of a row, an absent score counting as zero.
pub open spec fn score_of(row: StoredRow) -> int {
    match row.score {
        Some(s) => s as int,
        None => 0,
    }
}

/// The distinct dates of the rows, in the order in which each first occurs.
pub open spec fn group_keys(m: Seq<StoredRow>) -> Seq<Option<Seq<char>>>
    decreases m.len(),
{
    if m.len() == 0 {
        Seq::empty()
    } else {
        let prev = group_keys(m.drop_last());
        if prev.contains(date_key(m.last())) {
            prev
        } else {
            prev.push(date_key(m.last()))
        }
    }
}

/// The sum of the scores of the rows dated `key`.
pub open spec fn group_sum(m: Seq<StoredRow>, key: Option<Seq<char>>) -> int
    decreases m.len(),
{
    if m.len() == 0 {
        0
    } else {
        group_sum(m.drop_last(), key) + if date_key(m.last()) == key {
            score_of(m.last())
        } else {
            0
        }
    }
}

/// The number of rows dated `key`.
pub open spec fn group_count(m: Seq<StoredRow>, key: Option<Seq<char>>) -> int
    decreases m.len(),
{
    if m.len() == 0 {
        0
    } else {
        group_count(m.drop_last(), key) + if date_key(m.last()) == key {
            1int
        } else {
            0
        }
    }
}

/// Per date, in the order in which each date first occurs: the date, the
/// sum of the scores and the number of documents.
pub struct ScoresGroupedByDate {
    pub date: Vec<Option<String>>,
    pub score: Vec<u64>,
    pub count: Vec<u64>,
}

/// Aggregation failed.
#[derive(Debug, Clone, Copy, PartialEq, Eq)]
pub enum AggregateError {
    /// A date's sum of scores does not fit in 64 bits.
    ScoreOverflow,
}

/// The date of an optional string, as a group key.
pub open spec fn key_of(d: Option<String>) -> Option<Seq<char>> {
    match d {
        Some(s) => Some(s@),
        None => None,
    }
}

pub open spec fn grouped(g: ScoresGroupedByDate, m: Seq<StoredRow>) -> bool {
    &&& g.date@.map_values(|d: Option<String>| key_of(d)) == group_keys(m)
    &&& g.score.len() == g.date.len()
    &&& g.count.len() == g.date.len()
    &&& forall|k: int| 0 <= k < g.date.len() ==> #[trigger] g.score@[k] == group_sum(m, group_keys(m)[k])
    &&& forall|k: int| 0 <= k < g.date.len() ==> #[trigger] g.count@[k] == group_count(m, group_keys(m)[k])
}

/// Whether the sum of scores of some date exceeds what 64 bits hold.
pub open spec fn some_sum_overflows(m: Seq<StoredRow>) -> bool {
    exists|k: int| 0 <= k < group_keys(m).len() && group_sum(m, #[trigger] group_keys(m)[k]) > u64::MAX
}

fn clone_date(d: &Option<String>) -> (r: Option<String>)
    ensures
        r == *d,
{
    match d {
        Some(s) => Some(s.clone()),
        None => None,
    }
}

/// An index over the group dates: the dates present, in increasing order,
/// each with the position of its group, and the position of the group of
/// rows without a date.
struct DateIndex {
    keys: Vec<String>,
    slots: Vec<usize>,
    undated: Option<usize>,
}

impl DateIndex {
    spec fn wf(&self, dates: Seq<Option<String>>) -> bool {
        &&& self.keys.len() == self.slots.len()
        &&& sorted_words(self.keys@)
        &&& forall|p: int| 0 <= p < self.keys.len() ==> (#[trigger] self.slots@[p]) < dates.len()
            && key_of(dates[self.slots@[p] as int]) == Some(self.keys@[p]@)
        &&& forall|k: int| 0 <= k < dates.len() && (#[trigger] dates[k]) is Some ==>
            exists|p: int| 0 <= p < self.keys.len() && Some(#[trigger] self.keys@[p]@) == key_of(dates[k])
        &&& match self.undated {
            Some(k) => k < dates.len() && dates[k as int] is None,
            None => forall|k: int| 0 <= k < dates.len() ==> (#[trigger] dates[k]) is Some,
        }
    }

    fn new() -> (r: Self)
        ensures
            r.wf(Seq::empty()),
    {
        DateIndex { keys: Vec::new(), slots: Vec::new(), undated: None }
    }

    /// Where the date `d` stands among the group dates, if it does.
    fn find(&self, dates: &Vec<Option<String>>, d: &Option<String>) -> (r: Option<usize>)
        requires
            self.wf(dates@),
        ensures
            match r {
                Some(k) => k < dates.len() && key_of(dates@[k as int]) == key_of(*d),
                None => !dates@.map_values(|x: Option<String>| key_of(x)).contains(key_of(*d)),
            },
    {
        match d {
            Some(s) => {
                let key = chars_of(s.as_str());
                let lo = locate(&self.keys, &key);
                if lo < self.keys.len() {
                    match compare_chars(&chars_of(self.keys[lo].as_str()), &key) {
                        Ordering::Equal => {
                            return Some(self.slots[lo]);
                        },
                        _ => {},
                    }
                }
                proof {
                    lemma_absent(self.keys@, key@, lo as int);
                    let all = dates@.map_values(|x: Option<String>| key_of(x));
                    if all.contains(key_of(*d)) {
                        let j = choose|j: int| 0 <= j < all.len() && all[j] == key_of(*d);
                        assert(dates@[j] is Some);
                        let p = choose|p: int| 0 <= p < self.keys.len() && Some(#[trigger] self.keys@[p]@) == key_of(dates@[j]);
                        assert(self.keys@[p]@ == key@);
                    }
                }
                None
            },
            None => {
                proof {
                    let all = dates@.map_values(|x: Option<String>| key_of(x));
                    if all.contains(key_of(*d)) {
                        let j = choose|j: int| 0 <= j < all.len() && all[j] == key_of(*d);
                        assert(dates@[j] is None);
                    }
                }
                self.undated
            },
        }
    }

    /// Records the group just added at position `k`, whose date no earlier
    /// group has.
    fn record(&mut self, dates: &Vec<Option<String>>, k: usize)
        requires
            k + 1 == dates.len(),
            old(self).wf(dates@.take(k as int)),
            !dates@.take(k as int).map_values(|x: Option<String>| key_of(x)).contains(key_of(dates@[k as int])),
        ensures
            final(self).wf(dates@),
    {
        let ghost pre = *self;
        let ghost before = dates@.take(k as int);
        let ghost all = before.map_values(|x: Option<String>| key_of(x));
        assert forall|j: int| 0 <= j < k implies #[trigger] dates@[j] == before[j] by {}
        match &dates[k] {
            Some(s) => {
                let key = chars_of(s.as_str());
                let lo = locate(&self.keys, &key);
                proof {
                    if lo < self.keys.len() && self.keys@[lo as int]@ == key@ {
                        let j = self.slots@[lo as int] as int;
                        assert(all[j] == key_of(before[j]));
                        assert(all.contains(key_of(dates@[k as int])));
                    }
                    lemma_absent(self.keys@, key@, lo as int);
                }
                self.keys.insert(lo, s.clone());
                self.slots.insert(lo, k);
                proof {
                    assert(self.keys@[lo as int]@ == key@);
                    assert forall|a: int, b: int| 0 <= a < b < self.keys.len() implies lex_lt(
                        #[trigger] self.keys@[a]@,
                        #[trigger] self.keys@[b]@,
                    ) by {
                        if b < lo {
                            assert(self.keys@[a] == pre.keys@[a] && self.keys@[b] == pre.keys@[b]);
                        } else if b == lo {
                            assert(self.keys@[a] == pre.keys@[a]);
                        } else if a < lo {
                            assert(self.keys@[a] == pre.keys@[a] && self.keys@[b] == pre.keys@[b - 1]);
                            lemma_lex_transitive(self.keys@[a]@, key@, self.keys@[b]@);
                        } else if a == lo {
                            assert(self.keys@[b] == pre.keys@[b - 1]);
                        } else {
                            assert(self.keys@[a] == pre.keys@[a - 1] && self.keys@[b] == pre.keys@[b - 1]);
                        }
                    }
                    assert forall|p: int| 0 <= p < self.keys.len() implies (#[trigger] self.slots@[p]) < dates.len()
                        && key_of(dates@[self.slots@[p] as int]) == Some(self.keys@[p]@) by {
                        if p < lo {
                            assert(self.slots@[p] == pre.slots@[p] && self.keys@[p] == pre.keys@[p]);
                        } else if p > lo {
                            assert(self.slots@[p] == pre.slots@[p - 1] && self.keys@[p] == pre.keys@[p - 1]);
                        }
                    }
                    assert forall|j: int| 0 <= j < dates.len() && (#[trigger] dates@[j]) is Some implies
                        exists|p: int| 0 <= p < self.keys.len() && Some(#[trigger] self.keys@[p]@) == key_of(dates@[j]) by {
                        if j < k {
                            assert(before[j] is Some);
                            let p = choose|p: int| 0 <= p < pre.keys.len() && Some(#[trigger] pre.keys@[p]@) == key_of(before[j]);
                            if p < lo {
                                assert(self.keys@[p] == pre.keys@[p]);
                            } else {
                                assert(self.keys@[p + 1] == pre.keys@[p]);
                            }
                        } else {
                            assert(Some(self.keys@[lo as int]@) == key_of(dates@[j]));
                        }
                    }
                }
            },
            None => {
                proof {
                    if let Some(u) = self.undated {
                        assert(all[u as int] == key_of(before[u as int]));
                        assert(all.contains(key_of(dates@[k as int])));
                    }
                }
                self.undated = Some(k);
                proof {
                    assert forall|j: int| 0 <= j < dates.len() && (#[trigger] dates@[j]) is Some implies
                        exists|p: int| 0 <= p < self.keys.len() && Some(#[trigger] self.keys@[p]@) == key_of(dates@[j]) by {
                        assert(before[j] is Some);
                    }
                }
            },
        }
    }
}

proof fn lemma_matching_prefix(rows: Seq<StoredRow>, ids: Set<u32>, i: int)
    requires
        0 <= i <= rows.len(),
    ensures
        matching_rows(rows.take(i), ids).len() <= matching_rows(rows, ids).len(),
        matching_rows(rows.take(i), ids) == matching_rows(rows, ids).take(matching_rows(rows.take(i), ids).len() as int),
    decreases rows.len(),
{
    let m = matching_rows(rows, ids);
    if i == rows.len() {
        assert(rows.take(i) =~= rows);
        assert(m.take(m.len() as int) =~= m);
    } else {
        assert(rows.take(i) =~= rows.drop_last().take(i));
        lemma_matching_prefix(rows.drop_last(), ids, i);
        let p = matching_rows(rows.drop_last(), ids);
        let q = matching_rows(rows.take(i), ids);
        assert(q =~= m.take(q.len() as int));
    }
}

proof fn lemma_group_prefix(m: Seq<StoredRow>, j: int, key: Option<Seq<char>>)
    requires
        0 <= j <= m.len(),
    ensures
        group_sum(m.take(j), key) <= group_sum(m, key),
        group_keys(m.take(j)).contains(key) ==> group_keys(m).contains(key),
    decreases m.len(),
{
    if j == m.len() {
        assert(m.take(j) =~= m);
    } else {
        assert(m.take(j) =~= m.drop_last().take(j));
        lemma_group_prefix(m.drop_last(), j, key);
        let prev = group_keys(m.drop_last());
        if prev.contains(key) {
            let x = choose|x: int| 0 <= x < prev.len() && prev[x] == key;
            if !prev.contains(date_key(m.last())) {
                assert(prev.push(date_key(m.last()))[x] == key);
            }
        }
    }
}

/// Sums the scores, absent ones as zero, and counts the documents, per
/// date, over the rows whose surrogate id is in `filter`. The groups come
/// in the order in which each date first occurs. A sum that does not fit in
/// 64 bits is an error.
pub fn group_scores_by_date(rows: &Vec<StoredRow>, filter: &RoaringBitmap) -> (r: Result<ScoresGroupedByDate, AggregateError>)
    ensures
        match r {
            Ok(g) => grouped(g, matching_rows(rows@, bitmap_ids(*filter))),
            Err(e) => e == AggregateError::ScoreOverflow,
        },
        r is Err <==> some_sum_overflows(matching_rows(rows@, bitmap_ids(*filter))),
{
    let ghost ids = bitmap_ids(*filter);
    let ghost full = matching_rows(rows@, ids);
    let mut dates: Vec<Option<String>> = Vec::new();
    let mut scores: Vec<u64> = Vec::new();
    let mut counts: Vec<u64> = Vec::new();
    let mut index = DateIndex::new();
    let mut i: usize = 0;
    while i < rows.len()
        invariant
            ids == bitmap_ids(*filter),
            full == matching_rows(rows@, ids),
            i <= rows.len(),
            dates@.map_values(|d: Option<String>| key_of(d)) == group_keys(matching_rows(rows@.take(i as int), ids)),
            index.wf(dates@),
            scores.len() == dates.len(),
            counts.len() == dates.len(),
            matching_rows(rows@.take(i as int), ids).len() <= i,
            forall|a: int, b: int| 0 <= a < b < dates.len() ==> key_of(#[trigger] dates@[a]) != key_of(#[trigger] dates@[b]),
            forall|k: int| 0 <= k < dates.len() ==> #[trigger] scores@[k] == group_sum(
                matching_rows(rows@.take(i as int), ids),
                key_of(dates@[k]),
            ),
            forall|k: int| 0 <= k < dates.len() ==> #[trigger] counts@[k] == group_count(
                matching_rows(rows@.take(i as int), ids),
                key_of(dates@[k]),
            ),
            forall|k: int| 0 <= k < dates.len() ==> #[trigger] counts@[k] <= i,
        decreases rows.len() - i,
    {
        let row = &rows[i];
        let ghost mi = matching_rows(rows@.take(i as int), ids);
        proof {
            assert(rows@.take(i + 1).drop_last() =~= rows@.take(i as int));
            assert(rows@.take(i + 1).last() == rows@[i as int]);
        }
        if bitmap_contains(filter, row.id) {
            let ghost m2 = mi.push(*row);
            assert(matching_rows(rows@.take(i + 1), ids) == m2);
            assert(m2.drop_last() =~= mi);
            let s: u64 = match row.score {
                Some(s) => s,
                None => 0,
            };
            match index.find(&dates, &row.date) {
                Some(k) => {
                    if scores[k] > u64::MAX - s {
                        proof {
                            lemma_matching_prefix(rows@, ids, i + 1);
                            lemma_group_prefix(full, m2.len() as int, date_key(*row));
                            assert(full.take(m2.len() as int) == m2);
                            let keys = group_keys(m2);
                            assert(keys[k as int] == date_key(*row));
                            assert(keys.contains(date_key(*row)));
                            let fk = group_keys(full);
                            let x = choose|x: int| 0 <= x < fk.len() && fk[x] == date_key(*row);
                            assert(group_sum(full, fk[x]) > u64::MAX);
                        }
                        return Err(AggregateError::ScoreOverflow);
                    }
                    let ghost pre_scores = scores@;
                    let ghost pre_counts = counts@;
                    scores.set(k, scores[k] + s);
                    counts.set(k, counts[k] + 1);
                    proof {
                        assert(group_keys(m2) == group_keys(mi)) by {
                            assert(dates@.map_values(|d: Option<String>| key_of(d))[k as int] == date_key(*row));
                        }
                        assert forall|j: int| 0 <= j < dates.len() implies #[trigger] scores@[j] == group_sum(m2, key_of(dates@[j])) by {
                            if j != k {
                                assert(key_of(dates@[j]) != key_of(dates@[k as int]));
                            }
                        }
                        assert forall|j: int| 0 <= j < dates.len() implies #[trigger] counts@[j] == group_count(m2, key_of(dates@[j])) by {
                            if j != k {
                                assert(key_of(dates@[j]) != key_of(dates@[k as int]));
                            }
                        }
                    }
                },
                None => {
                    let ghost pre_dates = dates@;
                    dates.push(clone_date(&row.date));
                    proof {
                        assert(dates@.take(pre_dates.len() as int) =~= pre_dates);
                    }
                    index.record(&dates, dates.len() - 1);
                    scores.push(s);
                    counts.push(1);
                    proof {
                        assert(dates@.map_values(|d: Option<String>| key_of(d)) =~= pre_dates.map_values(|d: Option<String>| key_of(d)).push(date_key(*row)));
                        assert forall|k: int| 0 <= k < pre_dates.len() implies group_sum(mi, #[trigger] key_of(pre_dates[k])) == group_sum(m2, key_of(pre_dates[k])) && group_count(mi, key_of(pre_dates[k])) == group_count(m2, key_of(pre_dates[k])) by {
                            assert(pre_dates.map_values(|d: Option<String>| key_of(d))[k] == key_of(pre_dates[k]));
                        }
                        lemma_absent_key_empty(mi, date_key(*row));
                        assert forall|a: int, b: int| 0 <= a < b < dates.len() implies key_of(#[trigger] dates@[a]) != key_of(#[trigger] dates@[b]) by {
                            if b == pre_dates.len() {
                                assert(pre_dates.map_values(|d: Option<String>| key_of(d))[a] == key_of(pre_dates[a]));
                            }
                        }
                    }
                },
            }
        } else {
            assert(matching_rows(rows@.take(i + 1), ids) == mi);
        }
        i = i + 1;
    }
    proof {
        assert(rows@.take(i as int) =~= rows@);
        assert forall|k: int| 0 <= k < group_keys(full).len() implies group_sum(full, #[trigger] group_keys(full)[k]) <= u64::MAX by {
            assert(dates@.map_values(|d: Option<String>| key_of(d))[k] == key_of(dates@[k]));
            assert(scores@[k] == group_sum(full, key_of(dates@[k])));
        }
    }
    Ok(ScoresGroupedByDate { date: dates, score: scores, count: counts })
}

/// A date that is not among the group keys has no rows: its sum and count
/// are zero.
proof fn lemma_absent_key_empty(m: Seq<StoredRow>, key: Option<Seq<char>>)
    requires
        !group_keys(m).contains(key),
    ensures
        group_sum(m, key) == 0,
        group_count(m, key) == 0,
    decreases m.len(),
{
    if m.len() > 0 {
        let prev = group_keys(m.drop_last());
        if prev.contains(key) {
            let x = choose|x: int| 0 <= x < prev.len() && prev[x] == key;
            if !prev.contains(date_key(m.last())) {
                assert(prev.push(date_key(m.last()))[x] == key);
            }
        } else {
            if date_key(m.last()) == key {
                if !prev.contains(date_key(m.last())) {
                    assert(prev.push(date_key(m.last()))[prev.len() as int] == key);
                }
            }
            lemma_absent_key_empty(m.drop_last(), key);
        }
    }
}


/// No two rows share a surrogate id.
pub open spec fn distinct_ids(rows: Seq<StoredRow>) -> bool {
    forall|a: int, b: int| 0 <= a < b < rows.len() ==> (#[trigger] rows[a]).id != (#[trigger] rows[b]).id
}

/// Retrieval gives exactly the rows whose surrogate id is in the result
/// set, and where the table holds each id once, each of them exactly once.
pub proof fn law_retrieval_exact(rows: Seq<StoredRow>, ids: Set<u32>)
    ensures
        forall|x: StoredRow| #[trigger] matching_rows(rows, ids).contains(x) <==> (rows.contains(x) && ids.contains(x.id)),
        distinct_ids(rows) ==> distinct_ids(matching_rows(rows, ids)),
    decreases rows.len(),
{
    if rows.len() > 0 {
        let p = rows.drop_last();
        law_retrieval_exact(p, ids);
        let m = matching_rows(rows, ids);
        let mp = matching_rows(p, ids);
        assert forall|x: StoredRow| #[trigger] m.contains(x) <==> (rows.contains(x) && ids.contains(x.id)) by {
            if rows.contains(x) && ids.contains(x.id) {
                let j = choose|j: int| 0 <= j < rows.len() && rows[j] == x;
                if j < rows.len() - 1 {
                    assert(p[j] == x);
                    assert(mp.contains(x));
                    let y = choose|y: int| 0 <= y < mp.len() && mp[y] == x;
                    if ids.contains(rows.last().id) {
                        assert(m[y] == x);
                    }
                } else {
                    assert(m[m.len() - 1] == x);
                }
            }
            if m.contains(x) {
                let y = choose|y: int| 0 <= y < m.len() && m[y] == x;
                if ids.contains(rows.last().id) && y == m.len() - 1 {
                    assert(rows[rows.len() - 1] == x);
                } else {
                    assert(mp[y] == x);
                    assert(mp.contains(x));
                    assert(p.contains(x) && ids.contains(x.id));
                    let j = choose|j: int| 0 <= j < p.len() && p[j] == x;
                    assert(rows[j] == x);
                }
            }
        }
        if distinct_ids(rows) {
            assert(distinct_ids(p)) by {
                assert forall|a: int, b: int| 0 <= a < b < p.len() implies (#[trigger] p[a]).id != (#[trigger] p[b]).id by {
                    assert(p[a] == rows[a] && p[b] == rows[b]);
                }
            }
            if ids.contains(rows.last().id) {
                assert forall|a: int, b: int| 0 <= a < b < m.len() implies (#[trigger] m[a]).id != (#[trigger] m[b]).id by {
                    if b == m.len() - 1 {
                        assert(mp.contains(m[a]));
                        let j = choose|j: int| 0 <= j < p.len() && p[j] == m[a];
                        assert(rows[j] == m[a]);
                    } else {
                        assert(m[a] == mp[a] && m[b] == mp[b]);
                    }
                }
            }
        }
    }
}

/// Where the table holds each surrogate id once and every id of the result
/// set `ids` has a row, exactly `|ids|` rows match: the per-date counts
/// then add up to the size of the result set.
pub proof fn law_matching_rows_count(rows: Seq<StoredRow>, ids: Set<u32>)
    requires
        distinct_ids(rows),
        forall|id: u32| #[trigger] ids.contains(id) ==> exists|i: int| 0 <= i < rows.len() && rows[i].id == id,
    ensures
        matching_rows(rows, ids).len() == ids.len(),
        sum_counts(group_keys(matching_rows(rows, ids)), matching_rows(rows, ids)) == ids.len(),
{
    let m = matching_rows(rows, ids);
    law_retrieval_exact(rows, ids);
    law_group_totals(m);
    let ms = m.map_values(|r: StoredRow| r.id);
    assert(ms.no_duplicates()) by {
        assert forall|a: int, b: int| 0 <= a < ms.len() && 0 <= b < ms.len() && a != b implies ms[a] != ms[b] by {
            if a < b {
                assert(m[a].id != m[b].id);
            } else {
                assert(m[b].id != m[a].id);
            }
        }
    }
    assert(ms.to_set() =~= ids) by {
        assert forall|id: u32| #[trigger] ids.contains(id) implies ms.to_set().contains(id) by {
            let i = choose|i: int| 0 <= i < rows.len() && rows[i].id == id;
            assert(rows.contains(rows[i]));
            assert(m.contains(rows[i]));
            let j = choose|j: int| 0 <= j < m.len() && m[j] == rows[i];
            assert(ms[j] == id);
        }
        assert forall|id: u32| #[trigger] ms.to_set().contains(id) implies ids.contains(id) by {
            let j = choose|j: int| 0 <= j < ms.len() && ms[j] == id;
            assert(m.contains(m[j]));
        }
    }
    ms.unique_seq_to_set();
}

/// The number of times `x` occurs in `keys`.
pub open spec fn occurrences(keys: Seq<Option<Seq<char>>>, x: Option<Seq<char>>) -> int
    decreases keys.len(),
{
    if keys.len() == 0 {
        0
    } else {
        occurrences(keys.drop_last(), x) + if keys.last() == x {
            1int
        } else {
            0
        }
    }
}

/// The sum, over the dates `keys`, of the number of rows of each.
pub open spec fn sum_counts(keys: Seq<Option<Seq<char>>>, m: Seq<StoredRow>) -> int
    decreases keys.len(),
{
    if keys.len() == 0 {
        0
    } else {
        sum_counts(keys.drop_last(), m) + group_count(m, keys.last())
    }
}

/// The sum, over the dates `keys`, of the sum of scores of each.
pub open spec fn sum_sums(keys: Seq<Option<Seq<char>>>, m: Seq<StoredRow>) -> int
    decreases keys.len(),
{
    if keys.len() == 0 {
        0
    } else {
        sum_sums(keys.drop_last(), m) + group_sum(m, keys.last())
    }
}

/// The sum of the scores of all rows, absent ones as zero.
pub open spec fn total_score(m: Seq<StoredRow>) -> int
    decreases m.len(),
{
    if m.len() == 0 {
        0
    } else {
        total_score(m.drop_last()) + score_of(m.last())
    }
}

proof fn lemma_sums_step(keys: Seq<Option<Seq<char>>>, m: Seq<StoredRow>)
    requires
        m.len() > 0,
    ensures
        sum_counts(keys, m) == sum_counts(keys, m.drop_last()) + occurrences(keys, date_key(m.last())),
        sum_sums(keys, m) == sum_sums(keys, m.drop_last()) + occurrences(keys, date_key(m.last())) * score_of(m.last()),
    decreases keys.len(),
{
    if keys.len() > 0 {
        lemma_sums_step(keys.drop_last(), m);
        assert(occurrences(keys, date_key(m.last())) * score_of(m.last())
            == occurrences(keys.drop_last(), date_key(m.last())) * score_of(m.last())
                + (if keys.last() == date_key(m.last()) { 1int } else { 0 }) * score_of(m.last())) by (nonlinear_arith)
            requires
                occurrences(keys, date_key(m.last())) == occurrences(keys.drop_last(), date_key(m.last()))
                    + if keys.last() == date_key(m.last()) { 1int } else { 0 },
        ;
    }
}

proof fn lemma_occurrences(keys: Seq<Option<Seq<char>>>, x: Option<Seq<char>>)
    requires
        keys.no_duplicates(),
    ensures
        occurrences(keys, x) == if keys.contains(x) { 1int } else { 0 },
    decreases keys.len(),
{
    if keys.len() > 0 {
        let p = keys.drop_last();
        assert(p.no_duplicates());
        lemma_occurrences(p, x);
        if keys.last() == x {
            if p.contains(x) {
                let j = choose|j: int| 0 <= j < p.len() && p[j] == x;
                assert(keys[j] == keys[keys.len() - 1]);
            }
            assert(keys[keys.len() - 1] == x);
        } else {
            if keys.contains(x) {
                let j = choose|j: int| 0 <= j < keys.len() && keys[j] == x;
                assert(p[j] == x);
            }
            if p.contains(x) {
                let j = choose|j: int| 0 <= j < p.len() && p[j] == x;
                assert(keys[j] == x);
            }
        }
    }
}

proof fn lemma_keys_distinct(m: Seq<StoredRow>)
    ensures
        group_keys(m).no_duplicates(),
    decreases m.len(),
{
    if m.len() > 0 {
        lemma_keys_distinct(m.drop_last());
    }
}

/// Over any rows, the per-date counts add up to the number of rows, and the
/// per-date sums to the sum of all scores, absent scores counting as zero.
pub proof fn law_group_totals(m: Seq<StoredRow>)
    ensures
        sum_counts(group_keys(m), m) == m.len(),
        sum_sums(group_keys(m), m) == total_score(m),
    decreases m.len(),
{
    if m.len() > 0 {
        let p = m.drop_last();
        let x = date_key(m.last());
        let kp = group_keys(p);
        law_group_totals(p);
        lemma_keys_distinct(p);
        lemma_sums_step(kp, m);
        lemma_occurrences(kp, x);
        if !kp.contains(x) {
            lemma_absent_key_empty(p, x);
            assert(group_keys(m) == kp.push(x));
            assert(kp.push(x).drop_last() =~= kp);
        }
    }
}


/// The surrogate ids that retrieval reports are exactly the ids of the
/// result set that the table holds.
pub proof fn law_retrieved_ids(rows: Seq<StoredRow>, ids: Set<u32>)
    ensures
        matching_rows(rows, ids).map_values(|r: StoredRow| r.id).to_set()
            == ids.intersect(rows.map_values(|r: StoredRow| r.id).to_set()),
{
    law_retrieval_exact(rows, ids);
    let m = matching_rows(rows, ids);
    let ms = m.map_values(|r: StoredRow| r.id);
    let rs = rows.map_values(|r: StoredRow| r.id);
    assert forall|id: u32| #[trigger] ms.to_set().contains(id) <==> ids.intersect(rs.to_set()).contains(id) by {
        if ms.to_set().contains(id) {
            let j = choose|j: int| 0 <= j < ms.len() && ms[j] == id;
            assert(m.contains(m[j]));
            let k = choose|k: int| 0 <= k < rows.len() && rows[k] == m[j];
            assert(rs[k] == id);
        }
        if ids.intersect(rs.to_set()).contains(id) {
            let k = choose|k: int| 0 <= k < rs.len() && rs[k] == id;
            assert(rows.contains(rows[k]));
            assert(m.contains(rows[k]));
            let j = choose|j: int| 0 <= j < m.len() && m[j] == rows[k];
            assert(ms[j] == id);
        }
    }
    assert(ms.to_set() =~= ids.intersect(rs.to_set()));
}

/// The sum of a sequence of 64-bit values.
pub open spec fn sum_u64(s: Seq<u64>) -> int
    decreases s.len(),
{
    if s.len() == 0 {
        0
    } else {
        sum_u64(s.drop_last()) + s.last()
    }
}

proof fn lemma_grouped_prefix_sums(g: ScoresGroupedByDate, m: Seq<StoredRow>, n: int)
    requires
        grouped(g, m),
        0 <= n <= g.date.len(),
    ensures
        sum_u64(g.count@.take(n)) == sum_counts(group_keys(m).take(n), m),
        sum_u64(g.score@.take(n)) == sum_sums(group_keys(m).take(n), m),
    decreases n,
{
    let keys = group_keys(m);
    assert(keys.len() == g.date.len()) by {
        assert(g.date@.map_values(|d: Option<String>| key_of(d)).len() == g.date.len());
    }
    if n > 0 {
        lemma_grouped_prefix_sums(g, m, n - 1);
        assert(g.count@.take(n).drop_last() =~= g.count@.take(n - 1));
        assert(g.score@.take(n).drop_last() =~= g.score@.take(n - 1));
        assert(keys.take(n).drop_last() =~= keys.take(n - 1));
        assert(g.count@[n - 1] == group_count(m, keys[n - 1]));
        assert(g.score@[n - 1] == group_sum(m, keys[n - 1]));
    }
}

/// Over the groups that aggregation returns, the counts add up to the
/// number of matching rows and the sums to the sum of their scores, absent
/// scores counting as zero.
pub proof fn law_grouped_totals(g: ScoresGroupedByDate, m: Seq<StoredRow>)
    requires
        grouped(g, m),
    ensures
        sum_u64(g.count@) == m.len(),
        sum_u64(g.score@) == total_score(m),
{
    let keys = group_keys(m);
    assert(keys.len() == g.date.len()) by {
        assert(g.date@.map_values(|d: Option<String>| key_of(d)).len() == g.date.len());
    }
    lemma_grouped_prefix_sums(g, m, g.date.len() as int);
    assert(g.count@.take(g.date.len() as int) =~= g.count@);
    assert(g.score@.take(g.date.len() as int) =~= g.score@);
    assert(keys.take(g.date.len() as int) =~= keys);
    law_group_totals(m);
}

} // verus!
