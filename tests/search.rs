use anubistats::eval::{build_store, eval_query, eval_query_listed, query_words};
use anubistats::index::{build_index, index_documents, split_whitespace, Record};
use anubistats::pages::{find_page, plan_row_selection, row_group_selection, PageStats, RowGroupPages, RowRun};
use anubistats::query::parse;
use anubistats::rows::{group_scores_by_date, retrieve_stored_fields, stored_rows, AggregateError, Document, StoredRow};
use anubistats::store::{find_offset_and_length, find_postings_list, postings_from_rows, write_postings, OffsetTable, PostingsStore, StoreError};
use roaring::RoaringBitmap;

fn record(id: u64, title: &str) -> Record {
    Record {
        id,
        by: String::new(),
        score: None,
        time: None,
        time_ts: String::new(),
        title: title.to_string(),
        url: String::new(),
        text: String::new(),
        deleted: None,
        dead: None,
        descendants: None,
        author: String::new(),
    }
}

fn sample() -> Vec<Record> {
    vec![record(1, "Rust is fast"), record(2, "Go is simple"), record(3, "rust and go")]
}

fn ids(b: &RoaringBitmap) -> Vec<u32> {
    b.iter().collect()
}

fn run(store: &PostingsStore, q: &str) -> Vec<u32> {
    ids(&eval_query(&parse(q).unwrap(), store).unwrap())
}

fn bitmap(values: &[u32]) -> RoaringBitmap {
    values.iter().copied().collect()
}

#[test]
fn end_to_end_scenario() {
    let store = build_store(&sample()).unwrap();
    assert_eq!(run(&store, "rust OR go"), vec![0, 1, 2]);
    assert_eq!(run(&store, "rust AND go"), vec![2]);
    assert_eq!(run(&store, "fast AND simple"), Vec::<u32>::new());
}

#[test]
fn word_query_finds_titles_case_insensitively() {
    let store = build_store(&sample()).unwrap();
    assert_eq!(run(&store, "rust"), vec![0, 2]);
    assert_eq!(run(&store, "is"), vec![0, 1]);
    assert_eq!(run(&store, "simple"), vec![1]);
    // Words are lower-cased when indexed, so an upper-case query word finds nothing.
    assert_eq!(run(&store, "Rust"), Vec::<u32>::new());
}

#[test]
fn unseen_word_is_empty_not_error() {
    let store = build_store(&sample()).unwrap();
    let list = find_postings_list("python", &store).unwrap();
    assert!(list.is_empty());
    // Below the first word and above the last word too.
    assert!(find_postings_list("a", &store).unwrap().is_empty());
    assert!(find_postings_list("zzz", &store).unwrap().is_empty());
}

#[test]
fn last_word_of_the_table_is_found() {
    let index = build_index(&sample()).unwrap();
    let last = index.words.last().unwrap().clone();
    assert_eq!(last, "simple");
    let store = write_postings(&index);
    assert_eq!(ids(&find_postings_list("simple", &store).unwrap()), vec![1]);
}

#[test]
fn and_or_are_intersection_and_union() {
    let store = build_store(&sample()).unwrap();
    assert_eq!(run(&store, "is AND rust"), run(&store, "rust AND is"));
    assert_eq!(run(&store, "is AND rust"), vec![0]);
    assert_eq!(run(&store, "is OR rust"), vec![0, 1, 2]);
    assert_eq!(run(&store, "(is AND rust) AND fast"), run(&store, "is AND (rust AND fast)"));
    assert_eq!(run(&store, "(simple OR fast) OR and"), run(&store, "simple OR (fast OR and)"));
    assert_eq!(run(&store, "(simple OR fast) OR and"), vec![0, 1, 2]);
}

#[test]
fn index_words_are_sorted_and_lowercased() {
    let index = build_index(&sample()).unwrap();
    assert_eq!(index.words, vec!["and", "fast", "go", "is", "rust", "simple"]);
    assert_eq!(ids(&index.lists[2]), vec![1, 2]);
}

#[test]
fn repeated_word_in_a_title_counts_once() {
    let store = build_store(&vec![record(7, "the the THE"), record(8, "other")]).unwrap();
    assert_eq!(run(&store, "the"), vec![0]);
}

#[test]
fn empty_collection_builds_empty_store() {
    let store = build_store(&Vec::new()).unwrap();
    assert!(store.blob.is_empty());
    assert_eq!(run(&store, "anything"), Vec::<u32>::new());
}

#[test]
fn offset_table_gives_offset_and_length() {
    let table = OffsetTable::new(vec!["a".to_string(), "c".to_string(), "e".to_string()], vec![0, 10, 25], 40).unwrap();
    assert_eq!(find_offset_and_length(&table, "a"), Some((0, 10)));
    assert_eq!(find_offset_and_length(&table, "c"), Some((10, 15)));
    assert_eq!(find_offset_and_length(&table, "e"), Some((25, 15)));
    assert_eq!(find_offset_and_length(&table, "b"), None);
    assert_eq!(find_offset_and_length(&table, "f"), None);
    assert_eq!(find_offset_and_length(&table, ""), None);
}

#[test]
fn malformed_offset_tables_are_rejected() {
    let unsorted = OffsetTable::new(vec!["b".to_string(), "a".to_string()], vec![0, 1], 2);
    assert_eq!(unsorted.err(), Some(StoreError::MalformedOffsets));
    let backwards = OffsetTable::new(vec!["a".to_string(), "b".to_string()], vec![5, 1], 9);
    assert_eq!(backwards.err(), Some(StoreError::MalformedOffsets));
    let past_end = OffsetTable::new(vec!["a".to_string()], vec![5], 4);
    assert_eq!(past_end.err(), Some(StoreError::MalformedOffsets));
    let uneven = OffsetTable::new(vec!["a".to_string()], vec![], 4);
    assert_eq!(uneven.err(), Some(StoreError::MalformedOffsets));
    let table = OffsetTable::new(vec!["a".to_string()], vec![0], 4).unwrap();
    assert_eq!(PostingsStore::new(vec![0, 0], table).err(), Some(StoreError::MalformedOffsets));
}

#[test]
fn corrupt_postings_are_an_error() {
    let table = OffsetTable::new(vec!["a".to_string()], vec![0], 3).unwrap();
    let store = PostingsStore::new(vec![1, 2, 3], table).unwrap();
    assert_eq!(find_postings_list("a", &store).err(), Some(StoreError::CorruptPostings));
    assert!(find_postings_list("b", &store).unwrap().is_empty());
}

fn row(id: u32, title: &str, date: Option<&str>, score: Option<u64>) -> StoredRow {
    StoredRow {
        id,
        doc_id: 100 + id as u64,
        title: title.to_string(),
        date: date.map(|d| d.to_string()),
        score,
        descendants: None,
    }
}

fn table_rows() -> Vec<StoredRow> {
    vec![
        row(0, "zero", Some("20230101"), Some(5)),
        row(1, "one", Some("20230102"), None),
        row(2, "two", Some("20230101"), Some(7)),
        row(3, "three", None, Some(1)),
        row(4, "four", Some("20230102"), Some(2)),
    ]
}

#[test]
fn retrieval_returns_exactly_the_matching_rows() {
    let docs = retrieve_stored_fields(&table_rows(), &bitmap(&[4, 1, 3]));
    assert_eq!(
        docs,
        vec![
            Document { roaring_id: 1, doc_id: 101, title: "one".to_string() },
            Document { roaring_id: 3, doc_id: 103, title: "three".to_string() },
            Document { roaring_id: 4, doc_id: 104, title: "four".to_string() },
        ]
    );
    assert!(retrieve_stored_fields(&table_rows(), &RoaringBitmap::new()).is_empty());
    assert_eq!(retrieve_stored_fields(&table_rows(), &bitmap(&[9])).len(), 0);
}

#[test]
fn aggregation_groups_in_first_seen_order() {
    let g = group_scores_by_date(&table_rows(), &bitmap(&[0, 1, 2, 3, 4])).unwrap();
    assert_eq!(g.date, vec![Some("20230101".to_string()), Some("20230102".to_string()), None]);
    assert_eq!(g.score, vec![12, 2, 1]);
    assert_eq!(g.count, vec![2, 2, 1]);
    // The counts add up to the number of matching rows, the sums to the sum of scores.
    assert_eq!(g.count.iter().sum::<u64>(), 5);
    assert_eq!(g.score.iter().sum::<u64>(), 15);
}

#[test]
fn aggregation_over_a_subset() {
    let g = group_scores_by_date(&table_rows(), &bitmap(&[1, 4])).unwrap();
    assert_eq!(g.date, vec![Some("20230102".to_string())]);
    assert_eq!(g.score, vec![2]);
    assert_eq!(g.count, vec![2]);
    let none = group_scores_by_date(&table_rows(), &RoaringBitmap::new()).unwrap();
    assert!(none.date.is_empty());
}

#[test]
fn aggregation_overflow_is_an_error() {
    let rows = vec![row(0, "a", Some("d"), Some(u64::MAX)), row(1, "b", Some("d"), Some(1))];
    assert_eq!(group_scores_by_date(&rows, &bitmap(&[0, 1])).err(), Some(AggregateError::ScoreOverflow));
    let rows = vec![row(0, "a", Some("d"), Some(u64::MAX)), row(1, "b", Some("e"), Some(1))];
    assert_eq!(group_scores_by_date(&rows, &bitmap(&[0, 1])).unwrap().score, vec![u64::MAX, 1]);
}

fn page(min: &str, max: &str, first_row: u64) -> PageStats {
    PageStats { min: min.as_bytes().to_vec(), max: max.as_bytes().to_vec(), first_row }
}

#[test]
fn page_pruning_selects_one_page() {
    let pages = vec![page("apple", "fig", 0), page("go", "lemon", 10), page("mango", "zebra", 25)];
    assert_eq!(find_page(&pages, b"go"), Some(1));
    assert_eq!(find_page(&pages, b"kiwi"), Some(1));
    assert_eq!(find_page(&pages, b"zebra"), Some(2));
    assert_eq!(find_page(&pages, b"a"), None);
    assert_eq!(find_page(&pages, b"fz"), None);
    assert_eq!(row_group_selection(&pages, Some(1), 40), vec![RowRun::Skip(10), RowRun::Select(15), RowRun::Skip(15)]);
    assert_eq!(row_group_selection(&pages, Some(2), 40), vec![RowRun::Skip(25), RowRun::Select(15), RowRun::Skip(0)]);
    assert_eq!(row_group_selection(&pages, None, 40), vec![RowRun::Skip(40)]);
}

#[test]
fn postings_from_selected_rows() {
    let mut one = Vec::new();
    bitmap(&[3, 5]).serialize_into(&mut one).unwrap();
    let words = vec!["go".to_string(), "kiwi".to_string()];
    let lists = vec![vec![1, 2, 3], one];
    assert_eq!(ids(&postings_from_rows(&words, &lists, "kiwi").unwrap()), vec![3, 5]);
    assert!(postings_from_rows(&words, &lists, "lemon").unwrap().is_empty());
    assert_eq!(postings_from_rows(&words, &lists, "go").err(), Some(StoreError::CorruptPostings));
}

#[test]
fn query_words_lists_every_word() {
    let q = parse("(rust AND go) OR (fast AND rust)").unwrap();
    let mut words = query_words(&q);
    words.sort();
    words.dedup();
    assert_eq!(words, vec!["fast", "go", "rust"]);
}

#[test]
fn listed_evaluation_matches_store_evaluation() {
    let store = build_store(&sample()).unwrap();
    for text in ["rust OR go", "rust AND go", "fast AND simple", "(is AND rust) OR simple", "python OR fast"] {
        let q = parse(text).unwrap();
        let words = query_words(&q);
        let lists: Vec<RoaringBitmap> = words.iter().map(|w| find_postings_list(w, &store).unwrap()).collect();
        assert_eq!(ids(&eval_query_listed(&q, &words, &lists)), run(&store, text));
    }
    // A word without a fetched list selects nothing.
    let q = parse("rust OR go").unwrap();
    let words = vec!["rust".to_string()];
    let lists = vec![bitmap(&[0, 2])];
    assert_eq!(ids(&eval_query_listed(&q, &words, &lists)), vec![0, 2]);
}

#[test]
fn index_documents_lists_each_word_as_given() {
    let docs = vec![
        vec!["b".to_string(), "a".to_string()],
        vec!["B".to_string(), "b".to_string(), "b".to_string()],
        vec![],
    ];
    let index = index_documents(&docs).unwrap();
    assert_eq!(index.words, vec!["B", "a", "b"]);
    assert_eq!(ids(&index.lists[0]), vec![1]);
    assert_eq!(ids(&index.lists[1]), vec![0]);
    assert_eq!(ids(&index.lists[2]), vec![0, 1]);
}

#[test]
fn stored_rows_number_records_in_order() {
    let mut records = sample();
    records[1].score = Some(9);
    records[2].descendants = Some(-1);
    let dates = vec![Some("20230415".to_string()), None, Some("20230416".to_string())];
    let rows = stored_rows(&records, &dates).unwrap();
    assert_eq!(rows.len(), 3);
    assert_eq!((rows[0].id, rows[0].doc_id, rows[0].title.as_str()), (0, 1, "Rust is fast"));
    assert_eq!(rows[0].date.as_deref(), Some("20230415"));
    assert_eq!((rows[1].id, rows[1].doc_id, rows[1].score, rows[1].date.clone()), (1, 2, Some(9), None));
    assert_eq!((rows[2].id, rows[2].doc_id, rows[2].descendants), (2, 3, Some(-1)));
}

#[test]
fn plan_covers_every_row_group() {
    let groups = vec![
        RowGroupPages { pages: vec![page("apple", "fig", 0), page("go", "lemon", 10)], num_rows: 20 },
        RowGroupPages { pages: vec![page("mango", "zebra", 0)], num_rows: 5 },
    ];
    assert_eq!(
        plan_row_selection(&groups, b"kiwi"),
        Some(vec![vec![RowRun::Skip(10), RowRun::Select(10), RowRun::Skip(0)], vec![RowRun::Skip(5)]])
    );
    let out_of_order = vec![RowGroupPages { pages: vec![page("a", "b", 4), page("c", "d", 2)], num_rows: 6 }];
    assert_eq!(plan_row_selection(&out_of_order, b"a"), None);
    let past_end = vec![RowGroupPages { pages: vec![page("a", "b", 7)], num_rows: 6 }];
    assert_eq!(plan_row_selection(&past_end, b"a"), None);
}

#[test]
fn split_whitespace_gives_maximal_runs() {
    assert_eq!(split_whitespace("  Rust\tis \n fast  "), vec!["Rust", "is", "fast"]);
    assert_eq!(split_whitespace("a\u{3000}b"), vec!["a", "b"]);
    assert_eq!(split_whitespace("one"), vec!["one"]);
    assert!(split_whitespace("   ").is_empty());
    assert!(split_whitespace("").is_empty());
}
