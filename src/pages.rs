//! Page pruning for a sorted word column stored in pages, each page with the
//! smallest and largest word it holds: a binary search over those bounds
//! finds the one page that may hold a word, and only its rows are read.

use std::cmp::Ordering;
use vstd::prelude::*;

verus! {

/// Lexicographic order on byte strings.
pub open spec fn bytes_lt(a: Seq<u8>, b: Seq<u8>) -> bool
    decreases a.len(),
{
    if b.len() == 0 {
        false
    } else if a.len() == 0 {
        true
    } else if a[0] != b[0] {
        a[0] < b[0]
    } else {
        bytes_lt(a.drop_first(), b.drop_first())
    }
}

pub proof fn lemma_bytes_total(a: Seq<u8>, b: Seq<u8>)
    ensures
        a == b || bytes_lt(a, b) || bytes_lt(b, a),
        !(bytes_lt(a, b) && bytes_lt(b, a)),
    decreases a.len(),
{
    if a.len() > 0 && b.len() > 0 {
        if a[0] == b[0] {
            lemma_bytes_total(a.drop_first(), b.drop_first());
            if a.drop_first() == b.drop_first() {
                assert(a =~= seq![a[0]] + a.drop_first());
                assert(b =~= seq![b[0]] + b.drop_first());
            }
        }
    } else if a.len() == 0 && b.len() == 0 {
        assert(a =~= b);
    }
}

pub proof fn lemma_bytes_transitive(a: Seq<u8>, b: Seq<u8>, c: Seq<u8>)
    requires
        bytes_lt(a, b),
        bytes_lt(b, c),
    ensures
        bytes_lt(a, c),
    decreases a.len(),
{
    if a.len() > 0 && b.len() > 0 && c.len() > 0 {
        if a[0] == b[0] && b[0] == c[0] {
            lemma_bytes_transitive(a.drop_first(), b.drop_first(), c.drop_first());
        }
    }
}

/// Compares two byte strings lexicographically.
pub fn compare_bytes(a: &[u8], b: &[u8]) -> (r: Ordering)
    ensures
        (r == Ordering::Less) == bytes_lt(a@, b@),
        (r == Ordering::Equal) == (a@ == b@),
        (r == Ordering::Greater) == bytes_lt(b@, a@),
{
    proof {
        lemma_bytes_total(a@, b@);
        assert(a@.skip(0) =~= a@);
        assert(b@.skip(0) =~= b@);
    }
    let mut i: usize = 0;
    while i < a.len() && i < b.len() && a[i] == b[i]
        invariant
            i <= a.len(),
            i <= b.len(),
            a@.subrange(0, i as int) == b@.subrange(0, i as int),
            bytes_lt(a@, b@) == bytes_lt(a@.skip(i as int), b@.skip(i as int)),
            bytes_lt(b@, a@) == bytes_lt(b@.skip(i as int), a@.skip(i as int)),
        decreases a.len() - i,
    {
        proof {
            assert(a@.skip(i as int).drop_first() =~= a@.skip(i + 1));
            assert(b@.skip(i as int).drop_first() =~= b@.skip(i + 1));
            assert(a@.subrange(0, i + 1) =~= a@.subrange(0, i as int).push(a[i as int]));
            assert(b@.subrange(0, i + 1) =~= b@.subrange(0, i as int).push(b[i as int]));
        }
        i = i + 1;
    }
    if i < a.len() && i < b.len() {
        if a[i] < b[i] {
            Ordering::Less
        } else {
            Ordering::Greater
        }
    } else if i < b.len() {
        assert(a@ =~= a@.subrange(0, i as int));
        Ordering::Less
    } else if i < a.len() {
        assert(b@ =~= b@.subrange(0, i as int));
        Ordering::Greater
    } else {
        assert(a@ =~= a@.subrange(0, i as int));
        assert(b@ =~= b@.subrange(0, i as int));
        Ordering::Equal
    }
}

/// The statistics of one page of a sorted word column: the smallest and the
/// largest word in it, and the index of its first row in the row group.
pub struct PageStats {
    pub min: Vec<u8>,
    pub max: Vec<u8>,
    pub first_row: u64,
}

/// Whether page `p` may hold `needle`: it lies within the page's bounds.
pub open spec fn page_covers(p: PageStats, needle: Seq<u8>) -> bool {
    !bytes_lt(needle, p.min@) && !bytes_lt(p.max@, needle)
}

/// Pages of a sorted column: each page's bounds in order, and each page
/// wholly below the next.
pub open spec fn pages_sorted(pages: Seq<PageStats>) -> bool {
    &&& forall|i: int| 0 <= i < pages.len() ==> !bytes_lt((#[trigger] pages[i]).max@, pages[i].min@)
    &&& forall|i: int, j: int| 0 <= i < j < pages.len() ==> bytes_lt((#[trigger] pages[i]).max@, (#[trigger] pages[j]).min@)
}

/// A page whose bounds hold `needle`, found by binary search; `None` where
/// the search finds none, in which case no page of a sorted column holds it.
pub fn find_page(pages: &Vec<PageStats>, needle: &[u8]) -> (r: Option<usize>)
    ensures
        match r {
            Some(i) => i < pages.len() && page_covers(pages@[i as int], needle@),
            None => pages_sorted(pages@) ==> forall|i: int| 0 <= i < pages.len() ==> !page_covers(#[trigger] pages@[i], needle@),
        },
{
    let mut lo: usize = 0;
    let mut hi: usize = pages.len();
    while lo < hi
        invariant
            lo <= hi <= pages.len(),
            pages_sorted(pages@) ==> forall|i: int| 0 <= i < lo ==> bytes_lt((#[trigger] pages@[i]).max@, needle@),
            pages_sorted(pages@) ==> forall|i: int| hi <= i < pages.len() ==> bytes_lt(needle@, (#[trigger] pages@[i]).min@),
        decreases hi - lo,
    {
        let mid = lo + (hi - lo) / 2;
        let page = &pages[mid];
        match compare_bytes(page.min.as_slice(), needle) {
            Ordering::Greater => {
                proof {
                    if pages_sorted(pages@) {
                        assert forall|i: int| mid <= i < pages.len() implies bytes_lt(needle@, (#[trigger] pages@[i]).min@) by {
                            if mid < i {
                                let m = pages@[mid as int];
                                assert(bytes_lt(m.max@, pages@[i].min@));
                                assert(!bytes_lt(m.max@, m.min@));
                                lemma_bytes_total(m.max@, m.min@);
                                if m.max@ != m.min@ {
                                    lemma_bytes_transitive(needle@, m.min@, m.max@);
                                }
                                lemma_bytes_transitive(needle@, m.max@, pages@[i].min@);
                            }
                        }
                    }
                }
                hi = mid;
            },
            _ => match compare_bytes(page.max.as_slice(), needle) {
                Ordering::Less => {
                    proof {
                        if pages_sorted(pages@) {
                            assert forall|i: int| 0 <= i <= mid implies bytes_lt((#[trigger] pages@[i]).max@, needle@) by {
                                if i < mid {
                                    let m = pages@[mid as int];
                                    assert(bytes_lt(pages@[i].max@, m.min@));
                                    assert(!bytes_lt(m.max@, m.min@));
                                    lemma_bytes_total(m.max@, m.min@);
                                    if m.min@ != m.max@ {
                                        lemma_bytes_transitive(pages@[i].max@, m.min@, m.max@);
                                    }
                                    lemma_bytes_transitive(pages@[i].max@, m.max@, needle@);
                                }
                            }
                        }
                    }
                    lo = mid + 1;
                },
                _ => {
                    return Some(mid);
                },
            },
        }
    }
    proof {
        if pages_sorted(pages@) {
            assert forall|i: int| 0 <= i < pages.len() implies !page_covers(#[trigger] pages@[i], needle@) by {
                lemma_bytes_total(pages@[i].max@, needle@);
                lemma_bytes_total(needle@, pages@[i].min@);
            }
        }
    }
    None
}

/// A run of rows in a row selection.
#[derive(Debug, Clone, Copy, PartialEq, Eq)]
pub enum RowRun {
    Skip(u64),
    Select(u64),
}

/// Where the page at `i` ends: at the next page's first row, or at the end
/// of the row group.
pub open spec fn page_end(pages: Seq<PageStats>, i: int, num_rows: u64) -> u64 {
    if i + 1 < pages.len() {
        pages[i + 1].first_row
    } else {
        num_rows
    }
}

/// Pages laid out over a row group of `num_rows` rows: first rows in order,
/// none past the end.
pub open spec fn pages_laid_out(pages: Seq<PageStats>, num_rows: u64) -> bool {
    &&& forall|i: int| 0 < i < pages.len() ==> (#[trigger] pages[i - 1]).first_row <= pages[i].first_row
    &&& forall|i: int| 0 <= i < pages.len() ==> (#[trigger] pages[i]).first_row <= num_rows
}

/// The row selection for page `page` of a row group of `num_rows` rows:
/// skip the rows before the page, select the page's rows, skip the rest;
/// skip every row where there is no page.
pub open spec fn selection_spec(pages: Seq<PageStats>, page: Option<usize>, num_rows: u64) -> Seq<RowRun> {
    match page {
        Some(i) => {
            let start = pages[i as int].first_row;
            let end = page_end(pages, i as int, num_rows);
            let selected = (end - start) as u64;
            let rest = (num_rows - end) as u64;
            seq![RowRun::Skip(start), RowRun::Select(selected), RowRun::Skip(rest)]
        },
        None => seq![RowRun::Skip(num_rows)],
    }
}

/// The rows of one row group to read, given the page that `find_page`
/// picked, if any.
pub fn row_group_selection(pages: &Vec<PageStats>, page: Option<usize>, num_rows: u64) -> (r: Vec<RowRun>)
    requires
        pages_laid_out(pages@, num_rows),
        page matches Some(i) ==> i < pages.len(),
    ensures
        r@ == selection_spec(pages@, page, num_rows),
        page matches Some(i) ==> pages@[i as int].first_row <= page_end(pages@, i as int, num_rows) <= num_rows,
{
    match page {
        Some(i) => {
            let start = pages[i].first_row;
            let end = if i + 1 < pages.len() {
                pages[i + 1].first_row
            } else {
                num_rows
            };
            assert(start <= end) by {
                if i + 1 < pages.len() {
                    assert(pages@[i + 1 - 1].first_row <= pages@[i + 1].first_row);
                }
            }
            let selected = end - start;
            let rest = num_rows - end;
            vec![RowRun::Skip(start), RowRun::Select(selected), RowRun::Skip(rest)]
        },
        None => vec![RowRun::Skip(num_rows)],
    }
}


/// The pages of one row group of a sorted word column, and its number of rows.
pub struct RowGroupPages {
    pub pages: Vec<PageStats>,
    pub num_rows: u64,
}

/// Whether `page` is an answer that `find_page` may give for `needle`.
pub open spec fn page_pick(pages: Seq<PageStats>, needle: Seq<u8>, page: Option<usize>) -> bool {
    match page {
        Some(i) => i < pages.len() && page_covers(pages[i as int], needle),
        None => pages_sorted(pages) ==> forall|i: int| 0 <= i < pages.len() ==> !page_covers(#[trigger] pages[i], needle),
    }
}

/// Whether `runs` selects, in `group`, the rows of a page that `find_page`
/// may pick for `needle`.
pub open spec fn planned(group: RowGroupPages, needle: Seq<u8>, runs: Seq<RowRun>) -> bool {
    exists|page: Option<usize>| #[trigger] page_pick(group.pages@, needle, page)
        && runs == selection_spec(group.pages@, page, group.num_rows)
}

/// Whether the pages of a row group are laid out over its rows.
fn check_laid_out(pages: &Vec<PageStats>, num_rows: u64) -> (r: bool)
    ensures
        r == pages_laid_out(pages@, num_rows),
{
    let mut i: usize = 0;
    while i < pages.len()
        invariant
            i <= pages.len(),
            forall|j: int| 0 < j < i ==> (#[trigger] pages@[j - 1]).first_row <= pages@[j].first_row,
            forall|j: int| 0 <= j < i ==> (#[trigger] pages@[j]).first_row <= num_rows,
        decreases pages.len() - i,
    {
        if pages[i].first_row > num_rows {
            return false;
        }
        if i > 0 && pages[i - 1].first_row > pages[i].first_row {
            assert(pages@[i - 1].first_row > pages@[i as int].first_row);
            return false;
        }
        i = i + 1;
    }
    true
}

/// The row selection for `needle` over every row group, one group after
/// another: in each, the rows of the page that `find_page` picks; `None`
/// where some group's pages are not laid out over its rows.
pub fn plan_row_selection(groups: &Vec<RowGroupPages>, needle: &[u8]) -> (r: Option<Vec<Vec<RowRun>>>)
    ensures
        r is None <==> exists|g: int| 0 <= g < groups.len() && !pages_laid_out((#[trigger] groups@[g]).pages@, groups@[g].num_rows),
        r matches Some(plan) ==> plan.len() == groups.len() && forall|g: int|
            0 <= g < groups.len() ==> planned(#[trigger] groups@[g], needle@, plan@[g]@),
{
    let mut plan: Vec<Vec<RowRun>> = Vec::new();
    let mut g: usize = 0;
    while g < groups.len()
        invariant
            g <= groups.len(),
            plan.len() == g,
            forall|h: int| 0 <= h < g ==> pages_laid_out((#[trigger] groups@[h]).pages@, groups@[h].num_rows),
            forall|h: int| 0 <= h < g ==> planned(#[trigger] groups@[h], needle@, plan@[h]@),
        decreases groups.len() - g,
    {
        let group = &groups[g];
        if !check_laid_out(&group.pages, group.num_rows) {
            return None;
        }
        let page = find_page(&group.pages, needle);
        let runs = row_group_selection(&group.pages, page, group.num_rows);
        let ghost pre = plan@;
        plan.push(runs);
        proof {
            assert(page_pick(groups@[g as int].pages@, needle@, page));
            assert(planned(groups@[g as int], needle@, plan@[g as int]@));
            assert forall|h: int| 0 <= h < g + 1 implies planned(#[trigger] groups@[h], needle@, plan@[h]@) by {
                if h < g {
                    assert(plan@[h] == pre[h]);
                }
            }
        }
        g = g + 1;
    }
    Some(plan)
}

} // verus!
