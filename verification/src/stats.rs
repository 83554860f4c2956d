//! Statistics over the stored counters.
use crate::text::{self, parse_i64, starts_with};
use crate::time;
use vstd::hash_map::StringHashMap;
use vstd::prelude::*;
use vstd::string::*;

verus! {

/// The most pages that the statistics list.
pub const MAX_TOP_PAGES: usize = 10;

/// The attributes of one stored counter, as far as they have the expected type.
pub struct ScanRow {
    /// The path, if there is one and it is a string.
    pub path: Option<String>,
    /// The hour, if there is one and it is a string.
    pub date_hour: Option<String>,
    /// The digits of the count, if there is one and it is a number.
    pub views: Option<String>,
}

/// What a [`ScanRow`] holds.
pub struct RowView {
    pub path: Option<Seq<char>>,
    pub date_hour: Option<Seq<char>>,
    pub views: Option<Seq<char>>,
}

impl View for ScanRow {
    type V = RowView;

    open spec fn view(&self) -> RowView {
        RowView {
            path: match self.path {
                Some(s) => Some(s@),
                None => None,
            },
            date_hour: match self.date_hour {
                Some(s) => Some(s@),
                None => None,
            },
            views: match self.views {
                Some(s) => Some(s@),
                None => None,
            },
        }
    }
}

impl RowView {
    /// The count of this row; zero if there is none that fits in 64 bits.
    pub open spec fn count(self) -> int {
        match self.views {
            Some(digits) => match text::integer_of(digits) {
                Some(n) => n,
                None => 0,
            },
            None => 0,
        }
    }

    /// Whether this row counts the views of an hour of `day`.
    pub open spec fn is_of(self, day: Seq<char>) -> bool {
        self.date_hour is Some && text::has_prefix(self.date_hour->0, day)
    }
}

/// The views of one page.
pub struct PageStats {
    pub path: String,
    pub views: i64,
}

/// The statistics.
pub struct StatsResponse {
    /// The views of all pages, ever.
    pub total_views: i64,
    /// The views of all pages today.
    pub today: i64,
    /// The pages with the most views, most first.
    pub top_pages: Vec<PageStats>,
}

/// What a [`StatsResponse`] holds.
#[verifier::ext_equal]
pub struct StatsView {
    pub total_views: int,
    pub today: int,
    pub top_pages: Seq<(Seq<char>, int)>,
}

/// The paths and views of `pages`.
pub open spec fn page_list(pages: Seq<PageStats>) -> Seq<(Seq<char>, int)> {
    pages.map_values(|p: PageStats| (p.path@, p.views as int))
}

impl View for StatsResponse {
    type V = StatsView;

    open spec fn view(&self) -> StatsView {
        StatsView {
            total_views: self.total_views as int,
            today: self.today as int,
            top_pages: page_list(self.top_pages@),
        }
    }
}

impl StatsResponse {
    /// A copy of these statistics.
    pub fn duplicate(&self) -> (r: StatsResponse)
        ensures
            r@ == self@,
    {
        let mut top_pages: Vec<PageStats> = Vec::new();
        let mut i: usize = 0;
        while i < self.top_pages.len()
            invariant
                i <= self.top_pages@.len(),
                top_pages@.len() == i,
                forall|j: int|
                    0 <= j < i ==> (#[trigger] top_pages@[j]).path@ == self.top_pages@[j].path@
                        && top_pages@[j].views == self.top_pages@[j].views,
            decreases self.top_pages@.len() - i,
        {
            top_pages.push(
                PageStats {
                    path: self.top_pages[i].path.clone(),
                    views: self.top_pages[i].views,
                },
            );
            i = i + 1;
        }
        let r = StatsResponse { total_views: self.total_views, today: self.today, top_pages };
        assert(r@.top_pages =~= self@.top_pages);
        r
    }
}

/// Sums over the rows that have been read.
#[verifier::ext_equal]
pub struct TallyState {
    /// The sum of all counts.
    pub total: int,
    /// The sum of today's counts.
    pub today: int,
    /// The sum of the counts of each path.
    pub pages: Map<Seq<char>, int>,
}

/// Whether `n` fits in 64 bits.
pub open spec fn in_range(n: int) -> bool {
    i64::MIN <= n <= i64::MAX
}

impl TallyState {
    /// Before the first row.
    pub open spec fn empty() -> TallyState {
        TallyState { total: 0, today: 0, pages: Map::empty() }
    }

    /// The views of `path` so far.
    pub open spec fn views_of(self, path: Seq<char>) -> int {
        if self.pages.contains_key(path) {
            self.pages[path]
        } else {
            0
        }
    }

    /// After one more row.
    pub open spec fn after(self, row: RowView, day: Seq<char>) -> TallyState {
        TallyState {
            total: self.total + row.count(),
            today: self.today + if row.is_of(day) {
                row.count()
            } else {
                0
            },
            pages: match row.path {
                Some(path) => self.pages.insert(path, self.views_of(path) + row.count()),
                None => self.pages,
            },
        }
    }

    /// Whether the sums after one more row fit in 64 bits.
    pub open spec fn fits(self, row: RowView, day: Seq<char>) -> bool {
        let next = self.after(row, day);
        &&& in_range(next.total)
        &&& in_range(next.today)
        &&& row.path is Some ==> in_range(next.pages[row.path->0])
    }
}

/// The sums after `rows`.
pub open spec fn tally(start: TallyState, rows: Seq<RowView>, day: Seq<char>) -> TallyState
    decreases rows.len(),
{
    if rows.len() == 0 {
        start
    } else {
        tally(start, rows.drop_last(), day).after(rows.last(), day)
    }
}

/// What `rows` hold.
pub open spec fn row_views(rows: Seq<ScanRow>) -> Seq<RowView> {
    rows.map_values(|row: ScanRow| row@)
}

/// Sums over the rows that have been read.
pub struct Tally {
    day: String,
    total: i64,
    today: i64,
    pages: Vec<PageStats>,
    /// Where the page of each path stands in `pages`.
    index: StringHashMap<usize>,
}

impl View for Tally {
    type V = TallyState;

    closed spec fn view(&self) -> TallyState {
        TallyState {
            total: self.total as int,
            today: self.today as int,
            pages: self.index@.map_values(|i: usize| self.pages@[i as int].views as int),
        }
    }
}

impl Tally {
    /// The day whose views are summed up apart.
    pub closed spec fn current_day(&self) -> Seq<char> {
        self.day@
    }

    /// Whether the index tells where each page stands.
    pub closed spec fn wf(&self) -> bool {
        &&& forall|i: int|
            0 <= i < self.pages@.len() ==> self.index@.contains_key(
                (#[trigger] self.pages@[i]).path@,
            ) && self.index@[self.pages@[i].path@] == i
        &&& forall|p: Seq<char>| #[trigger]
            self.index@.contains_key(p) ==> self.index@[p] < self.pages@.len()
                && self.pages@[self.index@[p] as int].path@ == p
    }

    /// No rows yet; `day` is today, as `YYYY-MM-DD`.
    pub fn new(day: String) -> (r: Tally)
        ensures
            r.wf(),
            r@ == TallyState::empty(),
            r.current_day() == day@,
    {
        let r = Tally {
            day,
            total: 0,
            today: 0,
            pages: Vec::new(),
            index: StringHashMap::new(),
        };
        assert(r@.pages =~= Map::<Seq<char>, int>::empty());
        r
    }

    /// Takes in a row if the sums then still fit in 64 bits, and tells whether they do.
    pub fn add_row(&mut self, row: &ScanRow) -> (taken: bool)
        requires
            old(self).wf(),
        ensures
            final(self).wf(),
            final(self).current_day() == old(self).current_day(),
            taken == old(self)@.fits(row@, old(self).current_day()),
            taken ==> final(self)@ == old(self)@.after(row@, old(self).current_day()),
            !taken ==> final(self)@ == old(self)@,
    {
        let count: i64 = match &row.views {
            Some(digits) => match parse_i64(digits.as_str()) {
                Some(n) => n,
                None => 0,
            },
            None => 0,
        };
        let is_today = match &row.date_hour {
            Some(hour) => starts_with(hour.as_str(), self.day.as_str()),
            None => false,
        };
        let total: i64 = match self.total.checked_add(count) {
            Some(n) => n,
            None => {
                return false;
            }
        };
        let today: i64 = if is_today {
            match self.today.checked_add(count) {
                Some(n) => n,
                None => {
                    return false;
                }
            }
        } else {
            self.today
        };
        match &row.path {
            None => {}
            Some(path) => {
                match self.index.get(path.as_str()) {
                    Some(i) => {
                        let at: usize = *i;
                        let views: i64 = match self.pages[at].views.checked_add(count) {
                            Some(n) => n,
                            None => {
                                return false;
                            }
                        };
                        let page = PageStats { path: path.clone(), views };
                        self.pages.set(at, page);
                    }
                    None => {
                        let at: usize = self.pages.len();
                        self.pages.push(PageStats { path: path.clone(), views: count });
                        self.index.insert(path.clone(), at);
                    }
                }
            }
        }
        self.total = total;
        self.today = today;
        assert(self@.pages =~= old(self)@.after(row@, old(self).current_day()).pages);
        true
    }

    /// Takes in the rows of one page of a scan, in order, up to the first with which the sums
    /// would no longer fit in 64 bits. Tells whether there was no such row.
    pub fn add_page(&mut self, rows: &Vec<ScanRow>) -> (taken: bool)
        requires
            old(self).wf(),
        ensures
            final(self).wf(),
            final(self).current_day() == old(self).current_day(),
            taken == all_fit(old(self)@, row_views(rows@), old(self).current_day()),
            taken ==> final(self)@ == tally(
                old(self)@,
                row_views(rows@),
                old(self).current_day(),
            ),
            !taken ==> exists|k: int|
                0 <= k < rows@.len() && final(self)@ == tally(
                    old(self)@,
                    #[trigger] row_views(rows@).take(k),
                    old(self).current_day(),
                ) && !final(self)@.fits(row_views(rows@)[k], old(self).current_day()),
    {
        let ghost day = self.current_day();
        let ghost views = row_views(rows@);
        let mut i: usize = 0;
        assert(views.take(0) =~= Seq::<RowView>::empty());
        while i < rows.len()
            invariant
                i <= rows@.len(),
                self.wf(),
                self.current_day() == day,
                views == row_views(rows@),
                day == old(self).current_day(),
                self@ == tally(old(self)@, views.take(i as int), day),
                forall|k: int|
                    0 <= k < i ==> tally(old(self)@, #[trigger] views.take(k), day).fits(
                        views[k],
                        day,
                    ),
            decreases rows@.len() - i,
        {
            assert(views.take(i + 1).drop_last() =~= views.take(i as int));
            assert(views[i as int] == rows@[i as int]@);
            if !self.add_row(&rows[i]) {
                assert(!tally(old(self)@, views.take(i as int), day).fits(views[i as int], day));
                return false;
            }
            i = i + 1;
        }
        assert(views.take(i as int) =~= views);
        true
    }

    /// The statistics over the rows that have been read.
    pub fn finish(self) -> (r: StatsResponse)
        requires
            self.wf(),
        ensures
            r@.total_views == self@.total,
            r@.today == self@.today,
            lists_top_pages(r@.top_pages, self@.pages),
    {
        let ghost pages = self@.pages;
        let total_views: i64 = self.total;
        let today: i64 = self.today;
        let ghost list = page_list(self.pages@);
        proof {
            assert forall|p: Seq<char>| #[trigger] pages.contains_key(p) implies exists|i: int|
                0 <= i < list.len() && (#[trigger] list[i]).0 == p && list[i].1 == pages[p] by {
                let i = self.index@[p] as int;
                assert(list[i] == (self.pages@[i].path@, self.pages@[i].views as int));
            }
            assert forall|i: int| 0 <= i < list.len() implies pages.contains_key(
                (#[trigger] list[i]).0,
            ) && pages[list[i].0] == list[i].1 by {
                assert(self.index@.contains_key(self.pages@[i].path@));
            }
            assert forall|i: int, j: int| 0 <= i < j < list.len() implies (#[trigger] list[i]).0
                != (#[trigger] list[j]).0 by {
                assert(self.index@[self.pages@[i].path@] == i);
                assert(self.index@[self.pages@[j].path@] == j);
            }
            assert(lists_all(list, pages));
        }
        let top_pages = top_pages(self.pages, Ghost(pages));
        StatsResponse { total_views, today, top_pages }
    }
}

/// Whether the sums fit in 64 bits after each of `rows`.
pub open spec fn all_fit(start: TallyState, rows: Seq<RowView>, day: Seq<char>) -> bool {
    forall|k: int|
        0 <= k < rows.len() ==> tally(start, #[trigger] rows.take(k), day).fits(rows[k], day)
}

/// Whether `list` names each path of `pages` once, with its views.
spec fn lists_all(list: Seq<(Seq<char>, int)>, pages: Map<Seq<char>, int>) -> bool {
    &&& forall|i: int, j: int|
        0 <= i < j < list.len() ==> (#[trigger] list[i]).0 != (#[trigger] list[j]).0
    &&& forall|i: int|
        0 <= i < list.len() ==> pages.contains_key((#[trigger] list[i]).0) && pages[list[i].0]
            == list[i].1
    &&& forall|p: Seq<char>| #[trigger]
        pages.contains_key(p) ==> exists|i: int|
            0 <= i < list.len() && (#[trigger] list[i]).0 == p && list[i].1 == pages[p]
}

/// Whether `top` lists pages with the most views, most first: each once and with its views, as
/// many as there are up to the most that are listed, and none that has fewer views than one left
/// out. Which of several pages with the same views are listed, and in which order, is left open.
pub open spec fn lists_top_pages(
    top: Seq<(Seq<char>, int)>,
    pages: Map<Seq<char>, int>,
) -> bool {
    &&& top.len() == if pages.dom().len() < MAX_TOP_PAGES {
        pages.dom().len()
    } else {
        MAX_TOP_PAGES as nat
    }
    &&& forall|i: int, j: int|
        0 <= i < j < top.len() ==> (#[trigger] top[i]).0 != (#[trigger] top[j]).0 && top[i].1
            >= top[j].1
    &&& forall|i: int|
        0 <= i < top.len() ==> pages.contains_key((#[trigger] top[i]).0) && pages[top[i].0]
            == top[i].1
    &&& forall|p: Seq<char>| #[trigger]
        pages.contains_key(p) ==> (exists|j: int| 0 <= j < top.len() && (#[trigger] top[j]).0 == p)
            || (top.len() == MAX_TOP_PAGES && forall|i: int|
            0 <= i < top.len() ==> pages[p] <= (#[trigger] top[i]).1)
}

/// The position of a page with the most views.
fn most_viewed(pages: &Vec<PageStats>) -> (at: usize)
    requires
        pages@.len() > 0,
    ensures
        at < pages@.len(),
        forall|i: int| 0 <= i < pages@.len() ==> (#[trigger] pages@[i]).views <= pages@[at as int].views,
{
    let mut at: usize = 0;
    let mut i: usize = 1;
    while i < pages.len()
        invariant
            at < i <= pages@.len(),
            forall|j: int| 0 <= j < i ==> (#[trigger] pages@[j]).views <= pages@[at as int].views,
        decreases pages@.len() - i,
    {
        if pages[i].views > pages[at].views {
            at = i;
        }
        i = i + 1;
    }
    at
}

/// The pages with the most views, most first.
fn top_pages(pages: Vec<PageStats>, Ghost(totals): Ghost<Map<Seq<char>, int>>) -> (top: Vec<PageStats>)
    requires
        lists_all(page_list(pages@), totals),
    ensures
        lists_top_pages(page_list(top@), totals),
{
    let mut rest = pages;
    let mut top: Vec<PageStats> = Vec::new();
    assert(page_list(top@) + page_list(rest@) =~= page_list(pages@));
    while top.len() < MAX_TOP_PAGES && rest.len() > 0
        invariant
            top@.len() <= MAX_TOP_PAGES,
            lists_all(page_list(top@) + page_list(rest@), totals),
            forall|i: int, j: int|
                0 <= i < j < top@.len() ==> (#[trigger] top@[i]).views >= (#[trigger] top@[j]).views,
            forall|i: int, j: int|
                0 <= i < top@.len() && 0 <= j < rest@.len() ==> (#[trigger] top@[i]).views >= (
                #[trigger] rest@[j]).views,
        decreases rest@.len(),
    {
        let ghost rest_before = rest@;
        let ghost top_before = top@;
        let at: usize = most_viewed(&rest);
        let page = rest.remove(at);
        top.push(page);
        proof {
            lemma_moved(top_before, rest_before, at as int, totals);
            assert(top@ =~= top_before.push(rest_before[at as int]));
            assert(rest@ =~= rest_before.remove(at as int));
            assert forall|i: int, j: int| 0 <= i < top@.len() && 0 <= j < rest@.len() implies (
            #[trigger] top@[i]).views >= (#[trigger] rest@[j]).views by {
                let k = if j < at {
                    j
                } else {
                    j + 1
                };
                assert(rest@[j] == rest_before[k]);
            }
            assert forall|i: int, j: int| 0 <= i < j < top@.len() implies (
            #[trigger] top@[i]).views >= (#[trigger] top@[j]).views by {
                if j == top_before.len() {
                    assert(top_before[i].views >= rest_before[at as int].views);
                }
            }
        }
    }
    proof {
        lemma_top(top@, rest@, totals);
    }
    top
}

/// Moving a page from one list to another keeps the two lists together complete.
proof fn lemma_moved(
    top: Seq<PageStats>,
    rest: Seq<PageStats>,
    at: int,
    totals: Map<Seq<char>, int>,
)
    requires
        0 <= at < rest.len(),
        lists_all(page_list(top) + page_list(rest), totals),
    ensures
        lists_all(page_list(top.push(rest[at])) + page_list(rest.remove(at)), totals),
{
    let before = page_list(top) + page_list(rest);
    let after = page_list(top.push(rest[at])) + page_list(rest.remove(at));
    let n = top.len() as int;
    assert forall|i: int| 0 <= i < after.len() implies (#[trigger] after[i]) == before[moved_from(
        n,
        at,
        i,
    )] by {
        if i > n {
            assert(rest.remove(at)[i - n - 1] == rest[moved_from(n, at, i) - n]);
        }
    }
    assert forall|p: Seq<char>| #[trigger] totals.contains_key(p) implies exists|i: int|
        0 <= i < after.len() && (#[trigger] after[i]).0 == p && after[i].1 == totals[p] by {
        let k = choose|k: int|
            0 <= k < before.len() && (#[trigger] before[k]).0 == p && before[k].1 == totals[p];
        let i = if k < n {
            k
        } else if k == n + at {
            n
        } else if k < n + at {
            k + 1
        } else {
            k
        };
        assert(moved_from(n, at, i) == k);
        assert(after[i] == before[k]);
    }
}

/// Where the entry at `i` stood before the one at `n + at` was moved to `n`.
spec fn moved_from(n: int, at: int, i: int) -> int {
    if i < n {
        i
    } else if i == n {
        n + at
    } else if i <= n + at {
        i - 1
    } else {
        i
    }
}

/// The front of a complete list whose rest has no more views lists the top pages.
proof fn lemma_top(top: Seq<PageStats>, rest: Seq<PageStats>, totals: Map<Seq<char>, int>)
    requires
        lists_all(page_list(top) + page_list(rest), totals),
        top.len() <= MAX_TOP_PAGES,
        top.len() == MAX_TOP_PAGES || rest.len() == 0,
        forall|i: int, j: int|
            0 <= i < j < top.len() ==> (#[trigger] top[i]).views >= (#[trigger] top[j]).views,
        forall|i: int, j: int|
            0 <= i < top.len() && 0 <= j < rest.len() ==> (#[trigger] top[i]).views >= (
            #[trigger] rest[j]).views,
    ensures
        lists_top_pages(page_list(top), totals),
{
    let all = page_list(top) + page_list(rest);
    let list = page_list(top);
    let paths = all.map_values(|e: (Seq<char>, int)| e.0);
    assert(paths.no_duplicates());
    assert(paths.to_set() =~= totals.dom()) by {
        assert forall|p: Seq<char>| #[trigger] totals.dom().contains(p) implies paths.to_set().contains(
            p,
        ) by {
            assert(totals.contains_key(p));
            let i = choose|i: int|
                0 <= i < all.len() && (#[trigger] all[i]).0 == p && all[i].1 == totals[p];
            assert(paths[i] == p);
        }
        assert forall|p: Seq<char>| #[trigger] paths.to_set().contains(p) implies totals.dom().contains(
            p,
        ) by {
            let i = choose|i: int| 0 <= i < paths.len() && paths[i] == p;
            assert(all[i].0 == p);
        }
    }
    paths.unique_seq_to_set();
    assert forall|i: int| 0 <= i < list.len() implies #[trigger] list[i] == all[i] by {}
    assert forall|p: Seq<char>| #[trigger] totals.contains_key(p) implies (exists|j: int|
        0 <= j < list.len() && (#[trigger] list[j]).0 == p) || (list.len() == MAX_TOP_PAGES
        && forall|i: int| 0 <= i < list.len() ==> totals[p] <= (#[trigger] list[i]).1) by {
        let k = choose|k: int|
            0 <= k < all.len() && (#[trigger] all[k]).0 == p && all[k].1 == totals[p];
        if k < list.len() {
            assert(list[k].0 == p);
        } else {
            assert(all[k] == page_list(rest)[k - list.len()]);
            assert forall|i: int| 0 <= i < list.len() implies totals[p] <= (
            #[trigger] list[i]).1 by {
                assert(top[i].views >= rest[k - list.len()].views);
            }
        }
    }
}

/// Where a scan is cut into pages makes no difference, neither to the sums nor to whether they
/// fit.
pub proof fn page_breaks_do_not_matter(
    start: TallyState,
    first: Seq<RowView>,
    second: Seq<RowView>,
    day: Seq<char>,
)
    ensures
        tally(start, first + second, day) == tally(tally(start, first, day), second, day),
        all_fit(start, first + second, day) <==> all_fit(start, first, day) && all_fit(
            tally(start, first, day),
            second,
            day,
        ),
{
    lemma_tally_concat(start, first, second, day);
    let both = first + second;
    let middle = tally(start, first, day);
    assert forall|k: int| 0 <= k < first.len() implies both.take(k) == first.take(k) && both[k]
        == first[k] by {
        assert(both.take(k) =~= first.take(k));
    }
    assert forall|k: int| 0 <= k < second.len() implies tally(
        start,
        #[trigger] both.take(first.len() + k),
        day,
    ) == tally(middle, second.take(k), day) by {
        assert(both.take(first.len() + k) =~= first + second.take(k));
        lemma_tally_concat(start, first, second.take(k), day);
    }
    if all_fit(start, both, day) {
        assert forall|k: int| 0 <= k < first.len() implies tally(
            start,
            #[trigger] first.take(k),
            day,
        ).fits(first[k], day) by {
            assert(tally(start, both.take(k), day).fits(both[k], day));
        }
        assert forall|k: int| 0 <= k < second.len() implies tally(
            middle,
            #[trigger] second.take(k),
            day,
        ).fits(second[k], day) by {
            let i = first.len() + k;
            assert(tally(start, both.take(i), day).fits(both[i], day));
        }
    }
    if all_fit(start, first, day) && all_fit(middle, second, day) {
        assert forall|k: int| 0 <= k < both.len() implies tally(
            start,
            #[trigger] both.take(k),
            day,
        ).fits(both[k], day) by {
            if k < first.len() {
                assert(tally(start, first.take(k), day).fits(first[k], day));
            } else {
                let i = k - first.len();
                assert(tally(middle, second.take(i), day).fits(second[i], day));
                assert(both.take(first.len() + i) == both.take(k));
            }
        }
    }
}

/// The sums after two runs of rows are those after the second, from those after the first.
proof fn lemma_tally_concat(
    start: TallyState,
    first: Seq<RowView>,
    second: Seq<RowView>,
    day: Seq<char>,
)
    ensures
        tally(start, first + second, day) == tally(tally(start, first, day), second, day),
    decreases second.len(),
{
    if second.len() == 0 {
        assert(first + second =~= first);
    } else {
        lemma_tally_concat(start, first, second.drop_last(), day);
        assert((first + second).drop_last() =~= first + second.drop_last());
    }
}

/// In which order the rows of a scan come makes no difference to the sums.
pub proof fn row_order_does_not_matter(
    start: TallyState,
    rows: Seq<RowView>,
    reordered: Seq<RowView>,
    day: Seq<char>,
)
    requires
        rows.to_multiset() == reordered.to_multiset(),
    ensures
        tally(start, rows, day) == tally(start, reordered, day),
{
    let step = |sums: TallyState, row: RowView| sums.after(row, day);
    assert forall|x: RowView, y: RowView, sums: TallyState| #[trigger]
        step(step(sums, x), y) == step(step(sums, y), x) by {
        assert(sums.after(x, day).after(y, day) =~= sums.after(y, day).after(x, day));
    }
    vstd::seq_lib::lemma_fold_left_permutation(rows, reordered, step, start);
    lemma_tally_is_a_fold(start, rows, day, step);
    lemma_tally_is_a_fold(start, reordered, day, step);
}

/// The sums are built up row by row.
proof fn lemma_tally_is_a_fold(
    start: TallyState,
    rows: Seq<RowView>,
    day: Seq<char>,
    step: spec_fn(TallyState, RowView) -> TallyState,
)
    requires
        forall|sums: TallyState, row: RowView| #[trigger] step(sums, row) == sums.after(row, day),
    ensures
        tally(start, rows, day) == rows.fold_left(start, step),
    decreases rows.len(),
{
    if rows.len() > 0 {
        lemma_tally_is_a_fold(start, rows.drop_last(), day, step);
    }
}

/// The row under which the views of `path` in the hour `secs` seconds after the start of 1970 are
/// stored, when there are `n`.
pub open spec fn stored_row(path: Seq<char>, secs: nat, n: nat) -> RowView {
    RowView {
        path: Some(path),
        date_hour: Some(time::date_hour_text(secs)),
        views: Some(text::decimal(n)),
    }
}

/// A stored counter is summed up as it was counted: its views are added to the total, to its path
/// and to no other, and to today's exactly if its hour lies in today. Both days are to lie before
/// the year 10000.
pub proof fn a_stored_counter_is_summed_up(
    sums: TallyState,
    path: Seq<char>,
    secs: nat,
    n: nat,
    today_secs: nat,
    other: Seq<char>,
)
    requires
        n <= i64::MAX,
        other != path,
        time::date_of_days((secs / 86400) as int).year <= 9999,
        time::date_of_days((today_secs / 86400) as int).year <= 9999,
    ensures
        ({
            let after = sums.after(
                stored_row(path, secs, n),
                time::date_hour_text(today_secs).take(10),
            );
            &&& after.total == sums.total + n
            &&& after.today == sums.today + if secs / 86400 == today_secs / 86400 {
                n as int
            } else {
                0
            }
            &&& after.views_of(path) == sums.views_of(path) + n
            &&& after.views_of(other) == sums.views_of(other)
        }),
{
    text::a_written_number_reads_back(n);
    time::hours_start_with_their_day(secs, today_secs);
}

/// A scan over all counters, as it goes to DynamoDB.
pub struct ScanRequest {
    /// The table.
    pub table_name: String,
    /// The attributes that are read.
    pub projection_expression: String,
    /// The attribute that `#p` stands for.
    pub path_attribute: String,
    /// The attribute that `#v` stands for.
    pub count_attribute: String,
}

/// Makes the scan over all counters of a table.
pub fn scan_request(table_name: &str) -> (r: ScanRequest)
    ensures
        r.table_name@ == table_name@,
        r.projection_expression@ == "#p, dateHour, #v"@,
        r.path_attribute@ == "path"@,
        r.count_attribute@ == "views"@,
{
    ScanRequest {
        table_name: table_name.to_string(),
        projection_expression: "#p, dateHour, #v".to_string(),
        path_attribute: "path".to_string(),
        count_attribute: "views".to_string(),
    }
}

/// Tells whether a scan goes on, from the number of attributes in the key at which its page ended.
pub fn scan_goes_on(last_key_len: Option<usize>) -> (r: bool)
    ensures
        r == (last_key_len is Some && last_key_len->0 > 0),
{
    match last_key_len {
        Some(n) => n > 0,
        None => false,
    }
}

/// The sum of the counts of those of `rows` that are picked.
pub open spec fn sum_of(rows: Seq<RowView>, picked: spec_fn(RowView) -> bool) -> int
    decreases rows.len(),
{
    if rows.len() == 0 {
        0
    } else {
        sum_of(rows.drop_last(), picked) + if picked(rows.last()) {
            rows.last().count()
        } else {
            0
        }
    }
}

/// The statistics are sums of the rows' counts: the total of all of them, today's of those whose
/// hour starts with today's text, and a page's of those with its path. The pages are the paths of
/// the rows.
pub proof fn statistics_are_sums_of_counts(
    start: TallyState,
    rows: Seq<RowView>,
    day: Seq<char>,
    path: Seq<char>,
)
    ensures
        tally(start, rows, day).total == start.total + sum_of(rows, |r: RowView| true),
        tally(start, rows, day).today == start.today + sum_of(
            rows,
            |r: RowView| r.date_hour is Some && day.is_prefix_of(r.date_hour->0),
        ),
        tally(start, rows, day).views_of(path) == start.views_of(path) + sum_of(
            rows,
            |r: RowView| r.path == Some(path),
        ),
        tally(start, rows, day).pages.contains_key(path) <==> start.pages.contains_key(path)
            || exists|i: int| 0 <= i < rows.len() && (#[trigger] rows[i]).path == Some(path),
    decreases rows.len(),
{
    if rows.len() > 0 {
        let init = rows.drop_last();
        let last = rows.len() - 1;
        statistics_are_sums_of_counts(start, init, day, path);
        if rows[last].date_hour is Some {
            lemma_prefix_forms(rows[last].date_hour->0, day);
        }
        if exists|i: int| 0 <= i < init.len() && (#[trigger] init[i]).path == Some(path) {
            let i = choose|i: int| 0 <= i < init.len() && (#[trigger] init[i]).path == Some(path);
            assert(rows[i].path == Some(path));
        }
        if exists|i: int| 0 <= i < rows.len() && (#[trigger] rows[i]).path == Some(path) {
            let i = choose|i: int| 0 <= i < rows.len() && (#[trigger] rows[i]).path == Some(path);
            if i < last {
                assert(init[i].path == Some(path));
            }
        }
        assert(rows[last] == rows.last());
    }
}

/// Two ways to say that a text starts with another.
proof fn lemma_prefix_forms(s: Seq<char>, prefix: Seq<char>)
    ensures
        text::has_prefix(s, prefix) <==> prefix.is_prefix_of(s),
{
    if prefix.len() <= s.len() {
        assert(s.take(prefix.len() as int) =~= s.subrange(0, prefix.len() as int));
    }
}

/// A row is taken exactly if its count can be added, within 64 bits, to the total, to its page, and
/// to today's views if it is of today; and then that is what is done. Its count is the integer
/// that it writes, or nothing.
pub proof fn a_row_is_taken_exactly_if_its_sums_fit(
    t: &mut Tally,
    row: &ScanRow,
    digits: &str,
    read: Option<i64>,
    taken: bool,
)
    requires
        old(t).wf(),
        call_ensures(Tally::add_row, (t, row), taken),
        call_ensures(parse_i64, (digits,), read),
        row.views is Some ==> row.views->0@ == digits@,
    ensures
        ({
            let n: int = if row.views is Some && read is Some {
                read->0 as int
            } else {
                0
            };
            let of_today = row.date_hour is Some && old(t).current_day().is_prefix_of(
                row.date_hour->0@,
            );
            let total = old(t)@.total + n;
            let today = if of_today {
                old(t)@.today + n
            } else {
                old(t)@.today
            };
            let page = if row.path is Some && old(t)@.pages.contains_key(row.path->0@) {
                old(t)@.pages[row.path->0@] + n
            } else {
                n
            };
            &&& taken <==> -0x8000_0000_0000_0000 <= total <= 0x7fff_ffff_ffff_ffff
                && -0x8000_0000_0000_0000 <= today <= 0x7fff_ffff_ffff_ffff && (row.path is None
                || -0x8000_0000_0000_0000 <= page <= 0x7fff_ffff_ffff_ffff)
            &&& taken ==> final(t)@.total == total && final(t)@.today == today
            &&& taken && row.path is Some ==> final(t)@.pages == old(t)@.pages.insert(
                row.path->0@,
                page,
            )
            &&& taken && row.path is None ==> final(t)@.pages == old(t)@.pages
            &&& !taken ==> final(t)@ == old(t)@
        }),
{
    if row.date_hour is Some {
        lemma_prefix_forms(row.date_hour->0@, old(t).current_day());
    }
}

/// Whether sums are those of counters: nothing is negative, and neither today nor a page has more
/// views than there are in all.
pub open spec fn sums_of_counters(sums: TallyState) -> bool {
    &&& 0 <= sums.today <= sums.total
    &&& forall|p: Seq<char>| #[trigger]
        sums.pages.contains_key(p) ==> 0 <= sums.pages[p] <= sums.total
}

/// Counters are all taken, in whatever order and pages they come, as long as all views together fit
/// in 64 bits: there is no other limit, neither on a day nor on a page.
pub proof fn counters_are_all_taken(t: &mut Tally, rows: &Vec<ScanRow>, taken: bool)
    requires
        old(t).wf(),
        sums_of_counters(old(t)@),
        call_ensures(Tally::add_page, (t, rows), taken),
        forall|i: int| 0 <= i < rows@.len() ==> (#[trigger] row_views(rows@)[i]).count() >= 0,
        old(t)@.total + sum_of(row_views(rows@), |r: RowView| true) <= 0x7fff_ffff_ffff_ffff,
    ensures
        taken,
        sums_of_counters(final(t)@),
        final(t)@.total == old(t)@.total + sum_of(row_views(rows@), |r: RowView| true),
        sums_of_counters(TallyState::empty()),
{
    let views = row_views(rows@);
    let day = old(t).current_day();
    lemma_counters_fit(old(t)@, views, day);
    statistics_are_sums_of_counts(old(t)@, views, day, Seq::empty());
}

/// Counters keep their sums within what all views make up.
proof fn lemma_counters_fit(start: TallyState, rows: Seq<RowView>, day: Seq<char>)
    requires
        sums_of_counters(start),
        forall|i: int| 0 <= i < rows.len() ==> (#[trigger] rows[i]).count() >= 0,
        start.total + sum_of(rows, |r: RowView| true) <= 0x7fff_ffff_ffff_ffff,
    ensures
        all_fit(start, rows, day),
        sums_of_counters(tally(start, rows, day)),
        tally(start, rows, day).total == start.total + sum_of(rows, |r: RowView| true),
        sum_of(rows, |r: RowView| true) >= 0,
    decreases rows.len(),
{
    if rows.len() > 0 {
        let init = rows.drop_last();
        let last = rows.len() - 1;
        assert forall|i: int| 0 <= i < init.len() implies (#[trigger] init[i]).count() >= 0 by {
            assert(init[i] == rows[i]);
        }
        assert(rows[last].count() >= 0);
        lemma_counters_fit(start, init, day);
        let before = tally(start, init, day);
        let after = before.after(rows[last], day);
        assert forall|p: Seq<char>| #[trigger] after.pages.contains_key(p) implies 0
            <= after.pages[p] <= after.total by {
            if before.pages.contains_key(p) {
            }
        }
        if rows[last].path is Some {
            assert(after.pages.contains_key(rows[last].path->0));
        }
        assert(before.fits(rows[last], day));
        assert forall|k: int| 0 <= k < rows.len() implies tally(
            start,
            #[trigger] rows.take(k),
            day,
        ).fits(rows[k], day) by {
            if k < last {
                assert(rows.take(k) =~= init.take(k));
                assert(tally(start, init.take(k), day).fits(init[k], day));
            } else {
                assert(rows.take(k) =~= init);
            }
        }
    }
}

/// The statistics give the sums, and list up to ten pages, each once and with its views, most
/// first. A page is left out only where ten others are listed, none of which has fewer views.
pub proof fn the_ten_pages_with_the_most_views_are_listed(
    t: Tally,
    r: StatsResponse,
    path: Seq<char>,
    i: int,
    j: int,
)
    requires
        t.wf(),
        call_ensures(Tally::finish, (t,), r),
    ensures
        r.total_views == t@.total,
        r.today == t@.today,
        r.top_pages@.len() <= 10,
        0 <= i < j < r.top_pages@.len() ==> r.top_pages@[i].views >= r.top_pages@[j].views
            && r.top_pages@[i].path@ != r.top_pages@[j].path@,
        0 <= i < r.top_pages@.len() ==> t@.pages.contains_key(r.top_pages@[i].path@)
            && r.top_pages@[i].views == t@.pages[r.top_pages@[i].path@],
        t@.pages.contains_key(path) && (forall|k: int|
            0 <= k < r.top_pages@.len() ==> (#[trigger] r.top_pages@[k]).path@ != path)
            ==> r.top_pages@.len() == 10 && (0 <= i < 10 ==> t@.pages[path]
            <= r.top_pages@[i].views),
{
    let top = r@.top_pages;
    assert(lists_top_pages(top, t@.pages));
    assert forall|k: int| 0 <= k < top.len() implies #[trigger] top[k] == (
        r.top_pages@[k].path@,
        r.top_pages@[k].views as int,
    ) by {}
    if 0 <= i < j < top.len() {
        assert(top[i].0 != top[j].0 && top[i].1 >= top[j].1);
    }
    if 0 <= i < top.len() {
        assert(t@.pages.contains_key(top[i].0));
    }
    if t@.pages.contains_key(path) && (forall|k: int|
        0 <= k < r.top_pages@.len() ==> (#[trigger] r.top_pages@[k]).path@ != path) {
        assert(!exists|k: int| 0 <= k < top.len() && (#[trigger] top[k]).0 == path) by {
            if exists|k: int| 0 <= k < top.len() && (#[trigger] top[k]).0 == path {
                let k = choose|k: int| 0 <= k < top.len() && (#[trigger] top[k]).0 == path;
                assert(r.top_pages@[k].path@ == path);
            }
        }
        if 0 <= i < 10 {
            assert(t@.pages[path] <= top[i].1);
        }
    }
}

/// A copy of statistics says the same in every place.
pub proof fn a_copy_says_the_same(s: &StatsResponse, r: StatsResponse, i: int)
    requires
        call_ensures(StatsResponse::duplicate, (s,), r),
    ensures
        r.total_views == s.total_views,
        r.today == s.today,
        r.top_pages@.len() == s.top_pages@.len(),
        0 <= i < s.top_pages@.len() ==> r.top_pages@[i].path@ == s.top_pages@[i].path@
            && r.top_pages@[i].views == s.top_pages@[i].views,
{
    assert(r@.top_pages == s@.top_pages);
    assert(r@.top_pages.len() == r.top_pages@.len() && s@.top_pages.len() == s.top_pages@.len());
    if 0 <= i < s.top_pages@.len() {
        assert(r@.top_pages[i] == (r.top_pages@[i].path@, r.top_pages@[i].views as int));
        assert(s@.top_pages[i] == (s.top_pages@[i].path@, s.top_pages@[i].views as int));
    }
}

/// A new tally of a day has counted nothing; a scan goes on exactly from a key that is not empty.
pub proof fn a_tally_starts_with_nothing(
    day: String,
    t: Tally,
    last_key_len: Option<usize>,
    goes_on: bool,
)
    requires
        call_ensures(Tally::new, (day,), t),
        call_ensures(scan_goes_on, (last_key_len,), goes_on),
    ensures
        t.wf(),
        t@.total == 0 && t@.today == 0 && t@.pages.dom() == Set::<Seq<char>>::empty(),
        t.current_day() == day@,
        goes_on <==> last_key_len is Some && last_key_len->0 != 0,
{
    assert(t@.pages.dom() =~= Set::<Seq<char>>::empty());
}

/// A page of rows is taken as its rows are, one after the other: one row more is taken exactly if the
/// others are and it is taken after them, and then the sums are the same. An empty page is taken
/// and changes nothing.
pub proof fn a_page_is_taken_row_by_row(
    t: &mut Tally,
    rows: &Vec<ScanRow>,
    taken: bool,
    next: &mut Tally,
    row: &ScanRow,
    row_taken: bool,
    whole: &mut Tally,
    all: &Vec<ScanRow>,
    all_taken: bool,
)
    requires
        old(t).wf(),
        call_ensures(Tally::add_page, (t, rows), taken),
        old(next).wf(),
        old(next)@ == final(t)@,
        old(next).current_day() == final(t).current_day(),
        call_ensures(Tally::add_row, (next, row), row_taken),
        old(whole).wf(),
        old(whole)@ == old(t)@,
        old(whole).current_day() == old(t).current_day(),
        call_ensures(Tally::add_page, (whole, all), all_taken),
        all@.len() == rows@.len() + 1,
        forall|i: int| 0 <= i < rows@.len() ==> #[trigger] all@[i]@ == rows@[i]@,
        all@[rows@.len() as int]@ == row@,
    ensures
        all_taken <==> taken && row_taken,
        all_taken ==> final(whole)@ == final(next)@,
        rows@.len() == 0 ==> taken && final(t)@ == old(t)@,
{
    let day = old(t).current_day();
    let few = row_views(rows@);
    let many = row_views(all@);
    assert(many =~= few.push(row@));
    assert(many.drop_last() =~= few);
    let last = few.len() as int;
    assert(many.take(last) =~= few);
    if all_fit(old(t)@, many, day) {
        assert forall|k: int| 0 <= k < few.len() implies tally(
            old(t)@,
            #[trigger] few.take(k),
            day,
        ).fits(few[k], day) by {
            assert(many.take(k) =~= few.take(k));
            assert(tally(old(t)@, many.take(k), day).fits(many[k], day));
        }
        assert(tally(old(t)@, many.take(last), day).fits(many[last], day));
    }
    if all_fit(old(t)@, few, day) && tally(old(t)@, few, day).fits(row@, day) {
        assert forall|k: int| 0 <= k < many.len() implies tally(
            old(t)@,
            #[trigger] many.take(k),
            day,
        ).fits(many[k], day) by {
            if k < last {
                assert(many.take(k) =~= few.take(k));
                assert(tally(old(t)@, few.take(k), day).fits(few[k], day));
            }
        }
    }
}

} // verus!
