//! The aggregation run: per-key accumulators, the summary, and the report.
use vstd::prelude::*;
use crate::entry::ChildSizeEntry;
use crate::glob::{built_from, passes, FilterError, GlobFilter};
use crate::key::{chars_of, key, key_of};
use crate::order::{key_le, lemma_in_order, lemma_in_order_antisymmetric, SortMode};

verus! {

broadcast use vstd::seq_lib::group_to_multiset_ensures;

/// The choices of one run.
pub struct Opts {
    /// Roots to walk, in order.
    pub paths: Vec<String>,
    /// Glob patterns on file names; none means every file counts.
    pub patterns: Vec<String>,
    /// The field rows are sorted by.
    pub sort: SortMode,
    /// List rows in descending order.
    pub reverse: bool,
    /// Append the summary of all files.
    pub show_summary: bool,
}

/// What a run reports: one row per key, in order, and the summary when asked for.
pub struct Report {
    pub rows: Vec<(String, ChildSizeEntry)>,
    pub summary: Option<ChildSizeEntry>,
}

/// Rows read as keys and accumulators.
pub open spec fn row_views(rows: Seq<(String, ChildSizeEntry)>) -> Seq<(Seq<char>, ChildSizeEntry)> {
    rows.map_values(|r: (String, ChildSizeEntry)| (r.0@, r.1))
}

/// Every earlier row may come before every later one.
pub open spec fn sorted_by(
    mode: SortMode,
    reverse: bool,
    rows: Seq<(Seq<char>, ChildSizeEntry)>,
) -> bool {
    forall|i: int, j: int|
        0 <= i < j < rows.len() ==> mode.in_order(reverse, #[trigger] rows[i], #[trigger] rows[j])
}

/// No key occurs twice.
pub open spec fn keys_unique(g: Seq<(Seq<char>, ChildSizeEntry)>) -> bool {
    forall|i: int, j: int| 0 <= i < j < g.len() ==> #[trigger] g[i].0 != #[trigger] g[j].0
}

/// The groups after one file of `size` bytes is counted under key `k`: the
/// group of that key folds it in, or a new group is added at the end.
pub open spec fn fold_into(
    g: Seq<(Seq<char>, ChildSizeEntry)>,
    k: Seq<char>,
    size: u64,
) -> Seq<(Seq<char>, ChildSizeEntry)> {
    if exists|i: int| 0 <= i < g.len() && #[trigger] g[i].0 == k {
        let i = choose|i: int| 0 <= i < g.len() && #[trigger] g[i].0 == k;
        g.update(i, (k, g[i].1.folded_with(size)))
    } else {
        g.push((k, ChildSizeEntry::empty().folded_with(size)))
    }
}

/// Every group holds at least one file.
pub open spec fn groups_nonempty(g: Seq<(Seq<char>, ChildSizeEntry)>) -> bool {
    forall|i: int| 0 <= i < g.len() ==> (#[trigger] g[i]).1.count > 0
}

/// Every group with its average brought up to date.
pub open spec fn finalized_all(g: Seq<(Seq<char>, ChildSizeEntry)>) -> Seq<
    (Seq<char>, ChildSizeEntry),
> {
    g.map_values(|r: (Seq<char>, ChildSizeEntry)| (r.0, r.1.finalized()))
}

/// The key a file is counted under: its grouping key, or the empty string when
/// it lies outside its root.
pub open spec fn group_key(path: Seq<char>, base: Seq<char>) -> Seq<char> {
    match key_of(path, base) {
        Some(k) => k,
        None => Seq::empty(),
    }
}

/// Whether row `a` may come before row `b`.
fn before(mode: SortMode, reverse: bool, a: &(String, ChildSizeEntry), b: &(String, ChildSizeEntry)) -> (r: bool)
    ensures
        r == mode.in_order(reverse, (a.0@, a.1), (b.0@, b.1)),
{
    let (x, y) = if reverse { (b, a) } else { (a, b) };
    let mx = mode.metric(&x.1);
    let my = mode.metric(&y.1);
    if mx != my {
        mx < my
    } else {
        keys_le(&x.0, &y.0)
    }
}

/// Whether key `a` is ordered before or equal to key `b`.
fn keys_le(a: &String, b: &String) -> (r: bool)
    ensures
        r == key_le(a@, b@),
{
    let x = chars_of(a.as_str());
    let y = chars_of(b.as_str());
    let mut i: usize = 0;
    assert(x@.subrange(0, x@.len() as int) =~= a@);
    assert(y@.subrange(0, y@.len() as int) =~= b@);
    while i < x.len() && i < y.len() && x[i] as u32 == y[i] as u32
        invariant
            i <= x@.len(),
            i <= y@.len(),
            key_le(a@, b@) == key_le(
                x@.subrange(i as int, x@.len() as int),
                y@.subrange(i as int, y@.len() as int),
            ),
        decreases x@.len() - i,
    {
        assert(x@.subrange(i as int, x@.len() as int).drop_first() =~= x@.subrange(
            i + 1,
            x@.len() as int,
        ));
        assert(y@.subrange(i as int, y@.len() as int).drop_first() =~= y@.subrange(
            i + 1,
            y@.len() as int,
        ));
        i = i + 1;
    }
    let ghost xs = x@.subrange(i as int, x@.len() as int);
    let ghost ys = y@.subrange(i as int, y@.len() as int);
    if i == x.len() {
        true
    } else if i == y.len() {
        false
    } else {
        assert(xs[0] == x@[i as int] && ys[0] == y@[i as int]);
        (x[i] as u32) < (y[i] as u32)
    }
}

/// The rows in the order `mode` and `reverse` give: ascending by the selected
/// field, ties by key, all reversed when `reverse`. The result holds the same
/// rows, each as often as before.
pub fn sort_rows(rows: Vec<(String, ChildSizeEntry)>, mode: SortMode, reverse: bool) -> (r: Vec<
    (String, ChildSizeEntry),
>)
    requires
        keys_unique(row_views(rows@)),
    ensures
        keys_unique(row_views(r@)),
        row_views(r@).to_multiset() == row_views(rows@).to_multiset(),
        sorted_by(mode, reverse, row_views(r@)),
{
    let mut rest = rows;
    let mut out: Vec<(String, ChildSizeEntry)> = Vec::new();
    assert(row_views(out@) =~= Seq::empty());
    while rest.len() > 0
        invariant
            row_views(out@).to_multiset().add(row_views(rest@).to_multiset()) == row_views(
                rows@,
            ).to_multiset(),
            sorted_by(mode, reverse, row_views(out@)),
            keys_unique(row_views(out@)),
            keys_unique(row_views(rest@)),
            forall|i: int, j: int|
                0 <= i < out@.len() && 0 <= j < rest@.len() ==> #[trigger] row_views(out@)[i].0
                    != #[trigger] row_views(rest@)[j].0,
            forall|i: int, j: int|
                0 <= i < out@.len() && 0 <= j < rest@.len() ==> mode.in_order(
                    reverse,
                    #[trigger] row_views(out@)[i],
                    #[trigger] row_views(rest@)[j],
                ),
        decreases rest@.len(),
    {
        let ghost rv = row_views(rest@);
        let mut best: usize = 0;
        let mut j: usize = 1;
        proof {
            lemma_in_order(mode, reverse, rv[0], rv[0], rv[0]);
        }
        while j < rest.len()
            invariant
                rv == row_views(rest@),
                best < j <= rest@.len(),
                forall|k: int| 0 <= k < j ==> mode.in_order(reverse, rv[best as int], #[trigger] rv[k]),
            decreases rest@.len() - j,
        {
            proof {
                lemma_in_order(mode, reverse, rv[j as int], rv[best as int], rv[j as int]);
            }
            if before(mode, reverse, &rest[j], &rest[best]) {
                assert forall|k: int| 0 <= k < j + 1 implies mode.in_order(
                    reverse,
                    rv[j as int],
                    #[trigger] rv[k],
                ) by {
                    lemma_in_order(mode, reverse, rv[j as int], rv[best as int], rv[k]);
                }
                best = j;
            }
            j = j + 1;
        }
        let ghost ov = row_views(out@);
        let x = rest.remove(best);
        assert(row_views(rest@) =~= rv.remove(best as int));
        out.push(x);
        assert(row_views(out@) =~= ov.push(rv[best as int]));
        assert(row_views(out@).to_multiset().add(row_views(rest@).to_multiset()) =~= ov.to_multiset().add(
            rv.to_multiset(),
        ));
        assert forall|i: int, k: int|
            0 <= i < out@.len() && 0 <= k < rest@.len() implies mode.in_order(
            reverse,
            #[trigger] row_views(out@)[i],
            #[trigger] row_views(rest@)[k],
        ) by {
            let k0 = if k < best { k } else { k + 1 };
            assert(row_views(rest@)[k] == rv[k0]);
            if i < ov.len() {
                assert(row_views(out@)[i] == ov[i]);
                assert(ov[i] == row_views(out@)[i]);
            }
        }
        assert forall|i: int, k: int|
            0 <= i < out@.len() && 0 <= k < rest@.len() implies #[trigger] row_views(out@)[i].0
            != #[trigger] row_views(rest@)[k].0 by {
            let k0 = if k < best { k } else { k + 1 };
            assert(row_views(rest@)[k] == rv[k0]);
            if i < ov.len() {
                assert(row_views(out@)[i] == ov[i]);
            } else {
                assert(row_views(out@)[i] == rv[best as int]);
            }
        }
        assert forall|i: int, k: int| 0 <= i < k < rest@.len() implies #[trigger] row_views(
            rest@,
        )[i].0 != #[trigger] row_views(rest@)[k].0 by {
            let i0 = if i < best { i } else { i + 1 };
            let k0 = if k < best { k } else { k + 1 };
            assert(row_views(rest@)[i] == rv[i0]);
            assert(row_views(rest@)[k] == rv[k0]);
        }
        assert forall|i: int, k: int| 0 <= i < k < out@.len() implies #[trigger] row_views(
            out@,
        )[i].0 != #[trigger] row_views(out@)[k].0 by {
            assert(row_views(out@)[i] == ov[i]);
            if k < ov.len() {
                assert(row_views(out@)[k] == ov[k]);
            } else {
                assert(row_views(out@)[k] == rv[best as int]);
            }
        }
        assert forall|i: int, k: int| 0 <= i < k < out@.len() implies mode.in_order(
            reverse,
            #[trigger] row_views(out@)[i],
            #[trigger] row_views(out@)[k],
        ) by {
            if k < ov.len() {
                assert(row_views(out@)[i] == ov[i]);
                assert(row_views(out@)[k] == ov[k]);
            }
        }
    }
    assert(row_views(rest@) =~= Seq::empty());
    assert(row_views(out@).to_multiset() =~= row_views(out@).to_multiset().add(
        row_views(rest@).to_multiset(),
    ));
    out
}

/// The state of one aggregation run: a group per key and a summary of every
/// file counted.
pub struct Processor {
    summary: ChildSizeEntry,
    keys: Vec<String>,
    stats: Vec<ChildSizeEntry>,
    opts: Opts,
}

impl Processor {
    /// The groups, in the order their keys were first seen.
    pub closed spec fn groups(&self) -> Seq<(Seq<char>, ChildSizeEntry)> {
        Seq::new(self.keys@.len(), |i: int| (self.keys@[i]@, self.stats@[i]))
    }

    /// The accumulator over every file counted.
    pub closed spec fn totals(&self) -> ChildSizeEntry {
        self.summary
    }

    /// The run's options.
    pub closed spec fn options(&self) -> Opts {
        self.opts
    }

    /// Keys are unique, and no group has counted more files or bytes than the summary.
    pub closed spec fn wf(&self) -> bool {
        &&& self.keys@.len() == self.stats@.len()
        &&& forall|i: int, j: int|
            0 <= i < j < self.keys@.len() ==> (#[trigger] self.keys@[i])@ != (#[trigger] self.keys@[j])@
        &&& forall|i: int|
            0 <= i < self.stats@.len() ==> 0 < (#[trigger] self.stats@[i]).count <= self.summary.count
                && self.stats@[i].total <= self.summary.total
    }

    /// A run with no file counted yet.
    pub fn new(opts: Opts) -> (r: Processor)
        ensures
            r.wf(),
            r.groups() == Seq::<(Seq<char>, ChildSizeEntry)>::empty(),
            r.totals() == ChildSizeEntry::empty(),
            r.options() == opts,
    {
        let r = Processor { summary: ChildSizeEntry::new(), keys: Vec::new(), stats: Vec::new(), opts };
        assert(r.groups() =~= Seq::<(Seq<char>, ChildSizeEntry)>::empty());
        r
    }

    /// The grouping key of a file at `path` found under the root `base`, or
    /// `None` when `path` does not lie under `base`.
    pub fn key(path: &str, base: &str) -> (r: Option<String>)
        ensures
            crate::key::opt_view(r) == key_of(path@, base@),
    {
        key(path, base)
    }

    /// The run's options.
    pub fn opts(&self) -> (r: &Opts)
        ensures
            *r == self.options(),
    {
        &self.opts
    }

    /// The accumulator over every file counted so far.
    pub fn summary(&self) -> (r: ChildSizeEntry)
        ensures
            r == self.totals(),
    {
        self.summary
    }

    /// The filter the run's patterns describe.
    pub fn glob_filter(&self) -> (r: Result<GlobFilter, FilterError>)
        ensures
            built_from(self.options().patterns@, r),
    {
        GlobFilter::new(&self.opts.patterns)
    }

    /// Counts a file of `size` bytes under `key`, in its group and in the
    /// summary. Nothing changes, and the result is false, when the summary's
    /// count or total would overflow.
    pub fn record(&mut self, key: String, size: u64) -> (r: bool)
        requires
            old(self).wf(),
        ensures
            final(self).wf(),
            final(self).options() == old(self).options(),
            r == old(self).totals().has_room(size),
            r ==> final(self).groups() == fold_into(old(self).groups(), key@, size),
            r ==> final(self).totals() == old(self).totals().folded_with(size),
            !r ==> final(self).groups() == old(self).groups(),
            !r ==> final(self).totals() == old(self).totals(),
    {
        if !(self.summary.count < u64::MAX && size <= u64::MAX - self.summary.total) {
            return false;
        }
        let ghost g = self.groups();
        let mut i: usize = 0;
        while i < self.keys.len() && !(self.keys[i] == key)
            invariant
                i <= self.keys@.len(),
                g == self.groups(),
                forall|j: int| 0 <= j < i ==> (#[trigger] self.keys@[j])@ != key@,
            decreases self.keys@.len() - i,
        {
            i = i + 1;
        }
        if i < self.keys.len() {
            assert(g[i as int].0 == key@);
            let ghost c = choose|c: int| 0 <= c < g.len() && #[trigger] g[c].0 == key@;
            assert(c == i) by {
                assert(g[c].0 == self.keys@[c]@);
                if c < i {
                    assert(self.keys@[c]@ != key@);
                }
                if c > i {
                    assert(self.keys@[i as int]@ != self.keys@[c]@);
                }
            }
            let mut e = self.stats[i];
            e.fold(size);
            self.stats[i] = e;
            assert(self.groups() =~= g.update(i as int, (key@, g[i as int].1.folded_with(size))));
        } else {
            assert forall|c: int| 0 <= c < g.len() implies #[trigger] g[c].0 != key@ by {
                assert(g[c].0 == self.keys@[c]@);
                assert(self.keys@[c]@ != key@);
            }
            let mut e = ChildSizeEntry::new();
            e.fold(size);
            self.keys.push(key);
            self.stats.push(e);
            assert(self.groups() =~= g.push((key@, ChildSizeEntry::empty().folded_with(size))));
        }
        self.summary.fold(size);
        true
    }

    /// Counts one walked entry found under the root `base`: a regular file
    /// whose name passes `filter` and whose size could be read is counted
    /// under its grouping key, or under the empty key when its path lies
    /// outside `base`. The result says whether it was counted.
    pub fn filefold(
        &mut self,
        path: &str,
        base: &str,
        is_file: bool,
        file_name: &str,
        size: Option<u64>,
        filter: &GlobFilter,
    ) -> (r: bool)
        requires
            old(self).wf(),
            filter.wf(),
        ensures
            final(self).wf(),
            final(self).options() == old(self).options(),
            r == (is_file && passes(filter.patterns(), file_name@) && size is Some
                && old(self).totals().has_room(size->0)),
            r ==> final(self).groups() == fold_into(
                old(self).groups(),
                group_key(path@, base@),
                size->0,
            ),
            r ==> final(self).totals() == old(self).totals().folded_with(size->0),
            !r ==> final(self).groups() == old(self).groups(),
            !r ==> final(self).totals() == old(self).totals(),
    {
        if !is_file || !filter.matches(file_name) {
            return false;
        }
        match size {
            None => false,
            Some(n) => {
                let k = match key(path, base) {
                    Some(k) => k,
                    None => String::new(),
                };
                self.record(k, n)
            },
        }
    }

    /// Brings the average of every group and of the summary up to date.
    pub fn finalize_all(&mut self)
        requires
            old(self).wf(),
        ensures
            final(self).wf(),
            final(self).options() == old(self).options(),
            final(self).groups() == finalized_all(old(self).groups()),
            final(self).totals() == old(self).totals().finalized(),
    {
        let ghost g = self.groups();
        let mut i: usize = 0;
        while i < self.stats.len()
            invariant
                self.wf(),
                i <= self.stats@.len(),
                self.options() == old(self).options(),
                self.summary == old(self).summary,
                self.groups().len() == g.len(),
                forall|j: int| 0 <= j < i ==> #[trigger] self.groups()[j] == finalized_all(g)[j],
                forall|j: int| i <= j < g.len() ==> #[trigger] self.groups()[j] == g[j],
            decreases self.stats@.len() - i,
        {
            let ghost before = self.groups();
            let mut e = self.stats[i];
            e.update_average();
            self.stats[i] = e;
            assert(self.groups() =~= before.update(i as int, (before[i as int].0, e)));
            assert(self.groups()[i as int] == finalized_all(g)[i as int]);
            i = i + 1;
        }
        assert(self.groups() =~= finalized_all(g));
        self.summary.update_average();
    }

    /// The groups as rows, sorted as the options ask, and the summary when
    /// they ask for it. The rows are exactly the groups, each once.
    pub fn report(&self) -> (r: Report)
        requires
            self.wf(),
        ensures
            keys_unique(self.groups()),
            groups_nonempty(self.groups()),
            keys_unique(row_views(r.rows@)),
            row_views(r.rows@).to_multiset() == self.groups().to_multiset(),
            sorted_by(self.options().sort, self.options().reverse, row_views(r.rows@)),
            r.summary == (if self.options().show_summary {
                Some(self.totals())
            } else {
                None
            }),
    {
        let mut rows: Vec<(String, ChildSizeEntry)> = Vec::new();
        let mut i: usize = 0;
        while i < self.keys.len()
            invariant
                self.wf(),
                i <= self.keys@.len(),
                row_views(rows@) == self.groups().subrange(0, i as int),
            decreases self.keys@.len() - i,
        {
            assert(self.groups()[i as int] == (self.keys@[i as int]@, self.stats@[i as int]));
            let ghost before = rows@;
            let k = self.keys[i].clone();
            rows.push((k, self.stats[i]));
            assert(rows@ == before.push((k, self.stats@[i as int])));
            assert(row_views(rows@) =~= row_views(before).push((k@, self.stats@[i as int])));
            assert(row_views(rows@) =~= self.groups().subrange(0, i + 1));
            i = i + 1;
        }
        assert(self.groups().subrange(0, i as int) =~= self.groups());
        assert forall|a: int, b: int| 0 <= a < b < self.groups().len() implies #[trigger] self.groups()[a].0
            != #[trigger] self.groups()[b].0 by {
            assert(self.groups()[a].0 == self.keys@[a]@ && self.groups()[b].0 == self.keys@[b]@);
        }
        assert forall|a: int| 0 <= a < self.groups().len() implies (#[trigger] self.groups()[a]).1.count
            > 0 by {
            assert(self.groups()[a].1 == self.stats@[a]);
        }
        let rows = sort_rows(rows, self.opts.sort, self.opts.reverse);
        let summary = if self.opts.show_summary {
            Some(self.summary)
        } else {
            None
        };
        Report { rows, summary }
    }

    /// Finalizes every average, then reports.
    pub fn process(&mut self) -> (r: Report)
        requires
            old(self).wf(),
        ensures
            final(self).wf(),
            final(self).options() == old(self).options(),
            final(self).groups() == finalized_all(old(self).groups()),
            final(self).totals() == old(self).totals().finalized(),
            keys_unique(finalized_all(old(self).groups())),
            groups_nonempty(finalized_all(old(self).groups())),
            keys_unique(row_views(r.rows@)),
            row_views(r.rows@).to_multiset() == finalized_all(old(self).groups()).to_multiset(),
            sorted_by(old(self).options().sort, old(self).options().reverse, row_views(r.rows@)),
            r.summary == (if old(self).options().show_summary {
                Some(old(self).totals().finalized())
            } else {
                None
            }),
    {
        self.finalize_all();
        self.report()
    }
}

/// Reversing flips the order: rows are sorted in descending order exactly when
/// their reversal is sorted in ascending order.
pub proof fn lemma_reverse_flips(mode: SortMode, rows: Seq<(Seq<char>, ChildSizeEntry)>)
    ensures
        sorted_by(mode, true, rows) == sorted_by(mode, false, rows.reverse()),
{
    let n = rows.len();
    let rev = rows.reverse();
    if sorted_by(mode, true, rows) {
        assert forall|i: int, j: int| 0 <= i < j < n implies mode.in_order(
            false,
            #[trigger] rev[i],
            #[trigger] rev[j],
        ) by {
            assert(rev[i] == rows[n - 1 - i] && rev[j] == rows[n - 1 - j]);
            assert(mode.in_order(true, rows[n - 1 - j], rows[n - 1 - i]));
        }
    }
    if sorted_by(mode, false, rev) {
        assert forall|i: int, j: int| 0 <= i < j < n implies mode.in_order(
            true,
            #[trigger] rows[i],
            #[trigger] rows[j],
        ) by {
            assert(rev[n - 1 - j] == rows[j] && rev[n - 1 - i] == rows[i]);
            assert(mode.in_order(false, rev[n - 1 - j], rev[n - 1 - i]));
        }
    }
}

/// Rows with distinct keys, sorted the same way, are listed in one order only:
/// two sorted sequences that hold the same rows are equal, so the order of a
/// report, ties included, depends on its rows alone.
pub proof fn lemma_sorted_unique(
    mode: SortMode,
    reverse: bool,
    s1: Seq<(Seq<char>, ChildSizeEntry)>,
    s2: Seq<(Seq<char>, ChildSizeEntry)>,
)
    requires
        sorted_by(mode, reverse, s1),
        sorted_by(mode, reverse, s2),
        s1.to_multiset() == s2.to_multiset(),
        keys_unique(s1),
    ensures
        s1 == s2,
    decreases s1.len(),
{
    assert(s1.len() == s1.to_multiset().len() && s2.len() == s2.to_multiset().len());
    if s1.len() == 0 {
        assert(s1 =~= s2);
    } else {
        let a = s1[0];
        let b = s2[0];
        assert(s2.to_multiset().count(b) > 0) by {
            assert(s2.contains(b));
        }
        assert(s1.contains(b));
        let j = choose|j: int| 0 <= j < s1.len() && s1[j] == b;
        assert(s1.to_multiset().count(a) > 0) by {
            assert(s1.contains(a));
        }
        assert(s2.contains(a));
        let k = choose|k: int| 0 <= k < s2.len() && s2[k] == a;
        lemma_in_order(mode, reverse, a, a, a);
        if j > 0 {
            assert(mode.in_order(reverse, s1[0], s1[j]));
        }
        if k > 0 {
            assert(mode.in_order(reverse, s2[0], s2[k]));
        }
        lemma_in_order_antisymmetric(mode, reverse, a, b);
        if j > 0 {
            assert(s1[0].0 != s1[j].0);
        }
        assert(a == b);
        let t1 = s1.drop_first();
        let t2 = s2.drop_first();
        assert(t1 =~= s1.remove(0));
        assert(t2 =~= s2.remove(0));
        assert(t1.to_multiset() == t2.to_multiset());
        assert forall|i: int, l: int| 0 <= i < l < t1.len() implies mode.in_order(
            reverse,
            #[trigger] t1[i],
            #[trigger] t1[l],
        ) by {
            assert(t1[i] == s1[i + 1] && t1[l] == s1[l + 1]);
        }
        assert forall|i: int, l: int| 0 <= i < l < t2.len() implies mode.in_order(
            reverse,
            #[trigger] t2[i],
            #[trigger] t2[l],
        ) by {
            assert(t2[i] == s2[i + 1] && t2[l] == s2[l + 1]);
        }
        assert forall|i: int, l: int| 0 <= i < l < t1.len() implies #[trigger] t1[i].0
            != #[trigger] t1[l].0 by {
            assert(t1[i] == s1[i + 1] && t1[l] == s1[l + 1]);
        }
        lemma_sorted_unique(mode, reverse, t1, t2);
        assert(s1 =~= seq![a] + t1);
        assert(s2 =~= seq![b] + t2);
    }
}

} // verus!
