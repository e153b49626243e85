//! The report: the packages joined with their records and labels, and the
//! tally of the statuses seen.

use crate::dexopt::{info_views, records_in, Analyzer, DexOptInfo, DexOptInfoView, DexoptMap};
use crate::package::{Package, PackageView};
use crate::text::{
    chars_of, contains_slice, lemma_lex_le_antisymmetric, lemma_lex_le_reflexive,
    lemma_lex_le_total, lemma_lex_le_transitive, lex_le, occurs_in, str_lex_le,
};
use vstd::prelude::*;

verus! {

/// How often one status was seen.
#[derive(Debug, Clone)]
pub struct StatusCount {
    pub status: String,
    pub count: usize,
}

/// What a `StatusCount` stands for.
pub struct StatusCountView {
    pub status: Seq<char>,
    pub count: nat,
}

impl View for StatusCount {
    type V = StatusCountView;

    open spec fn view(&self) -> StatusCountView {
        StatusCountView { status: self.status@, count: self.count as nat }
    }
}

/// The records that a sequence of packages stands for.
pub open spec fn ref_views(list: Seq<&Package>) -> Seq<PackageView> {
    Seq::new(list.len(), |i: int| list[i]@)
}

/// How many of `records` bear `status`.
pub open spec fn count_status(records: Seq<DexOptInfoView>, status: Seq<char>) -> nat
    decreases records.len(),
{
    if records.len() == 0 {
        0
    } else {
        count_status(records.drop_last(), status) + if records.last().status == status {
            1nat
        } else {
            0nat
        }
    }
}

/// How many records of the packages in `list` bear `status`. A package
/// counts once for each time it stands in the list.
pub open spec fn status_total(list: Seq<PackageView>, map: DexoptMap, status: Seq<char>) -> nat
    decreases list.len(),
{
    if list.len() == 0 {
        0
    } else {
        status_total(list.drop_last(), map, status) + count_status(
            records_in(map, list.last().name),
            status,
        )
    }
}

/// How many records the packages in `list` have in all.
pub open spec fn record_total(list: Seq<PackageView>, map: DexoptMap) -> nat
    decreases list.len(),
{
    if list.len() == 0 {
        0
    } else {
        record_total(list.drop_last(), map) + records_in(map, list.last().name).len()
    }
}

/// How many packages in `list` have records.
pub open spec fn displayed_total(list: Seq<PackageView>, map: DexoptMap) -> nat
    decreases list.len(),
{
    if list.len() == 0 {
        0
    } else {
        displayed_total(list.drop_last(), map) + if map.contains_key(list.last().name) {
            1nat
        } else {
            0nat
        }
    }
}

/// The count that `counts` holds for `status`.
pub open spec fn count_in(counts: Seq<StatusCountView>, status: Seq<char>) -> nat
    decreases counts.len(),
{
    if counts.len() == 0 {
        0
    } else {
        count_in(counts.drop_last(), status) + if counts.last().status == status {
            counts.last().count
        } else {
            0nat
        }
    }
}

/// All counts of `counts` together.
pub open spec fn sum_counts(counts: Seq<StatusCountView>) -> nat
    decreases counts.len(),
{
    if counts.len() == 0 {
        0
    } else {
        sum_counts(counts.drop_last()) + counts.last().count
    }
}

/// `counts` is a tally: the statuses ascend strictly, so none stands twice,
/// and no count is zero.
pub open spec fn is_tally(counts: Seq<StatusCountView>) -> bool {
    &&& forall|i: int, j: int|
        0 <= i < j < counts.len() ==> {
            &&& lex_le(#[trigger] counts[i].status, #[trigger] counts[j].status)
            &&& counts[i].status != counts[j].status
        }
    &&& forall|i: int| 0 <= i < counts.len() ==> (#[trigger] counts[i]).count > 0
}

/// Whether `needle` selects the package `p`: no needle selects every
/// package, a needle those whose name holds it.
pub open spec fn selects(needle: Option<Seq<char>>, p: PackageView) -> bool {
    match needle {
        Some(text) => occurs_in(text, p.name),
        None => true,
    }
}

/// The packages of `list` that `needle` selects, in their order.
pub open spec fn selected(list: Seq<PackageView>, needle: Option<Seq<char>>) -> Seq<PackageView>
    decreases list.len(),
{
    if list.len() == 0 {
        Seq::empty()
    } else if selects(needle, list.last()) {
        selected(list.drop_last(), needle).push(list.last())
    } else {
        selected(list.drop_last(), needle)
    }
}

/// `status` is the status of some record of some package in `list`.
pub open spec fn observed(list: Seq<PackageView>, map: DexoptMap, status: Seq<char>) -> bool {
    exists|i: int, j: int|
        0 <= i < list.len() && 0 <= j < records_in(map, list[i].name).len() && (
        #[trigger] records_in(map, list[i].name)[j]).status == status
}

proof fn lemma_count_status_positive(records: Seq<DexOptInfoView>, status: Seq<char>)
    ensures
        count_status(records, status) > 0 <==> exists|j: int|
            0 <= j < records.len() && (#[trigger] records[j]).status == status,
    decreases records.len(),
{
    if records.len() > 0 {
        let rest = records.drop_last();
        lemma_count_status_positive(rest, status);
        if count_status(records, status) > 0 {
            if records.last().status == status {
                assert(records[records.len() - 1].status == status);
            } else {
                let j = choose|j: int| 0 <= j < rest.len() && (#[trigger] rest[j]).status == status;
                assert(records[j] == rest[j]);
            }
        }
        if exists|j: int| 0 <= j < records.len() && (#[trigger] records[j]).status == status {
            let j = choose|j: int|
                0 <= j < records.len() && (#[trigger] records[j]).status == status;
            if j < rest.len() {
                assert(rest[j] == records[j]);
            }
        }
    }
}

/// A status has a count exactly if it was observed: the tally of a report
/// holds the statuses of the records of its packages and no others.
pub proof fn lemma_counted_iff_observed(list: Seq<PackageView>, map: DexoptMap, status: Seq<char>)
    ensures
        status_total(list, map, status) > 0 <==> observed(list, map, status),
    decreases list.len(),
{
    if list.len() > 0 {
        let rest = list.drop_last();
        let records = records_in(map, list.last().name);
        lemma_counted_iff_observed(rest, map, status);
        lemma_count_status_positive(records, status);
        if status_total(list, map, status) > 0 {
            if count_status(records, status) > 0 {
                let j = choose|j: int|
                    0 <= j < records.len() && (#[trigger] records[j]).status == status;
                let i = list.len() - 1;
                assert(records_in(map, list[i].name)[j].status == status);
            } else {
                let (i, j) = choose|i: int, j: int|
                    0 <= i < rest.len() && 0 <= j < records_in(map, rest[i].name).len() && (
                    #[trigger] records_in(map, rest[i].name)[j]).status == status;
                assert(list[i] == rest[i]);
                assert(records_in(map, list[i].name)[j].status == status);
            }
        }
        if observed(list, map, status) {
            let (i, j) = choose|i: int, j: int|
                0 <= i < list.len() && 0 <= j < records_in(map, list[i].name).len() && (
                #[trigger] records_in(map, list[i].name)[j]).status == status;
            if i < rest.len() {
                assert(rest[i] == list[i]);
                assert(records_in(map, rest[i].name)[j].status == status);
            } else {
                assert(records[j].status == status);
            }
        }
    }
}

proof fn lemma_count_in_concat(a: Seq<StatusCountView>, b: Seq<StatusCountView>, status: Seq<char>)
    ensures
        count_in(a + b, status) == count_in(a, status) + count_in(b, status),
        sum_counts(a + b) == sum_counts(a) + sum_counts(b),
    decreases b.len(),
{
    if b.len() == 0 {
        assert(a + b =~= a);
    } else {
        assert((a + b).drop_last() =~= a + b.drop_last());
        assert((a + b).last() == b.last());
        lemma_count_in_concat(a, b.drop_last(), status);
    }
}

proof fn lemma_count_in_one(x: StatusCountView, status: Seq<char>)
    ensures
        count_in(seq![x], status) == if x.status == status {
            x.count
        } else {
            0nat
        },
        sum_counts(seq![x]) == x.count,
{
    let one = seq![x];
    assert(one.drop_last() =~= Seq::<StatusCountView>::empty());
    assert(count_in(one.drop_last(), status) == 0);
    assert(sum_counts(one.drop_last()) == 0);
    assert(one.last() == x);
}

proof fn lemma_count_in_absent(counts: Seq<StatusCountView>, status: Seq<char>)
    requires
        forall|i: int| 0 <= i < counts.len() ==> (#[trigger] counts[i]).status != status,
    ensures
        count_in(counts, status) == 0,
    decreases counts.len(),
{
    if counts.len() > 0 {
        let rest = counts.drop_last();
        assert(counts.last() == counts[counts.len() - 1]);
        assert forall|i: int| 0 <= i < rest.len() implies (#[trigger] rest[i]).status != status by {
            assert(rest[i] == counts[i]);
        }
        lemma_count_in_absent(rest, status);
    }
}

/// In a tally, the count held for the status of an entry is that entry's
/// count, and a status with a count stands in the tally.
pub proof fn lemma_tally_counts(counts: Seq<StatusCountView>, status: Seq<char>)
    requires
        is_tally(counts),
    ensures
        forall|i: int|
            0 <= i < counts.len() && (#[trigger] counts[i]).status == status ==> count_in(
                counts,
                status,
            ) == counts[i].count,
        count_in(counts, status) > 0 <==> exists|i: int|
            0 <= i < counts.len() && (#[trigger] counts[i]).status == status,
{
    assert forall|i: int|
        0 <= i < counts.len() && (#[trigger] counts[i]).status == status implies count_in(
        counts,
        status,
    ) == counts[i].count by {
        let head = counts.take(i);
        let tail = counts.skip(i + 1);
        assert(counts =~= head + seq![counts[i]] + tail);
        lemma_count_in_concat(head + seq![counts[i]], tail, status);
        lemma_count_in_concat(head, seq![counts[i]], status);
        lemma_count_in_one(counts[i], status);
        assert forall|j: int| 0 <= j < head.len() implies (#[trigger] head[j]).status != status by {
            assert(head[j] == counts[j]);
        }
        assert forall|j: int| 0 <= j < tail.len() implies (#[trigger] tail[j]).status != status by {
            assert(tail[j] == counts[i + 1 + j]);
        }
        lemma_count_in_absent(head, status);
        lemma_count_in_absent(tail, status);
    }
    if !exists|i: int| 0 <= i < counts.len() && (#[trigger] counts[i]).status == status {
        lemma_count_in_absent(counts, status);
    }
}

/// No count exceeds the sum of all.
proof fn lemma_count_below_sum(counts: Seq<StatusCountView>, i: int)
    requires
        0 <= i < counts.len(),
    ensures
        counts[i].count <= sum_counts(counts),
    decreases counts.len(),
{
    if i < counts.len() - 1 {
        lemma_count_below_sum(counts.drop_last(), i);
    }
}

/// The totals of a list grow with the list.
proof fn lemma_totals_grow(list: Seq<PackageView>, map: DexoptMap, k: int)
    requires
        0 <= k <= list.len(),
    ensures
        record_total(list.take(k), map) <= record_total(list, map),
        displayed_total(list.take(k), map) <= k,
    decreases list.len() - k,
{
    if k < list.len() {
        lemma_totals_grow(list, map, k + 1);
        assert(list.take(k + 1).drop_last() =~= list.take(k));
    } else {
        assert(list.take(k) =~= list);
    }
    lemma_displayed_bound(list.take(k), map);
}

proof fn lemma_displayed_bound(list: Seq<PackageView>, map: DexoptMap)
    ensures
        displayed_total(list, map) <= list.len(),
    decreases list.len(),
{
    if list.len() > 0 {
        lemma_displayed_bound(list.drop_last(), map);
    }
}

/// The tally of a report: how often each status was seen, by ascending
/// status.
pub struct Tally {
    counts: Vec<StatusCount>,
}

impl View for Tally {
    type V = Seq<StatusCountView>;

    closed spec fn view(&self) -> Seq<StatusCountView> {
        Seq::new(self.counts@.len(), |i: int| self.counts@[i]@)
    }
}

impl Tally {
    /// The tally before anything was seen.
    pub fn new() -> (t: Tally)
        ensures
            t@ == Seq::<StatusCountView>::empty(),
            is_tally(t@),
    {
        let t = Tally { counts: Vec::new() };
        assert(t@ =~= Seq::<StatusCountView>::empty());
        t
    }

    /// Counts `status` once more.
    pub fn add(&mut self, status: &str)
        requires
            is_tally(old(self)@),
            sum_counts(old(self)@) < usize::MAX,
        ensures
            is_tally(final(self)@),
            sum_counts(final(self)@) == sum_counts(old(self)@) + 1,
            forall|s: Seq<char>| #[trigger]
                count_in(final(self)@, s) == count_in(old(self)@, s) + if s == status@ {
                    1nat
                } else {
                    0nat
                },
    {
        let ghost before = self@;
        let mut i: usize = 0;
        while i < self.counts.len() && !str_lex_le(status, self.counts[i].status.as_str())
            invariant
                i <= self.counts@.len(),
                self@ == before,
                forall|j: int| 0 <= j < i ==> !lex_le(status@, (#[trigger] before[j]).status),
            decreases self.counts@.len() - i,
        {
            assert(before[i as int] == self.counts@[i as int]@);
            i += 1;
        }
        let ghost head = before.take(i as int);
        proof {
            assert forall|j: int| 0 <= j < head.len() implies (#[trigger] head[j]).status
                != status@ by {
                assert(head[j] == before[j]);
                lemma_lex_le_reflexive(status@);
            }
        }
        if i < self.counts.len() && str_lex_le(self.counts[i].status.as_str(), status) {
            proof {
                assert(before[i as int] == self.counts@[i as int]@);
                lemma_lex_le_antisymmetric(status@, before[i as int].status);
                lemma_count_below_sum(before, i as int);
            }
            let n = self.counts[i].count;
            self.counts[i].count = n + 1;
            proof {
                let after = self@;
                let tail = before.skip(i as int + 1);
                let was = before[i as int];
                let now = after[i as int];
                assert(now.status == status@ && now.count == was.count + 1);
                assert(before =~= head + seq![was] + tail);
                assert(after =~= head + seq![now] + tail);
                assert forall|a: int, b: int| 0 <= a < b < after.len() implies lex_le(
                    #[trigger] after[a].status,
                    #[trigger] after[b].status,
                ) && after[a].status != after[b].status by {
                    assert(after[a].status == before[a].status);
                    assert(after[b].status == before[b].status);
                }
                assert forall|a: int| 0 <= a < after.len() implies (#[trigger] after[a]).count
                    > 0 by {
                    if a != i {
                        assert(after[a] == before[a]);
                    }
                }
                assert forall|s: Seq<char>| #[trigger]
                    count_in(after, s) == count_in(before, s) + if s == status@ {
                        1nat
                    } else {
                        0nat
                    } by {
                    lemma_count_in_concat(head + seq![was], tail, s);
                    lemma_count_in_concat(head, seq![was], s);
                    lemma_count_in_one(was, s);
                    lemma_count_in_concat(head + seq![now], tail, s);
                    lemma_count_in_concat(head, seq![now], s);
                    lemma_count_in_one(now, s);
                }
                lemma_count_in_concat(head + seq![was], tail, status@);
                lemma_count_in_concat(head, seq![was], status@);
                lemma_count_in_one(was, status@);
                lemma_count_in_concat(head + seq![now], tail, status@);
                lemma_count_in_concat(head, seq![now], status@);
                lemma_count_in_one(now, status@);
            }
        } else {
            let fresh = StatusCount { status: status.to_owned(), count: 1 };
            let ghost now = fresh@;
            self.counts.insert(i, fresh);
            proof {
                let after = self@;
                let tail = before.skip(i as int);
                assert(before =~= head + tail);
                assert(after =~= head + seq![now] + tail);
                if i < before.len() {
                    assert(lex_le(status@, before[i as int].status));
                    assert(!lex_le(before[i as int].status, status@));
                    lemma_lex_le_reflexive(status@);
                }
                assert forall|a: int, b: int| 0 <= a < b < after.len() implies lex_le(
                    #[trigger] after[a].status,
                    #[trigger] after[b].status,
                ) && after[a].status != after[b].status by {
                    if b < i {
                        assert(after[a] == before[a] && after[b] == before[b]);
                    } else if b == i {
                        assert(after[a] == before[a]);
                        lemma_lex_le_total(status@, before[a].status);
                        lemma_lex_le_reflexive(status@);
                    } else {
                        assert(after[b] == before[b - 1]);
                        if a < i {
                            assert(after[a] == before[a]);
                        } else if a == i {
                            if b - 1 > i {
                                lemma_lex_le_transitive(
                                    status@,
                                    before[i as int].status,
                                    before[b - 1].status,
                                );
                                if before[b - 1].status == status@ {
                                    lemma_lex_le_antisymmetric(status@, before[i as int].status);
                                }
                            }
                        } else {
                            assert(after[a] == before[a - 1]);
                        }
                    }
                }
                assert forall|a: int| 0 <= a < after.len() implies (#[trigger] after[a]).count
                    > 0 by {
                    if a < i {
                        assert(after[a] == before[a]);
                    } else if a > i {
                        assert(after[a] == before[a - 1]);
                    }
                }
                assert forall|s: Seq<char>| #[trigger]
                    count_in(after, s) == count_in(before, s) + if s == status@ {
                        1nat
                    } else {
                        0nat
                    } by {
                    lemma_count_in_concat(head, tail, s);
                    lemma_count_in_concat(head + seq![now], tail, s);
                    lemma_count_in_concat(head, seq![now], s);
                    lemma_count_in_one(now, s);
                }
                lemma_count_in_concat(head, tail, status@);
                lemma_count_in_concat(head + seq![now], tail, status@);
                lemma_count_in_concat(head, seq![now], status@);
                lemma_count_in_one(now, status@);
            }
        }
    }

    /// The counts, by ascending status.
    pub fn entries(&self) -> (list: &Vec<StatusCount>)
        ensures
            list@.len() == self@.len(),
            forall|i: int| 0 <= i < list@.len() ==> (#[trigger] list@[i])@ == self@[i],
    {
        &self.counts
    }

    /// Whether nothing was counted.
    pub fn is_empty(&self) -> (r: bool)
        ensures
            r == (self@.len() == 0),
    {
        self.counts.len() == 0
    }
}

/// One package of a report, with what is known of it.
pub struct Row<'a> {
    pub package: &'a Package,
    pub label: Option<&'a str>,
    pub records: Option<&'a Vec<DexOptInfo>>,
}

/// What a `Row` stands for.
pub struct RowView {
    pub package: PackageView,
    pub label: Option<Seq<char>>,
    pub records: Option<Seq<DexOptInfoView>>,
}

impl<'a> View for Row<'a> {
    type V = RowView;

    open spec fn view(&self) -> RowView {
        RowView {
            package: self.package@,
            label: match self.label {
                Some(text) => Some(text@),
                None => None,
            },
            records: match self.records {
                Some(list) => Some(info_views(list@)),
                None => None,
            },
        }
    }
}

/// The label that stands for the package at `i`: the one at `i` in
/// `labels`, none where `labels` is shorter.
pub open spec fn label_at(labels: Seq<Option<String>>, i: int) -> Option<Seq<char>> {
    if 0 <= i < labels.len() {
        match labels[i] {
            Some(text) => Some(text@),
            None => None,
        }
    } else {
        None
    }
}

/// The row of the package `p` with the label `label`.
pub open spec fn row_of(p: PackageView, label: Option<Seq<char>>, map: DexoptMap) -> RowView {
    RowView {
        package: p,
        label,
        records: if map.contains_key(p.name) {
            Some(map[p.name])
        } else {
            None
        },
    }
}

/// A report: one row for each package, in the order of the packages, the
/// tally of the statuses of their records, and the number of packages that
/// have records.
pub struct Report<'a> {
    pub rows: Vec<Row<'a>>,
    pub tally: Tally,
    pub displayed: usize,
}

/// The packages of `packages` that `needle` selects, in their order.
pub fn filter_by_name<'a>(packages: &'a Vec<Package>, needle: Option<&str>) -> (kept: Vec<
    &'a Package,
>)
    ensures
        ref_views(kept@) == selected(
            crate::package::package_views(packages@),
            match needle {
                Some(text) => Some(text@),
                None => None,
            },
        ),
{
    let ghost all = crate::package::package_views(packages@);
    let ghost wanted: Option<Seq<char>> = match needle {
        Some(text) => Some(text@),
        None => None,
    };
    let pattern: Option<Vec<char>> = match needle {
        Some(text) => Some(chars_of(text)),
        None => None,
    };
    let mut kept: Vec<&'a Package> = Vec::new();
    let mut k: usize = 0;
    while k < packages.len()
        invariant
            k <= packages.len(),
            all == crate::package::package_views(packages@),
            match pattern {
                Some(text) => wanted == Some(text@),
                None => wanted is None,
            },
            ref_views(kept@) == selected(all.take(k as int), wanted),
        decreases packages.len() - k,
    {
        let p = &packages[k];
        proof {
            assert(all.take(k as int + 1).drop_last() =~= all.take(k as int));
            assert(all.take(k as int + 1).last() == p@);
        }
        let keep = match &pattern {
            Some(text) => {
                let name = chars_of(p.name.as_str());
                contains_slice(name.as_slice(), text.as_slice())
            },
            None => true,
        };
        if keep {
            let ghost was = ref_views(kept@);
            kept.push(p);
            assert(ref_views(kept@) =~= was.push(p@));
        }
        k += 1;
    }
    assert(all.take(packages.len() as int) =~= all);
    kept
}

/// Joins the packages with their records and labels and tallies the
/// statuses. `labels` holds the label of each package at the package's
/// position; it may be shorter than `packages`, and the packages beyond its
/// end have no label. Gives no report only where the records to count are
/// more than a `usize` holds.
pub fn aggregate<'a>(
    packages: &Vec<&'a Package>,
    labels: &'a Vec<Option<String>>,
    analyzer: &'a Analyzer,
) -> (r: Option<Report<'a>>)
    requires
        analyzer.wf(),
    ensures
        r is Some <==> record_total(ref_views(packages@), analyzer@) <= usize::MAX,
        r matches Some(report) ==> {
            &&& report.rows@.len() == packages@.len()
            &&& forall|i: int|
                0 <= i < packages@.len() ==> (#[trigger] report.rows@[i])@ == row_of(
                    packages@[i]@,
                    label_at(labels@, i),
                    analyzer@,
                )
            &&& is_tally(report.tally@)
            &&& forall|status: Seq<char>| #[trigger]
                count_in(report.tally@, status) == status_total(
                    ref_views(packages@),
                    analyzer@,
                    status,
                )
            &&& sum_counts(report.tally@) == record_total(ref_views(packages@), analyzer@)
            &&& report.displayed == displayed_total(ref_views(packages@), analyzer@)
        },
{
    let ghost all = ref_views(packages@);
    let ghost map = analyzer@;
    let mut rows: Vec<Row<'a>> = Vec::new();
    let mut tally = Tally::new();
    let mut displayed: usize = 0;
    let mut total: usize = 0;
    let mut k: usize = 0;
    while k < packages.len()
        invariant
            k <= packages.len(),
            analyzer.wf(),
            total == sum_counts(tally@),
            all == ref_views(packages@),
            map == analyzer@,
            rows@.len() == k,
            forall|i: int|
                0 <= i < k ==> (#[trigger] rows@[i])@ == row_of(
                    packages@[i]@,
                    label_at(labels@, i),
                    map,
                ),
            is_tally(tally@),
            forall|status: Seq<char>| #[trigger]
                count_in(tally@, status) == status_total(all.take(k as int), map, status),
            sum_counts(tally@) == record_total(all.take(k as int), map),
            displayed == displayed_total(all.take(k as int), map),
        decreases packages.len() - k,
    {
        let p: &'a Package = packages[k];
        let label: Option<&'a str> = if k < labels.len() {
            match &labels[k] {
                Some(text) => Some(text.as_str()),
                None => None,
            }
        } else {
            None
        };
        let records = analyzer.get_info(p.name.as_str());
        proof {
            assert(all.take(k as int + 1).drop_last() =~= all.take(k as int));
            assert(all.take(k as int + 1).last() == p@);
            lemma_totals_grow(all, map, k as int);
            lemma_totals_grow(all, map, k as int + 1);
        }
        match records {
            Some(list) => {
                let ghost base = tally@;
                let ghost views = info_views(list@);
                assert(views == records_in(map, p@.name));
                if list.len() > usize::MAX - total {
                    return None;
                }
                total = total + list.len();
                displayed = displayed + 1;
                let mut j: usize = 0;
                while j < list.len()
                    invariant
                        j <= list.len(),
                        views == info_views(list@),
                        is_tally(tally@),
                        sum_counts(base) + list.len() <= usize::MAX,
                        sum_counts(tally@) == sum_counts(base) + j,
                        forall|status: Seq<char>| #[trigger]
                            count_in(tally@, status) == count_in(base, status) + count_status(
                                views.take(j as int),
                                status,
                            ),
                    decreases list.len() - j,
                {
                    let ghost was = tally@;
                    tally.add(list[j].status.as_str());
                    proof {
                        assert(views.take(j as int + 1).drop_last() =~= views.take(j as int));
                        assert(views.take(j as int + 1).last() == list@[j as int]@);
                        assert forall|status: Seq<char>| #[trigger]
                            count_in(tally@, status) == count_in(base, status) + count_status(
                                views.take(j as int + 1),
                                status,
                            ) by {
                            assert(count_in(was, status) == count_in(base, status) + count_status(
                                views.take(j as int),
                                status,
                            ));
                        }
                    }
                    j += 1;
                }
                assert(views.take(list.len() as int) =~= views);
            },
            None => {},
        }
        rows.push(Row { package: p, label, records });
        k += 1;
    }
    proof {
        assert(all.take(packages.len() as int) =~= all);
    }
    Some(Report { rows, tally, displayed })
}

} // verus!
