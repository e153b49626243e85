//! Package records and the parser of package listings.
//!
//! A listing names one package per line, as `package:<path>=<name>`. Lines of
//! any other shape are passed over. The records come out ordered by name.

use crate::text::{
    chars_of, find_last, lemma_lex_le_antisymmetric, lemma_lex_le_reflexive, lemma_lex_le_total,
    lemma_lex_le_transitive, lemma_trim_is_subrange, lemma_trim_properties, lex_le,
    lex_le_slices, line_spans, lines, spans_of, starts_with, string_of, trim, trim_slice,
};
use vstd::prelude::*;
use vstd::slice::slice_subrange;

verus! {

/// Which applications a listing covers.
#[derive(Clone, Copy, Debug, PartialEq, Eq, Structural)]
pub enum AppType {
    User,
    System,
    All,
}

impl AppType {
    /// The flag that selects this scope when packages are listed.
    pub fn filter_flag(&self) -> (flag: &'static str)
        ensures
            flag@ == match *self {
                AppType::User => "-3"@,
                AppType::System => "-s"@,
                AppType::All => ""@,
            },
    {
        match self {
            AppType::User => "-3",
            AppType::System => "-s",
            AppType::All => "",
        }
    }

    /// The name under which this scope is shown.
    pub fn name(&self) -> (name: &'static str)
        ensures
            name@ == match *self {
                AppType::User => "User"@,
                AppType::System => "System"@,
                AppType::All => "All"@,
            },
    {
        match self {
            AppType::User => "User",
            AppType::System => "System",
            AppType::All => "All",
        }
    }
}

/// An installed package: its identifier and the path of its archive.
#[derive(Debug, Clone)]
pub struct Package {
    pub name: String,
    pub path: String,
}

/// What a `Package` stands for.
pub struct PackageView {
    pub name: Seq<char>,
    pub path: Seq<char>,
}

impl View for Package {
    type V = PackageView;

    open spec fn view(&self) -> PackageView {
        PackageView { name: self.name@, path: self.path@ }
    }
}

/// The records that a sequence of packages stands for.
pub open spec fn package_views(list: Seq<Package>) -> Seq<PackageView> {
    Seq::new(list.len(), |i: int| list[i]@)
}

/// The marker that opens a listing line.
pub open spec fn listing_prefix() -> Seq<char> {
    "package:"@
}

/// The record that one line of a listing holds, if it holds one: the trimmed
/// line opens with the marker, and what follows splits at its last `=` into
/// path and name, each trimmed.
pub open spec fn parse_line(line: Seq<char>) -> Option<PackageView> {
    let t = trim(line);
    if listing_prefix().is_prefix_of(t) {
        let rest = t.skip(listing_prefix().len() as int);
        match rest.index_of_last('=') {
            Some(i) => Some(PackageView { name: trim(rest.skip(i + 1)), path: trim(rest.take(i)) }),
            None => None,
        }
    } else {
        None
    }
}

/// The line that lists `p`.
pub open spec fn listing_line(p: PackageView) -> Seq<char> {
    listing_prefix() + p.path + seq!['='] + p.name
}

/// The records of `lines`, in the order of the lines.
pub open spec fn listed(lines: Seq<Seq<char>>) -> Seq<PackageView>
    decreases lines.len(),
{
    if lines.len() == 0 {
        Seq::empty()
    } else {
        let before = listed(lines.drop_last());
        match parse_line(lines.last()) {
            Some(p) => before.push(p),
            None => before,
        }
    }
}

/// Every record stands at or before each later one, by name.
pub open spec fn sorted_by_name(list: Seq<PackageView>) -> bool {
    forall|i: int, j: int|
        0 <= i < j < list.len() ==> lex_le(#[trigger] list[i].name, #[trigger] list[j].name)
}

/// The records of `list` that bear `name`, in their order.
pub open spec fn named(list: Seq<PackageView>, name: Seq<char>) -> Seq<PackageView>
    decreases list.len(),
{
    if list.len() == 0 {
        Seq::empty()
    } else if list.last().name == name {
        named(list.drop_last(), name).push(list.last())
    } else {
        named(list.drop_last(), name)
    }
}

/// `sorted` holds the records of `list` ordered by name, those of one name
/// in the order they have in `list`.
pub open spec fn is_stable_sort_of(sorted: Seq<PackageView>, list: Seq<PackageView>) -> bool {
    &&& sorted.len() == list.len()
    &&& sorted_by_name(sorted)
    &&& forall|name: Seq<char>| #[trigger] named(sorted, name) == named(list, name)
}

/// A line that holds a record in plain form reads as that record, and the
/// record written out again is the trimmed line. The form is plain where
/// path and name stand trimmed around the separator; the name, as always,
/// holds no `=`.
pub proof fn lemma_listing_line_round_trip(line: Seq<char>, path: Seq<char>, name: Seq<char>)
    requires
        trim(line) == listing_prefix() + path + seq!['='] + name,
        !name.contains('='),
        trim(path) == path,
        trim(name) == name,
    ensures
        parse_line(line) == Some(PackageView { name, path }),
        listing_line(PackageView { name, path }) == trim(line),
{
    let t = trim(line);
    let prefix = listing_prefix();
    let rest = t.skip(prefix.len() as int);
    assert(t.subrange(0, prefix.len() as int) =~= prefix);
    assert(rest =~= path + seq!['='] + name);
    let at = path.len() as int;
    assert(rest[at] == '=');
    rest.index_of_last_ensures('=');
    let found = rest.index_of_last('=');
    assert(found is Some);
    let k = found->0;
    if k > at {
        assert(rest[k] == name[k - at - 1]);
        assert(name.contains('='));
    }
    assert(k == at);
    assert(rest.take(at) =~= path);
    assert(rest.skip(at + 1) =~= name);
}

/// A record with trimmed fields and no `=` in its name, written out as a
/// line, reads back as itself.
pub proof fn lemma_written_record_reads_back(p: PackageView)
    requires
        !p.name.contains('='),
        trim(p.path) == p.path,
        trim(p.name) == p.name,
    ensures
        parse_line(listing_line(p)) == Some(p),
{
    let line = listing_line(p);
    reveal_strlit("package:");
    assert(line.len() > 0);
    assert(line.first() == 'p');
    if p.name.len() > 0 {
        lemma_trim_properties(p.name);
        assert(line.last() == p.name.last());
    } else {
        assert(line.last() == '=');
    }
    lemma_trim_is_subrange(line, 0, line.len() as int);
    assert(line.subrange(0, line.len() as int) =~= line);
    lemma_listing_line_round_trip(line, p.path, p.name);
}

/// A record as it stands in the text: name and path as parts of the listing.
struct Record<'a> {
    name: &'a [char],
    path: &'a [char],
}

impl<'a> View for Record<'a> {
    type V = PackageView;

    closed spec fn view(&self) -> PackageView {
        PackageView { name: self.name@, path: self.path@ }
    }
}

spec fn record_views(list: Seq<Record>) -> Seq<PackageView> {
    Seq::new(list.len(), |i: int| list[i]@)
}

/// `named` of a concatenation is the concatenation of `named`.
proof fn lemma_named_concat(a: Seq<PackageView>, b: Seq<PackageView>, name: Seq<char>)
    ensures
        named(a + b, name) == named(a, name) + named(b, name),
    decreases b.len(),
{
    if b.len() == 0 {
        assert(a + b =~= a);
        assert(named(a, name) + named(b, name) =~= named(a, name));
    } else {
        assert((a + b).drop_last() =~= a + b.drop_last());
        assert((a + b).last() == b.last());
        lemma_named_concat(a, b.drop_last(), name);
        if b.last().name == name {
            assert(named(a + b, name) =~= named(a, name) + named(b, name));
        }
    }
}

/// Where no record bears `name`, `named` is empty.
proof fn lemma_named_absent(list: Seq<PackageView>, name: Seq<char>)
    requires
        forall|i: int| 0 <= i < list.len() ==> (#[trigger] list[i]).name != name,
    ensures
        named(list, name) == Seq::<PackageView>::empty(),
    decreases list.len(),
{
    if list.len() > 0 {
        let rest = list.drop_last();
        assert(list.last() == list[list.len() - 1]);
        assert forall|i: int| 0 <= i < rest.len() implies (#[trigger] rest[i]).name != name by {
            assert(rest[i] == list[i]);
        }
        lemma_named_absent(rest, name);
    }
}

/// A name whose records are not empty is borne by some record.
proof fn lemma_named_present(list: Seq<PackageView>, name: Seq<char>)
    requires
        named(list, name).len() > 0,
    ensures
        exists|i: int| 0 <= i < list.len() && (#[trigger] list[i]).name == name,
{
    if !exists|i: int| 0 <= i < list.len() && (#[trigger] list[i]).name == name {
        lemma_named_absent(list, name);
    }
}

/// The last record of a sorted sequence bears the greatest name.
proof fn lemma_last_is_greatest(list: Seq<PackageView>, name: Seq<char>)
    requires
        sorted_by_name(list),
        named(list, name).len() > 0,
    ensures
        lex_le(name, list.last().name),
{
    lemma_named_present(list, name);
    let i = choose|i: int| 0 <= i < list.len() && (#[trigger] list[i]).name == name;
    if i == list.len() - 1 {
        lemma_lex_le_reflexive(name);
    }
}

/// The order that `is_stable_sort_of` asks for leaves no choice: two
/// sequences that both meet it for one list are equal.
pub proof fn lemma_stable_sort_is_unique(
    a: Seq<PackageView>,
    b: Seq<PackageView>,
    list: Seq<PackageView>,
)
    requires
        is_stable_sort_of(a, list),
        is_stable_sort_of(b, list),
    ensures
        a == b,
    decreases a.len(),
{
    if a.len() == 0 {
        assert(a =~= b);
    } else {
        let x = a.last();
        let y = b.last();
        let ra = a.drop_last();
        let rb = b.drop_last();
        assert(named(a, x.name) == named(b, x.name));
        assert(named(a, y.name) == named(b, y.name));
        assert(named(b, y.name) == named(rb, y.name).push(y));
        assert(named(a, x.name) == named(ra, x.name).push(x));
        lemma_last_is_greatest(b, x.name);
        lemma_last_is_greatest(a, y.name);
        lemma_lex_le_antisymmetric(x.name, y.name);
        assert(named(ra, x.name).push(x) == named(rb, x.name).push(y));
        assert(x == named(ra, x.name).push(x).last());
        assert(y == named(rb, x.name).push(y).last());
        assert(named(ra, x.name) =~= named(ra, x.name).push(x).drop_last());
        assert(named(rb, x.name) =~= named(rb, x.name).push(y).drop_last());
        assert forall|name: Seq<char>| #[trigger] named(ra, name) == named(rb, name) by {
            assert(named(a, name) == named(b, name));
        }
        assert forall|i: int, j: int| 0 <= i < j < ra.len() implies lex_le(
            #[trigger] ra[i].name,
            #[trigger] ra[j].name,
        ) by {
            assert(ra[i] == a[i] && ra[j] == a[j]);
        }
        assert forall|i: int, j: int| 0 <= i < j < rb.len() implies lex_le(
            #[trigger] rb[i].name,
            #[trigger] rb[j].name,
        ) by {
            assert(rb[i] == b[i] && rb[j] == b[j]);
        }
        lemma_stable_sort_is_unique(ra, rb, rb);
        assert(a =~= ra.push(x));
        assert(b =~= rb.push(y));
    }
}

/// Puts `r` behind the last record that stands at or before it.
fn insert_by_name<'a>(list: &mut Vec<Record<'a>>, r: Record<'a>)
    requires
        sorted_by_name(record_views(old(list)@)),
    ensures
        sorted_by_name(record_views(final(list)@)),
        final(list)@.len() == old(list)@.len() + 1,
        forall|name: Seq<char>| #[trigger]
            named(record_views(final(list)@), name) == named(
                record_views(old(list)@).push(r@),
                name,
            ),
{
    let ghost before = record_views(list@);
    let mut k: usize = list.len();
    while k > 0 && !lex_le_slices(list[k - 1].name, r.name)
        invariant
            k <= list.len(),
            list@ == old(list)@,
            forall|i: int| k <= i < list@.len() ==> !lex_le((#[trigger] list@[i]).name@, r.name@),
        decreases k,
    {
        k -= 1;
    }
    list.insert(k, r);
    proof {
        let after = record_views(list@);
        let head = before.take(k as int);
        let tail = before.skip(k as int);
        assert(after =~= head + seq![r@] + tail);
        assert(before =~= head + tail);
        assert forall|i: int, j: int| 0 <= i < j < after.len() implies lex_le(
            #[trigger] after[i].name,
            #[trigger] after[j].name,
        ) by {
            if j < k {
                assert(after[i] == before[i] && after[j] == before[j]);
            } else if j == k {
                assert(after[i] == before[i]);
                assert(lex_le(before[k - 1].name, r@.name));
                if i < k - 1 {
                    assert(lex_le(before[i].name, before[k - 1].name));
                    lemma_lex_le_transitive(before[i].name, before[k - 1].name, r@.name);
                }
            } else {
                assert(after[j] == before[j - 1]);
                assert(!lex_le(before[j - 1].name, r@.name));
                lemma_lex_le_total(before[j - 1].name, r@.name);
                if i < k {
                    assert(after[i] == before[i]);
                } else if i == k {
                } else {
                    assert(after[i] == before[i - 1]);
                }
            }
        }
        assert forall|name: Seq<char>| #[trigger]
            named(after, name) == named(before.push(r@), name) by {
            let one = seq![r@];
            lemma_named_concat(head + one, tail, name);
            lemma_named_concat(head, one, name);
            lemma_named_concat(head, tail, name);
            assert(one.drop_last() =~= Seq::<PackageView>::empty());
            assert(named(one.drop_last(), name) =~= Seq::<PackageView>::empty());
            assert(one.last() == r@);
            assert(before.push(r@).drop_last() =~= before);
            assert(before.push(r@).last() == r@);
            if r@.name == name {
                assert(named(one, name) =~= one);
                assert forall|i: int| 0 <= i < tail.len() implies (#[trigger] tail[i]).name
                    != name by {
                    assert(tail[i] == before[k + i]);
                    lemma_lex_le_reflexive(name);
                }
                lemma_named_absent(tail, name);
                assert(named(after, name) =~= named(head, name) + one);
                assert(named(before, name) =~= named(head, name));
                assert(named(before.push(r@), name) =~= named(before, name).push(r@));
            } else {
                assert(named(one, name) =~= Seq::<PackageView>::empty());
                assert(named(after, name) =~= named(head, name) + named(tail, name));
                assert(named(before.push(r@), name) =~= named(before, name));
            }
        }
    }
}

/// Reads one line of a listing, keeping name and path as parts of the line.
fn parse_record<'a>(line: &'a [char], prefix: &[char]) -> (r: Option<Record<'a>>)
    requires
        prefix@ == listing_prefix(),
    ensures
        match r {
            Some(rec) => parse_line(line@) == Some(rec@),
            None => parse_line(line@) is None,
        },
{
    let t = trim_slice(line);
    if !starts_with(t, prefix) {
        return None;
    }
    let rest = slice_subrange(t, prefix.len(), t.len());
    match find_last(rest, '=') {
        Some(i) => {
            proof {
                rest@.index_of_last_ensures('=');
            }
            let path = trim_slice(slice_subrange(rest, 0, i));
            let name = trim_slice(slice_subrange(rest, i + 1, rest.len()));
            Some(Record { name, path })
        },
        None => None,
    }
}

impl Package {
    /// Reads one line of a listing.
    pub fn parse_line(line: &str) -> (r: Option<Package>)
        ensures
            match r {
                Some(p) => parse_line(line@) == Some(p@),
                None => parse_line(line@) is None,
            },
    {
        let text = chars_of(line);
        let prefix = chars_of("package:");
        match parse_record(text.as_slice(), prefix.as_slice()) {
            Some(rec) => Some(Package { name: string_of(rec.name), path: string_of(rec.path) }),
            None => None,
        }
    }

    /// Reads a listing: the records of its lines, ordered by name. Records of
    /// one name keep the order of their lines.
    pub fn parse_list(raw: &str) -> (list: Vec<Package>)
        ensures
            is_stable_sort_of(package_views(list@), listed(lines(raw@))),
    {
        let text = chars_of(raw);
        let prefix = chars_of("package:");
        let spans = line_spans(text.as_slice());
        let ghost all = lines(raw@);
        let mut records: Vec<Record> = Vec::new();
        let mut k: usize = 0;
        while k < spans.len()
            invariant
                k <= spans.len(),
                text@ == raw@,
                prefix@ == listing_prefix(),
                all == lines(raw@),
                spans_of(spans@, text@) == all,
                forall|i: int| 0 <= i < spans@.len() ==> (#[trigger] spans@[i]).within(text@.len()),
                is_stable_sort_of(record_views(records@), listed(all.take(k as int))),
            decreases spans.len() - k,
        {
            let span = &spans[k];
            assert(span.within(text@.len()));
            let line = slice_subrange(text.as_slice(), span.start, span.end);
            proof {
                assert(line@ == spans_of(spans@, text@)[k as int]);
                assert(all.take(k as int + 1).drop_last() =~= all.take(k as int));
                assert(all.take(k as int + 1).last() == line@);
            }
            match parse_record(line, prefix.as_slice()) {
                Some(rec) => {
                    let ghost before = listed(all.take(k as int));
                    let ghost sorted = record_views(records@);
                    insert_by_name(&mut records, rec);
                    proof {
                        assert forall|name: Seq<char>| #[trigger]
                            named(record_views(records@), name) == named(
                                before.push(rec@),
                                name,
                            ) by {
                            assert(named(sorted, name) == named(before, name));
                            assert(sorted.push(rec@).drop_last() =~= sorted);
                            assert(before.push(rec@).drop_last() =~= before);
                        }
                    }
                },
                None => {},
            }
            k += 1;
        }
        assert(all.take(spans.len() as int) =~= all);
        let mut list: Vec<Package> = Vec::new();
        let mut i: usize = 0;
        while i < records.len()
            invariant
                i <= records.len(),
                list@.len() == i,
                forall|j: int| 0 <= j < i ==> (#[trigger] list@[j])@ == records@[j]@,
            decreases records.len() - i,
        {
            let rec = &records[i];
            list.push(Package { name: string_of(rec.name), path: string_of(rec.path) });
            i += 1;
        }
        assert(package_views(list@) =~= record_views(records@));
        list
    }
}

} // verus!
