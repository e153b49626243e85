//! The parser of dexopt dumps.
//!
//! A dump is a run of blocks. A block opens with a header line, a package
//! name in square brackets, and goes on with detail lines. A detail line that
//! bears an architecture marker is a compilation record; its status is the
//! token behind `status=` or `filter=`. Every other line is passed over.

use crate::pattern::{capture_group, regex_captured, regex_compiles, regex_matches, regex_pattern};
use crate::text::{
    chars_of, contains_char, line_spans, lines, spans_of, string_of, trim, trim_slice,
};
use regex::Regex;
use vstd::hash_map::StringHashMap;
use vstd::prelude::*;
use vstd::slice::slice_subrange;

verus! {

/// The expression that finds an architecture marker in a detail line.
pub const ARCH_PATTERN: &'static str = "(arm64:|arm:)";

/// The expression that finds the status token of a compilation record. Its
/// first group is the token: the run behind `status=` or `filter=` that holds
/// neither whitespace nor `]`.
pub const STATUS_PATTERN: &'static str = "\\b(?:status|filter)=([^]\\s]+)";

/// The status of a record in which no token is found.
pub const UNKNOWN_STATUS: &'static str = "unknown";

/// One compilation record of a package.
#[derive(Debug, Clone)]
pub struct DexOptInfo {
    pub raw_line: String,
    pub status: String,
}

/// What a `DexOptInfo` stands for.
pub struct DexOptInfoView {
    pub raw_line: Seq<char>,
    pub status: Seq<char>,
}

impl View for DexOptInfo {
    type V = DexOptInfoView;

    open spec fn view(&self) -> DexOptInfoView {
        DexOptInfoView { raw_line: self.raw_line@, status: self.status@ }
    }
}

/// The records that a sequence of `DexOptInfo` stands for.
pub open spec fn info_views(list: Seq<DexOptInfo>) -> Seq<DexOptInfoView> {
    Seq::new(list.len(), |i: int| list[i]@)
}

/// The records of each package that has any.
pub type DexoptMap = Map<Seq<char>, Seq<DexOptInfoView>>;

/// A trimmed line is a header: it stands in square brackets and holds
/// neither a space nor `=`.
pub open spec fn is_header(t: Seq<char>) -> bool {
    &&& t.len() > 0
    &&& t.first() == '['
    &&& t.last() == ']'
    &&& !t.contains(' ')
    &&& !t.contains('=')
}

/// The package that a header names: what stands between the brackets.
pub open spec fn header_name(t: Seq<char>) -> Seq<char> {
    t.subrange(1, t.len() - 1)
}

/// A trimmed line bears an architecture marker.
pub open spec fn has_arch_marker(t: Seq<char>) -> bool {
    regex_matches(ARCH_PATTERN@, t)
}

/// The status that a search for the token gives.
pub open spec fn status_of(captured: Option<Seq<char>>) -> Seq<char> {
    match captured {
        Some(token) => token,
        None => UNKNOWN_STATUS@,
    }
}

/// The record that a trimmed line with an architecture marker gives.
pub open spec fn record_of(t: Seq<char>) -> DexOptInfoView {
    DexOptInfoView { raw_line: t, status: status_of(regex_captured(STATUS_PATTERN@, t, 1)) }
}

/// The records of `pkg` in `map`; none where it has no key.
pub open spec fn records_in(map: DexoptMap, pkg: Seq<char>) -> Seq<DexOptInfoView> {
    if map.contains_key(pkg) {
        map[pkg]
    } else {
        Seq::empty()
    }
}

/// `map` with `info` added behind the records of `pkg`.
pub open spec fn appended(map: DexoptMap, pkg: Seq<char>, info: DexOptInfoView) -> DexoptMap {
    map.insert(pkg, records_in(map, pkg).push(info))
}

/// The parser between two lines: the package whose block it stands in, if
/// any, and the records gathered so far.
pub struct DumpState {
    pub current: Option<Seq<char>>,
    pub records: DexoptMap,
}

/// The parser before the first line.
pub open spec fn initial_state() -> DumpState {
    DumpState { current: None, records: Map::empty() }
}

/// A line adds a record: it is neither blank nor a header, a block is open,
/// and the line bears an architecture marker.
pub open spec fn adds_record(st: DumpState, line: Seq<char>) -> bool {
    &&& trim(line).len() > 0
    &&& !is_header(trim(line))
    &&& st.current is Some
    &&& has_arch_marker(trim(line))
}

/// The parser after one more line, given the line, trimmed, and what the
/// two searches found in it: whether it bears an architecture marker, and
/// its status token. A header opens the block of the package it names. Any
/// other line that is not blank adds a record to the open block if it bears
/// a marker. Nothing else changes the parser.
pub open spec fn step_found(
    st: DumpState,
    t: Seq<char>,
    has_marker: bool,
    token: Option<Seq<char>>,
) -> DumpState {
    if is_header(t) {
        DumpState { current: Some(header_name(t)), records: st.records }
    } else if t.len() > 0 && st.current is Some && has_marker {
        DumpState {
            current: st.current,
            records: appended(
                st.records,
                st.current->0,
                DexOptInfoView { raw_line: t, status: status_of(token) },
            ),
        }
    } else {
        st
    }
}

/// The parser after one more line.
pub open spec fn step(st: DumpState, line: Seq<char>) -> DumpState {
    let t = trim(line);
    step_found(st, t, has_arch_marker(t), regex_captured(STATUS_PATTERN@, t, 1))
}

/// The parser after `lines`.
pub open spec fn run(lines: Seq<Seq<char>>) -> DumpState
    decreases lines.len(),
{
    if lines.len() == 0 {
        initial_state()
    } else {
        step(run(lines.drop_last()), lines.last())
    }
}

/// The records that a dump holds.
pub open spec fn parse_dump(dump: Seq<char>) -> DexoptMap {
    run(lines(dump)).records
}

/// Some line before line `end` is a header that names `pkg`.
pub open spec fn opened_before(lines: Seq<Seq<char>>, end: int, pkg: Seq<char>) -> bool {
    exists|h: int|
        0 <= h < end && h < lines.len() && is_header(trim(#[trigger] lines[h])) && header_name(
            trim(lines[h]),
        ) == pkg
}

/// The numbers of the lines that gave `pkg` its records, in the order in
/// which the parser met them.
pub open spec fn record_lines(lines: Seq<Seq<char>>, pkg: Seq<char>) -> Seq<int>
    decreases lines.len(),
{
    if lines.len() == 0 {
        Seq::empty()
    } else {
        let before = run(lines.drop_last());
        let earlier = record_lines(lines.drop_last(), pkg);
        if adds_record(before, lines.last()) && before.current == Some(pkg) {
            earlier.push(lines.len() - 1)
        } else {
            earlier
        }
    }
}

/// Where the records of a package come from. A package has a key exactly
/// if some line gave it a record. Its records stand in the order of their
/// lines: record `i` is the record of line `record_lines(lines, pkg)[i]`,
/// and these line numbers ascend strictly. Each such line stands behind a
/// header that names the package, so no record belongs to a package that no
/// header has opened.
pub proof fn lemma_records_follow_lines(lines: Seq<Seq<char>>, pkg: Seq<char>)
    ensures
        run(lines).current == Some(pkg) ==> opened_before(lines, lines.len() as int, pkg),
        run(lines).records.contains_key(pkg) <==> record_lines(lines, pkg).len() > 0,
        records_in(run(lines).records, pkg).len() == record_lines(lines, pkg).len(),
        forall|i: int|
            0 <= i < record_lines(lines, pkg).len() ==> {
                let at = #[trigger] record_lines(lines, pkg)[i];
                &&& 0 <= at < lines.len()
                &&& records_in(run(lines).records, pkg)[i] == record_of(trim(lines[at]))
                &&& opened_before(lines, at, pkg)
            },
        forall|i: int, j: int|
            0 <= i < j < record_lines(lines, pkg).len() ==> #[trigger] record_lines(lines, pkg)[i]
                < #[trigger] record_lines(lines, pkg)[j],
    decreases lines.len(),
{
    if lines.len() > 0 {
        let shorter = lines.drop_last();
        let line = lines.last();
        let n = shorter.len() as int;
        let before = run(shorter);
        let after = run(lines);
        let t = trim(line);
        let earlier = record_lines(shorter, pkg);
        let now = record_lines(lines, pkg);
        lemma_records_follow_lines(shorter, pkg);
        assert forall|end: int| #[trigger] opened_before(shorter, end, pkg) implies opened_before(
            lines,
            end,
            pkg,
        ) by {
            let h = choose|h: int|
                0 <= h < end && h < shorter.len() && is_header(trim(#[trigger] shorter[h]))
                    && header_name(trim(shorter[h])) == pkg;
            assert(lines[h] == shorter[h]);
        }
        if after.current == Some(pkg) {
            if is_header(t) {
                assert(lines[n] == line);
            } else {
                assert(before.current == Some(pkg));
                assert(opened_before(shorter, n, pkg));
                let h = choose|h: int|
                    0 <= h < n && h < shorter.len() && is_header(trim(#[trigger] shorter[h]))
                        && header_name(trim(shorter[h])) == pkg;
                assert(lines[h] == shorter[h]);
            }
        }
        if adds_record(before, line) && before.current == Some(pkg) {
            assert(after.records == appended(before.records, pkg, record_of(t)));
            assert(now == earlier.push(n));
            assert(records_in(after.records, pkg) == records_in(before.records, pkg).push(
                record_of(t),
            ));
            assert(opened_before(shorter, n, pkg));
            assert forall|i: int| 0 <= i < now.len() implies {
                let at = #[trigger] now[i];
                &&& 0 <= at < lines.len()
                &&& records_in(after.records, pkg)[i] == record_of(trim(lines[at]))
                &&& opened_before(lines, at, pkg)
            } by {
                if i < earlier.len() {
                    let at = earlier[i];
                    assert(now[i] == at);
                    assert(lines[at] == shorter[at]);
                    assert(opened_before(shorter, at, pkg));
                } else {
                    assert(now[i] == n);
                    assert(lines[n] == line);
                }
            }
            assert forall|i: int, j: int| 0 <= i < j < now.len() implies #[trigger] now[i]
                < #[trigger] now[j] by {
                if j < earlier.len() {
                    assert(now[i] == earlier[i] && now[j] == earlier[j]);
                } else {
                    assert(now[i] == earlier[i]);
                    assert(earlier[i] < shorter.len());
                }
            }
        } else {
            assert(now == earlier);
            assert(records_in(after.records, pkg) == records_in(before.records, pkg));
            assert(after.records.contains_key(pkg) == before.records.contains_key(pkg));
            assert forall|i: int| 0 <= i < now.len() implies {
                let at = #[trigger] now[i];
                &&& 0 <= at < lines.len()
                &&& records_in(after.records, pkg)[i] == record_of(trim(lines[at]))
                &&& opened_before(lines, at, pkg)
            } by {
                let at = earlier[i];
                assert(lines[at] == shorter[at]);
                assert(opened_before(shorter, at, pkg));
            }
        }
    }
}

/// No package has records unless a header in the dump names it.
pub proof fn lemma_keys_follow_headers(dump: Seq<char>, pkg: Seq<char>)
    requires
        parse_dump(dump).contains_key(pkg),
    ensures
        opened_before(lines(dump), lines(dump).len() as int, pkg),
{
    let all = lines(dump);
    lemma_records_follow_lines(all, pkg);
    let at = record_lines(all, pkg)[0];
    assert(opened_before(all, at, pkg));
    let h = choose|h: int|
        0 <= h < at && h < all.len() && is_header(trim(#[trigger] all[h])) && header_name(
            trim(all[h]),
        ) == pkg;
    assert(is_header(trim(all[h])));
}

impl DexOptInfo {
    /// The record of a line, given what the search for its status token
    /// found.
    pub fn new(raw_line: String, captured: Option<String>) -> (info: DexOptInfo)
        ensures
            info.raw_line@ == raw_line@,
            info.status@ == status_of(
                match captured {
                    Some(token) => Some(token@),
                    None => None,
                },
            ),
    {
        let status = match captured {
            Some(token) => token,
            None => UNKNOWN_STATUS.to_owned(),
        };
        DexOptInfo { raw_line, status }
    }
}

/// Decides whether a trimmed line is a header.
pub fn is_header_line(t: &[char]) -> (r: bool)
    ensures
        r == is_header(t@),
{
    let n = t.len();
    n > 0 && t[0] == '[' && t[n - 1] == ']' && !contains_char(t, ' ') && !contains_char(t, '=')
}

/// Why the parser could not be set up.
#[derive(Clone, Copy, Debug, PartialEq, Eq, Structural)]
pub enum PatternError {
    /// The expression for the architecture marker does not compile.
    ArchMarker,
    /// The expression for the status token does not compile.
    StatusToken,
}

impl PatternError {
    /// The error in words.
    pub fn message(&self) -> (text: &'static str)
        ensures
            text@ == match *self {
                PatternError::ArchMarker => "Invalid regex for status"@,
                PatternError::StatusToken => "Invalid regex for filter extraction"@,
            },
    {
        match self {
            PatternError::ArchMarker => "Invalid regex for status",
            PatternError::StatusToken => "Invalid regex for filter extraction",
        }
    }
}

/// The two expressions of the parser, compiled.
pub struct DumpPatterns {
    arch: Regex,
    status: Regex,
}

impl DumpPatterns {
    /// The expressions are those of `ARCH_PATTERN` and `STATUS_PATTERN`.
    pub closed spec fn wf(&self) -> bool {
        &&& regex_pattern(self.arch) == ARCH_PATTERN@
        &&& regex_pattern(self.status) == STATUS_PATTERN@
    }

    /// Compiles the two expressions. Fails on the first that does not
    /// compile.
    pub fn compile() -> (r: Result<DumpPatterns, PatternError>)
        ensures
            match r {
                Ok(patterns) => patterns.wf() && regex_compiles(ARCH_PATTERN@) && regex_compiles(
                    STATUS_PATTERN@,
                ),
                Err(PatternError::ArchMarker) => !regex_compiles(ARCH_PATTERN@),
                Err(PatternError::StatusToken) => regex_compiles(ARCH_PATTERN@) && !regex_compiles(
                    STATUS_PATTERN@,
                ),
            },
    {
        let arch = match Regex::new(ARCH_PATTERN) {
            Ok(re) => re,
            Err(_) => {
                return Err(PatternError::ArchMarker);
            },
        };
        let status = match Regex::new(STATUS_PATTERN) {
            Ok(re) => re,
            Err(_) => {
                return Err(PatternError::StatusToken);
            },
        };
        Ok(DumpPatterns { arch, status })
    }
}

/// The records of one package.
struct Section {
    name: String,
    records: Vec<DexOptInfo>,
}

/// The records of a dump, by package.
pub struct Analyzer {
    sections: Vec<Section>,
    index: StringHashMap<usize>,
}

impl View for Analyzer {
    type V = DexoptMap;

    /// The records of each package that has any.
    closed spec fn view(&self) -> DexoptMap {
        Map::new(
            |pkg: Seq<char>| self.index@.contains_key(pkg),
            |pkg: Seq<char>| info_views(self.sections@[self.index@[pkg] as int].records@),
        )
    }
}

impl Analyzer {
    /// Every package has one section, and the index leads to it.
    pub closed spec fn wf(&self) -> bool {
        &&& forall|pkg: Seq<char>| #[trigger]
            self.index@.contains_key(pkg) ==> {
                &&& (self.index@[pkg] as int) < self.sections@.len()
                &&& self.sections@[self.index@[pkg] as int].name@ == pkg
            }
        &&& forall|i: int|
            0 <= i < self.sections@.len() ==> {
                &&& self.index@.contains_key((#[trigger] self.sections@[i]).name@)
                &&& self.index@[self.sections@[i].name@] == i
            }
    }

    /// An analyzer without records.
    pub fn empty() -> (a: Analyzer)
        ensures
            a.wf(),
            a@ == Map::<Seq<char>, Seq<DexOptInfoView>>::empty(),
    {
        let a = Analyzer { sections: Vec::new(), index: StringHashMap::new() };
        assert(a@ =~= Map::<Seq<char>, Seq<DexOptInfoView>>::empty());
        a
    }

    /// Adds `info` behind the records of `pkg`.
    pub fn append(&mut self, pkg: &str, info: DexOptInfo)
        requires
            old(self).wf(),
        ensures
            final(self).wf(),
            final(self)@ == appended(old(self)@, pkg@, info@),
    {
        let ghost before = *self;
        let found = match self.index.get(pkg) {
            Some(i) => Some(*i),
            None => None,
        };
        match found {
            Some(i) => {
                let ghost old_records = self.sections@[i as int].records@;
                self.sections[i].records.push(info);
                proof {
                    assert(self.index@ == before.index@);
                    assert(self.sections@.len() == before.sections@.len());
                    assert(self.sections@[i as int].name@ == pkg@);
                    assert forall|j: int|
                        0 <= j < self.sections@.len() && j != i implies self.sections@[j]
                        == before.sections@[j] by {}
                    assert(info_views(self.sections@[i as int].records@) =~= info_views(
                        old_records,
                    ).push(info@));
                    assert(self@ =~= appended(before@, pkg@, info@));
                }
            },
            None => {
                let i = self.sections.len();
                let mut records: Vec<DexOptInfo> = Vec::new();
                records.push(info);
                self.index.insert(pkg.to_owned(), i);
                self.sections.push(Section { name: pkg.to_owned(), records });
                proof {
                    assert(info_views(records@) =~= Seq::<DexOptInfoView>::empty().push(info@));
                    assert forall|j: int| 0 <= j < before.sections@.len() implies self.sections@[j]
                        == before.sections@[j] by {}
                    assert(self@ =~= appended(before@, pkg@, info@));
                }
            },
        }
    }

    /// The records of `pkg_name`, if it has any.
    pub fn get_info(&self, pkg_name: &str) -> (r: Option<&Vec<DexOptInfo>>)
        requires
            self.wf(),
        ensures
            match r {
                Some(records) => self@.contains_key(pkg_name@) && info_views(records@)
                    == self@[pkg_name@],
                None => !self@.contains_key(pkg_name@),
            },
    {
        match self.index.get(pkg_name) {
            Some(i) => Some(&self.sections[*i].records),
            None => None,
        }
    }

    /// Reads a dump with compiled expressions.
    pub fn with_patterns(dump: &str, patterns: &DumpPatterns) -> (a: Analyzer)
        requires
            patterns.wf(),
        ensures
            a.wf(),
            a@ == parse_dump(dump@),
    {
        let text = chars_of(dump);
        let spans = line_spans(text.as_slice());
        let ghost all = lines(dump@);
        let mut parser = DumpParser::new();
        let mut k: usize = 0;
        while k < spans.len()
            invariant
                k <= spans.len(),
                text@ == dump@,
                all == lines(dump@),
                spans_of(spans@, text@) == all,
                forall|i: int| 0 <= i < spans@.len() ==> (#[trigger] spans@[i]).within(text@.len()),
                patterns.wf(),
                parser.wf(),
                parser@ == run(all.take(k as int)),
            decreases spans.len() - k,
        {
            let span = &spans[k];
            assert(span.within(text@.len()));
            let line = slice_subrange(text.as_slice(), span.start, span.end);
            proof {
                assert(line@ == spans_of(spans@, text@)[k as int]);
                assert(all.take(k as int + 1).drop_last() =~= all.take(k as int));
                assert(all.take(k as int + 1).last() == line@);
            }
            let t = trim_slice(line);
            let mut has_marker = false;
            let mut token: Option<String> = None;
            if parser.needs_search(t) {
                let raw = string_of(t);
                has_marker = patterns.arch.is_match(raw.as_str());
                if has_marker {
                    token = capture_group(&patterns.status, raw.as_str(), 1);
                }
            }
            parser.feed(t, has_marker, token);
            k += 1;
        }
        assert(all.take(spans.len() as int) =~= all);
        parser.finish()
    }

    /// Reads a dump. Fails only where one of the parser's expressions does
    /// not compile.
    pub fn new(dump: &str) -> (r: Result<Analyzer, PatternError>)
        ensures
            match r {
                Ok(a) => a.wf() && a@ == parse_dump(dump@) && regex_compiles(ARCH_PATTERN@)
                    && regex_compiles(STATUS_PATTERN@),
                Err(PatternError::ArchMarker) => !regex_compiles(ARCH_PATTERN@),
                Err(PatternError::StatusToken) => regex_compiles(ARCH_PATTERN@) && !regex_compiles(
                    STATUS_PATTERN@,
                ),
            },
    {
        match DumpPatterns::compile() {
            Ok(patterns) => Ok(Analyzer::with_patterns(dump, &patterns)),
            Err(e) => Err(e),
        }
    }
}

/// The parser at work: the records gathered so far, and the package whose
/// block is open.
pub struct DumpParser {
    analyzer: Analyzer,
    current: Option<String>,
}

impl View for DumpParser {
    type V = DumpState;

    closed spec fn view(&self) -> DumpState {
        DumpState {
            current: match self.current {
                Some(name) => Some(name@),
                None => None,
            },
            records: self.analyzer@,
        }
    }
}

impl DumpParser {
    /// The records gathered so far are in order.
    pub closed spec fn wf(&self) -> bool {
        self.analyzer.wf()
    }

    /// The parser before the first line.
    pub fn new() -> (p: DumpParser)
        ensures
            p.wf(),
            p@ == initial_state(),
    {
        DumpParser { analyzer: Analyzer::empty(), current: None }
    }

    /// Whether what the searches find in the trimmed line `t` matters: it
    /// does not for a blank line, for a header, or while no block is open.
    pub fn needs_search(&self, t: &[char]) -> (r: bool)
        ensures
            r == (t@.len() > 0 && !is_header(t@) && self@.current is Some),
    {
        t.len() > 0 && !is_header_line(t) && self.current.is_some()
    }

    /// Takes one line: `t` is the line, trimmed, `has_marker` says whether
    /// it bears an architecture marker, and `token` is its status token.
    pub fn feed(&mut self, t: &[char], has_marker: bool, token: Option<String>)
        requires
            old(self).wf(),
        ensures
            final(self).wf(),
            final(self)@ == step_found(
                old(self)@,
                t@,
                has_marker,
                match token {
                    Some(text) => Some(text@),
                    None => None,
                },
            ),
    {
        if is_header_line(t) {
            self.current = Some(string_of(slice_subrange(t, 1, t.len() - 1)));
        } else if t.len() > 0 && has_marker {
            match &self.current {
                Some(pkg) => {
                    self.analyzer.append(pkg.as_str(), DexOptInfo::new(string_of(t), token));
                },
                None => {},
            }
        }
    }

    /// The records gathered.
    pub fn finish(self) -> (a: Analyzer)
        requires
            self.wf(),
        ensures
            a.wf(),
            a@ == self@.records,
    {
        self.analyzer
    }
}

} // verus!
