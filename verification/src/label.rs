//! The choice of a package's label.
//!
//! A label comes from one of two sources. The first is the label that the
//! package's archive records. It is used unless it is empty or looks like the
//! name of a class. The second is the output of a badging tool, which is
//! searched for the line that gives the label.

use crate::package::Package;
use crate::std_contracts::unicode_alphanumeric;
use crate::text::{
    chars_of, contains_char, find_first, line_spans, lines, slices_equal, spans_of, starts_with,
    string_of, trim, trim_slice,
};
use vstd::prelude::*;
use vstd::slice::slice_subrange;

verus! {

/// A raw label made fit for one line: trimmed, and each carriage return and
/// line feed inside it turned into a space.
pub open spec fn normalize_label(raw: Seq<char>) -> Seq<char> {
    let t = trim(raw);
    Seq::new(
        t.len(),
        |i: int|
            if t[i] == '\r' || t[i] == '\n' {
                ' '
            } else {
                t[i]
            },
    )
}

/// A character that may stand in the qualified name of a class.
pub open spec fn is_class_name_char(c: char) -> bool {
    unicode_alphanumeric(c) || c == '.' || c == '_'
}

/// A label has the shape of a qualified name: it holds a dot and no space,
/// and is not the package's own name.
pub open spec fn has_class_name_shape(label: Seq<char>, pkg_name: Seq<char>) -> bool {
    &&& label.contains('.')
    &&& !label.contains(' ')
    &&& label != pkg_name
}

/// A label is made of class name characters only.
pub open spec fn has_class_name_chars(label: Seq<char>) -> bool {
    forall|i: int| 0 <= i < label.len() ==> is_class_name_char(#[trigger] label[i])
}

/// A label reads like the qualified name of a class, not like a title: it
/// has the shape of one and is made of class name characters only.
pub open spec fn looks_like_class_name(label: Seq<char>, pkg_name: Seq<char>) -> bool {
    has_class_name_shape(label, pkg_name) && has_class_name_chars(label)
}

/// The label to use, given a label made fit and whether it reads like the
/// name of a class: the label itself, unless it is empty or reads so.
pub open spec fn kept_label(clean: Seq<char>, class_name: bool) -> Option<Seq<char>> {
    if clean.len() > 0 && !class_name {
        Some(clean)
    } else {
        None
    }
}

/// The label that an archive's raw label gives for the package `pkg_name`,
/// or `None` where the other source has to be asked.
pub open spec fn usable_label(raw: Option<Seq<char>>, pkg_name: Seq<char>) -> Option<Seq<char>> {
    match raw {
        Some(text) => kept_label(
            normalize_label(text),
            looks_like_class_name(normalize_label(text), pkg_name),
        ),
        None => None,
    }
}

/// The marker that opens the label line in badging output.
pub open spec fn badging_marker() -> Seq<char> {
    "application-label:'"@
}

/// The label that one line of badging output gives: the trimmed line opens
/// with the marker, and the label is what follows up to the next quote.
pub open spec fn badging_label_in(line: Seq<char>) -> Option<Seq<char>> {
    let t = trim(line);
    if badging_marker().is_prefix_of(t) {
        let rest = t.skip(badging_marker().len() as int);
        match rest.index_of_first('\'') {
            Some(i) => Some(rest.take(i)),
            None => None,
        }
    } else {
        None
    }
}

/// The label of the first of `lines` that gives one.
pub open spec fn badging_label(lines: Seq<Seq<char>>) -> Option<Seq<char>>
    decreases lines.len(),
{
    if lines.len() == 0 {
        None
    } else {
        match badging_label_in(lines.first()) {
            Some(label) => Some(label),
            None => badging_label(lines.drop_first()),
        }
    }
}

/// The label of a package, given what each source returned: the archive's
/// label where it is usable, else the label in the badging output.
pub open spec fn resolve_label(
    native: Option<Seq<char>>,
    badging: Option<Seq<char>>,
    pkg_name: Seq<char>,
) -> Option<Seq<char>> {
    match usable_label(native, pkg_name) {
        Some(label) => Some(label),
        None => match badging {
            Some(output) => badging_label(lines(output)),
            None => None,
        },
    }
}

/// A label that is the package's own name is never taken for a class name:
/// where the archive's label, made fit, equals the name, it is the label.
pub proof fn lemma_own_name_is_kept(raw: Seq<char>, pkg_name: Seq<char>)
    requires
        normalize_label(raw) == pkg_name,
        pkg_name.len() > 0,
    ensures
        !has_class_name_shape(pkg_name, pkg_name),
        !looks_like_class_name(pkg_name, pkg_name),
        usable_label(Some(raw), pkg_name) == Some(pkg_name),
{
}

/// A label that holds a space is never taken for a class name, whatever
/// else it holds and whatever the package is called.
pub proof fn lemma_label_with_space_is_kept(raw: Seq<char>, pkg_name: Seq<char>)
    requires
        normalize_label(raw).contains(' '),
    ensures
        !has_class_name_shape(normalize_label(raw), pkg_name),
        !looks_like_class_name(normalize_label(raw), pkg_name),
        usable_label(Some(raw), pkg_name) == Some(normalize_label(raw)),
{
    let clean = normalize_label(raw);
    let i = choose|i: int| 0 <= i < clean.len() && clean[i] == ' ';
    assert(clean.len() > 0);
}

/// A label that is empty once made fit is no label: the badging output
/// decides alone.
pub proof fn lemma_empty_label_falls_through(
    raw: Seq<char>,
    badging: Option<Seq<char>>,
    pkg_name: Seq<char>,
)
    requires
        normalize_label(raw).len() == 0,
    ensures
        usable_label(Some(raw), pkg_name) is None,
        resolve_label(Some(raw), badging, pkg_name) == resolve_label(None, badging, pkg_name),
{
}

/// The label taken from the archive is never empty.
pub proof fn lemma_usable_label_is_not_empty(raw: Option<Seq<char>>, pkg_name: Seq<char>)
    ensures
        usable_label(raw, pkg_name) matches Some(label) ==> label.len() > 0,
{
}

/// The first line that gives a label decides.
proof fn lemma_badging_label_first(lines: Seq<Seq<char>>, k: int)
    requires
        0 <= k <= lines.len(),
        forall|j: int| 0 <= j < k ==> badging_label_in(#[trigger] lines[j]) is None,
    ensures
        k < lines.len() && badging_label_in(lines[k]) is Some ==> badging_label(lines)
            == badging_label_in(lines[k]),
        k == lines.len() ==> badging_label(lines) is None,
    decreases lines.len(),
{
    if lines.len() > 0 && k > 0 {
        let rest = lines.drop_first();
        assert(badging_label_in(lines[0]) is None);
        assert forall|j: int| 0 <= j < k - 1 implies badging_label_in(
            #[trigger] rest[j],
        ) is None by {
            assert(rest[j] == lines[j + 1]);
        }
        lemma_badging_label_first(rest, k - 1);
        if k < lines.len() {
            assert(rest[k - 1] == lines[k]);
        }
    }
}

/// Makes a raw label fit for one line.
pub fn normalize(raw: &str) -> (clean: String)
    ensures
        clean@ == normalize_label(raw@),
{
    let text = chars_of(raw);
    let clean = normalize_chars(text.as_slice());
    string_of(clean.as_slice())
}

fn normalize_chars(raw: &[char]) -> (clean: Vec<char>)
    ensures
        clean@ == normalize_label(raw@),
{
    let t = trim_slice(raw);
    let mut clean: Vec<char> = Vec::new();
    let mut i: usize = 0;
    while i < t.len()
        invariant
            i <= t.len(),
            t@ == trim(raw@),
            clean@.len() == i,
            forall|j: int| 0 <= j < i ==> #[trigger] clean@[j] == normalize_label(raw@)[j],
        decreases t.len() - i,
    {
        let c = t[i];
        if c == '\r' || c == '\n' {
            clean.push(' ');
        } else {
            clean.push(c);
        }
        i += 1;
    }
    assert(clean@ =~= normalize_label(raw@));
    clean
}

fn is_shaped(label: &[char], pkg_name: &[char]) -> (r: bool)
    ensures
        r == has_class_name_shape(label@, pkg_name@),
{
    contains_char(label, '.') && !contains_char(label, ' ') && !slices_equal(label, pkg_name)
}

fn is_made_of_class_name_chars(label: &[char]) -> (r: bool)
    ensures
        r == has_class_name_chars(label@),
{
    let mut i: usize = 0;
    while i < label.len()
        invariant
            i <= label.len(),
            forall|j: int| 0 <= j < i ==> is_class_name_char(#[trigger] label@[j]),
        decreases label.len() - i,
    {
        let c = label[i];
        if !(c.is_alphanumeric() || c == '.' || c == '_') {
            return false;
        }
        i += 1;
    }
    true
}

/// Decides whether a label has the shape of a qualified name.
pub fn is_class_name_shaped(label: &str, pkg_name: &str) -> (r: bool)
    ensures
        r == has_class_name_shape(label@, pkg_name@),
{
    let l = chars_of(label);
    let n = chars_of(pkg_name);
    is_shaped(l.as_slice(), n.as_slice())
}

/// Decides whether a label reads like the qualified name of a class.
pub fn is_class_name_label(label: &str, pkg_name: &str) -> (r: bool)
    ensures
        r == looks_like_class_name(label@, pkg_name@),
{
    let l = chars_of(label);
    let n = chars_of(pkg_name);
    is_shaped(l.as_slice(), n.as_slice()) && is_made_of_class_name_chars(l.as_slice())
}

/// The label to use, given a label made fit and whether it reads like the
/// name of a class.
pub fn keep_label(clean: String, class_name: bool) -> (r: Option<String>)
    ensures
        match r {
            Some(label) => kept_label(clean@, class_name) == Some(label@),
            None => kept_label(clean@, class_name) is None,
        },
{
    if clean.as_str().is_empty() || class_name {
        None
    } else {
        Some(clean)
    }
}

fn label_in_line(line: &[char], marker: &[char]) -> (r: Option<String>)
    requires
        marker@ == badging_marker(),
    ensures
        match r {
            Some(label) => badging_label_in(line@) == Some(label@),
            None => badging_label_in(line@) is None,
        },
{
    let t = trim_slice(line);
    if !starts_with(t, marker) {
        return None;
    }
    let rest = slice_subrange(t, marker.len(), t.len());
    match find_first(rest, '\'') {
        Some(end) => {
            proof {
                rest@.index_of_first_ensures('\'');
            }
            Some(string_of(slice_subrange(rest, 0, end)))
        },
        None => None,
    }
}

impl Package {
    /// The first source: the label that the package's archive records, if
    /// it records one. Returns the label to use, or `None` where the badging
    /// tool has to be asked.
    pub fn accept_label(&self, native: Option<&str>) -> (r: Option<String>)
        ensures
            match r {
                Some(label) => usable_label(
                    match native {
                        Some(text) => Some(text@),
                        None => None,
                    },
                    self.name@,
                ) == Some(label@),
                None => usable_label(
                    match native {
                        Some(text) => Some(text@),
                        None => None,
                    },
                    self.name@,
                ) is None,
            },
    {
        match native {
            Some(text) => {
                let raw = chars_of(text);
                let clean = normalize_chars(raw.as_slice());
                let name = chars_of(self.name.as_str());
                let class_name = is_shaped(clean.as_slice(), name.as_slice())
                    && is_made_of_class_name_chars(clean.as_slice());
                keep_label(string_of(clean.as_slice()), class_name)
            },
            None => None,
        }
    }

    /// The second source: the label in the output of the badging tool, from
    /// the first line that gives one.
    pub fn label_from_badging(output: &str) -> (r: Option<String>)
        ensures
            match r {
                Some(label) => badging_label(lines(output@)) == Some(label@),
                None => badging_label(lines(output@)) is None,
            },
    {
        let text = chars_of(output);
        let marker = chars_of("application-label:'");
        let spans = line_spans(text.as_slice());
        let ghost all = lines(output@);
        let mut k: usize = 0;
        while k < spans.len()
            invariant
                k <= spans.len(),
                text@ == output@,
                marker@ == badging_marker(),
                all == lines(output@),
                spans_of(spans@, text@) == all,
                forall|i: int| 0 <= i < spans@.len() ==> (#[trigger] spans@[i]).within(text@.len()),
                forall|j: int| 0 <= j < k ==> badging_label_in(#[trigger] all[j]) is None,
            decreases spans.len() - k,
        {
            let span = &spans[k];
            assert(span.within(text@.len()));
            let line = slice_subrange(text.as_slice(), span.start, span.end);
            assert(line@ == spans_of(spans@, text@)[k as int]);
            match label_in_line(line, marker.as_slice()) {
                Some(label) => {
                    proof {
                        lemma_badging_label_first(all, k as int);
                    }
                    return Some(label);
                },
                None => {},
            }
            k += 1;
        }
        proof {
            lemma_badging_label_first(all, k as int);
        }
        None
    }

    /// The label of the package, given what each source returned. `native`
    /// is the label that the archive records, `badging` the output of the
    /// badging tool; each is `None` where its source gave nothing.
    pub fn get_label(&self, native: Option<&str>, badging: Option<&str>) -> (r: Option<String>)
        ensures
            match r {
                Some(label) => resolve_label(
                    match native {
                        Some(text) => Some(text@),
                        None => None,
                    },
                    match badging {
                        Some(text) => Some(text@),
                        None => None,
                    },
                    self.name@,
                ) == Some(label@),
                None => resolve_label(
                    match native {
                        Some(text) => Some(text@),
                        None => None,
                    },
                    match badging {
                        Some(text) => Some(text@),
                        None => None,
                    },
                    self.name@,
                ) is None,
            },
    {
        match self.accept_label(native) {
            Some(label) => Some(label),
            None => match badging {
                Some(output) => Package::label_from_badging(output),
                None => None,
            },
        }
    }
}

} // verus!
