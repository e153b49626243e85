//! The arithmetic of the printed report: which colour a status gets, how
//! wide a box is, how much padding centres a title, and how the records of
//! a package line up. Nothing here prints.

use crate::dexopt::{DexOptInfo, DexOptInfoView};
use crate::text::{chars_of, find_first, str_eq, string_of};
use vstd::prelude::*;
use vstd::slice::slice_subrange;
use vstd::string::StrSliceExecFns;
use vstd::string::StringSliceAdditionalSpecFns;

verus! {

/// The least inner width of the box around a package's name.
pub const BOX_MIN_WIDTH: usize = 40;

/// The inner width of the summary panel.
pub const SUMMARY_WIDTH: usize = 47;

/// The width of the label column in the summary panel.
pub const SUMMARY_LABEL_WIDTH: usize = 22;

/// The width of the package column in the table.
pub const PACKAGE_COLUMN_WIDTH: usize = 45;

/// The width of the status column in the table.
pub const STATUS_COLUMN_WIDTH: usize = 30;

/// The colours in which statuses are shown.
#[derive(Clone, Copy, Debug, PartialEq, Eq, Structural)]
pub enum StatusColor {
    Green,
    Yellow,
    Blue,
    Red,
    Magenta,
    White,
}

/// The colour of a status.
pub open spec fn status_color(status: Seq<char>) -> StatusColor {
    if status == "speed-profile"@ || status == "speed"@ {
        StatusColor::Green
    } else if status == "verify"@ {
        StatusColor::Yellow
    } else if status == "quicken"@ {
        StatusColor::Blue
    } else if status == "run-from-apk"@ || status == "error"@ {
        StatusColor::Red
    } else if status == "everything"@ {
        StatusColor::Magenta
    } else {
        StatusColor::White
    }
}

/// Whether a status is shown in bold.
pub open spec fn status_is_bold(status: Seq<char>) -> bool {
    status == "error"@
}

/// `n` spaces.
pub open spec fn spaces(n: nat) -> Seq<char> {
    Seq::new(n, |i: int| ' ')
}

/// `text`, filled up with spaces at its end to `width` characters. A text
/// that is wider stays as it is.
pub open spec fn padded(text: Seq<char>, width: nat) -> Seq<char> {
    if text.len() < width {
        text + spaces((width - text.len()) as nat)
    } else {
        text
    }
}

/// The name under which a package is shown: its label, where it has one,
/// with the package name behind it in parentheses.
pub open spec fn shown_name(label: Option<Seq<char>>, name: Seq<char>) -> Seq<char> {
    match label {
        Some(text) => text + " ("@ + name + ")"@,
        None => name,
    }
}

/// The length of a text in UTF-8 bytes.
pub open spec fn byte_len(text: Seq<char>) -> usize {
    vstd::utf8::encode_utf8(text).len() as usize
}

/// The byte offset of the first colon of a record's line, if it has one.
pub open spec fn colon_offset(line: Seq<char>) -> Option<usize> {
    match line.index_of_first(':') {
        Some(i) => Some(byte_len(line.take(i))),
        None => None,
    }
}

/// The greatest colon offset among the lines of `records`; 0 where no line
/// has a colon.
pub open spec fn prefix_width(records: Seq<DexOptInfoView>) -> usize
    decreases records.len(),
{
    if records.len() == 0 {
        0
    } else {
        let before = prefix_width(records.drop_last());
        match colon_offset(records.last().raw_line) {
            Some(n) => if n > before {
                n
            } else {
                before
            },
            None => before,
        }
    }
}

/// A record's line with what stands before its first colon filled up to
/// `width` characters. A line without a colon stays as it is.
pub open spec fn aligned(line: Seq<char>, width: nat) -> Seq<char> {
    match line.index_of_first(':') {
        Some(i) => padded(line.take(i), width) + line.skip(i),
        None => line,
    }
}

/// The colour of a status.
pub fn get_status_color(status: &str) -> (color: StatusColor)
    ensures
        color == status_color(status@),
{
    if str_eq(status, "speed-profile") || str_eq(status, "speed") {
        StatusColor::Green
    } else if str_eq(status, "verify") {
        StatusColor::Yellow
    } else if str_eq(status, "quicken") {
        StatusColor::Blue
    } else if str_eq(status, "run-from-apk") || str_eq(status, "error") {
        StatusColor::Red
    } else if str_eq(status, "everything") {
        StatusColor::Magenta
    } else {
        StatusColor::White
    }
}

/// Whether a status is shown in bold.
pub fn is_bold(status: &str) -> (bold: bool)
    ensures
        bold == status_is_bold(status@),
{
    str_eq(status, "error")
}

/// Adds the characters of `text` at the end of `out`.
fn push_str(out: &mut String, text: &str)
    ensures
        final(out)@ == old(out)@ + text@,
{
    let ghost start = out@;
    for c in it: text.chars()
        invariant
            it.seq() == text@,
            out@ == start + it.seq().take(it.index() as int),
    {
        out.push(c);
        assert(it.seq().take(it.index() + 1) =~= it.seq().take(it.index() as int).push(c));
    }
    assert(text@.take(text@.len() as int) =~= text@);
}

/// Adds `n` spaces at the end of `out`.
fn push_spaces(out: &mut String, n: usize)
    ensures
        final(out)@ == old(out)@ + spaces(n as nat),
{
    let ghost start = out@;
    let mut i: usize = 0;
    while i < n
        invariant
            i <= n,
            out@ == start + spaces(i as nat),
        decreases n - i,
    {
        out.push(' ');
        assert(spaces(i as nat + 1) =~= spaces(i as nat).push(' '));
        i += 1;
    }
}

/// The name under which a package is shown.
pub fn display_name(label: Option<&str>, name: &str) -> (shown: String)
    ensures
        shown@ == shown_name(
            match label {
                Some(text) => Some(text@),
                None => None,
            },
            name@,
        ),
{
    let mut shown = String::new();
    match label {
        Some(text) => {
            push_str(&mut shown, text);
            push_str(&mut shown, " (");
            push_str(&mut shown, name);
            push_str(&mut shown, ")");
        },
        None => {
            push_str(&mut shown, name);
        },
    }
    shown
}

/// `text`, filled up with spaces at its end to `width` characters.
pub fn pad_right(text: &str, width: usize) -> (out: String)
    ensures
        out@ == padded(text@, width as nat),
{
    let mut out = String::new();
    push_str(&mut out, text);
    let n = text.unicode_len();
    if n < width {
        push_spaces(&mut out, width - n);
    }
    out
}

/// The inner width of the box around a name of `name_len` bytes: the name
/// with two columns of margin on each side, and the least width at least.
pub fn box_width(name_len: usize) -> (width: usize)
    requires
        name_len + 4 <= usize::MAX,
    ensures
        width == if name_len + 4 > BOX_MIN_WIDTH {
            name_len + 4
        } else {
            BOX_MIN_WIDTH as int
        },
{
    let wanted = name_len + 4;
    if wanted > BOX_MIN_WIDTH {
        wanted
    } else {
        BOX_MIN_WIDTH
    }
}

/// The padding that centres a text of `len` columns in `width` columns:
/// the columns left over, halved, with the odd one on the right.
pub fn center(width: usize, len: usize) -> (sides: (usize, usize))
    requires
        len <= width,
    ensures
        sides.0 == (width - len) / 2,
        sides.0 + sides.1 == width - len,
{
    let space = width - len;
    let left = space / 2;
    (left, space - left)
}

/// The columns left in `width` behind `fixed` columns and a text of `len`
/// columns; none where they leave no room.
pub fn remaining(width: usize, fixed: usize, len: usize) -> (rest: usize)
    ensures
        rest == if fixed + len < width {
            width - fixed - len
        } else {
            0
        },
{
    if fixed >= width {
        0
    } else if len >= width - fixed {
        0
    } else {
        width - fixed - len
    }
}

/// The byte offset of the first colon of a line.
fn colon_offset_in(line: &str) -> (offset: Option<usize>)
    ensures
        offset == colon_offset(line@),
{
    let text = chars_of(line);
    match find_first(text.as_slice(), ':') {
        Some(i) => {
            proof {
                line@.index_of_first_ensures(':');
                assert(line@.subrange(0, i as int) =~= line@.take(i as int));
            }
            let prefix = line.substring_char(0, i);
            Some(prefix.len())
        },
        None => None,
    }
}

/// The greatest colon offset among the lines of `records`.
pub fn max_prefix_len(records: &Vec<DexOptInfo>) -> (width: usize)
    ensures
        width == prefix_width(crate::dexopt::info_views(records@)),
{
    let ghost views = crate::dexopt::info_views(records@);
    let mut width: usize = 0;
    let mut k: usize = 0;
    while k < records.len()
        invariant
            k <= records.len(),
            views == crate::dexopt::info_views(records@),
            width == prefix_width(views.take(k as int)),
        decreases records.len() - k,
    {
        proof {
            assert(views.take(k as int + 1).drop_last() =~= views.take(k as int));
            assert(views.take(k as int + 1).last() == records@[k as int]@);
        }
        match colon_offset_in(records[k].raw_line.as_str()) {
            Some(n) => {
                if n > width {
                    width = n;
                }
            },
            None => {},
        }
        k += 1;
    }
    assert(views.take(records.len() as int) =~= views);
    width
}

/// A record's line with what stands before its first colon filled up to
/// `width` characters.
pub fn align_line(line: &str, width: usize) -> (out: String)
    ensures
        out@ == aligned(line@, width as nat),
{
    let text = chars_of(line);
    match find_first(text.as_slice(), ':') {
        Some(i) => {
            proof {
                line@.index_of_first_ensures(':');
            }
            let mut out = string_of(slice_subrange(text.as_slice(), 0, i));
            if i < width {
                push_spaces(&mut out, width - i);
            }
            let rest = string_of(slice_subrange(text.as_slice(), i, text.len()));
            push_str(&mut out, rest.as_str());
            proof {
                assert(line@.subrange(0, i as int) =~= line@.take(i as int));
                assert(line@.subrange(i as int, line@.len() as int) =~= line@.skip(i as int));
            }
            out
        },
        None => line.to_owned(),
    }
}

} // verus!
