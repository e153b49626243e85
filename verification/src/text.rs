//! Character-level building blocks: whitespace, trimming, line splitting,
//! searching, ordering, and conversion between strings and character vectors.
//!
//! Text is modelled as `Seq<char>`, the view of `str` and `String`.

use vstd::prelude::*;
use vstd::slice::slice_subrange;
use vstd::std_specs::iter::IteratorSpec;

verus! {

/// The characters that carry the Unicode `White_Space` property.
pub open spec fn is_whitespace(c: char) -> bool {
    let n = c as u32;
    ||| 0x09 <= n <= 0x0D
    ||| n == 0x20
    ||| n == 0x85
    ||| n == 0xA0
    ||| n == 0x1680
    ||| 0x2000 <= n <= 0x200A
    ||| n == 0x2028
    ||| n == 0x2029
    ||| n == 0x202F
    ||| n == 0x205F
    ||| n == 0x3000
}

/// `s` without its leading whitespace.
pub open spec fn trim_start(s: Seq<char>) -> Seq<char>
    decreases s.len(),
{
    if s.len() > 0 && is_whitespace(s[0]) {
        trim_start(s.drop_first())
    } else {
        s
    }
}

/// `s` without its trailing whitespace.
pub open spec fn trim_end(s: Seq<char>) -> Seq<char>
    decreases s.len(),
{
    if s.len() > 0 && is_whitespace(s.last()) {
        trim_end(s.drop_last())
    } else {
        s
    }
}

/// `s` without leading and trailing whitespace.
pub open spec fn trim(s: Seq<char>) -> Seq<char> {
    trim_end(trim_start(s))
}

/// The lines of `s`: the pieces between line feeds, in order. A text with
/// `n` line feeds has `n + 1` lines; the last one is empty when the text ends
/// in a line feed.
pub open spec fn lines(s: Seq<char>) -> Seq<Seq<char>>
    decreases s.len(),
    via lines_decreases
{
    match s.index_of_first('\n') {
        Some(i) => seq![s.take(i)] + lines(s.skip(i + 1)),
        None => seq![s],
    }
}

#[via_fn]
proof fn lines_decreases(s: Seq<char>) {
    s.index_of_first_ensures('\n');
}

/// `needle` occurs in `s` as a contiguous run.
pub open spec fn occurs_in(needle: Seq<char>, s: Seq<char>) -> bool {
    exists|i: int|
        0 <= i && i + needle.len() <= s.len() && #[trigger] s.subrange(
            i,
            i + needle.len(),
        ) == needle
}

/// Lexicographic order by code point: `a` stands at or before `b`. The
/// UTF-8 encodings of the two texts stand in the same order, byte by byte.
pub open spec fn lex_le(a: Seq<char>, b: Seq<char>) -> bool
    decreases a.len(),
{
    if a.len() == 0 {
        true
    } else if b.len() == 0 {
        false
    } else if a[0] != b[0] {
        (a[0] as u32) < (b[0] as u32)
    } else {
        lex_le(a.drop_first(), b.drop_first())
    }
}

/// The bounds of the trimmed part of `s`: the whitespace prefix ends at the
/// first component, the whitespace suffix starts at the second.
pub open spec fn trim_bounds(s: Seq<char>) -> (int, int) {
    let a = leading_whitespace(s);
    if a == s.len() {
        (a as int, a as int)
    } else {
        (a as int, s.len() - trailing_whitespace(s))
    }
}

/// The number of whitespace characters at the start of `s`.
pub open spec fn leading_whitespace(s: Seq<char>) -> nat
    decreases s.len(),
{
    if s.len() > 0 && is_whitespace(s[0]) {
        1 + leading_whitespace(s.drop_first())
    } else {
        0
    }
}

/// The number of whitespace characters at the end of `s`.
pub open spec fn trailing_whitespace(s: Seq<char>) -> nat
    decreases s.len(),
{
    if s.len() > 0 && is_whitespace(s.last()) {
        1 + trailing_whitespace(s.drop_last())
    } else {
        0
    }
}

/// Trimming removes exactly the whitespace before the first and after the
/// last character that is not whitespace.
pub proof fn lemma_trim_is_subrange(s: Seq<char>, a: int, b: int)
    requires
        0 <= a <= b <= s.len(),
        forall|i: int| 0 <= i < a ==> is_whitespace(#[trigger] s[i]),
        forall|i: int| b <= i < s.len() ==> is_whitespace(#[trigger] s[i]),
        a == b || (!is_whitespace(s[a]) && !is_whitespace(s[b - 1])),
    ensures
        trim(s) == s.subrange(a, b),
{
    lemma_trim_start_skips(s, a, b);
    let t = s.skip(a);
    assert forall|i: int| b - a <= i < t.len() implies is_whitespace(#[trigger] t[i]) by {
        assert(t[i] == s[i + a]);
    }
    lemma_trim_end_takes(t, b - a);
    assert(t.take(b - a) =~= s.subrange(a, b));
}

proof fn lemma_trim_start_skips(s: Seq<char>, a: int, b: int)
    requires
        0 <= a <= b <= s.len(),
        forall|i: int| 0 <= i < a ==> is_whitespace(#[trigger] s[i]),
        forall|i: int| b <= i < s.len() ==> is_whitespace(#[trigger] s[i]),
        a == b || !is_whitespace(s[a]),
    ensures
        a < b ==> trim_start(s) == s.skip(a),
        a == b ==> trim_start(s).len() == 0,
    decreases s.len(),
{
    if s.len() > 0 && is_whitespace(s[0]) {
        let r = s.drop_first();
        if a == 0 {
            assert(a == b);
            assert forall|i: int| 0 <= i < r.len() implies is_whitespace(#[trigger] r[i]) by {
                assert(r[i] == s[i + 1]);
            }
            lemma_trim_start_skips(r, 0, 0);
        } else {
            assert forall|i: int| 0 <= i < a - 1 implies is_whitespace(#[trigger] r[i]) by {
                assert(r[i] == s[i + 1]);
            }
            assert forall|i: int| b - 1 <= i < r.len() implies is_whitespace(#[trigger] r[i]) by {
                assert(r[i] == s[i + 1]);
            }
            lemma_trim_start_skips(r, a - 1, b - 1);
            assert(r.skip(a - 1) =~= s.skip(a));
        }
    } else {
        if s.len() > 0 {
            assert(a == 0);
            assert(a < b);
            assert(s.skip(0) =~= s);
        }
    }
}

proof fn lemma_trim_end_takes(t: Seq<char>, n: int)
    requires
        0 <= n <= t.len(),
        forall|i: int| n <= i < t.len() ==> is_whitespace(#[trigger] t[i]),
        n == 0 || !is_whitespace(t[n - 1]),
    ensures
        n > 0 ==> trim_end(t) == t.take(n),
        n == 0 ==> trim_end(t).len() == 0,
    decreases t.len(),
{
    if t.len() > 0 && is_whitespace(t.last()) {
        let r = t.drop_last();
        assert(n < t.len());
        assert forall|i: int| n <= i < r.len() implies is_whitespace(#[trigger] r[i]) by {
            assert(r[i] == t[i]);
        }
        lemma_trim_end_takes(r, n);
        assert(r.take(n) =~= t.take(n));
    } else {
        if t.len() > 0 {
            assert(n == t.len());
            assert(t.take(n) =~= t);
        }
    }
}

/// A trimmed text neither starts nor ends with whitespace, and trimming it
/// again changes nothing.
pub proof fn lemma_trim_properties(s: Seq<char>)
    ensures
        trim(s).len() > 0 ==> !is_whitespace(trim(s).first()) && !is_whitespace(trim(s).last()),
        trim(trim(s)) == trim(s),
        trim(s).len() <= s.len(),
{
    let (a, b) = trim_bounds(s);
    lemma_trim_bounds(s);
    let t = s.subrange(a, b);
    if a < b {
        lemma_trim_is_subrange(t, 0, t.len() as int);
        assert(t.subrange(0, t.len() as int) =~= t);
    } else {
        lemma_trim_is_subrange(t, 0, 0);
        assert(t.subrange(0, 0) =~= t);
    }
}

proof fn lemma_leading_whitespace(s: Seq<char>)
    ensures
        leading_whitespace(s) <= s.len(),
        forall|i: int| 0 <= i < leading_whitespace(s) ==> is_whitespace(#[trigger] s[i]),
        leading_whitespace(s) < s.len() ==> !is_whitespace(s[leading_whitespace(s) as int]),
    decreases s.len(),
{
    if s.len() > 0 && is_whitespace(s[0]) {
        let r = s.drop_first();
        lemma_leading_whitespace(r);
        assert forall|i: int| 0 <= i < leading_whitespace(s) implies is_whitespace(
            #[trigger] s[i],
        ) by {
            if i > 0 {
                assert(s[i] == r[i - 1]);
            }
        }
    }
}

proof fn lemma_trailing_whitespace(s: Seq<char>)
    ensures
        trailing_whitespace(s) <= s.len(),
        forall|i: int|
            s.len() - trailing_whitespace(s) <= i < s.len() ==> is_whitespace(#[trigger] s[i]),
        trailing_whitespace(s) < s.len() ==> !is_whitespace(
            s[s.len() - trailing_whitespace(s) - 1],
        ),
    decreases s.len(),
{
    if s.len() > 0 && is_whitespace(s.last()) {
        let r = s.drop_last();
        lemma_trailing_whitespace(r);
        assert forall|i: int|
            s.len() - trailing_whitespace(s) <= i < s.len() implies is_whitespace(
            #[trigger] s[i],
        ) by {
            if i < s.len() - 1 {
                assert(s[i] == r[i]);
            }
        }
    }
}

/// `trim_bounds` delimits `trim`.
pub proof fn lemma_trim_bounds(s: Seq<char>)
    ensures
        0 <= trim_bounds(s).0 <= trim_bounds(s).1 <= s.len(),
        trim(s) == s.subrange(trim_bounds(s).0, trim_bounds(s).1),
        trim_bounds(s).0 < trim_bounds(s).1 ==> !is_whitespace(s[trim_bounds(s).0])
            && !is_whitespace(s[trim_bounds(s).1 - 1]),
{
    lemma_leading_whitespace(s);
    lemma_trailing_whitespace(s);
    let (a, b) = trim_bounds(s);
    if a < s.len() {
        if trailing_whitespace(s) > s.len() - a - 1 {
            assert(is_whitespace(s[a]));
        }
    }
    lemma_trim_is_subrange(s, a, b);
}

/// How `lines` unfolds at the end of the first line.
pub proof fn lemma_lines_unfold(s: Seq<char>, i: int)
    requires
        0 <= i <= s.len(),
        forall|j: int| 0 <= j < i ==> #[trigger] s[j] != '\n',
        i == s.len() || s[i] == '\n',
    ensures
        i == s.len() ==> lines(s) == seq![s],
        i < s.len() ==> lines(s) == seq![s.take(i)] + lines(s.skip(i + 1)),
{
    s.index_of_first_ensures('\n');
    if i == s.len() {
        assert(!s.contains('\n'));
    } else {
        assert(s.contains('\n'));
        assert(s.index_of_first('\n') == Some(i));
    }
}

/// No line holds a line feed, and a text always has at least one line.
pub proof fn lemma_lines_hold_no_line_feed(s: Seq<char>)
    ensures
        lines(s).len() >= 1,
        forall|k: int| 0 <= k < lines(s).len() ==> !(#[trigger] lines(s)[k]).contains('\n'),
    decreases s.len(),
{
    s.index_of_first_ensures('\n');
    match s.index_of_first('\n') {
        Some(i) => {
            let rest = lines(s.skip(i + 1));
            lemma_lines_hold_no_line_feed(s.skip(i + 1));
            assert forall|k: int| 0 <= k < lines(s).len() implies !(#[trigger] lines(
                s,
            )[k]).contains('\n') by {
                if k == 0 {
                    let first = s.take(i);
                    assert(lines(s)[0] == first);
                    if first.contains('\n') {
                        let j = choose|j: int| 0 <= j < first.len() && first[j] == '\n';
                        assert(s[j] == '\n');
                    }
                } else {
                    assert(lines(s)[k] == rest[k - 1]);
                }
            }
        },
        None => {},
    }
}

/// Distinct characters have distinct code points.
pub proof fn lemma_code_points_differ(x: char, y: char)
    requires
        x != y,
    ensures
        (x as u32) != (y as u32),
{
    vstd::utf8::char_u32_cast(x, x as u32);
    vstd::utf8::char_u32_cast(y, y as u32);
}

/// The lexicographic order is total.
pub proof fn lemma_lex_le_total(a: Seq<char>, b: Seq<char>)
    ensures
        lex_le(a, b) || lex_le(b, a),
    decreases a.len(),
{
    if a.len() > 0 && b.len() > 0 {
        if a[0] == b[0] {
            lemma_lex_le_total(a.drop_first(), b.drop_first());
        } else {
            lemma_code_points_differ(a[0], b[0]);
        }
    }
}

/// The lexicographic order is reflexive.
pub proof fn lemma_lex_le_reflexive(a: Seq<char>)
    ensures
        lex_le(a, a),
    decreases a.len(),
{
    if a.len() > 0 {
        lemma_lex_le_reflexive(a.drop_first());
    }
}

/// The lexicographic order is transitive.
pub proof fn lemma_lex_le_transitive(a: Seq<char>, b: Seq<char>, c: Seq<char>)
    requires
        lex_le(a, b),
        lex_le(b, c),
    ensures
        lex_le(a, c),
    decreases a.len(),
{
    if a.len() > 0 && b.len() > 0 && c.len() > 0 && a[0] == b[0] && b[0] == c[0] {
        lemma_lex_le_transitive(a.drop_first(), b.drop_first(), c.drop_first());
    }
}

/// Two texts that stand at or before each other are equal.
pub proof fn lemma_lex_le_antisymmetric(a: Seq<char>, b: Seq<char>)
    requires
        lex_le(a, b),
        lex_le(b, a),
    ensures
        a == b,
    decreases a.len(),
{
    if a.len() > 0 && b.len() > 0 {
        lemma_lex_le_antisymmetric(a.drop_first(), b.drop_first());
        assert(a =~= seq![a[0]] + a.drop_first());
        assert(b =~= seq![b[0]] + b.drop_first());
    } else {
        assert(a =~= b);
    }
}

/// Decides whether `c` is whitespace.
pub fn is_whitespace_char(c: char) -> (r: bool)
    ensures
        r == is_whitespace(c),
{
    let n: u32 = c as u32;
    (0x09 <= n && n <= 0x0D) || n == 0x20 || n == 0x85 || n == 0xA0 || n == 0x1680 || (0x2000 <= n
        && n <= 0x200A) || n == 0x2028 || n == 0x2029 || n == 0x202F || n == 0x205F || n == 0x3000
}

/// Copies the characters of `s` into a vector.
pub fn chars_of(s: &str) -> (v: Vec<char>)
    ensures
        v@ == s@,
{
    let mut v: Vec<char> = Vec::new();
    for c in it: s.chars()
        invariant
            v@ == it.seq().take(it.index() as int),
            it.seq() == s@,
    {
        v.push(c);
    }
    v
}

/// Builds the string that holds the characters of `s`.
pub fn string_of(s: &[char]) -> (r: String)
    ensures
        r@ == s@,
{
    let mut r = String::new();
    let mut i: usize = 0;
    while i < s.len()
        invariant
            i <= s.len(),
            r@ == s@.take(i as int),
        decreases s.len() - i,
    {
        r.push(s[i]);
        assert(s@.take(i as int + 1) =~= s@.take(i as int).push(s@[i as int]));
        i += 1;
    }
    assert(s@.take(s.len() as int) =~= s@);
    r
}

/// The part of `s` that is left when whitespace is removed at both ends.
pub fn trim_slice<'a>(s: &'a [char]) -> (r: &'a [char])
    ensures
        r@ == trim(s@),
{
    let n = s.len();
    let mut a: usize = 0;
    while a < n && is_whitespace_char(s[a])
        invariant
            a <= n,
            n == s.len(),
            forall|i: int| 0 <= i < a ==> is_whitespace(#[trigger] s@[i]),
        decreases n - a,
    {
        a += 1;
    }
    let mut b: usize = n;
    while b > a && is_whitespace_char(s[b - 1])
        invariant
            a <= b <= n,
            n == s.len(),
            forall|i: int| b <= i < n ==> is_whitespace(#[trigger] s@[i]),
        decreases b,
    {
        b -= 1;
    }
    proof {
        lemma_trim_is_subrange(s@, a as int, b as int);
    }
    slice_subrange(s, a, b)
}

/// The index of the first `c` in `s`.
pub fn find_first(s: &[char], c: char) -> (r: Option<usize>)
    ensures
        match r {
            Some(i) => s@.index_of_first(c) == Some(i as int),
            None => s@.index_of_first(c) is None,
        },
{
    let mut i: usize = 0;
    while i < s.len()
        invariant
            i <= s.len(),
            forall|j: int| 0 <= j < i ==> #[trigger] s@[j] != c,
        decreases s.len() - i,
    {
        if s[i] == c {
            proof {
                s@.index_of_first_ensures(c);
            }
            return Some(i);
        }
        i += 1;
    }
    proof {
        s@.index_of_first_ensures(c);
    }
    None
}

/// The index of the last `c` in `s`.
pub fn find_last(s: &[char], c: char) -> (r: Option<usize>)
    ensures
        match r {
            Some(i) => s@.index_of_last(c) == Some(i as int),
            None => s@.index_of_last(c) is None,
        },
{
    let mut i: usize = s.len();
    while i > 0
        invariant
            i <= s.len(),
            forall|j: int| i <= j < s.len() ==> #[trigger] s@[j] != c,
        decreases i,
    {
        i -= 1;
        if s[i] == c {
            proof {
                s@.index_of_last_ensures(c);
            }
            return Some(i);
        }
    }
    proof {
        s@.index_of_last_ensures(c);
    }
    None
}

/// Decides whether `c` occurs in `s`.
pub fn contains_char(s: &[char], c: char) -> (r: bool)
    ensures
        r == s@.contains(c),
{
    proof {
        s@.index_of_first_ensures(c);
    }
    find_first(s, c).is_some()
}

/// Decides whether `a` and `b` hold the same characters.
pub fn slices_equal(a: &[char], b: &[char]) -> (r: bool)
    ensures
        r == (a@ == b@),
{
    if a.len() != b.len() {
        return false;
    }
    let mut i: usize = 0;
    while i < a.len()
        invariant
            i <= a.len(),
            a.len() == b.len(),
            forall|j: int| 0 <= j < i ==> #[trigger] a@[j] == b@[j],
        decreases a.len() - i,
    {
        if a[i] != b[i] {
            return false;
        }
        i += 1;
    }
    assert(a@ =~= b@);
    true
}

/// Decides whether `s` begins with `prefix`.
pub fn starts_with(s: &[char], prefix: &[char]) -> (r: bool)
    ensures
        r == prefix@.is_prefix_of(s@),
{
    if prefix.len() > s.len() {
        return false;
    }
    let mut i: usize = 0;
    while i < prefix.len()
        invariant
            i <= prefix.len() <= s.len(),
            forall|j: int| 0 <= j < i ==> #[trigger] s@[j] == prefix@[j],
        decreases prefix.len() - i,
    {
        if s[i] != prefix[i] {
            assert(s@.subrange(0, prefix@.len() as int)[i as int] != prefix@[i as int]);
            return false;
        }
        i += 1;
    }
    true
}

/// Decides whether `needle` occurs in `s` as a contiguous run.
pub fn contains_slice(s: &[char], needle: &[char]) -> (r: bool)
    ensures
        r == occurs_in(needle@, s@),
{
    let n = needle.len();
    if n > s.len() {
        return false;
    }
    let last: usize = s.len() - n;
    let mut i: usize = 0;
    while i <= last
        invariant
            i <= last + 1,
            last + n == s.len(),
            n == needle.len(),
            forall|k: int| 0 <= k < i ==> #[trigger] s@.subrange(k, k + n) != needle@,
        decreases last + 1 - i,
    {
        let window = slice_subrange(s, i, i + n);
        if starts_with(window, needle) {
            assert(window@.subrange(0, n as int) =~= window@);
            return true;
        }
        assert(window@.subrange(0, n as int) =~= window@);
        i += 1;
    }
    false
}

/// Decides whether `a` stands at or before `b` in lexicographic order.
pub fn lex_le_slices(a: &[char], b: &[char]) -> (r: bool)
    ensures
        r == lex_le(a@, b@),
{
    let mut i: usize = 0;
    proof {
        assert(a@.skip(0) =~= a@);
        assert(b@.skip(0) =~= b@);
    }
    while i < a.len() && i < b.len()
        invariant
            i <= a.len(),
            i <= b.len(),
            lex_le(a@, b@) == lex_le(a@.skip(i as int), b@.skip(i as int)),
        decreases a.len() - i,
    {
        let x = a[i];
        let y = b[i];
        proof {
            let ra = a@.skip(i as int);
            let rb = b@.skip(i as int);
            assert(ra[0] == x && rb[0] == y);
            assert(ra.drop_first() =~= a@.skip(i as int + 1));
            assert(rb.drop_first() =~= b@.skip(i as int + 1));
        }
        if x != y {
            proof {
                lemma_code_points_differ(x, y);
                let ra = a@.skip(i as int);
                let rb = b@.skip(i as int);
                assert(ra.len() > 0 && rb.len() > 0);
                assert(ra[0] != rb[0]);
                assert(lex_le(ra, rb) == ((x as u32) < (y as u32)));
            }
            return (x as u32) < (y as u32);
        }
        i += 1;
    }
    i == a.len()
}

/// Decides whether string `a` stands at or before string `b` in
/// lexicographic order.
pub fn str_lex_le(a: &str, b: &str) -> (r: bool)
    ensures
        r == lex_le(a@, b@),
{
    broadcast use vstd::string::group_string_axioms;

    let mut xs = a.chars();
    let mut ys = b.chars();
    loop
        invariant
            lex_le(a@, b@) == lex_le(xs.remaining(), ys.remaining()),
            xs.decrease() is Some,
        decreases xs.decrease()->0,
    {
        match xs.next() {
            None => {
                return true;
            },
            Some(x) => match ys.next() {
                None => {
                    return false;
                },
                Some(y) => {
                    if x != y {
                        proof {
                            lemma_code_points_differ(x, y);
                        }
                        return (x as u32) < (y as u32);
                    }
                },
            },
        }
    }
}

/// Decides whether two strings hold the same characters.
pub fn str_eq(a: &str, b: &str) -> (r: bool)
    ensures
        r == (a@ == b@),
{
    broadcast use vstd::string::group_string_axioms;

    let mut xs = a.chars();
    let mut ys = b.chars();
    let ghost mut n: int = 0;
    proof {
        assert(a@.skip(0) =~= a@);
        assert(b@.skip(0) =~= b@);
    }
    loop
        invariant
            0 <= n <= a@.len(),
            n <= b@.len(),
            xs.remaining() == a@.skip(n),
            ys.remaining() == b@.skip(n),
            a@.take(n) == b@.take(n),
            xs.decrease() is Some,
        decreases xs.decrease()->0,
    {
        let x = xs.next();
        let y = ys.next();
        match (x, y) {
            (None, None) => {
                proof {
                    assert(a@.take(n) =~= a@);
                    assert(b@.take(n) =~= b@);
                }
                return true;
            },
            (Some(c), Some(d)) => {
                proof {
                    assert(a@.skip(n)[0] == a@[n]);
                    assert(b@.skip(n)[0] == b@[n]);
                }
                if c != d {
                    return false;
                }
                proof {
                    assert(a@.skip(n).drop_first() =~= a@.skip(n + 1));
                    assert(b@.skip(n).drop_first() =~= b@.skip(n + 1));
                    assert(a@.take(n + 1) =~= a@.take(n).push(a@[n]));
                    assert(b@.take(n + 1) =~= b@.take(n).push(b@[n]));
                    n = n + 1;
                }
            },
            _ => {
                return false;
            },
        }
    }
}

/// The bounds of one line within a text.
pub struct Span {
    pub start: usize,
    pub end: usize,
}

impl Span {
    /// The part of `s` that the span covers.
    pub open spec fn of(self, s: Seq<char>) -> Seq<char> {
        s.subrange(self.start as int, self.end as int)
    }

    /// The span lies within a text of length `len`.
    pub open spec fn within(self, len: nat) -> bool {
        self.start <= self.end <= len
    }
}

/// The texts that `spans` cover in `s`, in order.
pub open spec fn spans_of(spans: Seq<Span>, s: Seq<char>) -> Seq<Seq<char>> {
    Seq::new(spans.len(), |k: int| spans[k].of(s))
}

/// Finds where the lines of `s` begin and end.
pub fn line_spans(s: &[char]) -> (spans: Vec<Span>)
    ensures
        forall|k: int| 0 <= k < spans@.len() ==> (#[trigger] spans@[k]).within(s@.len()),
        spans_of(spans@, s@) == lines(s@),
{
    let n = s.len();
    let mut spans: Vec<Span> = Vec::new();
    let mut pos: usize = 0;
    let mut done = false;
    proof {
        assert(s@.skip(0) =~= s@);
        assert(spans_of(spans@, s@) + lines(s@) =~= lines(s@));
    }
    while !done
        invariant
            n == s.len(),
            pos <= n,
            forall|k: int| 0 <= k < spans@.len() ==> (#[trigger] spans@[k]).within(s@.len()),
            !done ==> spans_of(spans@, s@) + lines(s@.skip(pos as int)) == lines(s@),
            done ==> spans_of(spans@, s@) == lines(s@),
        decreases
                (if done {
                    0
                } else {
                    n - pos + 1
                }),
    {
        let mut e: usize = pos;
        while e < n && s[e] != '\n'
            invariant
                pos <= e <= n,
                n == s.len(),
                forall|j: int| pos <= j < e ==> #[trigger] s@[j] != '\n',
            decreases n - e,
        {
            e += 1;
        }
        let ghost before = spans@;
        let ghost rest = s@.skip(pos as int);
        spans.push(Span { start: pos, end: e });
        proof {
            assert forall|j: int| 0 <= j < e - pos implies #[trigger] rest[j] != '\n' by {
                assert(rest[j] == s@[pos + j]);
            }
            lemma_lines_unfold(rest, e - pos);
            assert(rest.take(e - pos) =~= s@.subrange(pos as int, e as int));
            assert(spans_of(spans@, s@) =~= spans_of(before, s@) + seq![
                s@.subrange(pos as int, e as int),
            ]);
            if e < n {
                assert(rest.skip(e - pos + 1) =~= s@.skip(e + 1));
                assert(spans_of(spans@, s@) + lines(s@.skip(e + 1)) =~= spans_of(before, s@) + (
                seq![rest.take(e - pos)] + lines(rest.skip(e - pos + 1))));
            } else {
                assert(rest.take(e - pos) =~= rest);
                assert(spans_of(spans@, s@) =~= spans_of(before, s@) + seq![rest]);
            }
        }
        if e == n {
            done = true;
        } else {
            pos = e + 1;
        }
    }
    spans
}

} // verus!
