//! Character-level scanning over a patch text held as a sequence of `char`s.
//!
//! Every function here works on a position `i` into the text and states its
//! result over a spec function on `Seq<char>`.
use vstd::prelude::*;

verus! {

/// The text `t` occurs in `s` starting at index `i`.
pub open spec fn has_at(s: Seq<char>, i: int, t: Seq<char>) -> bool {
    0 <= i && i + t.len() <= s.len() && s.subrange(i, i + t.len()) == t
}

/// The first index `j >= i` at which `t` occurs in `s`, if any.
pub open spec fn find_from(s: Seq<char>, i: int, t: Seq<char>) -> Option<int>
    decreases s.len() + 1 - i,
{
    if i < 0 || i + t.len() > s.len() {
        None
    } else if has_at(s, i, t) {
        Some(i)
    } else {
        find_from(s, i + 1, t)
    }
}

/// The first index `j >= i` such that `s[j]` does not satisfy `keep`
/// (or the length of `s` when every character from `i` on satisfies it).
pub open spec fn scan(s: Seq<char>, i: int, keep: spec_fn(char) -> bool) -> int
    decreases s.len() - i,
{
    if 0 <= i < s.len() && keep(s[i]) {
        scan(s, i + 1, keep)
    } else {
        i
    }
}

/// Characters other than a tab, a carriage return or a line feed.
pub open spec fn not_tab_or_break() -> spec_fn(char) -> bool {
    |c: char| c != '\t' && c != '\r' && c != '\n'
}

/// Characters other than a carriage return or a line feed.
pub open spec fn not_break() -> spec_fn(char) -> bool {
    |c: char| c != '\r' && c != '\n'
}

/// Line feeds.
pub open spec fn line_feed_only() -> spec_fn(char) -> bool {
    |c: char| c == '\n'
}

/// ASCII decimal digits.
pub open spec fn ascii_digit() -> spec_fn(char) -> bool {
    |c: char| '0' <= c <= '9'
}

/// A line ending (`"\n"` or `"\r\n"`) at `i`: the index just past it.
pub open spec fn line_ending(s: Seq<char>, i: int) -> Option<int> {
    if 0 <= i < s.len() && s[i] == '\n' {
        Some(i + 1)
    } else if 0 <= i && i + 1 < s.len() && s[i] == '\r' && s[i + 1] == '\n' {
        Some(i + 2)
    } else {
        None
    }
}

/// The rest of the line from `i`: the index where it ends. A carriage return
/// that is not followed by a line feed makes it fail.
pub open spec fn not_line_ending(s: Seq<char>, i: int) -> Option<int> {
    let j = scan(s, i, not_break());
    if j < s.len() && s[j] == '\r' && !(j + 1 < s.len() && s[j + 1] == '\n') {
        None
    } else {
        Some(j)
    }
}

/// The value of a decimal numeral.
pub open spec fn decimal_value(digits: Seq<char>) -> nat
    decreases digits.len(),
{
    if digits.len() == 0 {
        0
    } else {
        decimal_value(digits.drop_last()) * 10 + (digits.last() as nat - '0' as nat) as nat
    }
}

/// The characters that Unicode gives the White_Space property.
pub open spec fn is_white_space(c: char) -> bool {
    ||| '\t' <= c <= '\r'
    ||| c == ' '
    ||| c == '\u{85}'
    ||| c == '\u{a0}'
    ||| c == '\u{1680}'
    ||| '\u{2000}' <= c <= '\u{200a}'
    ||| c == '\u{2028}'
    ||| c == '\u{2029}'
    ||| c == '\u{202f}'
    ||| c == '\u{205f}'
    ||| c == '\u{3000}'
}

/// `t` with its trailing white space removed.
pub open spec fn trim_end(t: Seq<char>) -> Seq<char>
    decreases t.len(),
{
    if t.len() > 0 && is_white_space(t.last()) {
        trim_end(t.drop_last())
    } else {
        t
    }
}

pub proof fn lemma_scan(s: Seq<char>, i: int, keep: spec_fn(char) -> bool)
    requires
        0 <= i <= s.len(),
    ensures
        i <= scan(s, i, keep) <= s.len(),
        forall|k: int| i <= k < scan(s, i, keep) ==> #[trigger] keep(s[k]),
        scan(s, i, keep) < s.len() ==> !keep(s[scan(s, i, keep)]),
    decreases s.len() - i,
{
    if i < s.len() && keep(s[i]) {
        lemma_scan(s, i + 1, keep);
    }
}

pub proof fn lemma_find_from(s: Seq<char>, i: int, t: Seq<char>)
    requires
        0 <= i,
    ensures
        find_from(s, i, t) matches Some(j) ==> i <= j && has_at(s, j, t) && forall|k: int|
            i <= k < j ==> !#[trigger] has_at(s, k, t),
        find_from(s, i, t) is None ==> forall|k: int| i <= k ==> !#[trigger] has_at(s, k, t),
    decreases s.len() + 1 - i,
{
    if i + t.len() <= s.len() && !has_at(s, i, t) {
        lemma_find_from(s, i + 1, t);
    }
}

/// The first occurrence of `t` from `a` on is at `b` when it occurs at `b`
/// and nowhere in between.
pub proof fn lemma_find_from_first(s: Seq<char>, a: int, t: Seq<char>, b: int)
    requires
        0 <= a <= b,
        has_at(s, b, t),
        forall|k: int| a <= k < b ==> !#[trigger] has_at(s, k, t),
    ensures
        find_from(s, a, t) == Some(b),
    decreases b - a,
{
    if a < b {
        lemma_find_from_first(s, a + 1, t, b);
    }
}

/// The characters of `s`.
pub fn chars_of(s: &str) -> (v: Vec<char>)
    ensures
        v@ == s@,
{
    let mut v: Vec<char> = Vec::new();
    for c in it: s.chars()
        invariant
            v@ == it.seq().take(it.index() as int),
    {
        v.push(c);
    }
    v
}

/// Whether `t` occurs in `s` at `i`.
pub fn tag_at(s: &[char], i: usize, t: &[char]) -> (r: bool)
    ensures
        r == has_at(s@, i as int, t@),
{
    if i > s.len() || t.len() > s.len() - i {
        return false;
    }
    let mut k: usize = 0;
    while k < t.len()
        invariant
            i + t.len() <= s.len(),
            k <= t.len(),
            forall|j: int| 0 <= j < k ==> s@[i + j] == t@[j],
        decreases t.len() - k,
    {
        if s[i + k] != t[k] {
            assert(s@.subrange(i as int, i + t.len())[k as int] != t@[k as int]);
            return false;
        }
        k = k + 1;
    }
    assert(s@.subrange(i as int, i + t.len()) =~= t@);
    true
}

/// The first index from `i` on at which `t` occurs in `s`.
pub fn find_at(s: &[char], i: usize, t: &[char]) -> (r: Option<usize>)
    ensures
        r is Some <==> find_from(s@, i as int, t@) is Some,
        r matches Some(j) ==> find_from(s@, i as int, t@) == Some(j as int),
{
    let mut j = i;
    while j <= s.len() && t.len() <= s.len() - j
        invariant
            i <= j,
            find_from(s@, i as int, t@) == find_from(s@, j as int, t@),
        decreases s.len() + 1 - j,
    {
        proof {
            if t.len() == 0 {
                assert(s@.subrange(j as int, j as int) =~= t@);
            }
        }
        if tag_at(s, j, t) {
            return Some(j);
        }
        j = j + 1;
    }
    None
}

/// The first index from `lo` on at which `t` occurs within `s[lo..hi]`.
pub fn find_in(s: &[char], lo: usize, hi: usize, t: &[char]) -> (r: Option<usize>)
    requires
        lo <= hi <= s.len(),
    ensures
        r is Some <==> find_from(s@.subrange(lo as int, hi as int), 0, t@) is Some,
        r matches Some(k) ==> lo <= k && find_from(s@.subrange(lo as int, hi as int), 0, t@) == Some(
            k - lo,
        ),
{
    let ghost sub = s@.subrange(lo as int, hi as int);
    let mut j = lo;
    while j <= hi && t.len() <= hi - j
        invariant
            lo <= j,
            hi <= s.len(),
            sub == s@.subrange(lo as int, hi as int),
            find_from(sub, 0, t@) == find_from(sub, j - lo, t@),
        decreases hi + 1 - j,
    {
        proof {
            assert(sub.subrange(j - lo, j - lo + t.len()) =~= s@.subrange(
                j as int,
                j + t.len(),
            ));
            if t.len() == 0 {
                assert(s@.subrange(j as int, j as int) =~= t@);
            }
        }
        if tag_at(s, j, t) {
            return Some(j);
        }
        j = j + 1;
    }
    None
}

/// The end of the run of characters from `i` on that are not a tab, a
/// carriage return or a line feed.
pub fn scan_not_tab_or_break(s: &[char], i: usize) -> (r: usize)
    requires
        i <= s.len(),
    ensures
        r as int == scan(s@, i as int, not_tab_or_break()),
{
    let mut j = i;
    while j < s.len() && s[j] != '\t' && s[j] != '\r' && s[j] != '\n'
        invariant
            i <= j <= s.len(),
            scan(s@, i as int, not_tab_or_break()) == scan(s@, j as int, not_tab_or_break()),
        decreases s.len() - j,
    {
        j = j + 1;
    }
    j
}

/// The end of the run of characters from `i` on that are not a carriage
/// return or a line feed.
pub fn scan_not_break(s: &[char], i: usize) -> (r: usize)
    requires
        i <= s.len(),
    ensures
        r as int == scan(s@, i as int, not_break()),
{
    let mut j = i;
    while j < s.len() && s[j] != '\r' && s[j] != '\n'
        invariant
            i <= j <= s.len(),
            scan(s@, i as int, not_break()) == scan(s@, j as int, not_break()),
        decreases s.len() - j,
    {
        j = j + 1;
    }
    j
}

/// The end of the run of line feeds from `i` on.
pub fn scan_line_feeds(s: &[char], i: usize) -> (r: usize)
    requires
        i <= s.len(),
    ensures
        r as int == scan(s@, i as int, line_feed_only()),
{
    let mut j = i;
    while j < s.len() && s[j] == '\n'
        invariant
            i <= j <= s.len(),
            scan(s@, i as int, line_feed_only()) == scan(s@, j as int, line_feed_only()),
        decreases s.len() - j,
    {
        j = j + 1;
    }
    j
}

/// The end of the run of ASCII digits from `i` on.
pub fn scan_digits(s: &[char], i: usize) -> (r: usize)
    requires
        i <= s.len(),
    ensures
        r as int == scan(s@, i as int, ascii_digit()),
{
    let mut j = i;
    while j < s.len() && '0' <= s[j] && s[j] <= '9'
        invariant
            i <= j <= s.len(),
            scan(s@, i as int, ascii_digit()) == scan(s@, j as int, ascii_digit()),
        decreases s.len() - j,
    {
        j = j + 1;
    }
    j
}

/// A line ending at `i`: the index just past it.
pub fn read_line_ending(s: &[char], i: usize) -> (r: Option<usize>)
    ensures
        r is Some <==> line_ending(s@, i as int) is Some,
        r matches Some(j) ==> line_ending(s@, i as int) == Some(j as int),
{
    if i < s.len() && s[i] == '\n' {
        Some(i + 1)
    } else if i < s.len() && s.len() - i > 1 && s[i] == '\r' && s[i + 1] == '\n' {
        Some(i + 2)
    } else {
        None
    }
}

/// The rest of the line from `i`: the index where it ends.
pub fn read_to_line_end(s: &[char], i: usize) -> (r: Option<usize>)
    requires
        i <= s.len(),
    ensures
        r is Some <==> not_line_ending(s@, i as int) is Some,
        r matches Some(j) ==> not_line_ending(s@, i as int) == Some(j as int),
        r matches Some(j) ==> i <= j <= s.len(),
{
    let j = scan_not_break(s, i);
    proof {
        lemma_scan(s@, i as int, not_break());
    }
    if j < s.len() && s[j] == '\r' && !(s.len() - j > 1 && s[j + 1] == '\n') {
        None
    } else {
        Some(j)
    }
}

/// Whether `c` has the Unicode White_Space property.
pub fn white_space(c: char) -> (r: bool)
    ensures
        r == is_white_space(c),
{
    ('\t' <= c && c <= '\r') || c == ' ' || c == '\u{85}' || c == '\u{a0}' || c == '\u{1680}'
        || ('\u{2000}' <= c && c <= '\u{200a}') || c == '\u{2028}' || c == '\u{2029}' || c
        == '\u{202f}' || c == '\u{205f}' || c == '\u{3000}'
}

} // verus!
