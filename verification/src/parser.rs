//! The grammar of patch files, as spec functions on the input text, and the
//! parser that follows it.
//!
//! Every rule is a spec function from the text `s` and a start index `i` to a
//! `Step`: the index where the rule stops and what it read, or the index and
//! kind of the expectation that failed, or `Crash` where reading aborts (a
//! number too large for 64 bits; the executable rules report it as a failure of
//! kind `Overflow`, which no other failure has). Rules whose failures are never
//! reported give an `Option` instead.
use vstd::prelude::*;
use crate::ast::{
    File, FileMetadata, Hunk, Line, LineKind, Patch, Range, SpecFile, SpecHunk, SpecLine,
    SpecMetadata, SpecPatch, Timestamp, new_side_missing_newline, old_side_missing_newline,
    patches_view,
};
use crate::error::{ErrorKind, Failure, ParseError, error_matches};
use crate::literals::{
    added_header_look, added_header_look_chars, and_tag, and_tag_chars, binary_tag,
    binary_tag_chars, line_feed, line_feed_chars, diff_tag, diff_tag_chars, differ_tag,
    differ_tag_chars, hunk_end_tag, hunk_end_tag_chars, hunk_start_tag, hunk_start_tag_chars,
    hunk_tag, hunk_tag_chars, new_file_tag, new_file_tag_chars, new_range_tag, new_range_tag_chars,
    no_newline_marker, no_newline_marker_chars, old_file_tag, old_file_tag_chars,
    removed_header_look, removed_header_look_chars, rename_from_tag, rename_from_tag_chars,
    rename_to_tag, rename_to_tag_chars, similarity_marker, similarity_marker_chars,
};
use crate::scan::{
    ascii_digit, chars_of, decimal_value, read_line_ending, read_to_line_end, find_at,
    find_from, has_at, lemma_find_from, lemma_scan, line_ending, line_feed_only, not_line_ending,
    not_tab_or_break, scan, scan_digits, scan_line_feeds, find_in, scan_not_tab_or_break, tag_at,
    trim_end, white_space,
};
use crate::text::{push_char, string_of};
use crate::timestamp::{fraction_layout, parse_timestamp, parsed_timestamp, seconds_layout};

verus! {

/// The outcome of a rule of the grammar.
pub enum Step<T> {
    /// The rule read the text up to (not including) the index, giving the value
    Done(int, T),
    /// An expectation of the kind failed at the index
    Fail(int, ErrorKind),
    /// Reading would abort at the index (a number too large for 64 bits starts there)
    Crash(int),
}

/// The executable result `r` is the outcome `st`.
pub open spec fn agrees<T: View>(r: Result<(usize, T), Failure>, st: Step<T::V>) -> bool {
    match st {
        Step::Done(e, v) => match r {
            Ok((e2, x)) => e2 as int == e && x@ == v,
            Err(_) => false,
        },
        Step::Fail(p, k) => match r {
            Ok(_) => false,
            Err(f) => f.pos as int == p && f.kind == k && k != ErrorKind::Overflow,
        },
        Step::Crash(p) => match r {
            Ok(_) => false,
            Err(f) => f.pos as int == p && f.kind == ErrorKind::Overflow,
        },
    }
}

/// The executable result `r` is the outcome `st` of a rule whose failures are not reported.
pub open spec fn agrees_opt<T: View>(r: Option<(usize, T)>, st: Option<(int, T::V)>) -> bool {
    match st {
        Some((e, v)) => match r {
            Some((e2, x)) => e2 as int == e && x@ == v,
            None => false,
        },
        None => r is None,
    }
}

// ---------------------------------------------------------------------------
// File names and metadata
// ---------------------------------------------------------------------------

/// The character that an escape sequence `\c` stands for.
pub open spec fn unescape(c: char) -> Option<char> {
    if c == '0' {
        Some('\0')
    } else if c == 'n' {
        Some('\n')
    } else if c == 'r' {
        Some('\r')
    } else if c == 't' {
        Some('\t')
    } else if c == '"' {
        Some('"')
    } else if c == '\\' {
        Some('\\')
    } else {
        None
    }
}

/// The characters that stand for themselves inside quotes.
pub open spec fn plain_in_quotes(c: char) -> bool {
    c != '\0' && c != '\n' && c != '\r' && c != '\t' && c != '\\' && c != '"'
}

/// A character that stands for itself inside quotes.
pub open spec fn spec_unescaped_char(s: Seq<char>, i: int) -> Option<(int, char)> {
    if 0 <= i < s.len() && plain_in_quotes(s[i]) {
        Some((i + 1, s[i]))
    } else {
        None
    }
}

/// An escape sequence inside quotes, and the character it stands for.
pub open spec fn spec_escaped_char(s: Seq<char>, i: int) -> Option<(int, char)> {
    if 0 <= i && i + 1 < s.len() && s[i] == '\\' && unescape(s[i + 1]) is Some {
        Some((i + 2, unescape(s[i + 1])->0))
    } else {
        None
    }
}

/// One character inside quotes, plain or escaped.
pub open spec fn spec_quoted_char(s: Seq<char>, i: int) -> Option<(int, char)> {
    match spec_unescaped_char(s, i) {
        Some(r) => Some(r),
        None => spec_escaped_char(s, i),
    }
}

/// As many characters inside quotes as there are from `i` on.
pub open spec fn quoted_chars(s: Seq<char>, i: int) -> (int, Seq<char>)
    decreases s.len() - i,
{
    match spec_quoted_char(s, i) {
        Some((j, c)) => if i < j <= s.len() {
            let rest = quoted_chars(s, j);
            (rest.0, seq![c] + rest.1)
        } else {
            (i, Seq::empty())
        },
        None => (i, Seq::empty()),
    }
}

/// At least one character inside quotes, unescaped.
pub open spec fn spec_unescaped_str(s: Seq<char>, i: int) -> Option<(int, Seq<char>)> {
    let r = quoted_chars(s, i);
    if r.1.len() == 0 {
        None
    } else {
        Some(r)
    }
}

/// A quoted string, unescaped.
#[verifier::opaque]
pub open spec fn spec_quoted(s: Seq<char>, i: int) -> Option<(int, Seq<char>)> {
    if 0 <= i < s.len() && s[i] == '"' {
        match spec_unescaped_str(s, i + 1) {
            Some((j, v)) => if 0 <= j < s.len() && s[j] == '"' {
                Some((j + 1, v))
            } else {
                None
            },
            None => None,
        }
    } else {
        None
    }
}

/// A bare file name: the characters up to a tab or a line break.
#[verifier::opaque]
pub open spec fn spec_bare(s: Seq<char>, i: int) -> Step<Seq<char>> {
    let e = scan(s, i, not_tab_or_break());
    if e == i {
        Step::Fail(i, ErrorKind::IsNot)
    } else {
        Step::Done(e, s.subrange(i, e))
    }
}

/// A file name, quoted or bare.
#[verifier::opaque]
pub open spec fn spec_filename(s: Seq<char>, i: int) -> Step<Seq<char>> {
    match spec_quoted(s, i) {
        Some((e, v)) => Step::Done(e, v),
        None => spec_bare(s, i),
    }
}

/// The metadata after a file name: a quoted string or the rest of the line.
/// The flag tells whether it was quoted.
#[verifier::opaque]
pub open spec fn spec_file_metadata(s: Seq<char>, i: int) -> Option<(int, Seq<char>, bool)> {
    match spec_quoted(s, i) {
        Some((e, v)) => Some((e, v, true)),
        None => match not_line_ending(s, i) {
            Some(e) => Some((e, s.subrange(i, e), false)),
            None => None,
        },
    }
}

/// Metadata text given what chrono read from it in the layout with fractional
/// seconds (`first`) and in the one with whole seconds (`second`): the first
/// timestamp read, or the text.
pub open spec fn metadata_from(
    text: Seq<char>,
    first: Option<Timestamp>,
    second: Option<Timestamp>,
) -> SpecMetadata {
    match first {
        Some(t) => SpecMetadata::DateTime(t),
        None => match second {
            Some(t) => SpecMetadata::DateTime(t),
            None => SpecMetadata::Other(text),
        },
    }
}

/// Metadata text read as a timestamp where chrono reads it in one of the two
/// layouts, as other text otherwise.
pub open spec fn classify_metadata(text: Seq<char>) -> SpecMetadata {
    metadata_from(
        text,
        parsed_timestamp(text, fraction_layout()),
        parsed_timestamp(text, seconds_layout()),
    )
}

/// The metadata of a file: none where the unquoted text is empty or a single tab.
pub open spec fn metadata_of(text: Seq<char>, quoted: bool) -> Option<SpecMetadata> {
    if !quoted && (text == Seq::<char>::empty() || text == seq!['\t']) {
        None
    } else {
        Some(classify_metadata(text))
    }
}

/// The content of a header line: a file name, then optionally a tab and metadata.
#[verifier::opaque]
pub open spec fn spec_header_line_content(s: Seq<char>, i: int) -> Step<SpecFile> {
    match spec_filename(s, i) {
        Step::Done(e, path) => if 0 <= e < s.len() && s[e] == '\t' {
            match spec_file_metadata(s, e + 1) {
                Some((k, text, quoted)) => Step::Done(
                    k,
                    SpecFile { path, meta: metadata_of(text, quoted) },
                ),
                None => Step::Done(e, SpecFile { path, meta: None }),
            }
        } else {
            Step::Done(e, SpecFile { path, meta: None })
        },
        Step::Fail(p, k) => Step::Fail(p, k),
        Step::Crash(c) => Step::Crash(c),
    }
}

/// The two header lines of a patch, after any preamble lines.
#[verifier::opaque]
pub open spec fn spec_headers(s: Seq<char>, i: int) -> Step<(SpecFile, SpecFile)> {
    match find_from(s, i, old_file_tag()) {
        None => Step::Fail(i, ErrorKind::TakeUntil),
        Some(j) => match spec_header_line_content(s, j + 4) {
            Step::Done(e1, old) => match line_ending(s, e1) {
                None => Step::Fail(e1, ErrorKind::CrLf),
                Some(e2) => if has_at(s, e2, new_file_tag()) {
                    match spec_header_line_content(s, e2 + 4) {
                        Step::Done(e3, new) => match line_ending(s, e3) {
                            None => Step::Fail(e3, ErrorKind::CrLf),
                            Some(e4) => Step::Done(e4, (old, new)),
                        },
                        Step::Fail(p, k) => Step::Fail(p, k),
                        Step::Crash(c) => Step::Crash(c),
                    }
                } else {
                    Step::Fail(e2, ErrorKind::Tag)
                },
            },
            Step::Fail(p, k) => Step::Fail(p, k),
            Step::Crash(c) => Step::Crash(c),
        },
    }
}

pub proof fn lemma_quoted_chars_bounds(s: Seq<char>, i: int)
    requires
        0 <= i <= s.len(),
    ensures
        i <= quoted_chars(s, i).0 <= s.len(),
    decreases s.len() - i,
{
    match spec_quoted_char(s, i) {
        Some((j, c)) => {
            if i < j <= s.len() {
                lemma_quoted_chars_bounds(s, j);
            }
        },
        None => {},
    }
}

pub proof fn lemma_header_line_content_bounds(s: Seq<char>, i: int)
    requires
        0 <= i <= s.len(),
    ensures
        spec_header_line_content(s, i) matches Step::Done(e, _) ==> i < e <= s.len(),
{
    reveal(spec_header_line_content);
    reveal(spec_filename);
    reveal(spec_bare);
    reveal(spec_quoted);
    reveal(spec_file_metadata);
    lemma_scan(s, i, not_tab_or_break());
    if 0 <= i < s.len() {
        lemma_quoted_chars_bounds(s, i + 1);
    }
    match spec_filename(s, i) {
        Step::Done(e, _) => {
            if 0 <= e < s.len() {
                lemma_scan(s, e + 1, crate::scan::not_break());
                if e + 1 < s.len() {
                    lemma_quoted_chars_bounds(s, e + 2);
                }
            }
        },
        _ => {},
    }
}

pub proof fn lemma_headers_bounds(s: Seq<char>, i: int)
    requires
        0 <= i <= s.len(),
    ensures
        spec_headers(s, i) matches Step::Done(e, _) ==> i < e <= s.len(),
{
    reveal(spec_headers);
    lemma_find_from(s, i, old_file_tag());
    match find_from(s, i, old_file_tag()) {
        Some(j) => {
            lemma_header_line_content_bounds(s, j + 4);
            match spec_header_line_content(s, j + 4) {
                Step::Done(e1, _) => {
                    match line_ending(s, e1) {
                        Some(e2) => {
                            if has_at(s, e2, new_file_tag()) {
                                lemma_header_line_content_bounds(s, e2 + 4);
                            }
                        },
                        None => {},
                    }
                },
                _ => {},
            }
        },
        None => {},
    }
}

/// Parses a character that stands for itself inside quotes.
pub fn unescaped_char(s: &[char], i: usize) -> (r: Option<(usize, char)>)
    ensures
        agrees_opt(r, spec_unescaped_char(s@, i as int)),
{
    if i < s.len() {
        let c = s[i];
        if c != '\0' && c != '\n' && c != '\r' && c != '\t' && c != '\\' && c != '"' {
            return Some((i + 1, c));
        }
    }
    None
}

/// Parses an escaped character and returns its unescaped equivalent.
pub fn escaped_char(s: &[char], i: usize) -> (r: Option<(usize, char)>)
    ensures
        agrees_opt(r, spec_escaped_char(s@, i as int)),
{
    if i < s.len() && s.len() - i > 1 && s[i] == '\\' {
        let c = s[i + 1];
        let u = if c == '0' {
            '\0'
        } else if c == 'n' {
            '\n'
        } else if c == 'r' {
            '\r'
        } else if c == 't' {
            '\t'
        } else if c == '"' {
            '"'
        } else if c == '\\' {
            '\\'
        } else {
            return None;
        };
        return Some((i + 2, u));
    }
    None
}

/// Parses at least one character inside quotes, unescaping them.
pub fn unescaped_str(s: &[char], i: usize) -> (r: Option<(usize, String)>)
    requires
        i <= s.len(),
    ensures
        agrees_opt(r, spec_unescaped_str(s@, i as int)),
        r matches Some((e, _)) ==> i < e <= s.len(),
{
    let mut out = String::new();
    let mut j = i;
    loop
        invariant
            i <= j <= s.len(),
            quoted_chars(s@, i as int) == (
                quoted_chars(s@, j as int).0,
                out@ + quoted_chars(s@, j as int).1,
            ),
            (j == i) == (out@.len() == 0),
        ensures
            i <= j <= s.len(),
            quoted_chars(s@, i as int) == (j as int, out@),
            (j == i) == (out@.len() == 0),
        decreases s.len() - j,
    {
        let next = match unescaped_char(s, j) {
            Some(x) => Some(x),
            None => escaped_char(s, j),
        };
        match next {
            Some((k, c)) => {
                let ghost before = out@;
                push_char(&mut out, c);
                proof {
                    let rest = quoted_chars(s@, k as int);
                    assert(before + (seq![c] + rest.1) =~= out@ + rest.1);
                }
                j = k;
            },
            None => {
                proof {
                    assert(out@ + Seq::<char>::empty() =~= out@);
                }
                break ;
            },
        }
    }
    if j == i {
        None
    } else {
        Some((j, out))
    }
}

/// Parses a quoted string, unescaping it.
pub fn quoted(s: &[char], i: usize) -> (r: Option<(usize, String)>)
    requires
        i <= s.len(),
    ensures
        agrees_opt(r, spec_quoted(s@, i as int)),
        r matches Some((e, _)) ==> i < e <= s.len(),
{
    proof {
        reveal(spec_quoted);
    }
    if i < s.len() && s[i] == '"' {
        match unescaped_str(s, i + 1) {
            Some((j, v)) => {
                if j < s.len() && s[j] == '"' {
                    return Some((j + 1, v));
                }
            },
            None => {},
        }
    }
    None
}

/// Parses a bare file name: the characters up to a tab or a line break.
pub fn bare(s: &[char], i: usize) -> (r: Result<(usize, String), Failure>)
    requires
        i <= s.len(),
    ensures
        agrees(r, spec_bare(s@, i as int)),
        r matches Ok((e, _)) ==> i < e <= s.len(),
        r matches Err(f) ==> f.pos <= s.len(),
{
    proof {
        reveal(spec_bare);
    }
    let e = scan_not_tab_or_break(s, i);
    proof {
        lemma_scan(s@, i as int, not_tab_or_break());
    }
    if e == i {
        Err(Failure { pos: i, kind: ErrorKind::IsNot })
    } else {
        Ok((e, string_of(s, i, e)))
    }
}

/// Parses a file name, quoted or bare.
pub fn filename(s: &[char], i: usize) -> (r: Result<(usize, String), Failure>)
    requires
        i <= s.len(),
    ensures
        agrees(r, spec_filename(s@, i as int)),
        r matches Ok((e, _)) ==> i < e <= s.len(),
        r matches Err(f) ==> f.pos <= s.len(),
{
    proof {
        reveal(spec_filename);
    }
    match quoted(s, i) {
        Some(r) => Ok(r),
        None => bare(s, i),
    }
}

/// Parses the metadata after a file name; the flag tells whether it was quoted.
pub fn file_metadata(s: &[char], i: usize) -> (r: Option<(usize, String, bool)>)
    requires
        i <= s.len(),
    ensures
        match spec_file_metadata(s@, i as int) {
            Some((e, v, q)) => r matches Some((e2, x, q2)) && e2 == e && x@ == v && q2 == q,
            None => r is None,
        },
        r matches Some((e, _, _)) ==> i <= e <= s.len(),
{
    proof {
        reveal(spec_file_metadata);
    }
    match quoted(s, i) {
        Some((e, v)) => Some((e, v, true)),
        None => match read_to_line_end(s, i) {
            Some(e) => {
                Some((e, string_of(s, i, e), false))
            },
            None => None,
        },
    }
}

/// The metadata for `text`, given what chrono read from it in the layout with
/// fractional seconds (`first`) and, where that failed, in the one with whole
/// seconds (`second`).
pub fn file_metadata_from(
    text: String,
    first: Option<Timestamp>,
    second: Option<Timestamp>,
) -> (m: FileMetadata)
    ensures
        m@ == metadata_from(text@, first, second),
{
    match first {
        Some(t) => FileMetadata::DateTime(t),
        None => match second {
            Some(t) => FileMetadata::DateTime(t),
            None => FileMetadata::Other(text),
        },
    }
}

/// Reads metadata text as a timestamp where chrono reads it, as other text otherwise.
fn classify(text: String) -> (m: FileMetadata)
    ensures
        m@ == classify_metadata(text@),
{
    let first = parse_timestamp(text.as_str(), "%F %T%.f %z");
    let second = match first {
        Some(_) => None,
        None => parse_timestamp(text.as_str(), "%F %T %z"),
    };
    file_metadata_from(text, first, second)
}

/// Parses the content of a header line: a file name, then optionally a tab and metadata.
pub fn header_line_content(s: &[char], i: usize) -> (r: Result<(usize, File), Failure>)
    requires
        i <= s.len(),
    ensures
        agrees(r, spec_header_line_content(s@, i as int)),
        r matches Ok((e, _)) ==> i < e <= s.len(),
        r matches Err(f) ==> f.pos <= s.len(),
{
    proof {
        reveal(spec_header_line_content);
    }
    let (e, path) = filename(s, i)?;
    if e < s.len() && s[e] == '\t' {
        match file_metadata(s, e + 1) {
            Some((k, text, quoted)) => {
                proof {
                    if text@.len() == 0 {
                        assert(text@ =~= Seq::<char>::empty());
                    }
                }
                let meta = if !quoted && (text.as_str().is_empty() || is_single_tab(&text)) {
                    None
                } else {
                    Some(classify(text))
                };
                return Ok((k, File { path, meta }));
            },
            None => {},
        }
    }
    Ok((e, File { path, meta: None }))
}

/// Whether `t` is a single tab.
fn is_single_tab(t: &String) -> (r: bool)
    ensures
        r == (t@ == seq!['\t']),
{
    let cs = chars_of(t.as_str());
    let r = cs.len() == 1 && cs[0] == '\t';
    proof {
        if cs.len() == 1 && cs[0] == '\t' {
            assert(t@ =~= seq!['\t']);
        }
    }
    r
}

/// Parses the two header lines of a patch, after any preamble lines.
pub fn headers(s: &[char], i: usize) -> (r: Result<(usize, (File, File)), Failure>)
    requires
        i <= s.len(),
    ensures
        agrees(r, spec_headers(s@, i as int)),
        r matches Ok((e, _)) ==> i < e <= s.len(),
        r matches Err(f) ==> f.pos <= s.len(),
{
    proof {
        reveal(spec_headers);
    }
    let j = match find_at(s, i, &old_file_tag_chars()) {
        Some(j) => j,
        None => {
            return Err(Failure { pos: i, kind: ErrorKind::TakeUntil });
        },
    };
    proof {
        lemma_find_from(s@, i as int, old_file_tag());
    }
    let (e1, old) = header_line_content(s, j + 4)?;
    let e2 = match read_line_ending(s, e1) {
        Some(e2) => e2,
        None => {
            return Err(Failure { pos: e1, kind: ErrorKind::CrLf });
        },
    };
    if !tag_at(s, e2, &new_file_tag_chars()) {
        return Err(Failure { pos: e2, kind: ErrorKind::Tag });
    }
    let (e3, new) = header_line_content(s, e2 + 4)?;
    match read_line_ending(s, e3) {
        Some(e4) => Ok((e4, (old, new))),
        None => Err(Failure { pos: e3, kind: ErrorKind::CrLf }),
    }
}

// ---------------------------------------------------------------------------
// Hunks
// ---------------------------------------------------------------------------

/// A decimal number of at least one digit. Reading one that does not fit in
/// 64 bits aborts.
#[verifier::opaque]
pub open spec fn spec_u64_digit(s: Seq<char>, i: int) -> Step<u64> {
    let e = scan(s, i, ascii_digit());
    if e == i {
        Step::Fail(i, ErrorKind::Digit)
    } else if decimal_value(s.subrange(i, e)) > u64::MAX {
        Step::Crash(i)
    } else {
        Step::Done(e, decimal_value(s.subrange(i, e)) as u64)
    }
}

/// A range of lines: a start, then optionally a comma and a count (1 when absent).
#[verifier::opaque]
pub open spec fn spec_range(s: Seq<char>, i: int) -> Step<Range> {
    match spec_u64_digit(s, i) {
        Step::Done(e, start) => if 0 <= e < s.len() && s[e] == ',' {
            match spec_u64_digit(s, e + 1) {
                Step::Done(e2, count) => Step::Done(e2, Range { start, count }),
                Step::Fail(_, _) => Step::Done(e, Range { start, count: 1 }),
                Step::Crash(c) => Step::Crash(c),
            }
        } else {
            Step::Done(e, Range { start, count: 1 })
        },
        Step::Fail(p, k) => Step::Fail(p, k),
        Step::Crash(c) => Step::Crash(c),
    }
}

/// A hunk header line: `@@ -old +new @@` and the rest of the line as a hint.
#[verifier::opaque]
pub open spec fn spec_chunk_header(s: Seq<char>, i: int) -> Step<(Range, Range, Seq<char>)> {
    if !has_at(s, i, hunk_tag()) {
        Step::Fail(i, ErrorKind::Tag)
    } else {
        match spec_range(s, i + 4) {
            Step::Done(e1, old) => if !has_at(s, e1, new_range_tag()) {
                Step::Fail(e1, ErrorKind::Tag)
            } else {
                match spec_range(s, e1 + 2) {
                    Step::Done(e2, new) => if !has_at(s, e2, hunk_end_tag()) {
                        Step::Fail(e2, ErrorKind::Tag)
                    } else {
                        match not_line_ending(s, e2 + 3) {
                            None => Step::Fail(e2 + 3, ErrorKind::Tag),
                            Some(h) => match line_ending(s, h) {
                                None => Step::Fail(h, ErrorKind::CrLf),
                                Some(e4) => Step::Done(e4, (old, new, s.subrange(e2 + 3, h))),
                            },
                        }
                    },
                    Step::Fail(p, k) => Step::Fail(p, k),
                    Step::Crash(c) => Step::Crash(c),
                }
            },
            Step::Fail(p, k) => Step::Fail(p, k),
            Step::Crash(c) => Step::Crash(c),
        }
    }
}

/// The text of a hunk line up to its line ending, and whether the marker of a
/// missing final line feed follows it.
#[verifier::opaque]
pub open spec fn spec_content_line(s: Seq<char>, i: int) -> Option<(int, Seq<char>, bool)> {
    match not_line_ending(s, i) {
        None => None,
        Some(j) => match line_ending(s, j) {
            None => None,
            Some(k) => if has_at(s, k, no_newline_marker()) {
                let m = k + no_newline_marker().len();
                Some(
                    (
                        match line_ending(s, m) {
                            Some(n) => n,
                            None => m,
                        },
                        s.subrange(i, j),
                        true,
                    ),
                )
            } else {
                Some((k, s.subrange(i, j), false))
            },
        },
    }
}

/// A hunk line of the given kind from the text after its prefix.
pub open spec fn line_of(kind: LineKind, c: Option<(int, Seq<char>, bool)>) -> Option<(int, SpecLine)> {
    match c {
        Some((e, text, missing)) => Some((e, SpecLine { kind, content: text, missing_newline: missing })),
        None => None,
    }
}

/// A hunk line with its prefix: added, removed or context.
pub open spec fn spec_prefixed_line(s: Seq<char>, i: int) -> Option<(int, SpecLine)> {
    if !(0 <= i < s.len()) {
        None
    } else if s[i] == '+' {
        if has_at(s, i + 1, added_header_look()) {
            None
        } else {
            line_of(LineKind::Add, spec_content_line(s, i + 1))
        }
    } else if s[i] == '-' {
        if has_at(s, i + 1, removed_header_look()) {
            None
        } else {
            line_of(LineKind::Remove, spec_content_line(s, i + 1))
        }
    } else if s[i] == ' ' {
        line_of(LineKind::Context, spec_content_line(s, i + 1))
    } else {
        None
    }
}

/// One line of a hunk: a line with its prefix, or an empty line, taken as an
/// empty context line where the run of empty lines it starts is followed by a
/// line with a prefix or by the header of another hunk. Empty lines after the
/// last hunk of a patch (before the end of the text, a header of another patch,
/// or any other line) are not part of it.
#[verifier::opaque]
pub open spec fn spec_hunk_line(s: Seq<char>, i: int) -> Option<(int, SpecLine)> {
    if 0 <= i < s.len() && s[i] == '\n' {
        let j = scan(s, i, line_feed_only());
        if spec_prefixed_line(s, j) is Some || has_at(s, j, hunk_tag()) {
            Some((i + 1, SpecLine { kind: LineKind::Context, content: Seq::empty(), missing_newline: false }))
        } else {
            None
        }
    } else {
        spec_prefixed_line(s, i)
    }
}

/// As many hunk lines as there are from `i` on.
pub open spec fn hunk_lines(s: Seq<char>, i: int) -> (int, Seq<SpecLine>)
    decreases s.len() - i,
{
    match spec_hunk_line(s, i) {
        Some((j, l)) => if i < j <= s.len() {
            let rest = hunk_lines(s, j);
            (rest.0, seq![l] + rest.1)
        } else {
            (i, Seq::empty())
        },
        None => (i, Seq::empty()),
    }
}

/// A header of a patch or of a hunk starts at `i`.
pub open spec fn spec_is_next_header(s: Seq<char>, i: int) -> bool {
    has_at(s, i, diff_tag()) || has_at(s, i, old_file_tag()) || has_at(s, i, new_file_tag())
        || has_at(s, i, hunk_start_tag())
}

/// A hunk: its header and its lines. No line is read when a header follows
/// the hunk header directly.
#[verifier::opaque]
pub open spec fn spec_chunk(s: Seq<char>, i: int) -> Step<SpecHunk> {
    match spec_chunk_header(s, i) {
        Step::Done(e, (old, new, hint)) => {
            let body = if spec_is_next_header(s, e) {
                (e, Seq::<SpecLine>::empty())
            } else {
                hunk_lines(s, e)
            };
            Step::Done(
                body.0,
                SpecHunk {
                    old_range: old,
                    new_range: new,
                    range_hint: hint,
                    lines: body.1,
                    old_missing_newline: old_side_missing_newline(body.1),
                    new_missing_newline: new_side_missing_newline(body.1),
                },
            )
        },
        Step::Fail(p, k) => Step::Fail(p, k),
        Step::Crash(c) => Step::Crash(c),
    }
}

/// The hunks that follow, none or more: stops at the first that does not parse.
pub open spec fn more_chunks(s: Seq<char>, i: int) -> Step<Seq<SpecHunk>>
    decreases s.len() - i,
{
    match spec_chunk(s, i) {
        Step::Done(e, h) => if i < e <= s.len() {
            match more_chunks(s, e) {
                Step::Done(k, hs) => Step::Done(k, seq![h] + hs),
                Step::Fail(p, k) => Step::Fail(p, k),
                Step::Crash(c) => Step::Crash(c),
            }
        } else {
            Step::Fail(i, ErrorKind::Many1)
        },
        Step::Fail(_, _) => Step::Done(i, Seq::empty()),
        Step::Crash(c) => Step::Crash(c),
    }
}

/// At least one hunk.
#[verifier::opaque]
pub open spec fn spec_chunks(s: Seq<char>, i: int) -> Step<Seq<SpecHunk>> {
    match spec_chunk(s, i) {
        Step::Done(e, h) => if i < e <= s.len() {
            match more_chunks(s, e) {
                Step::Done(k, hs) => Step::Done(k, seq![h] + hs),
                Step::Fail(p, k) => Step::Fail(p, k),
                Step::Crash(c) => Step::Crash(c),
            }
        } else {
            Step::Fail(i, ErrorKind::Many1)
        },
        Step::Fail(p, k) => Step::Fail(p, k),
        Step::Crash(c) => Step::Crash(c),
    }
}

/// The models of a sequence of hunks.
pub open spec fn hunks_view(hs: Seq<Hunk>) -> Seq<SpecHunk> {
    hs.map_values(|h: Hunk| h@)
}

/// The models of a sequence of lines.
pub open spec fn lines_view(ls: Seq<Line>) -> Seq<SpecLine> {
    ls.map_values(|l: Line| l@)
}

proof fn lemma_decimal_prefix(t: Seq<char>, k: int)
    requires
        0 <= k <= t.len(),
        forall|j: int| 0 <= j < t.len() ==> '0' <= #[trigger] t[j] <= '9',
    ensures
        decimal_value(t.take(k)) <= decimal_value(t),
    decreases t.len(),
{
    if k < t.len() {
        lemma_decimal_prefix(t.drop_last(), k);
        assert(t.drop_last().take(k) =~= t.take(k));
    } else {
        assert(t.take(k) =~= t);
    }
}

/// Parses a decimal number of at least one digit.
pub fn u64_digit(s: &[char], i: usize) -> (r: Result<(usize, u64), Failure>)
    requires
        i <= s.len(),
    ensures
        agrees(r, spec_u64_digit(s@, i as int)),
        r matches Ok((e, _)) ==> i < e <= s.len(),
        r matches Err(f) ==> f.pos <= s.len(),
{
    proof {
        reveal(spec_u64_digit);
    }
    let e = scan_digits(s, i);
    proof {
        lemma_scan(s@, i as int, ascii_digit());
    }
    if e == i {
        return Err(Failure { pos: i, kind: ErrorKind::Digit });
    }
    let ghost digits = s@.subrange(i as int, e as int);
    assert forall|j: int| 0 <= j < digits.len() implies '0' <= #[trigger] digits[j] <= '9' by {
        assert(ascii_digit()(s@[i + j]));
    }
    let mut v: u64 = 0;
    let mut j = i;
    assert(s@.subrange(i as int, i as int) =~= Seq::<char>::empty());
    while j < e
        invariant
            i <= j <= e <= s.len(),
            i < e,
            e as int == scan(s@, i as int, ascii_digit()),
            digits == s@.subrange(i as int, e as int),
            forall|k: int| 0 <= k < digits.len() ==> '0' <= #[trigger] digits[k] <= '9',
            v == decimal_value(s@.subrange(i as int, j as int)),
        decreases e - j,
    {
        proof {
            lemma_decimal_prefix(digits, j + 1 - i);
            assert(digits.take(j + 1 - i) =~= s@.subrange(i as int, j + 1));
            assert(s@.subrange(i as int, j + 1).drop_last() =~= s@.subrange(i as int, j as int));
            assert(digits[j - i] == s@[j as int]);
        }
        let d = (s[j] as u32 - '0' as u32) as u64;
        if v > (u64::MAX - d) / 10 {
            proof {
                assert(decimal_value(s@.subrange(i as int, j + 1)) == v * 10 + d);
                assert(v * 10 + d > u64::MAX) by (nonlinear_arith)
                    requires
                        v > (u64::MAX - d) / 10,
                        d <= 9,
                ;
                assert(decimal_value(digits) >= decimal_value(s@.subrange(i as int, j + 1)));
                assert(decimal_value(s@.subrange(i as int, e as int)) > u64::MAX);
                reveal(spec_u64_digit);
                assert(spec_u64_digit(s@, i as int) is Crash);
            }
            return Err(Failure { pos: i, kind: ErrorKind::Overflow });
        }
        v = v * 10 + d;
        j = j + 1;
    }
    Ok((e, v))
}

/// Parses a range of lines: a start, then optionally a comma and a count.
pub fn range(s: &[char], i: usize) -> (r: Result<(usize, Range), Failure>)
    requires
        i <= s.len(),
    ensures
        agrees(r, spec_range(s@, i as int)),
        r matches Ok((e, _)) ==> i < e <= s.len(),
        r matches Err(f) ==> f.pos <= s.len(),
{
    proof {
        reveal(spec_range);
    }
    let (e, start) = u64_digit(s, i)?;
    if e < s.len() && s[e] == ',' {
        match u64_digit(s, e + 1) {
            Ok((e2, count)) => {
                return Ok((e2, Range { start, count }));
            },
            Err(f) => {
                if f.kind == ErrorKind::Overflow {
                    return Err(f);
                }
            },
        }
    }
    Ok((e, Range { start, count: 1 }))
}

/// Parses a hunk header line.
pub fn chunk_header(s: &[char], i: usize) -> (r: Result<(usize, (Range, Range, String)), Failure>)
    requires
        i <= s.len(),
    ensures
        agrees(r, spec_chunk_header(s@, i as int)),
        r matches Ok((e, _)) ==> i < e <= s.len(),
        r matches Err(f) ==> f.pos <= s.len(),
{
    proof {
        reveal(spec_chunk_header);
    }
    if !tag_at(s, i, &hunk_tag_chars()) {
        return Err(Failure { pos: i, kind: ErrorKind::Tag });
    }
    let (e1, old) = range(s, i + 4)?;
    if !tag_at(s, e1, &new_range_tag_chars()) {
        return Err(Failure { pos: e1, kind: ErrorKind::Tag });
    }
    let (e2, new) = range(s, e1 + 2)?;
    if !tag_at(s, e2, &hunk_end_tag_chars()) {
        return Err(Failure { pos: e2, kind: ErrorKind::Tag });
    }
    let e3 = e2 + 3;
    let h = match read_to_line_end(s, e3) {
        Some(h) => h,
        None => {
            return Err(Failure { pos: e3, kind: ErrorKind::Tag });
        },
    };
    match read_line_ending(s, h) {
        Some(e4) => Ok((e4, (old, new, string_of(s, e3, h)))),
        None => Err(Failure { pos: h, kind: ErrorKind::CrLf }),
    }
}

/// Parses the text of a hunk line up to its line ending, and the marker of a
/// missing final line feed after it.
pub fn consume_content_line(s: &[char], i: usize) -> (r: Option<(usize, String, bool)>)
    requires
        i <= s.len(),
    ensures
        match spec_content_line(s@, i as int) {
            Some((e, v, m)) => r matches Some((e2, x, m2)) && e2 == e && x@ == v && m2 == m,
            None => r is None,
        },
        r matches Some((e, _, _)) ==> i < e <= s.len(),
{
    proof {
        reveal(spec_content_line);
    }
    let j = match read_to_line_end(s, i) {
        Some(j) => j,
        None => {
            return None;
        },
    };
    let k = match read_line_ending(s, j) {
        Some(k) => k,
        None => {
            return None;
        },
    };
    let text = string_of(s, i, j);
    if tag_at(s, k, &no_newline_marker_chars()) {
        let m = k + 27;
        let end = match read_line_ending(s, m) {
            Some(n) => n,
            None => m,
        };
        Some((end, text, true))
    } else {
        Some((k, text, false))
    }
}

/// Parses a hunk line with its prefix.
fn prefixed_line(s: &[char], i: usize) -> (r: Option<(usize, Line)>)
    requires
        i <= s.len(),
    ensures
        agrees_opt(r, spec_prefixed_line(s@, i as int)),
        r matches Some((e, _)) ==> i < e <= s.len(),
{
    if i >= s.len() {
        return None;
    }
    let c = s[i];
    let kind = if c == '+' {
        if tag_at(s, i + 1, &added_header_look_chars()) {
            return None;
        }
        LineKind::Add
    } else if c == '-' {
        if tag_at(s, i + 1, &removed_header_look_chars()) {
            return None;
        }
        LineKind::Remove
    } else if c == ' ' {
        LineKind::Context
    } else {
        return None;
    };
    match consume_content_line(s, i + 1) {
        Some((e, content, missing_newline)) => Some((e, Line { kind, content, missing_newline })),
        None => None,
    }
}

/// Parses one line of a hunk.
fn hunk_line(s: &[char], i: usize) -> (r: Option<(usize, Line)>)
    requires
        i <= s.len(),
    ensures
        agrees_opt(r, spec_hunk_line(s@, i as int)),
        r matches Some((e, _)) ==> i < e <= s.len(),
{
    proof {
        reveal(spec_hunk_line);
    }
    if i < s.len() && s[i] == '\n' {
        let j = scan_line_feeds(s, i);
        proof {
            lemma_scan(s@, i as int, line_feed_only());
        }
        let more = match prefixed_line(s, j) {
            Some(_) => true,
            None => tag_at(s, j, &hunk_tag_chars()),
        };
        if more {
            let line = Line { kind: LineKind::Context, content: String::new(), missing_newline: false };
            assert(line@.content =~= Seq::<char>::empty());
            Some((i + 1, line))
        } else {
            None
        }
    } else {
        prefixed_line(s, i)
    }
}

/// Whether a header of a patch or of a hunk starts at `i`.
fn is_next_header(s: &[char], i: usize) -> (r: bool)
    ensures
        r == spec_is_next_header(s@, i as int),
{
    tag_at(s, i, &diff_tag_chars()) || tag_at(s, i, &old_file_tag_chars()) || tag_at(
        s,
        i,
        &new_file_tag_chars(),
    ) || tag_at(s, i, &hunk_start_tag_chars())
}

/// Parses a hunk: its header and its lines.
pub fn chunk(s: &[char], i: usize) -> (r: Result<(usize, Hunk), Failure>)
    requires
        i <= s.len(),
    ensures
        agrees(r, spec_chunk(s@, i as int)),
        r matches Ok((e, _)) ==> i < e <= s.len(),
        r matches Err(f) ==> f.pos <= s.len(),
{
    proof {
        reveal(spec_chunk);
    }
    let (e, (old_range, new_range, range_hint)) = chunk_header(s, i)?;
    let mut lines: Vec<Line> = Vec::new();
    let mut old_missing_newline = false;
    let mut new_missing_newline = false;
    let mut j = e;
    if !is_next_header(s, e) {
        loop
            invariant
                e <= j <= s.len(),
                hunk_lines(s@, e as int) == (
                    hunk_lines(s@, j as int).0,
                    lines_view(lines@) + hunk_lines(s@, j as int).1,
                ),
                old_missing_newline == old_side_missing_newline(lines_view(lines@)),
                new_missing_newline == new_side_missing_newline(lines_view(lines@)),
            ensures
                e <= j <= s.len(),
                hunk_lines(s@, e as int) == (j as int, lines_view(lines@)),
                old_missing_newline == old_side_missing_newline(lines_view(lines@)),
                new_missing_newline == new_side_missing_newline(lines_view(lines@)),
            decreases s.len() - j,
        {
            match hunk_line(s, j) {
                Some((k, line)) => {
                    let ghost before = lines_view(lines@);
                    if line.kind != LineKind::Add {
                        old_missing_newline = line.missing_newline;
                    }
                    if line.kind != LineKind::Remove {
                        new_missing_newline = line.missing_newline;
                    }
                    lines.push(line);
                    proof {
                        let rest = hunk_lines(s@, k as int);
                        assert(lines_view(lines@) =~= before.push(line@));
                        assert(lines_view(lines@).drop_last() =~= before);
                        assert(before + (seq![line@] + rest.1) =~= lines_view(lines@) + rest.1);
                    }
                    j = k;
                },
                None => {
                    proof {
                        assert(lines_view(lines@) + Seq::<SpecLine>::empty() =~= lines_view(
                            lines@,
                        ));
                    }
                    break ;
                },
            }
        }
    } else {
        assert(lines_view(lines@) =~= Seq::<SpecLine>::empty());
    }
    Ok(
        (
            j,
            Hunk {
                old_range,
                new_range,
                range_hint,
                lines,
                old_missing_newline,
                new_missing_newline,
            },
        ),
    )
}

/// Parses at least one hunk, stopping at the first that does not parse.
pub fn chunks(s: &[char], i: usize) -> (r: Result<(usize, Vec<Hunk>), Failure>)
    requires
        i <= s.len(),
    ensures
        match spec_chunks(s@, i as int) {
            Step::Done(e, hs) => r matches Ok((e2, v)) && e2 == e && hunks_view(v@) == hs,
            Step::Fail(p, k) => r matches Err(f) && f.pos == p && f.kind == k && k
                != ErrorKind::Overflow,
            Step::Crash(c) => r matches Err(f) && f.pos == c && f.kind == ErrorKind::Overflow,
        },
        r matches Ok((e, _)) ==> i < e <= s.len(),
        r matches Ok((_, v)) ==> v.len() > 0,
        r matches Err(f) ==> f.pos <= s.len(),
{
    proof {
        reveal(spec_chunks);
    }
    let (e, first) = chunk(s, i)?;
    let mut hunks: Vec<Hunk> = Vec::new();
    hunks.push(first);
    let mut j = e;
    assert(hunks_view(hunks@) =~= seq![first@]);
    loop
        invariant
            i < j <= s.len(),
            hunks.len() > 0,
            match more_chunks(s@, j as int) {
                Step::Done(k, hs) => spec_chunks(s@, i as int) == Step::Done(
                    k,
                    hunks_view(hunks@) + hs,
                ),
                Step::Fail(p, kd) => spec_chunks(s@, i as int) == Step::<Seq<SpecHunk>>::Fail(
                    p,
                    kd,
                ),
                Step::Crash(c) => spec_chunks(s@, i as int) == Step::<Seq<SpecHunk>>::Crash(c),
            },
        decreases s.len() - j,
    {
        match chunk(s, j) {
            Ok((k, h)) => {
                let ghost before = hunks_view(hunks@);
                hunks.push(h);
                proof {
                    assert(hunks_view(hunks@) =~= before.push(h@));
                    match more_chunks(s@, k as int) {
                        Step::Done(k2, hs) => {
                            assert(before + (seq![h@] + hs) =~= hunks_view(hunks@) + hs);
                        },
                        _ => {},
                    }
                }
                j = k;
            },
            Err(f) => {
                if f.kind == ErrorKind::Overflow {
                    return Err(f);
                }
                assert(hunks_view(hunks@) + Seq::<SpecHunk>::empty() =~= hunks_view(hunks@));
                return Ok((j, hunks));
            },
        }
    }
}

// ---------------------------------------------------------------------------
// Patches
// ---------------------------------------------------------------------------

/// A patch that names two files and has no hunk.
pub open spec fn empty_patch(old: Seq<char>, new: Seq<char>) -> SpecPatch {
    SpecPatch {
        old: SpecFile { path: old, meta: None },
        new: SpecFile { path: new, meta: None },
        hunks: Seq::empty(),
        old_missing_newline: false,
        new_missing_newline: false,
    }
}

/// The two names on a "Binary files A and B differ" line, from the text after
/// "Binary files ": trailing white space goes, the text must end in " differ",
/// and the names are split at the first " and ".
#[verifier::opaque]
pub open spec fn binary_names(text: Seq<char>) -> Option<(Seq<char>, Seq<char>)> {
    let names = trim_end(text);
    let d = differ_tag();
    if names.len() >= d.len() && names.subrange(names.len() - d.len(), names.len() as int) == d {
        let core = names.subrange(0, names.len() - d.len());
        match find_from(core, 0, and_tag()) {
            Some(k) => Some(
                (core.subrange(0, k), core.subrange(k + and_tag().len(), core.len() as int)),
            ),
            None => None,
        }
    } else {
        None
    }
}

/// A "Binary files A and B differ" line, read as a patch without hunks.
#[verifier::opaque]
pub open spec fn spec_binary_files_differ(s: Seq<char>, i: int) -> Option<(int, SpecPatch)> {
    if !has_at(s, i, binary_tag()) {
        None
    } else {
        let p = i + binary_tag().len();
        match find_from(s, p, line_feed()) {
            None => None,
            Some(q) => match binary_names(s.subrange(p, q)) {
                Some((old, new)) => Some((q + 1, empty_patch(old, new))),
                None => None,
            },
        }
    }
}

/// A header line of a text patch, a hunk header or a binary files line starts at `k`.
pub open spec fn starts_other_part(s: Seq<char>, k: int) -> bool {
    has_at(s, k, old_file_tag()) || has_at(s, k, new_file_tag()) || has_at(s, k, hunk_start_tag())
        || has_at(s, k, binary_tag())
}

/// No line that starts in `s[i..m]` (at `i`, or after a line feed) is a header
/// line of a text patch, a hunk header or a binary files line: the text from
/// `i` to `m` holds the extended header lines of one patch only.
pub open spec fn header_block(s: Seq<char>, i: int, m: int) -> bool {
    forall|k: int|
        i <= k < m && (k == i || s[k - 1] == '\n') ==> !#[trigger] starts_other_part(s, k)
}

/// A git rename without any change: the first "similarity index 100%" line
/// from `i` on, among the extended header lines of the patch that starts at
/// `i`, then the "rename from" and "rename to" lines.
#[verifier::opaque]
pub open spec fn spec_file_rename_only(s: Seq<char>, i: int) -> Option<(int, SpecPatch)> {
    match find_from(s, i, similarity_marker()) {
        None => None,
        Some(m) => {
            let a = m + similarity_marker().len();
            if !header_block(s, i, m) {
                None
            } else if !has_at(s, a, rename_from_tag()) {
                None
            } else {
                let b = a + rename_from_tag().len();
                match find_from(s, b, line_feed()) {
                    None => None,
                    Some(c) => {
                        let d = c + 1;
                        if !has_at(s, d, rename_to_tag()) {
                            None
                        } else {
                            let e = d + rename_to_tag().len();
                            match find_from(s, e, line_feed()) {
                                None => None,
                                Some(f) => Some(
                                    (f + 1, empty_patch(s.subrange(b, c), s.subrange(e, f))),
                                ),
                            }
                        }
                    },
                }
            }
        },
    }
}

/// The index after any line endings from `i` on.
pub open spec fn skip_line_endings(s: Seq<char>, i: int) -> int
    decreases s.len() - i,
{
    match line_ending(s, i) {
        Some(j) => if i < j <= s.len() {
            skip_line_endings(s, j)
        } else {
            i
        },
        None => i,
    }
}

/// A patch with header lines and hunks; whether the files lack a final line
/// feed comes from the last hunk.
pub open spec fn text_patch(old: SpecFile, new: SpecFile, hunks: Seq<SpecHunk>) -> SpecPatch {
    SpecPatch {
        old,
        new,
        hunks,
        old_missing_newline: if hunks.len() > 0 {
            hunks.last().old_missing_newline
        } else {
            false
        },
        new_missing_newline: if hunks.len() > 0 {
            hunks.last().new_missing_newline
        } else {
            false
        },
    }
}

/// One patch: a binary files line, a bare rename, or header lines and hunks
/// (followed by any empty lines).
#[verifier::opaque]
pub open spec fn spec_patch(s: Seq<char>, i: int) -> Step<SpecPatch> {
    match spec_binary_files_differ(s, i) {
        Some((e, p)) => Step::Done(e, p),
        None => match spec_file_rename_only(s, i) {
            Some((e, p)) => Step::Done(e, p),
            None => match spec_headers(s, i) {
                Step::Done(e, (old, new)) => match spec_chunks(s, e) {
                    Step::Done(k, hunks) => Step::Done(
                        skip_line_endings(s, k),
                        text_patch(old, new, hunks),
                    ),
                    Step::Fail(p, kd) => Step::Fail(p, kd),
                    Step::Crash(c) => Step::Crash(c),
                },
                Step::Fail(p, k) => Step::Fail(p, k),
                Step::Crash(c) => Step::Crash(c),
            },
        },
    }
}

/// The patches that follow, none or more: stops at the first that does not parse.
pub open spec fn more_patches(s: Seq<char>, i: int) -> Step<Seq<SpecPatch>>
    decreases s.len() - i,
{
    match spec_patch(s, i) {
        Step::Done(e, p) => if i < e <= s.len() {
            match more_patches(s, e) {
                Step::Done(k, ps) => Step::Done(k, seq![p] + ps),
                Step::Fail(q, k) => Step::Fail(q, k),
                Step::Crash(c) => Step::Crash(c),
            }
        } else {
            Step::Fail(i, ErrorKind::Many1)
        },
        Step::Fail(_, _) => Step::Done(i, Seq::empty()),
        Step::Crash(c) => Step::Crash(c),
    }
}

/// At least one patch.
#[verifier::opaque]
pub open spec fn spec_multiple_patches(s: Seq<char>, i: int) -> Step<Seq<SpecPatch>> {
    match spec_patch(s, i) {
        Step::Done(e, p) => if i < e <= s.len() {
            match more_patches(s, e) {
                Step::Done(k, ps) => Step::Done(k, seq![p] + ps),
                Step::Fail(q, k) => Step::Fail(q, k),
                Step::Crash(c) => Step::Crash(c),
            }
        } else {
            Step::Fail(i, ErrorKind::Many1)
        },
        Step::Fail(q, k) => Step::Fail(q, k),
        Step::Crash(c) => Step::Crash(c),
    }
}

/// What reading a whole text as a sequence of patches gives: the patches, or
/// the failure, where text is left after the last patch a failure of kind `Eof`.
pub open spec fn patches_of(s: Seq<char>) -> Step<Seq<SpecPatch>> {
    match spec_multiple_patches(s, 0) {
        Step::Done(e, ps) => if e == s.len() {
            Step::Done(e, ps)
        } else {
            Step::Fail(e, ErrorKind::Eof)
        },
        Step::Fail(p, k) => Step::Fail(p, k),
        Step::Crash(c) => Step::Crash(c),
    }
}

/// What reading a whole text as one patch gives: the patch, or the failure,
/// where text is left after the patch a failure of kind `Eof`.
pub open spec fn single_patch_of(s: Seq<char>) -> Step<SpecPatch> {
    match spec_patch(s, 0) {
        Step::Done(e, p) => if e == s.len() {
            Step::Done(e, p)
        } else {
            Step::Fail(e, ErrorKind::Eof)
        },
        Step::Fail(p, k) => Step::Fail(p, k),
        Step::Crash(c) => Step::Crash(c),
    }
}

/// The executable result `r` of reading a whole text `s` is the outcome `st`:
/// a failure is reported at its index, a number too large as `Overflow`.
pub open spec fn reads_as<T: View>(r: Result<T, ParseError>, s: Seq<char>, st: Step<T::V>) -> bool {
    match st {
        Step::Done(_, v) => r matches Ok(x) && x@ == v,
        Step::Fail(pos, k) => r matches Err(err) && error_matches(err, s, pos, k),
        Step::Crash(pos) => r matches Err(err) && error_matches(err, s, pos, ErrorKind::Overflow),
    }
}

fn make_empty_patch(old: String, new: String) -> (p: Patch)
    ensures
        p@ == empty_patch(old@, new@),
{
    let p = Patch {
        old: File { path: old, meta: None },
        new: File { path: new, meta: None },
        hunks: Vec::new(),
        old_missing_newline: false,
        new_missing_newline: false,
    };
    assert(p@.hunks =~= Seq::<SpecHunk>::empty());
    p
}

/// Recognizes a "Binary files A and B differ" line as an empty patch.
pub fn binary_files_differ(s: &[char], i: usize) -> (r: Option<(usize, Patch)>)
    requires
        i <= s.len(),
    ensures
        agrees_opt(r, spec_binary_files_differ(s@, i as int)),
        r matches Some((e, _)) ==> i < e <= s.len(),
{
    proof {
        reveal(spec_binary_files_differ);
        reveal(binary_names);
    }
    if !tag_at(s, i, &binary_tag_chars()) {
        return None;
    }
    let p = i + 13;
    let q = match find_at(s, p, &line_feed_chars()) {
        Some(q) => q,
        None => {
            return None;
        },
    };
    proof {
        lemma_find_from(s@, p as int, line_feed());
    }
    let ghost text = s@.subrange(p as int, q as int);
    let mut j = q;
    while j > p && white_space(s[j - 1])
        invariant
            p <= j <= q < s.len(),
            text == s@.subrange(p as int, q as int),
            trim_end(text) == trim_end(s@.subrange(p as int, j as int)),
        decreases j,
    {
        assert(s@.subrange(p as int, j as int).drop_last() =~= s@.subrange(p as int, j - 1));
        j = j - 1;
    }
    let ghost names = s@.subrange(p as int, j as int);
    assert(trim_end(names) == names);
    if j - p < 7 || !tag_at(s, j - 7, &differ_tag_chars()) {
        proof {
            if j - p >= 7 {
                assert(names.subrange(names.len() - 7, names.len() as int) =~= s@.subrange(
                    j - 7,
                    j as int,
                ));
            }
        }
        return None;
    }
    assert(names.subrange(names.len() - 7, names.len() as int) =~= s@.subrange(j - 7, j as int));
    let c = j - 7;
    assert(names.subrange(0, names.len() - 7) =~= s@.subrange(p as int, c as int));
    let k = match find_in(s, p, c, &and_tag_chars()) {
        Some(k) => k,
        None => {
            return None;
        },
    };
    proof {
        lemma_find_from(s@.subrange(p as int, c as int), 0, and_tag());
    }
    let old = string_of(s, p, k);
    let new = string_of(s, k + 5, c);
    proof {
        let core = s@.subrange(p as int, c as int);
        assert(core.subrange(0, k - p) =~= old@);
        assert(core.subrange(k - p + 5, core.len() as int) =~= new@);
    }
    Some((q + 1, make_empty_patch(old, new)))
}

/// Whether a header line of a text patch, a hunk header or a binary files line starts at `k`.
fn is_other_part(s: &[char], k: usize) -> (r: bool)
    ensures
        r == starts_other_part(s@, k as int),
{
    tag_at(s, k, &old_file_tag_chars()) || tag_at(s, k, &new_file_tag_chars()) || tag_at(
        s,
        k,
        &hunk_start_tag_chars(),
    ) || tag_at(s, k, &binary_tag_chars())
}

/// Parses a git rename without any change ("similarity index 100%").
pub fn file_rename_only(s: &[char], i: usize) -> (r: Option<(usize, Patch)>)
    requires
        i <= s.len(),
    ensures
        agrees_opt(r, spec_file_rename_only(s@, i as int)),
        r matches Some((e, _)) ==> i < e <= s.len(),
{
    proof {
        reveal(spec_file_rename_only);
    }
    let m = match find_at(s, i, &similarity_marker_chars()) {
        Some(m) => m,
        None => {
            return None;
        },
    };
    proof {
        lemma_find_from(s@, i as int, similarity_marker());
    }
    let mut k = i;
    let mut block = true;
    while k < m && block
        invariant
            i <= k <= m < s.len(),
            block ==> forall|x: int|
                i <= x < k && (x == i || s@[x - 1] == '\n') ==> !#[trigger] starts_other_part(
                    s@,
                    x,
                ),
            !block ==> !header_block(s@, i as int, m as int),
        decreases m - k + if block { 1int } else { 0int },
    {
        if (k == i || s[k - 1] == '\n') && is_other_part(s, k) {
            block = false;
        } else {
            k = k + 1;
        }
    }
    if !block {
        return None;
    }
    assert(header_block(s@, i as int, m as int));
    let a = m + 23;
    if !tag_at(s, a, &rename_from_tag_chars()) {
        return None;
    }
    let b = a + 12;
    let c = match find_at(s, b, &line_feed_chars()) {
        Some(c) => c,
        None => {
            return None;
        },
    };
    proof {
        lemma_find_from(s@, b as int, line_feed());
    }
    let d = c + 1;
    if !tag_at(s, d, &rename_to_tag_chars()) {
        return None;
    }
    let e = d + 10;
    let f = match find_at(s, e, &line_feed_chars()) {
        Some(f) => f,
        None => {
            return None;
        },
    };
    proof {
        lemma_find_from(s@, e as int, line_feed());
    }
    let old = string_of(s, b, c);
    let new = string_of(s, e, f);
    Some((f + 1, make_empty_patch(old, new)))
}

/// The index after any line endings from `i` on.
fn skip_empty_lines(s: &[char], i: usize) -> (r: usize)
    requires
        i <= s.len(),
    ensures
        r == skip_line_endings(s@, i as int),
        i <= r <= s.len(),
{
    let mut j = i;
    loop
        invariant
            i <= j <= s.len(),
            skip_line_endings(s@, i as int) == skip_line_endings(s@, j as int),
        decreases s.len() - j,
    {
        match read_line_ending(s, j) {
            Some(k) => {
                j = k;
            },
            None => {
                return j;
            },
        }
    }
}

/// Parses one patch.
pub fn patch(s: &[char], i: usize) -> (r: Result<(usize, Patch), Failure>)
    requires
        i <= s.len(),
    ensures
        agrees(r, spec_patch(s@, i as int)),
        r matches Ok((e, _)) ==> i < e <= s.len(),
        r matches Err(f) ==> f.pos <= s.len(),
{
    proof {
        reveal(spec_patch);
    }
    match binary_files_differ(s, i) {
        Some(r) => {
            return Ok(r);
        },
        None => {},
    }
    match file_rename_only(s, i) {
        Some(r) => {
            return Ok(r);
        },
        None => {},
    }
    let (e, (old, new)) = headers(s, i)?;
    let (k, hunks) = chunks(s, e)?;
    let end = skip_empty_lines(s, k);
    let last = hunks.len() - 1;
    let old_missing_newline = hunks[last].old_missing_newline;
    let new_missing_newline = hunks[last].new_missing_newline;
    let p = Patch { old, new, hunks, old_missing_newline, new_missing_newline };
    assert(p@.hunks == hunks_view(p.hunks@));
    Ok((end, p))
}

/// Parses at least one patch, stopping at the first that does not parse.
pub fn multiple_patches(s: &[char], i: usize) -> (r: Result<(usize, Vec<Patch>), Failure>)
    requires
        i <= s.len(),
    ensures
        match spec_multiple_patches(s@, i as int) {
            Step::Done(e, ps) => r matches Ok((e2, v)) && e2 == e && patches_view(v@) == ps,
            Step::Fail(p, k) => r matches Err(f) && f.pos == p && f.kind == k && k
                != ErrorKind::Overflow,
            Step::Crash(c) => r matches Err(f) && f.pos == c && f.kind == ErrorKind::Overflow,
        },
        r matches Ok((e, _)) ==> i < e <= s.len(),
        r matches Err(f) ==> f.pos <= s.len(),
{
    proof {
        reveal(spec_multiple_patches);
    }
    let (e, first) = patch(s, i)?;
    let mut patches: Vec<Patch> = Vec::new();
    patches.push(first);
    let mut j = e;
    assert(patches_view(patches@) =~= seq![first@]);
    loop
        invariant
            i < j <= s.len(),
            match more_patches(s@, j as int) {
                Step::Done(k, ps) => spec_multiple_patches(s@, i as int) == Step::Done(
                    k,
                    patches_view(patches@) + ps,
                ),
                Step::Fail(p, kd) => spec_multiple_patches(s@, i as int) == Step::<
                    Seq<SpecPatch>,
                >::Fail(p, kd),
                Step::Crash(c) => spec_multiple_patches(s@, i as int) == Step::<Seq<SpecPatch>>::Crash(c),
            },
        decreases s.len() - j,
    {
        match patch(s, j) {
            Ok((k, p)) => {
                let ghost before = patches_view(patches@);
                patches.push(p);
                proof {
                    assert(patches_view(patches@) =~= before.push(p@));
                    match more_patches(s@, k as int) {
                        Step::Done(k2, ps) => {
                            assert(before + (seq![p@] + ps) =~= patches_view(patches@) + ps);
                        },
                        _ => {},
                    }
                }
                j = k;
            },
            Err(f) => {
                if f.kind == ErrorKind::Overflow {
                    return Err(f);
                }
                assert(patches_view(patches@) + Seq::<SpecPatch>::empty() =~= patches_view(
                    patches@,
                ));
                return Ok((j, patches));
            },
        }
    }
}

/// Parses a text that holds exactly one patch.
pub fn parse_single_patch(s: &str) -> (r: Result<Patch, ParseError>)
    ensures
        reads_as(r, s@, single_patch_of(s@)),
{
    let cs = chars_of(s);
    match patch(cs.as_slice(), 0) {
        Ok((e, p)) => {
            if e < cs.len() {
                Err(ParseError::at(cs.as_slice(), e, ErrorKind::Eof))
            } else {
                Ok(p)
            }
        },
        Err(f) => Err(ParseError::at(cs.as_slice(), f.pos, f.kind)),
    }
}

/// Parses a text that holds one or more patches.
pub fn parse_multiple_patches(s: &str) -> (r: Result<Vec<Patch>, ParseError>)
    ensures
        match patches_of(s@) {
            Step::Done(_, ps) => r matches Ok(v) && patches_view(v@) == ps,
            Step::Fail(pos, k) => r matches Err(err) && error_matches(err, s@, pos, k),
            Step::Crash(pos) => r matches Err(err) && error_matches(
                err,
                s@,
                pos,
                ErrorKind::Overflow,
            ),
        },
{
    let cs = chars_of(s);
    match multiple_patches(cs.as_slice(), 0) {
        Ok((e, ps)) => {
            if e < cs.len() {
                Err(ParseError::at(cs.as_slice(), e, ErrorKind::Eof))
            } else {
                Ok(ps)
            }
        },
        Err(f) => Err(ParseError::at(cs.as_slice(), f.pos, f.kind)),
    }
}

impl Patch {
    /// Attempt to parse a patch from the given string.
    pub fn from_single(s: &str) -> (r: Result<Patch, ParseError>)
        ensures
            reads_as(r, s@, single_patch_of(s@)),
    {
        parse_single_patch(s)
    }

    /// Attempt to parse one or more patches from the given string.
    pub fn from_multiple(s: &str) -> (r: Result<Vec<Patch>, ParseError>)
        ensures
            match patches_of(s@) {
                Step::Done(_, ps) => r matches Ok(v) && patches_view(v@) == ps,
                Step::Fail(pos, k) => r matches Err(err) && error_matches(err, s@, pos, k),
                Step::Crash(pos) => r matches Err(err) && error_matches(
                    err,
                    s@,
                    pos,
                    ErrorKind::Overflow,
                ),
            },
    {
        parse_multiple_patches(s)
    }
}

} // verus!
