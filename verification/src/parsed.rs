//! What the parser gives: properties of every patch that reading yields, and
//! the law that what is read, written and read again, is what was read.
use vstd::prelude::*;
use crate::ast::{SpecFile, SpecMetadata, SpecPatch};
use crate::literals::{
    and_tag, binary_tag, line_feed, no_newline_marker, old_file_tag, similarity_marker,
};
use crate::parser::{
    Step, binary_names, classify_metadata, empty_patch, hunk_lines, metadata_of, more_chunks,
    more_patches, patches_of, spec_bare, spec_binary_files_differ, spec_chunk, spec_chunk_header,
    spec_chunks, spec_content_line, spec_file_metadata, spec_file_rename_only, spec_filename,
    spec_header_line_content, spec_headers, spec_hunk_line, spec_multiple_patches, spec_patch,
    spec_quoted, single_patch_of,
};
use crate::error::ErrorKind;
use crate::print::print_patches;
use crate::laws::{
    empty_printable, law_print_then_parse, no_line_feed, patch_printable, text_printable,
};
use crate::roundtrip::{hunk_printable, line_printable, meta_printable, no_line_break};
use crate::scan::{
    find_from, has_at, is_white_space, trim_end, lemma_find_from, lemma_scan, line_ending,
    not_break, not_line_ending, not_tab_or_break, scan,
};
use crate::timestamp::{fraction_layout, parsed_timestamp, seconds_layout};

verus! {

/// A file as reading gives it: a name that is not empty, and other metadata
/// that is not empty and that chrono does not read as a timestamp.
pub open spec fn file_as_read(f: SpecFile) -> bool {
    &&& f.path.len() > 0
    &&& f.meta matches Some(SpecMetadata::Other(t)) ==> meta_printable(SpecMetadata::Other(t))
}

/// A patch as reading gives it: either one with hunks whose files are as read,
/// whose hunks read back and whose flags come from its last hunk, or one
/// without hunks, metadata or missing line feeds, with names without line feeds.
pub open spec fn patch_as_read(p: SpecPatch) -> bool {
    ||| {
        &&& p.hunks.len() > 0
        &&& file_as_read(p.old)
        &&& file_as_read(p.new)
        &&& forall|k: int| 0 <= k < p.hunks.len() ==> hunk_printable(#[trigger] p.hunks[k])
        &&& p.old_missing_newline == p.hunks.last().old_missing_newline
        &&& p.new_missing_newline == p.hunks.last().new_missing_newline
    }
    ||| {
        &&& p.hunks.len() == 0
        &&& p.old.meta is None
        &&& p.new.meta is None
        &&& !p.old_missing_newline
        &&& !p.new_missing_newline
        &&& no_line_feed(p.old.path)
        &&& no_line_feed(p.new.path)
    }
}

proof fn lemma_subrange_no_break(s: Seq<char>, i: int, j: int)
    requires
        0 <= i <= s.len(),
        j == scan(s, i, not_break()),
    ensures
        no_line_break(s.subrange(i, j)),
{
    lemma_scan(s, i, not_break());
    assert forall|k: int| 0 <= k < j - i implies s.subrange(i, j)[k] != '\r' && s.subrange(
        i,
        j,
    )[k] != '\n' by {
        assert(not_break()(s[i + k]));
    }
}

proof fn lemma_header_line_content_as_read(s: Seq<char>, i: int)
    requires
        0 <= i <= s.len(),
    ensures
        spec_header_line_content(s, i) matches Step::Done(_, f) ==> file_as_read(f),
{
    reveal(spec_header_line_content);
    reveal(spec_filename);
    reveal(spec_bare);
    reveal(spec_quoted);
    reveal(spec_file_metadata);
    lemma_scan(s, i, not_tab_or_break());
    match spec_filename(s, i) {
        Step::Done(e, path) => {
            assert(path.len() > 0);
            if 0 <= e < s.len() && s[e] == '\t' {
                match spec_file_metadata(s, e + 1) {
                    Some((k, text, q)) => {
                        if text.len() == 0 {
                            assert(text =~= Seq::<char>::empty());
                        }
                        match metadata_of(text, q) {
                            Some(SpecMetadata::Other(t)) => {
                                assert(classify_metadata(text) == SpecMetadata::Other(t));
                                assert(t == text);
                                assert(parsed_timestamp(text, fraction_layout()) is None);
                                assert(parsed_timestamp(text, seconds_layout()) is None);
                                assert(text.len() > 0);
                            },
                            _ => {},
                        }
                    },
                    None => {},
                }
            }
        },
        _ => {},
    }
}

proof fn lemma_headers_as_read(s: Seq<char>, i: int)
    requires
        0 <= i <= s.len(),
    ensures
        spec_headers(s, i) matches Step::Done(_, (old, new)) ==> file_as_read(old) && file_as_read(
            new,
        ),
{
    reveal(spec_headers);
    reveal(spec_header_line_content);
    lemma_find_from(s, i, crate::literals::old_file_tag());
    match find_from(s, i, crate::literals::old_file_tag()) {
        Some(j) => {
            lemma_header_line_content_as_read(s, j + 4);
            match spec_header_line_content(s, j + 4) {
                Step::Done(e1, _) => {
                    match line_ending(s, e1) {
                        Some(e2) => {
                            if has_at(s, e2, crate::literals::new_file_tag()) {
                                lemma_header_line_content_as_read(s, e2 + 4);
                            }
                        },
                        None => {},
                    }
                },
                _ => {},
            }
        },
        None => {},
    }
}

pub(crate) proof fn lemma_hunk_line_as_read(s: Seq<char>, i: int)
    requires
        0 <= i <= s.len(),
    ensures
        spec_hunk_line(s, i) matches Some((j, l)) ==> line_printable(l) && i < j <= s.len(),
{
    reveal(spec_hunk_line);
    reveal(spec_content_line);
    if 0 <= i < s.len() && s[i] != '\n' {
        let j = scan(s, i + 1, not_break());
        lemma_subrange_no_break(s, i + 1, j);
        lemma_scan(s, i + 1, not_break());
        let c = s.subrange(i + 1, j);
        if c.len() >= 3 {
            assert(c.subrange(0, 3) =~= s.subrange(i + 1, i + 4));
        }
        match spec_content_line(s, i + 1) {
            Some((e, _, _)) => {
                assert(not_line_ending(s, i + 1) == Some(j));
            },
            None => {},
        }
    } else if 0 <= i < s.len() {
        assert(no_line_break(Seq::<char>::empty()));
    }
}

proof fn lemma_hunk_lines_as_read(s: Seq<char>, i: int)
    requires
        0 <= i <= s.len(),
    ensures
        i <= hunk_lines(s, i).0 <= s.len(),
        forall|k: int| 0 <= k < hunk_lines(s, i).1.len() ==> line_printable(
            #[trigger] hunk_lines(s, i).1[k],
        ),
    decreases s.len() - i,
{
    lemma_hunk_line_as_read(s, i);
    match spec_hunk_line(s, i) {
        Some((j, l)) => {
            if i < j <= s.len() {
                lemma_hunk_lines_as_read(s, j);
                let rest = hunk_lines(s, j).1;
                assert forall|k: int| 0 <= k < hunk_lines(s, i).1.len() implies line_printable(
                    #[trigger] hunk_lines(s, i).1[k],
                ) by {
                    assert(hunk_lines(s, i).1 == seq![l] + rest);
                    if k > 0 {
                        assert(hunk_lines(s, i).1[k] == rest[k - 1]);
                    }
                }
            }
        },
        None => {},
    }
}

proof fn lemma_range_bounds(s: Seq<char>, i: int)
    requires
        0 <= i <= s.len(),
    ensures
        crate::parser::spec_range(s, i) matches Step::Done(e, _) ==> i < e <= s.len(),
{
    reveal(crate::parser::spec_range);
    reveal(crate::parser::spec_u64_digit);
    lemma_scan(s, i, crate::scan::ascii_digit());
    let e = scan(s, i, crate::scan::ascii_digit());
    if 0 <= e < s.len() {
        lemma_scan(s, e + 1, crate::scan::ascii_digit());
    }
}

proof fn lemma_chunk_header_as_read(s: Seq<char>, i: int)
    requires
        0 <= i <= s.len(),
    ensures
        spec_chunk_header(s, i) matches Step::Done(e, (_, _, hint)) ==> no_line_break(hint) && i
            < e <= s.len(),
{
    reveal(spec_chunk_header);
    if has_at(s, i, crate::literals::hunk_tag()) {
        lemma_range_bounds(s, i + 4);
        match crate::parser::spec_range(s, i + 4) {
            Step::Done(e1, _) => {
                if has_at(s, e1, crate::literals::new_range_tag()) {
                    lemma_range_bounds(s, e1 + 2);
                    match crate::parser::spec_range(s, e1 + 2) {
                        Step::Done(e2, _) => {
                            if has_at(s, e2, crate::literals::hunk_end_tag()) {
                                let h = scan(s, e2 + 3, not_break());
                                lemma_subrange_no_break(s, e2 + 3, h);
                                lemma_scan(s, e2 + 3, not_break());
                            }
                        },
                        _ => {},
                    }
                }
            },
            _ => {},
        }
    }
}

proof fn lemma_chunk_as_read(s: Seq<char>, i: int)
    requires
        0 <= i <= s.len(),
    ensures
        spec_chunk(s, i) matches Step::Done(e, h) ==> hunk_printable(h) && i < e <= s.len(),
{
    reveal(spec_chunk);
    lemma_chunk_header_as_read(s, i);
    match spec_chunk_header(s, i) {
        Step::Done(e, _) => {
            lemma_hunk_lines_as_read(s, e);
        },
        _ => {},
    }
}

proof fn lemma_more_chunks_as_read(s: Seq<char>, i: int)
    requires
        0 <= i <= s.len(),
    ensures
        more_chunks(s, i) matches Step::Done(e, hs) ==> i <= e <= s.len() && forall|k: int|
            0 <= k < hs.len() ==> hunk_printable(#[trigger] hs[k]),
    decreases s.len() - i,
{
    lemma_chunk_as_read(s, i);
    match spec_chunk(s, i) {
        Step::Done(e, h) => {
            if i < e <= s.len() {
                lemma_more_chunks_as_read(s, e);
                match more_chunks(s, e) {
                    Step::Done(k, hs) => {
                        assert forall|m: int| 0 <= m < (seq![h] + hs).len() implies hunk_printable(
                            #[trigger] (seq![h] + hs)[m],
                        ) by {
                            if m > 0 {
                                assert((seq![h] + hs)[m] == hs[m - 1]);
                            }
                        }
                    },
                    _ => {},
                }
            }
        },
        _ => {},
    }
}

proof fn lemma_chunks_as_read(s: Seq<char>, i: int)
    requires
        0 <= i <= s.len(),
    ensures
        spec_chunks(s, i) matches Step::Done(e, hs) ==> i <= e <= s.len() && hs.len() > 0
            && forall|k: int| 0 <= k < hs.len() ==> hunk_printable(#[trigger] hs[k]),
{
    reveal(spec_chunks);
    lemma_chunk_as_read(s, i);
    match spec_chunk(s, i) {
        Step::Done(e, h) => {
            if i < e <= s.len() {
                lemma_more_chunks_as_read(s, e);
                match more_chunks(s, e) {
                    Step::Done(k, hs) => {
                        assert forall|m: int| 0 <= m < (seq![h] + hs).len() implies hunk_printable(
                            #[trigger] (seq![h] + hs)[m],
                        ) by {
                            if m > 0 {
                                assert((seq![h] + hs)[m] == hs[m - 1]);
                            }
                        }
                    },
                    _ => {},
                }
            }
        },
        _ => {},
    }
}

proof fn lemma_trim_end_prefix(t: Seq<char>)
    ensures
        trim_end(t).len() <= t.len(),
        trim_end(t) == t.subrange(0, trim_end(t).len() as int),
    decreases t.len(),
{
    if t.len() > 0 && is_white_space(t.last()) {
        lemma_trim_end_prefix(t.drop_last());
        assert(t.drop_last().subrange(0, trim_end(t).len() as int) =~= t.subrange(
            0,
            trim_end(t).len() as int,
        ));
    } else {
        assert(t.subrange(0, t.len() as int) =~= t);
    }
}

/// The text from `a` up to the first line feed from `a` on has no line feed.
proof fn lemma_up_to_line_feed(s: Seq<char>, a: int)
    requires
        0 <= a,
    ensures
        find_from(s, a, line_feed()) matches Some(q) ==> a <= q < s.len() && s[q] == '\n'
            && no_line_feed(s.subrange(a, q)),
{
    lemma_find_from(s, a, line_feed());
    match find_from(s, a, line_feed()) {
        Some(q) => {
            crate::roundtrip::lemma_has_at_index(s, q, line_feed(), 0);
            assert forall|k: int| 0 <= k < q - a implies s.subrange(a, q)[k] != '\n' by {
                if s[a + k] == '\n' {
                    assert(s.subrange(a + k, a + k + 1) =~= line_feed());
                    assert(has_at(s, a + k, line_feed()));
                }
            }
        },
        None => {},
    }
}

proof fn lemma_binary_as_read(s: Seq<char>, i: int)
    requires
        0 <= i <= s.len(),
    ensures
        spec_binary_files_differ(s, i) matches Some((e, p)) ==> patch_as_read(p) && i < e
            <= s.len(),
{
    reveal(spec_binary_files_differ);
    reveal(binary_names);
    if has_at(s, i, binary_tag()) {
        let a = i + 13;
        lemma_up_to_line_feed(s, a);
        match find_from(s, a, line_feed()) {
            Some(q) => {
                let text = s.subrange(a, q);
                lemma_trim_end_prefix(text);
                let names = trim_end(text);
                if names.len() >= 7 {
                    let core = names.subrange(0, names.len() - 7);
                    lemma_find_from(core, 0, and_tag());
                    match find_from(core, 0, and_tag()) {
                        Some(k) => {
                            let o = core.subrange(0, k);
                            let n = core.subrange(k + 5, core.len() as int);
                            assert forall|m: int| 0 <= m < o.len() implies o[m] != '\n' by {
                                assert(o[m] == text[m]);
                            }
                            assert forall|m: int| 0 <= m < n.len() implies n[m] != '\n' by {
                                assert(n[m] == text[k + 5 + m]);
                            }
                            assert(empty_patch(o, n).hunks.len() == 0);
                        },
                        None => {},
                    }
                }
            },
            None => {},
        }
    }
}

proof fn lemma_rename_as_read(s: Seq<char>, i: int)
    requires
        0 <= i <= s.len(),
    ensures
        spec_file_rename_only(s, i) matches Some((e, p)) ==> patch_as_read(p) && i < e <= s.len(),
{
    reveal(spec_file_rename_only);
    lemma_find_from(s, i, similarity_marker());
    match find_from(s, i, similarity_marker()) {
        Some(m) => {
            let a = m + 23;
            if has_at(s, a, crate::literals::rename_from_tag()) {
                let b = a + 12;
                lemma_up_to_line_feed(s, b);
                match find_from(s, b, line_feed()) {
                    Some(c) => {
                        let d = c + 1;
                        if has_at(s, d, crate::literals::rename_to_tag()) {
                            let e = d + 10;
                            lemma_up_to_line_feed(s, e);
                        }
                    },
                    None => {},
                }
            }
        },
        None => {},
    }
}

proof fn lemma_skip_line_endings_bounds(s: Seq<char>, i: int)
    requires
        0 <= i <= s.len(),
    ensures
        i <= crate::parser::skip_line_endings(s, i) <= s.len(),
    decreases s.len() - i,
{
    match line_ending(s, i) {
        Some(j) => {
            if i < j <= s.len() {
                lemma_skip_line_endings_bounds(s, j);
            }
        },
        None => {},
    }
}

/// Every patch that reading one patch gives is as read.
pub proof fn lemma_patch_as_read(s: Seq<char>, i: int)
    requires
        0 <= i <= s.len(),
    ensures
        spec_patch(s, i) matches Step::Done(e, p) ==> patch_as_read(p) && i < e <= s.len(),
{
    reveal(spec_patch);
    lemma_binary_as_read(s, i);
    lemma_rename_as_read(s, i);
    if spec_binary_files_differ(s, i) is None && spec_file_rename_only(s, i) is None {
        lemma_headers_as_read(s, i);
        reveal(spec_headers);
        match spec_headers(s, i) {
            Step::Done(e, (old, new)) => {
                crate::parser::lemma_headers_bounds(s, i);
                lemma_chunks_as_read(s, e);
                match spec_chunks(s, e) {
                    Step::Done(k, hunks) => {
                        lemma_skip_line_endings_bounds(s, k);
                    },
                    _ => {},
                }
            },
            _ => {},
        }
    }
}

proof fn lemma_more_patches_as_read(s: Seq<char>, i: int)
    requires
        0 <= i <= s.len(),
    ensures
        more_patches(s, i) matches Step::Done(e, ps) ==> forall|k: int|
            0 <= k < ps.len() ==> patch_as_read(#[trigger] ps[k]),
    decreases s.len() - i,
{
    lemma_patch_as_read(s, i);
    match spec_patch(s, i) {
        Step::Done(e, p) => {
            if i < e <= s.len() {
                lemma_more_patches_as_read(s, e);
                match more_patches(s, e) {
                    Step::Done(k, ps) => {
                        assert forall|m: int| 0 <= m < (seq![p] + ps).len() implies patch_as_read(
                            #[trigger] (seq![p] + ps)[m],
                        ) by {
                            if m > 0 {
                                assert((seq![p] + ps)[m] == ps[m - 1]);
                            }
                        }
                    },
                    _ => {},
                }
            }
        },
        _ => {},
    }
}

/// Every patch that reading a text gives is as read.
pub proof fn law_patches_as_read(s: Seq<char>)
    ensures
        patches_of(s) matches Step::Done(_, ps) ==> forall|k: int| 0 <= k < ps.len() ==> patch_as_read(
            #[trigger] ps[k],
        ),
{
    reveal(spec_multiple_patches);
    lemma_patch_as_read(s, 0);
    match spec_patch(s, 0) {
        Step::Done(e, p) => {
            if 0 < e <= s.len() {
                lemma_more_patches_as_read(s, e);
                match more_patches(s, e) {
                    Step::Done(k, ps) => {
                        assert forall|m: int| 0 <= m < (seq![p] + ps).len() implies patch_as_read(
                            #[trigger] (seq![p] + ps)[m],
                        ) by {
                            if m > 0 {
                                assert((seq![p] + ps)[m] == ps[m - 1]);
                            }
                        }
                    },
                    _ => {},
                }
            }
        },
        _ => {},
    }
}

proof fn lemma_scan_to(s: Seq<char>, i: int, j: int, keep: spec_fn(char) -> bool)
    requires
        0 <= i <= j < s.len(),
        forall|k: int| i <= k < j ==> #[trigger] keep(s[k]),
        !keep(s[j]),
    ensures
        scan(s, i, keep) == j,
    decreases j - i,
{
    if i < j {
        assert(keep(s[i]));
        lemma_scan_to(s, i + 1, j, keep);
    }
}

/// A line of text `t` without line breaks, a line ending `le`, then the rest
/// `x`: the text of a hunk line reads as `t`, with the marker of a missing final
/// line feed exactly where `x` starts with it; the marker is then read with one
/// line ending after it, where there is one.
pub proof fn law_content_line(t: Seq<char>, le: Seq<char>, x: Seq<char>)
    requires
        forall|k: int| 0 <= k < t.len() ==> #[trigger] t[k] != '\r' && t[k] != '\n',
        le == seq!['\n'] || le == seq!['\r', '\n'],
    ensures
        spec_content_line(t + le + x, 0) == Some(
            (
                t.len() + le.len() + if has_at(x, 0, no_newline_marker()) {
                    match line_ending(x, no_newline_marker().len() as int) {
                        Some(n) => n,
                        None => no_newline_marker().len() as int,
                    }
                } else {
                    0
                },
                t,
                has_at(x, 0, no_newline_marker()),
            ),
        ),
{
    reveal(spec_content_line);
    let s = t + le + x;
    let k: int = t.len() + le.len() as int;
    let mk = no_newline_marker();
    assert forall|j: int| 0 <= j < t.len() implies #[trigger] not_break()(s[j]) by {
        assert(s[j] == t[j]);
    }
    assert(s[t.len() as int] == le[0]);
    lemma_scan_to(s, 0, t.len() as int, not_break());
    if le.len() == 2 {
        assert(s[t.len() as int + 1] == le[1]);
    }
    assert(line_ending(s, t.len() as int) == Some(k));
    assert(s.subrange(0, t.len() as int) =~= t);
    assert forall|j: int| 0 <= j < x.len() implies #[trigger] s[k + j] == x[j] by {}
    if k + mk.len() <= s.len() {
        assert(s.subrange(k, k + mk.len()) =~= x.subrange(0, mk.len() as int));
    }
    if has_at(x, 0, mk) {
        let m = mk.len() as int;
        assert(line_ending(s, k + m) == match line_ending(x, m) {
            Some(n) => Some(k + n),
            None => None::<int>,
        });
    }
}

/// A binary files line: "Binary files ", a text `x` without line feeds, a line
/// feed, then the rest `r`: it reads as a patch without hunks exactly where
/// the names split out of `x`, and reading stops after the line feed.
pub proof fn law_binary_line(x: Seq<char>, r: Seq<char>)
    requires
        forall|k: int| 0 <= k < x.len() ==> #[trigger] x[k] != '\n',
    ensures
        spec_binary_files_differ(binary_tag() + x + seq!['\n'] + r, 0) == match binary_names(x) {
            Some((old, new)) => Some(
                (binary_tag().len() + x.len() as int + 1, empty_patch(old, new)),
            ),
            None => None,
        },
{
    reveal(spec_binary_files_differ);
    let s = binary_tag() + x + seq!['\n'] + r;
    let p = binary_tag().len() as int;
    let q = p + x.len();
    assert(s.subrange(0, p) =~= binary_tag());
    assert forall|k: int| p <= k < q implies !#[trigger] has_at(s, k, line_feed()) by {
        assert(s[k] == x[k - p]);
        if has_at(s, k, line_feed()) {
            assert(s.subrange(k, k + 1)[0] == s[k]);
        }
    }
    assert(s.subrange(q, q + 1) =~= line_feed());
    lemma_find_skips(s, p, q, line_feed());
    assert(s.subrange(p, q) =~= x);
}

/// A header line's content: a file name `f` (not empty, not quoted, without
/// tabs or line breaks), then nothing or a tab and metadata text `m` (not
/// quoted, without line breaks), then a line ending and the rest: it reads as the file `f`
/// with the metadata that `m` gives, up to the line ending.
pub proof fn law_header_line(f: Seq<char>, m: Option<Seq<char>>, r: Seq<char>)
    requires
        f.len() > 0,
        f[0] != '"',
        forall|k: int| 0 <= k < f.len() ==> #[trigger] not_tab_or_break()(f[k]),
        m matches Some(text) ==> forall|k: int| 0 <= k < text.len() ==> #[trigger] not_break()(text[k]),
        m matches Some(text) ==> text.len() == 0 || text[0] != '"',
        line_ending(r, 0) is Some,
    ensures
        ({
            let s = match m {
                Some(text) => f + seq!['\t'] + text + r,
                None => f + r,
            };
            spec_header_line_content(s, 0) == match m {
                Some(text) => Step::Done(
                    f.len() + 1 + text.len() as int,
                    SpecFile { path: f, meta: metadata_of(text, false) },
                ),
                None => Step::Done(f.len() as int, SpecFile { path: f, meta: None }),
            }
        }),
{
    reveal(spec_header_line_content);
    reveal(spec_filename);
    reveal(spec_quoted);
    reveal(spec_bare);
    reveal(spec_file_metadata);
    let s = match m {
        Some(text) => f + seq!['\t'] + text + r,
        None => f + r,
    };
    let n = f.len() as int;
    assert forall|k: int| 0 <= k < n implies #[trigger] not_tab_or_break()(s[k]) by {
        assert(s[k] == f[k]);
    }
    assert(s[0] == f[0]);
    lemma_scan_to(s, 0, n, not_tab_or_break());
    assert(s.subrange(0, n) =~= f);
    match m {
        Some(text) => {
            let b = n + 1;
            let e = b + text.len();
            assert(s[n] == '\t');
            assert forall|k: int| b <= k < e implies #[trigger] not_break()(s[k]) by {
                assert(s[k] == text[k - b]);
            }
            assert(s[e] == r[0]);
            if r.len() > 1 {
                assert(s[e + 1] == r[1]);
            }
            lemma_scan_to(s, b, e, not_break());
            assert(s.subrange(b, e) =~= text);
            if text.len() > 0 {
                assert(s[b] == text[0]);
            } else {
                assert(s[b] == r[0]);
            }
        },
        None => {
            assert(s[n] == r[0]);
        },
    }
}

/// Reading one patch at the end of a text fails: no header line is found.
proof fn lemma_patch_at_end(s: Seq<char>)
    ensures
        spec_patch(s, s.len() as int) == Step::<SpecPatch>::Fail(
            s.len() as int,
            ErrorKind::TakeUntil,
        ),
{
    reveal(spec_patch);
    reveal(spec_binary_files_differ);
    reveal(spec_file_rename_only);
    reveal(spec_headers);
}

/// Reading a text as one patch and reading it as a sequence of patches agree:
/// the one reading gives a patch exactly where the other gives that patch alone.
pub proof fn law_single_agrees_with_multiple(s: Seq<char>)
    ensures
        single_patch_of(s) matches Step::Done(e, p) ==> patches_of(s) == Step::Done(e, seq![p]),
        match patches_of(s) {
            Step::Done(e, ps) => (ps.len() == 1 ==> single_patch_of(s) == Step::Done(e, ps[0]))
                && (ps.len() >= 2 ==> !(single_patch_of(s) is Done)),
            _ => true,
        },
{
    reveal(spec_multiple_patches);
    lemma_patch_as_read(s, 0);
    lemma_patch_at_end(s);
    match spec_patch(s, 0) {
        Step::Done(e, p) => {
            if e == s.len() {
                assert(more_patches(s, e) == Step::Done(e, Seq::<SpecPatch>::empty()));
                assert(seq![p] + Seq::<SpecPatch>::empty() =~= seq![p]);
            } else {
                lemma_patch_as_read(s, e);
                match more_patches(s, e) {
                    Step::Done(k, ps) => {
                        if ps.len() == 0 {
                            assert(k == e);
                        }
                        assert((seq![p] + ps).len() == 1 + ps.len());
                    },
                    _ => {},
                }
            }
        },
        _ => {},
    }
}

proof fn lemma_find_skips(s: Seq<char>, i: int, j: int, t: Seq<char>)
    requires
        0 <= i <= j <= s.len(),
        forall|k: int| i <= k < j ==> !#[trigger] has_at(s, k, t),
    ensures
        find_from(s, i, t) == find_from(s, j, t),
    decreases j - i,
{
    if i < j {
        assert(!has_at(s, i, t));
        lemma_find_skips(s, i + 1, j, t);
    }
}

/// Lines before the header lines of a patch are skipped: reading the header
/// lines from any `i` gives what reading them from the first "--- " after `i`
/// gives.
pub proof fn law_headers_skip_preamble(s: Seq<char>, i: int, j: int)
    requires
        0 <= i <= j <= s.len(),
        has_at(s, j, old_file_tag()),
        forall|k: int| i <= k < j ==> !#[trigger] has_at(s, k, old_file_tag()),
    ensures
        spec_headers(s, i) == spec_headers(s, j),
{
    reveal(spec_headers);
    lemma_find_skips(s, i, j, old_file_tag());
}

/// The timestamps of a patch read back once written.
pub open spec fn timestamps_read_back(p: SpecPatch) -> bool {
    &&& p.old.meta matches Some(SpecMetadata::DateTime(t)) ==> meta_printable(SpecMetadata::DateTime(t))
    &&& p.new.meta matches Some(SpecMetadata::DateTime(t)) ==> meta_printable(SpecMetadata::DateTime(t))
}

proof fn lemma_as_read_printable(p: SpecPatch)
    requires
        patch_as_read(p),
        timestamps_read_back(p),
    ensures
        patch_printable(p),
{
    if p.hunks.len() > 0 {
        assert(text_printable(p));
    } else {
        assert(empty_printable(p));
    }
}

/// What reading a text gives, written and read again, is what was read, as
/// long as its timestamps read back from what chrono writes.
pub proof fn law_parse_print_parse(s: Seq<char>)
    requires
        patches_of(s) is Done,
        forall|k: int| 0 <= k < patches_of(s)->Done_1.len() ==> timestamps_read_back(
            #[trigger] patches_of(s)->Done_1[k],
        ),
    ensures
        patches_of(print_patches(patches_of(s)->Done_1)) == Step::Done(
            print_patches(patches_of(s)->Done_1).len() as int,
            patches_of(s)->Done_1,
        ),
{
    let ps = patches_of(s)->Done_1;
    law_patches_as_read(s);
    assert forall|k: int| 0 <= k < ps.len() implies patch_printable(#[trigger] ps[k]) by {
        lemma_as_read_printable(ps[k]);
    }
    reveal(spec_multiple_patches);
    law_print_then_parse(ps);
}

} // verus!
