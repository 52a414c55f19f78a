//! Lines that diff programs leave in patches and that reading tolerates: empty
//! lines inside hunks (context lines whose single space was stripped), and
//! extended header lines (modes, index, a commit header) before a rename.
use vstd::prelude::*;
use crate::ast::{LineKind, SpecLine, SpecHunk};
use crate::laws::{lemma_first_after_line, no_line_feed};
use crate::literals::{
    binary_tag, hunk_start_tag, hunk_tag, new_file_tag, old_file_tag, rename_from_tag,
    rename_to_tag, similarity_marker,
};
use crate::parser::{
    Step, empty_patch, header_block, hunk_lines, spec_binary_files_differ, spec_chunk,
    spec_chunk_header, spec_file_rename_only, spec_hunk_line, spec_patch, spec_prefixed_line,
    starts_other_part,
};
use crate::roundtrip::{lemma_has_at_concat, lemma_has_at_index};
use crate::scan::{find_from, has_at, lemma_find_from, line_feed_only, scan};

verus! {

/// An empty context line: what an empty line inside a hunk reads as.
pub open spec fn empty_context_line() -> SpecLine {
    SpecLine { kind: LineKind::Context, content: Seq::empty(), missing_newline: false }
}

/// `n` empty context lines.
pub open spec fn empty_context_lines(n: nat) -> Seq<SpecLine> {
    Seq::new(n, |k: int| empty_context_line())
}

/// `s` holds `n` line feeds from `i` on, and no line feed right after them.
pub open spec fn empty_lines_at(s: Seq<char>, i: int, n: nat) -> bool {
    &&& 0 <= i
    &&& i + n <= s.len()
    &&& forall|k: int| i <= k < i + n ==> s[k] == '\n'
    &&& (i + n == s.len() || s[i + n] != '\n')
}

proof fn lemma_scan_run(s: Seq<char>, i: int, n: nat)
    requires
        empty_lines_at(s, i, n),
    ensures
        scan(s, i, line_feed_only()) == i + n,
    decreases n,
{
    if n > 0 {
        assert(line_feed_only()(s[i]));
        assert(empty_lines_at(s, i + 1, (n - 1) as nat));
        lemma_scan_run(s, i + 1, (n - 1) as nat);
    }
}

/// A run of empty lines inside a hunk: where `n >= 1` empty lines are followed
/// by a hunk line (added, removed or context) or by the header of the next
/// hunk, the lines read from the run are `n` empty context lines, then the
/// lines read after the run.
pub proof fn law_empty_lines_inside_hunk(s: Seq<char>, i: int, n: nat)
    requires
        n >= 1,
        empty_lines_at(s, i, n),
        hunk_lines(s, i + n).1.len() > 0 || has_at(s, i + n, hunk_tag()),
    ensures
        hunk_lines(s, i) == (
            hunk_lines(s, i + n).0,
            empty_context_lines(n) + hunk_lines(s, i + n).1,
        ),
    decreases n,
{
    reveal(spec_hunk_line);
    let j = i + n;
    lemma_scan_run(s, i, n);
    if !has_at(s, j, hunk_tag()) {
        assert(j < s.len());
        assert(spec_hunk_line(s, j) is Some);
        assert(spec_prefixed_line(s, j) is Some);
    }
    assert(spec_hunk_line(s, i) == Some((i + 1, empty_context_line())));
    if n == 1 {
        assert(empty_context_lines(1) =~= seq![empty_context_line()]);
    } else {
        assert(empty_lines_at(s, i + 1, (n - 1) as nat));
        law_empty_lines_inside_hunk(s, i + 1, (n - 1) as nat);
        assert(seq![empty_context_line()] + empty_context_lines((n - 1) as nat)
            =~= empty_context_lines(n));
        assert(seq![empty_context_line()] + (empty_context_lines((n - 1) as nat) + hunk_lines(
            s,
            j,
        ).1) =~= empty_context_lines(n) + hunk_lines(s, j).1);
    }
}

/// Empty lines after the last line of a hunk, followed by the end of the text
/// or by anything that is neither a hunk line nor the header of the next hunk,
/// are not lines of the hunk.
pub proof fn law_empty_lines_after_hunk(s: Seq<char>, i: int, n: nat)
    requires
        n >= 1,
        empty_lines_at(s, i, n),
        hunk_lines(s, i + n).1.len() == 0,
        !has_at(s, i + n, hunk_tag()),
    ensures
        hunk_lines(s, i) == (i, Seq::<SpecLine>::empty()),
{
    reveal(spec_hunk_line);
    let j = i + n;
    lemma_scan_run(s, i, n);
    if j < s.len() {
        crate::parsed::lemma_hunk_line_as_read(s, j);
        assert(spec_hunk_line(s, j) is None);
        assert(spec_prefixed_line(s, j) is None);
    }
    assert(spec_hunk_line(s, i) is None);
}

/// A hunk whose body starts with empty lines: only a header right after the
/// hunk header ends a hunk with no lines; empty lines there followed by a hunk
/// line read as that many empty context lines, then the lines after them.
pub proof fn law_hunk_starting_with_empty_lines(s: Seq<char>, i: int, n: nat)
    requires
        spec_chunk_header(s, i) is Done,
        n >= 1,
        empty_lines_at(s, spec_chunk_header(s, i)->Done_0, n),
        hunk_lines(s, spec_chunk_header(s, i)->Done_0 + n).1.len() > 0,
    ensures
        spec_chunk(s, i) is Done,
        spec_chunk(s, i)->Done_1.lines == empty_context_lines(n) + hunk_lines(
            s,
            spec_chunk_header(s, i)->Done_0 + n,
        ).1,
        spec_chunk(s, i)->Done_0 == hunk_lines(s, spec_chunk_header(s, i)->Done_0 + n).0,
{
    reveal(spec_chunk);
    let e = spec_chunk_header(s, i)->Done_0;
    law_empty_lines_inside_hunk(s, e, n);
    assert(s[e] == '\n');
    assert(!crate::parser::spec_is_next_header(s, e)) by {
        if has_at(s, e, crate::literals::diff_tag()) {
            assert(s.subrange(e, e + 5)[0] == s[e]);
        }
        if has_at(s, e, crate::literals::old_file_tag()) {
            assert(s.subrange(e, e + 4)[0] == s[e]);
        }
        if has_at(s, e, crate::literals::new_file_tag()) {
            assert(s.subrange(e, e + 4)[0] == s[e]);
        }
        if has_at(s, e, crate::literals::hunk_start_tag()) {
            assert(s.subrange(e, e + 3)[0] == s[e]);
        }
    }
}

/// No line of `x` starts a header line of a text patch ("--- ", "+++ "), a
/// hunk header ("@@ ") or a binary files line: `x` holds extended header lines
/// only (a diff line, mode lines, an index line, a commit header).
pub open spec fn extended_header_lines(x: Seq<char>) -> bool {
    forall|k: int|
        0 <= k < x.len() && (k == 0 || x[k - 1] == '\n') ==> {
            &&& !has_at(x, k, old_file_tag())
            &&& !has_at(x, k, new_file_tag())
            &&& !has_at(x, k, hunk_start_tag())
            &&& !has_at(x, k, binary_tag())
        }
}

/// A bare rename after the lines `x`: the "similarity index 100%" line, then
/// the "rename from" and "rename to" lines.
pub open spec fn rename_text(x: Seq<char>, old: Seq<char>, new: Seq<char>) -> Seq<char> {
    x + similarity_marker() + rename_from_tag() + old + seq!['\n'] + rename_to_tag() + new
        + seq!['\n']
}

/// A tag without line feeds that starts in `x` before a line feed after `x`
/// lies within `x`.
proof fn lemma_tag_in_prefix(x: Seq<char>, rest: Seq<char>, k: int, t: Seq<char>)
    requires
        0 <= k < x.len(),
        rest.len() > 0,
        rest[0] == '\n',
        no_line_feed(t),
        has_at(x + rest, k, t),
    ensures
        has_at(x, k, t),
{
    let s = x + rest;
    if k + t.len() > x.len() {
        lemma_has_at_index(s, k, t, x.len() - k);
        assert(s[x.len() as int] == rest[0]);
    } else {
        assert(s.subrange(k, k + t.len()) =~= x.subrange(k, k + t.len()));
    }
}

/// After extended header lines `x`, a text that starts with the similarity
/// line: no binary files line starts the text, the first similarity line is
/// the one after `x`, and only extended header lines come before it.
proof fn lemma_rename_start(x: Seq<char>, tail: Seq<char>)
    requires
        extended_header_lines(x),
        find_from(x + seq!['\n'], 0, similarity_marker()) is None,
        has_at(tail, 0, similarity_marker()),
    ensures
        !has_at(x + tail, 0, binary_tag()),
        find_from(x + tail, 0, similarity_marker()) == Some(x.len() as int),
        header_block(x + tail, 0, x.len() as int),
{
    let s = x + tail;
    let mk = similarity_marker();
    let m = x.len() as int;
    lemma_has_at_index(tail, 0, mk, 0);
    assert(tail[0] == '\n');
    assert(no_line_feed(old_file_tag()));
    assert(no_line_feed(new_file_tag()));
    assert(no_line_feed(hunk_start_tag()));
    assert(no_line_feed(binary_tag()));
    if has_at(s, 0, binary_tag()) {
        if x.len() > 0 {
            lemma_tag_in_prefix(x, tail, 0, binary_tag());
        } else {
            lemma_has_at_index(s, 0, binary_tag(), 0);
        }
    }
    assert(s.subrange(m, m + mk.len()) =~= tail.subrange(0, mk.len() as int));
    lemma_find_from(x + seq!['\n'], 0, mk);
    assert forall|k: int| 0 <= k < m implies !#[trigger] has_at(s, k, mk) by {
        if has_at(s, k, mk) {
            if k + mk.len() <= m + 1 {
                assert((x + seq!['\n']).subrange(k, k + mk.len()) =~= s.subrange(k, k + mk.len()));
                assert(has_at(x + seq!['\n'], k, mk));
            } else {
                lemma_has_at_index(s, k, mk, m - k);
                assert(s[m] == tail[0]);
            }
        }
    }
    crate::scan::lemma_find_from_first(s, 0, mk, m);
    assert forall|k: int|
        0 <= k < m && (k == 0 || s[k - 1] == '\n') implies !#[trigger] starts_other_part(s, k) by {
        if k > 0 {
            assert(x[k - 1] == s[k - 1]);
        }
        if has_at(s, k, old_file_tag()) {
            lemma_tag_in_prefix(x, tail, k, old_file_tag());
        }
        if has_at(s, k, new_file_tag()) {
            lemma_tag_in_prefix(x, tail, k, new_file_tag());
        }
        if has_at(s, k, hunk_start_tag()) {
            lemma_tag_in_prefix(x, tail, k, hunk_start_tag());
        }
        if has_at(s, k, binary_tag()) {
            lemma_tag_in_prefix(x, tail, k, binary_tag());
        }
    }
}

/// Extended header lines before the "similarity index 100%" line of a rename do
/// not change what is read: after any such lines `x` (without that line),
/// reading one patch gives the rename from `old` to `new` without hunks, and
/// stops after the "rename to" line.
#[verifier::rlimit(50)]
#[verifier::spinoff_prover]
pub proof fn law_rename_after_extended_header_lines(
    x: Seq<char>,
    old: Seq<char>,
    new: Seq<char>,
    r: Seq<char>,
)
    requires
        extended_header_lines(x),
        find_from(x + seq!['\n'], 0, similarity_marker()) is None,
        no_line_feed(old),
        no_line_feed(new),
    ensures
        spec_patch(rename_text(x, old, new) + r, 0) == Step::Done(
            rename_text(x, old, new).len() as int,
            empty_patch(old, new),
        ),
{
    reveal(spec_patch);
    reveal(spec_binary_files_differ);
    reveal(spec_file_rename_only);
    let lf = seq!['\n'];
    let mk = similarity_marker();
    let rf = rename_from_tag();
    let rt = rename_to_tag();
    let tail = mk + (rf + (old + (lf + (rt + (new + (lf + r))))));
    let s = x + tail;
    assert(rename_text(x, old, new) + r =~= s);
    assert(tail.subrange(0, mk.len() as int) =~= mk);
    lemma_rename_start(x, tail);
    let m = x.len() as int;
    let a = m + mk.len();
    let b = a + rf.len();
    let c = b + old.len();
    let d = c + 1;
    let e = d + rt.len();
    let f = e + new.len();
    assert(s.subrange(m, s.len() as int) =~= tail);
    lemma_has_at_concat(s, m, mk, rf + (old + (lf + (rt + (new + (lf + r))))));
    lemma_has_at_concat(s, a, rf, old + (lf + (rt + (new + (lf + r)))));
    lemma_has_at_concat(s, b, old, lf + (rt + (new + (lf + r))));
    lemma_has_at_concat(s, c, lf, rt + (new + (lf + r)));
    lemma_has_at_concat(s, d, rt, new + (lf + r));
    lemma_has_at_concat(s, e, new, lf + r);
    lemma_has_at_concat(s, f, lf, r);
    lemma_first_after_line(s, b, old, lf);
    lemma_first_after_line(s, e, new, lf);
    assert(s.subrange(b, c) == old);
    assert(s.subrange(e, f) == new);
    assert(f + 1 == rename_text(x, old, new).len());
}

} // verus!
