//! What is written is read back: parsing the text that the printer writes
//! for well-formed patches gives those patches.
use vstd::prelude::*;
use crate::scan::{
    ascii_digit, decimal_value, find_from, has_at, lemma_find_from, not_break, not_line_ending,
    not_tab_or_break, scan,
};
use crate::text::{decimal, digit_char};
use crate::ast::{Range, SpecHunk, SpecLine, LineKind, SpecFile, SpecMetadata};
use crate::timestamp::{formatted_timestamp, parsed_timestamp, fraction_layout, seconds_layout};
use crate::literals::{
    hunk_tag, new_range_tag, hunk_end_tag, no_newline_marker, added_header_look,
    removed_header_look,
};
use crate::parser::{
    spec_bare, Step, quoted_chars, spec_quoted, spec_filename, spec_file_metadata, metadata_of,
    spec_header_line_content, spec_headers, spec_quoted_char, hunk_lines, spec_chunk,
    spec_chunk_header, spec_content_line, spec_hunk_line, spec_is_next_header, spec_range,
    spec_u64_digit, more_chunks, spec_chunks, spec_unescaped_str,
};
use crate::print::{
    print_name, print_meta, print_file, escape_all, escape_char, needs_quotes, needs_escape,
    print_hunk, print_hunk_header, print_hunks, print_line, print_lines, print_range, line_prefix,
};
use crate::ast::{old_side_missing_newline, new_side_missing_newline};
use crate::literals::{old_file_tag, new_file_tag, binary_tag, diff_tag, hunk_start_tag};

verus! {

// ---------------------------------------------------------------------------
// Facts about text
// ---------------------------------------------------------------------------

pub proof fn lemma_has_at_index(s: Seq<char>, i: int, t: Seq<char>, k: int)
    requires
        has_at(s, i, t),
        0 <= k < t.len(),
    ensures
        s[i + k] == t[k],
{
    assert(s.subrange(i, i + t.len())[k] == s[i + k]);
}

pub proof fn lemma_has_at_concat(s: Seq<char>, i: int, a: Seq<char>, b: Seq<char>)
    ensures
        has_at(s, i, a + b) <==> has_at(s, i, a) && has_at(s, i + a.len(), b),
{
    if has_at(s, i, a + b) {
        assert(s.subrange(i, i + a.len()) =~= (a + b).subrange(0, a.len() as int));
        assert((a + b).subrange(0, a.len() as int) =~= a);
        assert(s.subrange(i + a.len(), i + a.len() + b.len()) =~= (a + b).subrange(
            a.len() as int,
            (a + b).len() as int,
        ));
        assert((a + b).subrange(a.len() as int, (a + b).len() as int) =~= b);
    }
    if has_at(s, i, a) && has_at(s, i + a.len(), b) {
        assert(s.subrange(i, i + (a + b).len()) =~= s.subrange(i, i + a.len()) + s.subrange(
            i + a.len(),
            i + a.len() + b.len(),
        ));
    }
}

pub proof fn lemma_has_at_part(s: Seq<char>, i: int, t: Seq<char>, a: int, part: Seq<char>)
    requires
        has_at(s, i, t),
        0 <= a,
        a + part.len() <= t.len(),
        t.subrange(a, a + part.len()) == part,
    ensures
        has_at(s, i + a, part),
{
    lemma_has_at_subrange(s, i, t, a, a + part.len());
}

pub proof fn lemma_has_at_subrange(s: Seq<char>, i: int, t: Seq<char>, a: int, b: int)
    requires
        has_at(s, i, t),
        0 <= a <= b <= t.len(),
    ensures
        s.subrange(i + a, i + b) == t.subrange(a, b),
{
    assert(s.subrange(i + a, i + b) =~= t.subrange(a, b)) by {
        assert forall|k: int| 0 <= k < b - a implies s.subrange(i + a, i + b)[k] == t.subrange(
            a,
            b,
        )[k] by {
            lemma_has_at_index(s, i, t, a + k);
        }
    }
}

/// `scan` stops right after a run of characters that satisfy `keep`.
pub proof fn lemma_scan_run(s: Seq<char>, i: int, n: int, keep: spec_fn(char) -> bool)
    requires
        0 <= i,
        0 <= n,
        i + n <= s.len(),
        forall|k: int| i <= k < i + n ==> #[trigger] keep(s[k]),
        i + n == s.len() || !keep(s[i + n]),
    ensures
        scan(s, i, keep) == i + n,
    decreases n,
{
    if n > 0 {
        lemma_scan_run(s, i + 1, n - 1, keep);
    }
}

/// The rest of a line with no line break in it, followed by a line feed.
pub proof fn lemma_not_line_ending_text(s: Seq<char>, i: int, t: Seq<char>)
    requires
        has_at(s, i, t),
        forall|k: int| 0 <= k < t.len() ==> t[k] != '\r' && t[k] != '\n',
        i + t.len() < s.len(),
        s[i + t.len()] == '\n',
    ensures
        not_line_ending(s, i) == Some(i + t.len()),
        s.subrange(i, i + t.len()) == t,
{
    assert forall|k: int| i <= k < i + t.len() implies #[trigger] not_break()(s[k]) by {
        lemma_has_at_index(s, i, t, k - i);
    }
    lemma_scan_run(s, i, t.len() as int, not_break());
}

// ---------------------------------------------------------------------------
// Decimal numerals
// ---------------------------------------------------------------------------

pub proof fn lemma_digit_char(d: nat)
    requires
        d < 10,
    ensures
        digit_char(d) as nat == '0' as nat + d,
        '0' <= digit_char(d) <= '9',
{
}

pub proof fn lemma_decimal(n: nat)
    ensures
        decimal(n).len() > 0,
        forall|k: int| 0 <= k < decimal(n).len() ==> '0' <= #[trigger] decimal(n)[k] <= '9',
        decimal_value(decimal(n)) == n,
    decreases n,
{
    lemma_digit_char(n % 10);
    if n >= 10 {
        lemma_decimal(n / 10);
        let d = decimal(n);
        assert(d.drop_last() =~= decimal(n / 10));
        assert(d.last() == digit_char(n % 10));
        assert((n / 10) * 10 + n % 10 == n) by (nonlinear_arith);
        assert(decimal_value(d) == decimal_value(decimal(n / 10)) * 10 + (n % 10));
    } else {
        assert(decimal(n).drop_last() =~= Seq::<char>::empty());
        assert(decimal_value(Seq::<char>::empty()) == 0);
        assert(decimal(n).last() == digit_char(n % 10));
        assert(n % 10 == n);
    }
}

/// A decimal numeral followed by something other than a digit reads as its value.
pub proof fn lemma_u64_digit_printed(s: Seq<char>, i: int, n: u64)
    requires
        has_at(s, i, decimal(n as nat)),
        i + decimal(n as nat).len() == s.len() || !('0' <= s[i + decimal(n as nat).len()] <= '9'),
    ensures
        spec_u64_digit(s, i) == Step::Done(i + decimal(n as nat).len(), n),
{
    reveal(spec_u64_digit);
    let d = decimal(n as nat);
    lemma_decimal(n as nat);
    assert forall|k: int| i <= k < i + d.len() implies #[trigger] ascii_digit()(s[k]) by {
        lemma_has_at_index(s, i, d, k - i);
    }
    lemma_scan_run(s, i, d.len() as int, ascii_digit());
}

/// A written range followed by something other than a digit reads as the range.
pub proof fn lemma_range_printed(s: Seq<char>, i: int, r: Range)
    requires
        has_at(s, i, print_range(r)),
        i + print_range(r).len() < s.len(),
        !('0' <= s[i + print_range(r).len()] <= '9'),
    ensures
        spec_range(s, i) == Step::Done(i + print_range(r).len(), r),
{
    reveal(spec_range);
    let a = decimal(r.start as nat);
    let b = decimal(r.count as nat);
    let t = print_range(r);
    assert(t.subrange(0, a.len() as int) =~= a);
    lemma_has_at_part(s, i, t, 0, a);
    lemma_has_at_index(s, i, t, a.len() as int);
    lemma_u64_digit_printed(s, i, r.start);
    assert(t.subrange(a.len() + 1int, t.len() as int) =~= b);
    lemma_has_at_part(s, i, t, a.len() + 1int, b);
    lemma_u64_digit_printed(s, i + a.len() + 1, r.count);
}

/// A written hunk header line reads as its ranges and hint.
pub proof fn lemma_chunk_header_printed(s: Seq<char>, i: int, h: SpecHunk)
    requires
        has_at(s, i, print_hunk_header(h) + seq!['\n']),
        forall|k: int| 0 <= k < h.range_hint.len() ==> h.range_hint[k] != '\r' && h.range_hint[k] != '\n',
    ensures
        spec_chunk_header(s, i) == Step::Done(
            i + print_hunk_header(h).len() + 1,
            (h.old_range, h.new_range, h.range_hint),
        ),
{
    reveal(spec_chunk_header);
    let t = print_hunk_header(h) + seq!['\n'];
    let a = print_range(h.old_range);
    let b = print_range(h.new_range);
    let hint = h.range_hint;
    let p1: int = 4int + a.len();
    let p2: int = p1 + 2 + b.len();
    let p3: int = p2 + 3;
    assert(t.subrange(0, 4) =~= hunk_tag());
    lemma_has_at_part(s, i, t, 0, hunk_tag());
    assert(t.subrange(4, p1) =~= a);
    lemma_has_at_part(s, i, t, 4, a);
    lemma_has_at_index(s, i, t, p1);
    lemma_range_printed(s, i + 4, h.old_range);
    assert(t.subrange(p1, p1 + 2) =~= new_range_tag());
    lemma_has_at_part(s, i, t, p1, new_range_tag());
    assert(t.subrange(p1 + 2, p2) =~= b);
    lemma_has_at_part(s, i, t, p1 + 2, b);
    lemma_has_at_index(s, i, t, p2);
    lemma_range_printed(s, i + p1 + 2, h.new_range);
    assert(t.subrange(p2, p3) =~= hunk_end_tag());
    lemma_has_at_part(s, i, t, p2, hunk_end_tag());
    assert(t.subrange(p3, p3 + hint.len()) =~= hint);
    lemma_has_at_part(s, i, t, p3, hint);
    lemma_has_at_index(s, i, t, p3 + hint.len());
    lemma_not_line_ending_text(s, i + p3, hint);
}

// ---------------------------------------------------------------------------
// Hunk lines
// ---------------------------------------------------------------------------

/// No carriage return and no line feed in `t`.
pub open spec fn no_line_break(t: Seq<char>) -> bool {
    forall|k: int| 0 <= k < t.len() ==> t[k] != '\r' && t[k] != '\n'
}

/// `t` starts with `p`.
pub open spec fn starts_with(t: Seq<char>, p: Seq<char>) -> bool {
    t.len() >= p.len() && t.subrange(0, p.len() as int) == p
}

/// A hunk line that reads back as itself: its text has no line break, and an
/// added or removed line does not look like a file header line.
pub open spec fn line_printable(l: SpecLine) -> bool {
    &&& no_line_break(l.content)
    &&& l.kind == LineKind::Add ==> !starts_with(l.content, added_header_look())
    &&& l.kind == LineKind::Remove ==> !starts_with(l.content, removed_header_look())
}

/// Hunk lines, each followed by a line feed.
pub open spec fn lines_text(ls: Seq<SpecLine>) -> Seq<char>
    decreases ls.len(),
{
    if ls.len() == 0 {
        Seq::empty()
    } else {
        print_line(ls[0]) + seq!['\n'] + lines_text(ls.drop_first())
    }
}

pub proof fn lemma_lines_text_push(ls: Seq<SpecLine>, l: SpecLine)
    ensures
        lines_text(ls.push(l)) == lines_text(ls) + print_line(l) + seq!['\n'],
    decreases ls.len(),
{
    if ls.len() == 0 {
        assert(ls.push(l).drop_first() =~= Seq::<SpecLine>::empty());
        assert(lines_text(Seq::<SpecLine>::empty()) == Seq::<char>::empty());
        assert(ls.push(l)[0] == l);
        assert(lines_text(ls.push(l)) =~= lines_text(ls) + print_line(l) + seq!['\n']);
    } else {
        lemma_lines_text_push(ls.drop_first(), l);
        assert(ls.push(l).drop_first() =~= ls.drop_first().push(l));
        assert(lines_text(ls.push(l)) =~= lines_text(ls) + print_line(l) + seq!['\n']);
    }
}

/// The lines of a hunk as written, then a line feed: a line feed, then each
/// line followed by a line feed.
pub proof fn lemma_print_lines_text(ls: Seq<SpecLine>)
    ensures
        print_lines(ls) + seq!['\n'] == seq!['\n'] + lines_text(ls),
    decreases ls.len(),
{
    if ls.len() == 0 {
        assert(print_lines(ls) + seq!['\n'] =~= seq!['\n'] + lines_text(ls));
    } else {
        lemma_print_lines_text(ls.drop_last());
        lemma_lines_text_push(ls.drop_last(), ls.last());
        assert(ls.drop_last().push(ls.last()) =~= ls);
        assert(print_lines(ls) + seq!['\n'] =~= seq!['\n'] + lines_text(ls));
    }
}

/// Text without a line feed, then a line feed, does not start with a
/// three-character piece without a line feed that it does not start with.
proof fn lemma_not_look(s: Seq<char>, i: int, c: Seq<char>, look: Seq<char>)
    requires
        has_at(s, i, c + seq!['\n']),
        !starts_with(c, look),
        look.len() == 3,
        forall|k: int| 0 <= k < 3 ==> look[k] != '\n',
        no_line_break(c),
    ensures
        !has_at(s, i, look),
{
    let t = c + seq!['\n'];
    if has_at(s, i, look) {
        if c.len() >= 3 {
            assert(t.subrange(0, 3) =~= c.subrange(0, 3));
            lemma_has_at_subrange(s, i, t, 0, 3);
            assert(c.subrange(0, 3) =~= look);
        } else {
            lemma_has_at_index(s, i, t, c.len() as int);
            lemma_has_at_index(s, i, look, c.len() as int);
        }
    }
}

/// A written line, a line feed, then anything but a backslash reads as the line.
pub proof fn lemma_line_printed(s: Seq<char>, i: int, l: SpecLine)
    requires
        has_at(s, i, print_line(l) + seq!['\n']),
        line_printable(l),
        i + print_line(l).len() + 1 == s.len() || s[i + print_line(l).len() + 1] != '\\',
    ensures
        spec_hunk_line(s, i) == Some((i + print_line(l).len() + 1, l)),
{
    reveal(spec_hunk_line);
    reveal(spec_content_line);
    let c = l.content;
    let t = print_line(l) + seq!['\n'];
    lemma_has_at_index(s, i, t, 0);
    // the text and its line feed
    let ct = c + seq!['\n'];
    assert(t.subrange(1, 1int + ct.len()) =~= ct);
    lemma_has_at_part(s, i, t, 1, ct);
    assert(ct.subrange(0, c.len() as int) =~= c);
    lemma_has_at_part(s, i + 1, ct, 0, c);
    lemma_has_at_index(s, i + 1, ct, c.len() as int);
    lemma_not_line_ending_text(s, i + 1, c);
    let k = i + 2 + c.len();
    if l.kind == LineKind::Add {
        lemma_not_look(s, i + 1, c, added_header_look());
    }
    if l.kind == LineKind::Remove {
        lemma_not_look(s, i + 1, c, removed_header_look());
    }
    if l.missing_newline {
        let mk = no_newline_marker();
        let q: int = 2int + c.len();
        assert(t.subrange(q, q + mk.len()) =~= mk);
        lemma_has_at_part(s, i, t, q, mk);
        lemma_has_at_index(s, i, t, q + mk.len());
        assert(spec_content_line(s, i + 1) == Some((i + print_line(l).len() + 1, c, true)));
    } else {
        if k < s.len() {
            assert(!has_at(s, k, no_newline_marker())) by {
                if has_at(s, k, no_newline_marker()) {
                    lemma_has_at_index(s, k, no_newline_marker(), 0);
                }
            }
        }
        assert(spec_content_line(s, i + 1) == Some((k, c, false)));
    }
}

/// Where hunk lines stop: no hunk line and no backslash starts there.
pub open spec fn lines_stop(s: Seq<char>, j: int) -> bool {
    &&& spec_hunk_line(s, j) is None
    &&& (j == s.len() || s[j] != '\\')
}

/// Written lines, each followed by a line feed, read as the lines.
pub proof fn lemma_hunk_lines_printed(s: Seq<char>, i: int, ls: Seq<SpecLine>)
    requires
        has_at(s, i, lines_text(ls)),
        forall|k: int| 0 <= k < ls.len() ==> line_printable(#[trigger] ls[k]),
        lines_stop(s, i + lines_text(ls).len()),
    ensures
        hunk_lines(s, i) == (i + lines_text(ls).len(), ls),
    decreases ls.len(),
{
    if ls.len() == 0 {
        assert(ls =~= Seq::<SpecLine>::empty());
    } else {
        let t = lines_text(ls);
        let first = print_line(ls[0]) + seq!['\n'];
        let rest = lines_text(ls.drop_first());
        assert(t =~= first + rest);
        lemma_has_at_concat(s, i, first, rest);
        assert(ls[0] == ls[0]);
        assert(line_printable(ls[0]));
        let j = i + first.len();
        if rest.len() > 0 {
            let l1 = ls.drop_first()[0];
            assert(rest =~= print_line(l1) + seq!['\n'] + lines_text(ls.drop_first().drop_first()));
            lemma_has_at_index(s, j, rest, 0);
            assert(s[j] == line_prefix(l1.kind));
        } else {
            assert(j == i + t.len());
        }
        lemma_line_printed(s, i, ls[0]);
        assert forall|k: int| 0 <= k < ls.drop_first().len() implies line_printable(
            #[trigger] ls.drop_first()[k],
        ) by {
            assert(ls.drop_first()[k] == ls[k + 1]);
        }
        lemma_hunk_lines_printed(s, j, ls.drop_first());
        assert(seq![ls[0]] + ls.drop_first() =~= ls);
    }
}

// ---------------------------------------------------------------------------
// Hunks
// ---------------------------------------------------------------------------

/// A hunk that reads back as itself: a hint without line breaks, lines that
/// read back, and the flags of a missing final line feed that its lines give.
pub open spec fn hunk_printable(h: SpecHunk) -> bool {
    &&& no_line_break(h.range_hint)
    &&& forall|k: int| 0 <= k < h.lines.len() ==> line_printable(#[trigger] h.lines[k])
    &&& h.old_missing_newline == old_side_missing_newline(h.lines)
    &&& h.new_missing_newline == new_side_missing_newline(h.lines)
}

/// What may follow the last line of a hunk: the end, another hunk, another
/// patch.
pub open spec fn hunk_stop(s: Seq<char>, j: int) -> bool {
    ||| j == s.len()
    ||| has_at(s, j, hunk_tag())
    ||| has_at(s, j, old_file_tag())
    ||| has_at(s, j, binary_tag())
    ||| has_at(s, j, diff_tag())
}

/// What may follow the last hunk of a patch: the end or another patch.
pub open spec fn patch_stop(s: Seq<char>, j: int) -> bool {
    ||| j == s.len()
    ||| has_at(s, j, old_file_tag())
    ||| has_at(s, j, binary_tag())
    ||| has_at(s, j, diff_tag())
}

proof fn lemma_hunk_stop_lines(s: Seq<char>, j: int)
    requires
        0 <= j <= s.len(),
        hunk_stop(s, j),
    ensures
        lines_stop(s, j),
{
    reveal(spec_hunk_line);
    if has_at(s, j, hunk_tag()) {
        lemma_has_at_index(s, j, hunk_tag(), 0);
    }
    if has_at(s, j, old_file_tag()) {
        lemma_has_at_index(s, j, old_file_tag(), 0);
        assert(old_file_tag().subrange(1, 4) =~= removed_header_look());
        lemma_has_at_part(s, j, old_file_tag(), 1, removed_header_look());
    }
    if has_at(s, j, binary_tag()) {
        lemma_has_at_index(s, j, binary_tag(), 0);
    }
    if has_at(s, j, diff_tag()) {
        lemma_has_at_index(s, j, diff_tag(), 0);
    }
}

/// A written hunk, a line feed, then where a hunk stops, reads as the hunk.
#[verifier::rlimit(100)]
#[verifier::spinoff_prover]
pub proof fn lemma_chunk_printed(s: Seq<char>, i: int, h: SpecHunk)
    requires
        has_at(s, i, print_hunk(h) + seq!['\n']),
        hunk_printable(h),
        hunk_stop(s, i + print_hunk(h).len() + 1),
    ensures
        spec_chunk(s, i) == Step::Done(i + print_hunk(h).len() + 1, h),
{
    reveal(spec_chunk);
    let hd = print_hunk_header(h);
    let ls = h.lines;
    let t = print_hunk(h) + seq!['\n'];
    lemma_print_lines_text(ls);
    assert(t =~= hd + (print_lines(ls) + seq!['\n']));
    assert(hd + (seq!['\n'] + lines_text(ls)) =~= (hd + seq!['\n']) + lines_text(ls));
    assert(t =~= (hd + seq!['\n']) + lines_text(ls));
    lemma_has_at_concat(s, i, hd + seq!['\n'], lines_text(ls));
    lemma_chunk_header_printed(s, i, h);
    let e = i + hd.len() + 1;
    let j = i + t.len();
    assert(0 <= j <= s.len());
    lemma_hunk_stop_lines(s, j);
    lemma_hunk_lines_printed(s, e, ls);
    if ls.len() > 0 {
        let l = ls[0];
        let c = l.content;
        assert(line_printable(l));
        let pl = print_line(l);
        let lt = lines_text(ls);
        assert(lt =~= (pl + seq!['\n']) + lines_text(ls.drop_first()));
        lemma_has_at_concat(s, e, pl + seq!['\n'], lines_text(ls.drop_first()));
        if l.missing_newline {
            assert((pl + seq!['\n']).subrange(1, 1int + c.len() + 1) =~= c + seq!['\n']);
        } else {
            assert((pl + seq!['\n']).subrange(1, 1int + c.len() + 1) =~= c + seq!['\n']);
        }
        lemma_has_at_index(s, e, pl + seq!['\n'], 0);
        lemma_has_at_part(s, e, pl + seq!['\n'], 1, c + seq!['\n']);
        assert(!spec_is_next_header(s, e)) by {
            if has_at(s, e, diff_tag()) {
                lemma_has_at_index(s, e, diff_tag(), 0);
            }
            if has_at(s, e, hunk_start_tag()) {
                lemma_has_at_index(s, e, hunk_start_tag(), 0);
            }
            if has_at(s, e, old_file_tag()) {
                lemma_has_at_index(s, e, old_file_tag(), 0);
                assert(old_file_tag().subrange(1, 4) =~= removed_header_look());
                lemma_has_at_part(s, e, old_file_tag(), 1, removed_header_look());
                lemma_not_look(s, e + 1, c, removed_header_look());
            }
            if has_at(s, e, new_file_tag()) {
                lemma_has_at_index(s, e, new_file_tag(), 0);
                assert(new_file_tag().subrange(1, 4) =~= added_header_look());
                lemma_has_at_part(s, e, new_file_tag(), 1, added_header_look());
                lemma_not_look(s, e + 1, c, added_header_look());
            }
        }
    }
}

proof fn lemma_print_hunk_starts(h: SpecHunk)
    ensures
        print_hunk(h).len() >= 4,
        print_hunk(h).subrange(0, 4) == hunk_tag(),
{
    assert(print_hunk(h).subrange(0, 4) =~= hunk_tag());
}

/// Hunks, each followed by a line feed.
pub open spec fn hunks_text(hs: Seq<SpecHunk>) -> Seq<char>
    decreases hs.len(),
{
    if hs.len() == 0 {
        Seq::empty()
    } else {
        print_hunk(hs[0]) + seq!['\n'] + hunks_text(hs.drop_first())
    }
}

pub proof fn lemma_hunks_text_push(hs: Seq<SpecHunk>, h: SpecHunk)
    ensures
        hunks_text(hs.push(h)) == hunks_text(hs) + print_hunk(h) + seq!['\n'],
    decreases hs.len(),
{
    if hs.len() == 0 {
        assert(hs.push(h).drop_first() =~= Seq::<SpecHunk>::empty());
        assert(hunks_text(Seq::<SpecHunk>::empty()) == Seq::<char>::empty());
        assert(hs.push(h)[0] == h);
        assert(hunks_text(hs.push(h)) =~= hunks_text(hs) + print_hunk(h) + seq!['\n']);
    } else {
        lemma_hunks_text_push(hs.drop_first(), h);
        assert(hs.push(h).drop_first() =~= hs.drop_first().push(h));
        assert(hunks_text(hs.push(h)) =~= hunks_text(hs) + print_hunk(h) + seq!['\n']);
    }
}

/// The hunks of a patch as written, then a line feed: a line feed, then each
/// hunk followed by a line feed.
pub proof fn lemma_print_hunks_text(hs: Seq<SpecHunk>)
    ensures
        print_hunks(hs) + seq!['\n'] == seq!['\n'] + hunks_text(hs),
    decreases hs.len(),
{
    if hs.len() == 0 {
        assert(print_hunks(hs) + seq!['\n'] =~= seq!['\n'] + hunks_text(hs));
    } else {
        lemma_print_hunks_text(hs.drop_last());
        lemma_hunks_text_push(hs.drop_last(), hs.last());
        assert(hs.drop_last().push(hs.last()) =~= hs);
        assert(print_hunks(hs) + seq!['\n'] =~= seq!['\n'] + hunks_text(hs));
    }
}

/// Written hunks, each followed by a line feed, then where a patch stops,
/// read as the hunks.
pub proof fn lemma_more_chunks_printed(s: Seq<char>, i: int, hs: Seq<SpecHunk>)
    requires
        has_at(s, i, hunks_text(hs)),
        forall|k: int| 0 <= k < hs.len() ==> hunk_printable(#[trigger] hs[k]),
        patch_stop(s, i + hunks_text(hs).len()),
    ensures
        more_chunks(s, i) == Step::Done(i + hunks_text(hs).len(), hs),
    decreases hs.len(),
{
    reveal(spec_chunk);
    reveal(spec_chunk_header);
    if hs.len() == 0 {
        assert(hs =~= Seq::<SpecHunk>::empty());
        assert(!has_at(s, i, hunk_tag())) by {
            if has_at(s, i, hunk_tag()) {
                lemma_has_at_index(s, i, hunk_tag(), 0);
                if has_at(s, i, old_file_tag()) {
                    lemma_has_at_index(s, i, old_file_tag(), 0);
                }
                if has_at(s, i, binary_tag()) {
                    lemma_has_at_index(s, i, binary_tag(), 0);
                }
                if has_at(s, i, diff_tag()) {
                    lemma_has_at_index(s, i, diff_tag(), 0);
                }
            }
        }
    } else {
        let first = print_hunk(hs[0]) + seq!['\n'];
        let rest = hunks_text(hs.drop_first());
        assert(hunks_text(hs) =~= first + rest);
        lemma_has_at_concat(s, i, first, rest);
        let j = i + first.len();
        assert(hunk_printable(hs[0]));
        if rest.len() > 0 {
            let h1 = hs.drop_first()[0];
            lemma_print_hunk_starts(h1);
            assert(rest =~= print_hunk(h1) + (seq!['\n'] + hunks_text(hs.drop_first().drop_first())));
            lemma_has_at_concat(s, j, print_hunk(h1), seq!['\n'] + hunks_text(hs.drop_first().drop_first()));
            lemma_has_at_part(s, j, print_hunk(h1), 0, hunk_tag());
        }
        lemma_chunk_printed(s, i, hs[0]);
        assert forall|k: int| 0 <= k < hs.drop_first().len() implies hunk_printable(
            #[trigger] hs.drop_first()[k],
        ) by {
            assert(hs.drop_first()[k] == hs[k + 1]);
        }
        lemma_more_chunks_printed(s, j, hs.drop_first());
        assert(seq![hs[0]] + hs.drop_first() =~= hs);
    }
}

/// Written hunks (at least one), each followed by a line feed, then where a
/// patch stops, read as the hunks.
pub proof fn lemma_chunks_printed(s: Seq<char>, i: int, hs: Seq<SpecHunk>)
    requires
        hs.len() > 0,
        has_at(s, i, hunks_text(hs)),
        forall|k: int| 0 <= k < hs.len() ==> hunk_printable(#[trigger] hs[k]),
        patch_stop(s, i + hunks_text(hs).len()),
    ensures
        spec_chunks(s, i) == Step::Done(i + hunks_text(hs).len(), hs),
{
    reveal(spec_chunks);
    lemma_more_chunks_printed(s, i, hs);
    let first = print_hunk(hs[0]) + seq!['\n'];
    let rest = hunks_text(hs.drop_first());
    assert(hunks_text(hs) =~= first + rest);
}

// ---------------------------------------------------------------------------
// File names and metadata
// ---------------------------------------------------------------------------

pub proof fn lemma_escape_all_first(t: Seq<char>)
    requires
        t.len() > 0,
    ensures
        escape_all(t) == escape_char(t[0]) + escape_all(t.drop_first()),
    decreases t.len(),
{
    let u = t.drop_last();
    if u.len() == 0 {
        assert(t.drop_first() =~= Seq::<char>::empty());
        assert(escape_all(u) == Seq::<char>::empty());
        assert(escape_all(Seq::<char>::empty()) == Seq::<char>::empty());
        assert(escape_all(t) =~= escape_char(t[0]) + escape_all(t.drop_first()));
    } else {
        lemma_escape_all_first(u);
        assert(u.drop_first() =~= t.drop_first().drop_last());
        assert(t.drop_first().last() == t.last());
        assert(escape_all(t) =~= escape_char(t[0]) + escape_all(t.drop_first()));
    }
}

/// Escaped text, then a quote, reads back as the text.
pub proof fn lemma_quoted_chars_escaped(s: Seq<char>, j: int, t: Seq<char>)
    requires
        has_at(s, j, escape_all(t) + seq!['"']),
    ensures
        quoted_chars(s, j) == (j + escape_all(t).len(), t),
    decreases t.len(),
{
    let x = escape_all(t) + seq!['"'];
    if t.len() == 0 {
        assert(escape_all(t) == Seq::<char>::empty());
        lemma_has_at_index(s, j, x, 0);
        assert(t =~= Seq::<char>::empty());
    } else {
        lemma_escape_all_first(t);
        let c = t[0];
        let ec = escape_char(c);
        let rest = escape_all(t.drop_first()) + seq!['"'];
        assert(x =~= ec + rest);
        lemma_has_at_concat(s, j, ec, rest);
        lemma_has_at_index(s, j, ec, 0);
        if ec.len() == 2 {
            lemma_has_at_index(s, j, ec, 1);
            assert(spec_quoted_char(s, j) == Some((j + 2, c)));
        } else {
            assert(spec_quoted_char(s, j) == Some((j + 1, c)));
        }
        lemma_quoted_chars_escaped(s, j + ec.len(), t.drop_first());
        assert(seq![c] + t.drop_first() =~= t);
    }
}

/// Escaped text, then the end of the text or a quote, reads back as the text.
pub proof fn lemma_quoted_chars_escaped_to(s: Seq<char>, j: int, t: Seq<char>)
    requires
        has_at(s, j, escape_all(t)),
        j + escape_all(t).len() == s.len() || s[j + escape_all(t).len()] == '"',
    ensures
        quoted_chars(s, j) == (j + escape_all(t).len(), t),
    decreases t.len(),
{
    if t.len() == 0 {
        assert(escape_all(t) == Seq::<char>::empty());
        assert(t =~= Seq::<char>::empty());
    } else {
        lemma_escape_all_first(t);
        let c = t[0];
        let ec = escape_char(c);
        let rest = escape_all(t.drop_first());
        lemma_has_at_concat(s, j, ec, rest);
        lemma_has_at_index(s, j, ec, 0);
        if ec.len() == 2 {
            lemma_has_at_index(s, j, ec, 1);
            assert(spec_quoted_char(s, j) == Some((j + 2, c)));
        } else {
            assert(spec_quoted_char(s, j) == Some((j + 1, c)));
        }
        lemma_quoted_chars_escaped_to(s, j + ec.len(), t.drop_first());
        assert(seq![c] + t.drop_first() =~= t);
    }
}

/// Unescaping undoes escaping: text that is not empty, escaped, then the end
/// of the input or a quote, reads back as the text, up to where the escaped
/// text ends.
pub proof fn law_unescape_escaped(t: Seq<char>, r: Seq<char>)
    requires
        t.len() > 0,
        r.len() == 0 || r[0] == '"',
    ensures
        spec_unescaped_str(escape_all(t) + r, 0) == Some((escape_all(t).len() as int, t)),
{
    let s = escape_all(t) + r;
    assert(s.subrange(0, escape_all(t).len() as int) =~= escape_all(t));
    if r.len() > 0 {
        assert(s[escape_all(t).len() as int] == r[0]);
    }
    lemma_quoted_chars_escaped_to(s, 0, t);
}

/// Text in quotes, escaped, reads back as the text.
pub proof fn lemma_quoted_printed(s: Seq<char>, i: int, t: Seq<char>)
    requires
        t.len() > 0,
        has_at(s, i, seq!['"'] + escape_all(t) + seq!['"']),
    ensures
        spec_quoted(s, i) == Some((i + escape_all(t).len() + 2, t)),
{
    reveal(spec_quoted);
    let x = seq!['"'] + escape_all(t) + seq!['"'];
    lemma_has_at_index(s, i, x, 0);
    assert(x.subrange(1, x.len() as int) =~= escape_all(t) + seq!['"']);
    lemma_has_at_part(s, i, x, 1, escape_all(t) + seq!['"']);
    lemma_quoted_chars_escaped(s, i + 1, t);
    lemma_has_at_index(s, i, x, 1int + escape_all(t).len());
}

/// Where the text of a header line may stop: a tab or a line feed.
pub open spec fn name_stop(s: Seq<char>, j: int) -> bool {
    0 <= j < s.len() && (s[j] == '\t' || s[j] == '\n')
}

/// A written file name, then a tab or a line feed, reads as the name.
pub proof fn lemma_name_printed(s: Seq<char>, i: int, t: Seq<char>)
    requires
        t.len() > 0,
        has_at(s, i, print_name(t)),
        name_stop(s, i + print_name(t).len()),
    ensures
        spec_filename(s, i) == Step::Done(i + print_name(t).len(), t),
{
    reveal(spec_filename);
    reveal(spec_bare);
    reveal(spec_quoted);
    if needs_quotes(t) {
        lemma_quoted_printed(s, i, t);
    } else {
        lemma_has_at_index(s, i, t, 0);
        assert(!needs_escape(t[0]));
        assert forall|k: int| i <= k < i + t.len() implies #[trigger] not_tab_or_break()(s[k]) by {
            lemma_has_at_index(s, i, t, k - i);
            assert(!needs_escape(t[k - i]));
        }
        lemma_scan_run(s, i, t.len() as int, not_tab_or_break());
        assert(s.subrange(i, i + t.len()) == t);
    }
}

/// Metadata that reads back as itself: other text that is not empty and that
/// chrono does not read as a timestamp, or a timestamp whose text as chrono
/// writes it is one line that chrono reads back as the timestamp.
pub open spec fn meta_printable(m: SpecMetadata) -> bool {
    match m {
        SpecMetadata::Other(t) => {
            &&& t.len() > 0
            &&& parsed_timestamp(t, fraction_layout()) is None
            &&& parsed_timestamp(t, seconds_layout()) is None
        },
        SpecMetadata::DateTime(ts) => match formatted_timestamp(ts, fraction_layout()) {
            Some(x) => {
                &&& x.len() > 0
                &&& no_line_break(x)
                &&& x[0] != '"'
                &&& x != seq!['\t']
                &&& parsed_timestamp(x, fraction_layout()) == Some(ts)
            },
            None => false,
        },
    }
}

/// A file that reads back as itself: a name that is not empty and metadata
/// that reads back.
pub open spec fn file_printable(f: SpecFile) -> bool {
    &&& f.path.len() > 0
    &&& f.meta matches Some(m) ==> meta_printable(m)
}

/// Written metadata, then a line feed, reads as the metadata.
pub proof fn lemma_meta_printed(s: Seq<char>, i: int, m: SpecMetadata)
    requires
        meta_printable(m),
        has_at(s, i, print_meta(m) + seq!['\n']),
    ensures
        spec_file_metadata(s, i) matches Some((e, text, q)) && e == i + print_meta(m).len()
            && metadata_of(text, q) == Some(m),
{
    reveal(spec_file_metadata);
    reveal(spec_quoted);
    let pm = print_meta(m);
    assert((pm + seq!['\n']).subrange(0, pm.len() as int) =~= pm);
    lemma_has_at_part(s, i, pm + seq!['\n'], 0, pm);
    lemma_has_at_index(s, i, pm + seq!['\n'], pm.len() as int);
    match m {
        SpecMetadata::Other(t) => {
            if needs_quotes(t) {
                lemma_quoted_printed(s, i, t);
            } else {
                lemma_has_at_index(s, i, t, 0);
                assert(!needs_escape(t[0]));
                assert forall|k: int| 0 <= k < t.len() implies t[k] != '\r' && t[k] != '\n' by {
                    assert(!needs_escape(t[k]));
                }
                lemma_not_line_ending_text(s, i, t);
                assert(t != Seq::<char>::empty());
                if t == seq!['\t'] {
                    assert(needs_escape(t[0]));
                }
            }
        },
        SpecMetadata::DateTime(ts) => {
            let x = formatted_timestamp(ts, fraction_layout())->0;
            lemma_has_at_index(s, i, x, 0);
            lemma_not_line_ending_text(s, i, x);
            assert(x != Seq::<char>::empty());
        },
    }
}

/// A written header line content, then a line feed, reads as the file.
pub proof fn lemma_header_line_content_printed(s: Seq<char>, i: int, f: SpecFile)
    requires
        file_printable(f),
        has_at(s, i, print_file(f) + seq!['\n']),
    ensures
        spec_header_line_content(s, i) == Step::Done(i + print_file(f).len(), f),
{
    reveal(spec_header_line_content);
    let pn = print_name(f.path);
    let pf = print_file(f);
    let t = pf + seq!['\n'];
    assert(t.subrange(0, pn.len() as int) =~= pn);
    lemma_has_at_part(s, i, t, 0, pn);
    lemma_has_at_index(s, i, t, pn.len() as int);
    lemma_name_printed(s, i, f.path);
    match f.meta {
        Some(m) => {
            let pm = print_meta(m);
            assert(t.subrange(pn.len() + 1int, t.len() as int) =~= pm + seq!['\n']);
            lemma_has_at_part(s, i, t, pn.len() + 1int, pm + seq!['\n']);
            lemma_meta_printed(s, i + pn.len() + 1, m);
        },
        None => {},
    }
}

/// The two written header lines of a patch read as its files.
pub proof fn lemma_headers_printed(s: Seq<char>, i: int, old: SpecFile, new: SpecFile)
    requires
        file_printable(old),
        file_printable(new),
        has_at(s, i, old_file_tag() + print_file(old) + seq!['\n'] + new_file_tag() + print_file(new) + seq!['\n']),
    ensures
        spec_headers(s, i) == Step::Done(
            i + (old_file_tag() + print_file(old) + seq!['\n'] + new_file_tag() + print_file(new) + seq!['\n']).len(),
            (old, new),
        ),
{
    reveal(spec_headers);
    let po = print_file(old);
    let pn = print_file(new);
    let t = old_file_tag() + po + seq!['\n'] + new_file_tag() + pn + seq!['\n'];
    assert(t.subrange(0, 4) =~= old_file_tag());
    lemma_has_at_part(s, i, t, 0, old_file_tag());
    lemma_find_from(s, i, old_file_tag());
    assert(find_from(s, i, old_file_tag()) == Some(i));
    let a: int = 4int + po.len();
    assert(t.subrange(4, a + 1) =~= po + seq!['\n']);
    lemma_has_at_part(s, i, t, 4, po + seq!['\n']);
    lemma_header_line_content_printed(s, i + 4, old);
    lemma_has_at_index(s, i, t, a);
    assert(t.subrange(a + 1, a + 5) =~= new_file_tag());
    lemma_has_at_part(s, i, t, a + 1, new_file_tag());
    assert(t.subrange(a + 5, t.len() as int) =~= pn + seq!['\n']);
    lemma_has_at_part(s, i, t, a + 5, pn + seq!['\n']);
    lemma_header_line_content_printed(s, i + a + 5, new);
    lemma_has_at_index(s, i, t, t.len() - 1);
}

} // verus!
