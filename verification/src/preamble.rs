//! Text put before the header lines of a patch: reading them does not depend
//! on what comes before, so any preamble without a "--- " is skipped.
use vstd::prelude::*;
use crate::literals::old_file_tag;
use crate::parser::{
    Step, quoted_chars, spec_bare, spec_file_metadata, spec_filename, spec_header_line_content,
    spec_headers, spec_quoted, spec_quoted_char,
};
use crate::scan::{find_from, has_at, line_ending, not_line_ending, scan};

verus! {

/// The outcome `st` of a rule, with every index moved on by `d`.
pub open spec fn shift_step<T>(st: Step<T>, d: int) -> Step<T> {
    match st {
        Step::Done(e, v) => Step::Done(e + d, v),
        Step::Fail(p, k) => Step::Fail(p + d, k),
        Step::Crash(c) => Step::Crash(c + d),
    }
}

proof fn lemma_shift_index(q: Seq<char>, h: Seq<char>, i: int)
    requires
        0 <= i < h.len(),
    ensures
        (q + h)[q.len() + i] == h[i],
{
}

proof fn lemma_shift_has_at(q: Seq<char>, h: Seq<char>, i: int, t: Seq<char>)
    requires
        0 <= i,
    ensures
        has_at(q + h, q.len() + i, t) == has_at(h, i, t),
{
    let s = q + h;
    let d = q.len() as int;
    if i + t.len() <= h.len() {
        assert(s.subrange(d + i, d + i + t.len()) =~= h.subrange(i, i + t.len()));
    }
}

proof fn lemma_shift_scan(q: Seq<char>, h: Seq<char>, i: int, keep: spec_fn(char) -> bool)
    requires
        0 <= i <= h.len(),
    ensures
        scan(q + h, q.len() + i, keep) == q.len() + scan(h, i, keep),
    decreases h.len() - i,
{
    if i < h.len() {
        lemma_shift_index(q, h, i);
        lemma_shift_scan(q, h, i + 1, keep);
    }
}

proof fn lemma_shift_line_ending(q: Seq<char>, h: Seq<char>, i: int)
    requires
        0 <= i <= h.len(),
    ensures
        line_ending(q + h, q.len() + i) == match line_ending(h, i) {
            Some(j) => Some(q.len() + j),
            None => None::<int>,
        },
{
    if i < h.len() {
        lemma_shift_index(q, h, i);
    }
    if i + 1 < h.len() {
        lemma_shift_index(q, h, i + 1);
    }
}

proof fn lemma_shift_not_line_ending(q: Seq<char>, h: Seq<char>, i: int)
    requires
        0 <= i <= h.len(),
    ensures
        not_line_ending(q + h, q.len() + i) == match not_line_ending(h, i) {
            Some(j) => Some(q.len() + j),
            None => None::<int>,
        },
{
    lemma_shift_scan(q, h, i, crate::scan::not_break());
    crate::scan::lemma_scan(h, i, crate::scan::not_break());
    let j = scan(h, i, crate::scan::not_break());
    if j < h.len() {
        lemma_shift_index(q, h, j);
    }
    if j + 1 < h.len() {
        lemma_shift_index(q, h, j + 1);
    }
}

proof fn lemma_shift_find(q: Seq<char>, h: Seq<char>, i: int, t: Seq<char>)
    requires
        0 <= i,
    ensures
        find_from(q + h, q.len() + i, t) == match find_from(h, i, t) {
            Some(j) => Some(q.len() + j),
            None => None::<int>,
        },
    decreases h.len() + 1 - i,
{
    lemma_shift_has_at(q, h, i, t);
    if i + t.len() <= h.len() && !has_at(h, i, t) {
        lemma_shift_find(q, h, i + 1, t);
    }
}

proof fn lemma_shift_quoted_chars(q: Seq<char>, h: Seq<char>, i: int)
    requires
        0 <= i <= h.len(),
    ensures
        quoted_chars(q + h, q.len() + i) == (q.len() + quoted_chars(h, i).0, quoted_chars(h, i).1),
    decreases h.len() - i,
{
    let s = q + h;
    let d = q.len() as int;
    if i < h.len() {
        lemma_shift_index(q, h, i);
    }
    if i + 1 < h.len() {
        lemma_shift_index(q, h, i + 1);
    }
    assert(spec_quoted_char(s, d + i) == match spec_quoted_char(h, i) {
        Some((j, c)) => Some((d + j, c)),
        None => None::<(int, char)>,
    });
    match spec_quoted_char(h, i) {
        Some((j, c)) => {
            if i < j <= h.len() {
                lemma_shift_quoted_chars(q, h, j);
            }
        },
        None => {},
    }
}

proof fn lemma_shift_quoted(q: Seq<char>, h: Seq<char>, i: int)
    requires
        0 <= i <= h.len(),
    ensures
        spec_quoted(q + h, q.len() + i) == match spec_quoted(h, i) {
            Some((e, v)) => Some((q.len() + e, v)),
            None => None::<(int, Seq<char>)>,
        },
{
    reveal(spec_quoted);
    let d = q.len() as int;
    if i < h.len() {
        lemma_shift_index(q, h, i);
        lemma_shift_quoted_chars(q, h, i + 1);
        crate::parser::lemma_quoted_chars_bounds(h, i + 1);
        let j = quoted_chars(h, i + 1).0;
        if j < h.len() {
            lemma_shift_index(q, h, j);
        }
    }
}

proof fn lemma_shift_filename(q: Seq<char>, h: Seq<char>, i: int)
    requires
        0 <= i <= h.len(),
    ensures
        spec_filename(q + h, q.len() + i) == shift_step(spec_filename(h, i), q.len() as int),
{
    reveal(spec_filename);
    reveal(spec_bare);
    let d = q.len() as int;
    lemma_shift_quoted(q, h, i);
    lemma_shift_scan(q, h, i, crate::scan::not_tab_or_break());
    crate::scan::lemma_scan(h, i, crate::scan::not_tab_or_break());
    let e = scan(h, i, crate::scan::not_tab_or_break());
    assert((q + h).subrange(d + i, d + e) =~= h.subrange(i, e));
}

proof fn lemma_shift_file_metadata(q: Seq<char>, h: Seq<char>, i: int)
    requires
        0 <= i <= h.len(),
    ensures
        spec_file_metadata(q + h, q.len() + i) == match spec_file_metadata(h, i) {
            Some((e, v, b)) => Some((q.len() + e, v, b)),
            None => None::<(int, Seq<char>, bool)>,
        },
{
    reveal(spec_file_metadata);
    let d = q.len() as int;
    lemma_shift_quoted(q, h, i);
    lemma_shift_not_line_ending(q, h, i);
    crate::scan::lemma_scan(h, i, crate::scan::not_break());
    match not_line_ending(h, i) {
        Some(e) => {
            assert((q + h).subrange(d + i, d + e) =~= h.subrange(i, e));
        },
        None => {},
    }
}

proof fn lemma_shift_header_line_content(q: Seq<char>, h: Seq<char>, i: int)
    requires
        0 <= i <= h.len(),
    ensures
        spec_header_line_content(q + h, q.len() + i) == shift_step(
            spec_header_line_content(h, i),
            q.len() as int,
        ),
{
    reveal(spec_header_line_content);
    lemma_shift_filename(q, h, i);
    crate::parser::lemma_header_line_content_bounds(h, i);
    reveal(spec_filename);
    reveal(spec_bare);
    reveal(spec_quoted);
    crate::scan::lemma_scan(h, i, crate::scan::not_tab_or_break());
    if i < h.len() {
        crate::parser::lemma_quoted_chars_bounds(h, i + 1);
    }
    match spec_filename(h, i) {
        Step::Done(e, _) => {
            if 0 <= e < h.len() {
                lemma_shift_index(q, h, e);
                lemma_shift_file_metadata(q, h, e + 1);
            }
        },
        _ => {},
    }
}

/// Text before the header lines of a patch is skipped: where the preamble `q`
/// holds no "--- " and `h` starts with one, reading the header lines of
/// `q + h` gives what reading those of `h` gives, each index moved on by the
/// length of `q`.
pub proof fn law_preamble_before_headers(q: Seq<char>, h: Seq<char>)
    requires
        find_from(q, 0, old_file_tag()) is None,
        has_at(h, 0, old_file_tag()),
    ensures
        spec_headers(q + h, 0) == shift_step(spec_headers(h, 0), q.len() as int),
{
    reveal(spec_headers);
    let s = q + h;
    let d = q.len() as int;
    let t = old_file_tag();
    crate::scan::lemma_find_from(q, 0, t);
    assert forall|k: int| 0 <= k < d implies !#[trigger] has_at(s, k, t) by {
        if has_at(s, k, t) {
            if k + 4 <= d {
                assert(q.subrange(k, k + 4) =~= s.subrange(k, k + 4));
                assert(has_at(q, k, t));
            } else {
                // the occurrence would run into `h`, which starts with "--- "
                crate::roundtrip::lemma_has_at_index(s, k, t, d - k);
                crate::roundtrip::lemma_has_at_index(h, 0, t, 0);
                lemma_shift_index(q, h, 0);
                if d - k == 3 {
                    assert(t[3] == ' ');
                } else {
                    crate::roundtrip::lemma_has_at_index(s, k, t, 3);
                    crate::roundtrip::lemma_has_at_index(h, 0, t, 3 - (d - k));
                    lemma_shift_index(q, h, 3 - (d - k));
                }
            }
        }
    }
    lemma_shift_has_at(q, h, 0, t);
    crate::scan::lemma_find_from_first(s, 0, t, d);
    assert(find_from(h, 0, t) == Some(0int));
    lemma_shift_header_line_content(q, h, 4);
    crate::parser::lemma_header_line_content_bounds(h, 4);
    match spec_header_line_content(h, 4) {
        Step::Done(e1, _) => {
            lemma_shift_line_ending(q, h, e1);
            match line_ending(h, e1) {
                Some(e2) => {
                    lemma_shift_has_at(q, h, e2, crate::literals::new_file_tag());
                    if has_at(h, e2, crate::literals::new_file_tag()) {
                        lemma_shift_header_line_content(q, h, e2 + 4);
                        crate::parser::lemma_header_line_content_bounds(h, e2 + 4);
                        match spec_header_line_content(h, e2 + 4) {
                            Step::Done(e3, _) => {
                                lemma_shift_line_ending(q, h, e3);
                            },
                            _ => {},
                        }
                    }
                },
                None => {},
            }
        },
        _ => {},
    }
}

} // verus!
