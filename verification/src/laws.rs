//! Laws of the library: written patches read back as themselves.
use vstd::prelude::*;
use crate::ast::{SpecFile, SpecHunk, SpecLine, SpecMetadata, SpecPatch};
use crate::literals::{
    and_tag, binary_tag, diff_git_tag, diff_tag, differ_tag, hunk_start_tag, hunk_tag, line_feed,
    new_file_tag, new_path_tag, no_newline_marker, old_file_tag, rename_from_tag, rename_to_tag,
    similarity_marker,
};
use crate::parser::{
    Step, binary_names, empty_patch, header_block, more_patches, patches_of, skip_line_endings,
    starts_other_part,
    spec_binary_files_differ, spec_file_rename_only, spec_multiple_patches, spec_patch,
    single_patch_of, text_patch,
};
use crate::print::{
    escape_all, escape_char, names_split_at_and, needs_quotes, print_file, print_hunk, print_hunk_header, print_hunks,
    print_line, print_meta, print_name, print_patch, print_patches,
};
use crate::roundtrip::{
    file_printable, hunk_printable, hunks_text, lemma_chunks_printed, lemma_has_at_concat,
    lemma_has_at_index, lemma_has_at_part, lemma_headers_printed, lemma_print_hunks_text,
    lines_text, patch_stop,
};
use crate::scan::{find_from, has_at, lemma_find_from, lemma_find_from_first, line_ending, trim_end};

verus! {

/// No line feed in `t`.
pub open spec fn no_line_feed(t: Seq<char>) -> bool {
    forall|k: int| 0 <= k < t.len() ==> t[k] != '\n'
}

/// A patch without hunks that reads back as itself from its "Binary files
/// A and B differ" line: no metadata, no missing line feed, names without line
/// feeds, and the first " and " in "A and B" the one between the names.
pub open spec fn binary_printable(p: SpecPatch) -> bool {
    &&& p.hunks.len() == 0
    &&& p.old.meta is None
    &&& p.new.meta is None
    &&& !p.old_missing_newline
    &&& !p.new_missing_newline
    &&& no_line_feed(p.old.path)
    &&& no_line_feed(p.new.path)
    &&& find_from(p.old.path + and_tag() + p.new.path, 0, and_tag()) == Some(p.old.path.len() as int)
}

/// A patch with hunks that reads back as itself: files and hunks that read
/// back, and the flags of a missing final line feed that its last hunk gives.
pub open spec fn text_printable(p: SpecPatch) -> bool {
    &&& p.hunks.len() > 0
    &&& file_printable(p.old)
    &&& file_printable(p.new)
    &&& forall|k: int| 0 <= k < p.hunks.len() ==> hunk_printable(#[trigger] p.hunks[k])
    &&& p.old_missing_newline == p.hunks.last().old_missing_newline
    &&& p.new_missing_newline == p.hunks.last().new_missing_newline
}

/// A patch without hunks that reads back as itself once written, from its
/// "Binary files" line or its rename lines: no metadata, no missing line feed,
/// and names without line feeds.
pub open spec fn empty_printable(p: SpecPatch) -> bool {
    &&& p.hunks.len() == 0
    &&& p.old.meta is None
    &&& p.new.meta is None
    &&& !p.old_missing_newline
    &&& !p.new_missing_newline
    &&& no_line_feed(p.old.path)
    &&& no_line_feed(p.new.path)
}

/// A patch that reads back as itself once written.
pub open spec fn patch_printable(p: SpecPatch) -> bool {
    empty_printable(p) || text_printable(p)
}

/// A written patch without hunks, then a line feed, reads as the patch.
proof fn lemma_binary_printed(s: Seq<char>, i: int, p: SpecPatch)
    requires
        binary_printable(p),
        has_at(s, i, print_patch(p) + seq!['\n']),
    ensures
        spec_binary_files_differ(s, i) == Some((i + print_patch(p).len() + 1, p)),
{
    reveal(spec_binary_files_differ);
    reveal(binary_names);
    let o = p.old.path;
    let n = p.new.path;
    let core = o + and_tag() + n;
    let body = core + differ_tag();
    let t = print_patch(p) + seq!['\n'];
    assert(t =~= binary_tag() + (body + line_feed()));
    lemma_has_at_concat(s, i, binary_tag(), body + line_feed());
    let p0 = i + 13;
    lemma_has_at_concat(s, p0, body, line_feed());
    let q = p0 + body.len();
    assert forall|k: int| p0 <= k < q implies !#[trigger] has_at(s, k, line_feed()) by {
        lemma_has_at_index(s, p0, body + line_feed(), k - p0);
        if has_at(s, k, line_feed()) {
            lemma_has_at_index(s, k, line_feed(), 0);
            let x = k - p0;
            if x < o.len() {
                assert(body[x] == o[x]);
            } else if x < o.len() + 5 {
                assert(body[x] == and_tag()[x - o.len()]);
            } else if x < core.len() {
                assert(body[x] == n[x - o.len() - 5]);
            } else {
                assert(body[x] == differ_tag()[x - core.len()]);
            }
        }
    }
    lemma_find_from_first(s, p0, line_feed(), q);
    assert(s.subrange(p0, q) == body);
    assert(body.last() == 'r');
    assert(trim_end(body) == body);
    assert(body.subrange(body.len() - 7, body.len() as int) =~= differ_tag());
    assert(body.subrange(0, body.len() - 7) =~= core);
    assert(core.subrange(0, o.len() as int) =~= o);
    assert(core.subrange(o.len() + 5int, core.len() as int) =~= n);
    assert(p.hunks =~= Seq::<SpecHunk>::empty());
    assert(p == empty_patch(o, n));
}

// ---------------------------------------------------------------------------
// Line feeds in written patches
// ---------------------------------------------------------------------------

/// No line feed in `t` is followed by an `s`.
pub open spec fn nl_safe(t: Seq<char>) -> bool {
    forall|k: int| 0 <= k && k + 1 < t.len() && #[trigger] t[k] == '\n' ==> t[k + 1] != 's'
}

proof fn lemma_nl_safe_concat(a: Seq<char>, b: Seq<char>)
    requires
        nl_safe(a),
        nl_safe(b),
        a.len() > 0 && b.len() > 0 && a.last() == '\n' ==> b[0] != 's',
    ensures
        nl_safe(a + b),
{
    let t = a + b;
    assert forall|k: int| 0 <= k && k + 1 < t.len() && #[trigger] t[k] == '\n' implies t[k + 1] != 's' by {
        if k + 1 < a.len() {
            assert(t[k] == a[k]);
            assert(t[k + 1] == a[k + 1]);
        } else if k + 1 == a.len() {
            assert(t[k] == a.last());
            assert(t[k + 1] == b[0]);
        } else {
            assert(t[k] == b[k - a.len()]);
            assert(t[k + 1] == b[k + 1 - a.len()]);
        }
    }
}

proof fn lemma_no_line_feed_safe(t: Seq<char>)
    requires
        no_line_feed(t),
    ensures
        nl_safe(t),
{
}

proof fn lemma_no_line_feed_concat(a: Seq<char>, b: Seq<char>)
    requires
        no_line_feed(a),
        no_line_feed(b),
    ensures
        no_line_feed(a + b),
{
    assert forall|k: int| 0 <= k < (a + b).len() implies (a + b)[k] != '\n' by {
        if k < a.len() {
            assert((a + b)[k] == a[k]);
        } else {
            assert((a + b)[k] == b[k - a.len()]);
        }
    }
}

proof fn lemma_escape_all_no_line_feed(t: Seq<char>)
    ensures
        no_line_feed(escape_all(t)),
    decreases t.len(),
{
    if t.len() > 0 {
        lemma_escape_all_no_line_feed(t.drop_last());
        let c = t.last();
        assert(no_line_feed(escape_char(c)));
        lemma_no_line_feed_concat(escape_all(t.drop_last()), escape_char(c));
    }
}

proof fn lemma_name_no_line_feed(t: Seq<char>)
    ensures
        no_line_feed(print_name(t)),
{
    if needs_quotes(t) {
        lemma_escape_all_no_line_feed(t);
        lemma_no_line_feed_concat(seq!['"'], escape_all(t));
        lemma_no_line_feed_concat(seq!['"'] + escape_all(t), seq!['"']);
    } else {
        assert forall|k: int| 0 <= k < t.len() implies t[k] != '\n' by {
            if t[k] == '\n' {
                assert(crate::print::needs_escape(t[k]));
            }
        }
    }
}

proof fn lemma_file_no_line_feed(f: SpecFile)
    requires
        file_printable(f),
    ensures
        no_line_feed(print_file(f)),
{
    lemma_name_no_line_feed(f.path);
    match f.meta {
        Some(m) => {
            match m {
                SpecMetadata::Other(t) => lemma_name_no_line_feed(t),
                SpecMetadata::DateTime(_) => {},
            }
            lemma_no_line_feed_concat(seq!['\t'], print_meta(m));
            lemma_no_line_feed_concat(print_name(f.path), seq!['\t'] + print_meta(m));
        },
        None => {
            assert(print_file(f) =~= print_name(f.path));
        },
    }
}

proof fn lemma_line_safe(l: SpecLine)
    requires
        crate::roundtrip::line_printable(l),
    ensures
        nl_safe(print_line(l) + seq!['\n']),
        (print_line(l) + seq!['\n'])[0] != 's',
{
    let t = print_line(l) + seq!['\n'];
    let c = l.content;
    assert forall|k: int| 0 <= k && k + 1 < t.len() && #[trigger] t[k] == '\n' implies t[k + 1] != 's' by {
        if 1 <= k < 1 + c.len() {
            assert(t[k] == c[k - 1]);
        }
        if l.missing_newline && k == 1 + c.len() {
            assert(t[k + 1] == no_newline_marker()[0]);
        }
        if l.missing_newline && 2 + c.len() <= k < 2 + c.len() + 27 {
            assert(t[k] == no_newline_marker()[k - 2 - c.len()]);
        }
    }
}

proof fn lemma_lines_safe(ls: Seq<SpecLine>)
    requires
        forall|k: int| 0 <= k < ls.len() ==> crate::roundtrip::line_printable(#[trigger] ls[k]),
    ensures
        nl_safe(lines_text(ls)),
        lines_text(ls).len() > 0 ==> lines_text(ls)[0] != 's',
    decreases ls.len(),
{
    if ls.len() > 0 {
        assert(crate::roundtrip::line_printable(ls[0]));
        assert forall|k: int| 0 <= k < ls.drop_first().len() implies crate::roundtrip::line_printable(
            #[trigger] ls.drop_first()[k],
        ) by {
            assert(ls.drop_first()[k] == ls[k + 1]);
        }
        lemma_lines_safe(ls.drop_first());
        lemma_line_safe(ls[0]);
        lemma_nl_safe_concat(print_line(ls[0]) + seq!['\n'], lines_text(ls.drop_first()));
        assert(lines_text(ls) == print_line(ls[0]) + seq!['\n'] + lines_text(ls.drop_first()));
    }
}

proof fn lemma_range_no_line_feed(r: crate::ast::Range)
    ensures
        no_line_feed(crate::print::print_range(r)),
{
    crate::roundtrip::lemma_decimal(r.start as nat);
    crate::roundtrip::lemma_decimal(r.count as nat);
    let a = crate::text::decimal(r.start as nat);
    let b = crate::text::decimal(r.count as nat);
    assert(no_line_feed(a));
    assert(no_line_feed(b));
    lemma_no_line_feed_concat(a, seq![',']);
    lemma_no_line_feed_concat(a + seq![','], b);
}

proof fn lemma_hunk_safe(h: SpecHunk)
    requires
        hunk_printable(h),
    ensures
        nl_safe(print_hunk(h) + seq!['\n']),
        (print_hunk(h) + seq!['\n'])[0] == '@',
{
    let hd = print_hunk_header(h);
    crate::roundtrip::lemma_print_lines_text(h.lines);
    assert(print_hunk(h) + seq!['\n'] =~= hd + (seq!['\n'] + lines_text(h.lines)));
    let ra = crate::print::print_range(h.old_range);
    let rb = crate::print::print_range(h.new_range);
    lemma_range_no_line_feed(h.old_range);
    lemma_range_no_line_feed(h.new_range);
    assert(no_line_feed(hunk_tag()));
    assert(no_line_feed(crate::literals::new_range_tag()));
    assert(no_line_feed(crate::literals::hunk_end_tag()));
    lemma_no_line_feed_concat(hunk_tag(), ra);
    lemma_no_line_feed_concat(hunk_tag() + ra, crate::literals::new_range_tag());
    lemma_no_line_feed_concat(hunk_tag() + ra + crate::literals::new_range_tag(), rb);
    lemma_no_line_feed_concat(
        hunk_tag() + ra + crate::literals::new_range_tag() + rb,
        crate::literals::hunk_end_tag(),
    );
    lemma_no_line_feed_concat(
        hunk_tag() + ra + crate::literals::new_range_tag() + rb + crate::literals::hunk_end_tag(),
        h.range_hint,
    );
    lemma_no_line_feed_safe(hd);
    lemma_lines_safe(h.lines);
    lemma_nl_safe_concat(seq!['\n'], lines_text(h.lines));
    lemma_nl_safe_concat(hd, seq!['\n'] + lines_text(h.lines));
    assert(hd[0] == '@');
}

proof fn lemma_hunks_safe(hs: Seq<SpecHunk>)
    requires
        forall|k: int| 0 <= k < hs.len() ==> hunk_printable(#[trigger] hs[k]),
    ensures
        nl_safe(hunks_text(hs)),
        hunks_text(hs).len() > 0 ==> hunks_text(hs)[0] == '@',
    decreases hs.len(),
{
    if hs.len() > 0 {
        assert(hunk_printable(hs[0]));
        assert forall|k: int| 0 <= k < hs.drop_first().len() implies hunk_printable(
            #[trigger] hs.drop_first()[k],
        ) by {
            assert(hs.drop_first()[k] == hs[k + 1]);
        }
        lemma_hunks_safe(hs.drop_first());
        lemma_hunk_safe(hs[0]);
        lemma_nl_safe_concat(print_hunk(hs[0]) + seq!['\n'], hunks_text(hs.drop_first()));
        assert(hunks_text(hs) == print_hunk(hs[0]) + seq!['\n'] + hunks_text(hs.drop_first()));
    }
}

/// The header lines of a written patch with hunks, without the last line feed.
pub open spec fn headers_text(p: SpecPatch) -> Seq<char> {
    old_file_tag() + print_file(p.old) + seq!['\n'] + new_file_tag() + print_file(p.new)
}

proof fn lemma_text_patch_split(p: SpecPatch)
    requires
        p.hunks.len() > 0,
    ensures
        print_patch(p) + seq!['\n'] == (headers_text(p) + seq!['\n']) + hunks_text(p.hunks),
{
    lemma_print_hunks_text(p.hunks);
    assert(print_patch(p) + seq!['\n'] =~= headers_text(p) + (print_hunks(p.hunks) + seq!['\n']));
    assert(headers_text(p) + (seq!['\n'] + hunks_text(p.hunks)) =~= (headers_text(p) + seq!['\n'])
        + hunks_text(p.hunks));
}

proof fn lemma_patch_safe(p: SpecPatch)
    requires
        binary_printable(p) || text_printable(p),
    ensures
        nl_safe(print_patch(p) + seq!['\n']),
        (print_patch(p) + seq!['\n'])[0] == '-' || (print_patch(p) + seq!['\n'])[0] == 'B',
{
    if p.hunks.len() == 0 {
        let t = print_patch(p) + seq!['\n'];
        let body = p.old.path + and_tag() + p.new.path + differ_tag();
        assert(t =~= binary_tag() + body + seq!['\n']);
        assert(no_line_feed(binary_tag()));
        assert(no_line_feed(and_tag()));
        assert(no_line_feed(differ_tag()));
        lemma_no_line_feed_concat(binary_tag(), p.old.path);
        lemma_no_line_feed_concat(binary_tag() + p.old.path, and_tag());
        lemma_no_line_feed_concat(binary_tag() + p.old.path + and_tag(), p.new.path);
        lemma_no_line_feed_concat(binary_tag() + p.old.path + and_tag() + p.new.path, differ_tag());
        assert(binary_tag() + body =~= binary_tag() + p.old.path + and_tag() + p.new.path + differ_tag());
        lemma_no_line_feed_safe(binary_tag() + body);
        lemma_nl_safe_concat(binary_tag() + body, seq!['\n']);
    } else {
        lemma_text_patch_split(p);
        let hd = headers_text(p);
        lemma_file_no_line_feed(p.old);
        lemma_file_no_line_feed(p.new);
        let a = old_file_tag() + print_file(p.old);
        let b = new_file_tag() + print_file(p.new);
        assert(no_line_feed(old_file_tag()));
        assert(no_line_feed(new_file_tag()));
        lemma_no_line_feed_concat(old_file_tag(), print_file(p.old));
        lemma_no_line_feed_concat(new_file_tag(), print_file(p.new));
        lemma_no_line_feed_safe(a);
        lemma_no_line_feed_safe(b);
        lemma_nl_safe_concat(a, seq!['\n']);
        lemma_nl_safe_concat(a + seq!['\n'], b);
        assert(hd =~= a + seq!['\n'] + b);
        lemma_nl_safe_concat(hd, seq!['\n']);
        lemma_hunks_safe(p.hunks);
        lemma_nl_safe_concat(hd + seq!['\n'], hunks_text(p.hunks));
        assert((print_patch(p) + seq!['\n'])[0] == old_file_tag()[0]);
    }
}

/// Patches, each written and followed by a line feed.
pub open spec fn patches_text(ps: Seq<SpecPatch>) -> Seq<char>
    decreases ps.len(),
{
    if ps.len() == 0 {
        Seq::empty()
    } else {
        print_patch(ps[0]) + seq!['\n'] + patches_text(ps.drop_first())
    }
}

proof fn lemma_patches_text_push(ps: Seq<SpecPatch>, p: SpecPatch)
    ensures
        patches_text(ps.push(p)) == patches_text(ps) + print_patch(p) + seq!['\n'],
    decreases ps.len(),
{
    if ps.len() == 0 {
        assert(ps.push(p).drop_first() =~= Seq::<SpecPatch>::empty());
        assert(patches_text(Seq::<SpecPatch>::empty()) == Seq::<char>::empty());
        assert(ps.push(p)[0] == p);
        assert(patches_text(ps.push(p)) =~= patches_text(ps) + print_patch(p) + seq!['\n']);
    } else {
        lemma_patches_text_push(ps.drop_first(), p);
        assert(ps.push(p).drop_first() =~= ps.drop_first().push(p));
        assert(patches_text(ps.push(p)) =~= patches_text(ps) + print_patch(p) + seq!['\n']);
    }
}

proof fn lemma_print_patches_text(ps: Seq<SpecPatch>)
    ensures
        print_patches(ps) == patches_text(ps),
    decreases ps.len(),
{
    if ps.len() > 0 {
        lemma_print_patches_text(ps.drop_last());
        lemma_patches_text_push(ps.drop_last(), ps.last());
        assert(ps.drop_last().push(ps.last()) =~= ps);
    }
}

/// Text without line feeds at `k0`, then `u` that starts with a line feed:
/// the first `u` from `k0` on is the one after the text.
pub(crate) proof fn lemma_first_after_line(s: Seq<char>, k0: int, t: Seq<char>, u: Seq<char>)
    requires
        0 <= k0,
        has_at(s, k0, t),
        no_line_feed(t),
        u.len() > 0,
        u[0] == '\n',
        has_at(s, k0 + t.len(), u),
    ensures
        find_from(s, k0, u) == Some(k0 + t.len()),
{
    assert forall|k: int| k0 <= k < k0 + t.len() implies !#[trigger] has_at(s, k, u) by {
        lemma_has_at_index(s, k0, t, k - k0);
        if has_at(s, k, u) {
            lemma_has_at_index(s, k, u, 0);
        }
    }
    lemma_find_from_first(s, k0, u, k0 + t.len());
}

/// A written patch with hunks is no bare rename: its "+++ " line comes before
/// any "similarity index 100%" line from its start on.
proof fn lemma_text_no_rename(s: Seq<char>, i: int, p: SpecPatch)
    requires
        0 <= i,
        text_printable(p),
        has_at(s, i, print_patch(p) + seq!['\n']),
    ensures
        spec_file_rename_only(s, i) is None,
{
    reveal(spec_file_rename_only);
    let t = print_patch(p) + seq!['\n'];
    let a = old_file_tag() + print_file(p.old);
    lemma_file_no_line_feed(p.old);
    assert(no_line_feed(old_file_tag()));
    lemma_no_line_feed_concat(old_file_tag(), print_file(p.old));
    let head = a + seq!['\n'] + new_file_tag();
    assert(t.subrange(0, head.len() as int) =~= head);
    lemma_has_at_part(s, i, t, 0, head);
    lemma_has_at_concat(s, i, a + seq!['\n'], new_file_tag());
    lemma_has_at_concat(s, i, a, seq!['\n']);
    let kp = i + a.len() + 1;
    lemma_has_at_index(s, i + a.len(), seq!['\n'], 0);
    lemma_has_at_index(s, kp, new_file_tag(), 0);
    lemma_find_from(s, i, similarity_marker());
    match find_from(s, i, similarity_marker()) {
        Some(m) => {
            lemma_has_at_index(s, m, similarity_marker(), 0);
            lemma_has_at_index(s, m, similarity_marker(), 1);
            if m < i + a.len() {
                lemma_has_at_index(s, i, a, m - i);
            }
            assert(m > kp);
            assert(starts_other_part(s, kp));
            assert(!header_block(s, i, m));
        },
        None => {},
    }
}

/// The rename lines of a written patch without hunks, then a line feed, read
/// as the patch.
proof fn lemma_rename_printed(s: Seq<char>, i: int, p: SpecPatch)
    requires
        0 <= i,
        empty_printable(p),
        !names_split_at_and(p.old.path, p.new.path),
        has_at(s, i, print_patch(p) + seq!['\n']),
    ensures
        spec_binary_files_differ(s, i) is None,
        spec_file_rename_only(s, i) == Some((i + print_patch(p).len() + 1, p)),
{
    reveal(spec_binary_files_differ);
    reveal(spec_file_rename_only);
    let o = p.old.path;
    let n = p.new.path;
    let lf = seq!['\n'];
    let l1 = diff_git_tag() + o + new_path_tag() + n;
    let mk = similarity_marker();
    let rf = rename_from_tag();
    let rt = rename_to_tag();
    let t = print_patch(p) + lf;
    assert(t =~= l1 + (mk + (rf + (o + (lf + (rt + (n + lf)))))));
    assert(no_line_feed(diff_git_tag()));
    assert(no_line_feed(new_path_tag()));
    lemma_no_line_feed_concat(diff_git_tag(), o);
    lemma_no_line_feed_concat(diff_git_tag() + o, new_path_tag());
    lemma_no_line_feed_concat(diff_git_tag() + o + new_path_tag(), n);
    let m = i + l1.len();
    let a = m + mk.len();
    let b = a + rf.len();
    let c = b + o.len();
    let d = c + 1;
    let e = d + rt.len();
    let f = e + n.len();
    lemma_has_at_concat(s, i, l1, mk + (rf + (o + (lf + (rt + (n + lf))))));
    lemma_has_at_concat(s, m, mk, rf + (o + (lf + (rt + (n + lf)))));
    lemma_has_at_concat(s, a, rf, o + (lf + (rt + (n + lf))));
    lemma_has_at_concat(s, b, o, lf + (rt + (n + lf)));
    lemma_has_at_concat(s, c, lf, rt + (n + lf));
    lemma_has_at_concat(s, d, rt, n + lf);
    lemma_has_at_concat(s, e, n, lf);
    // no binary files line at a diff line
    lemma_has_at_index(s, i, l1, 0);
    if has_at(s, i, binary_tag()) {
        lemma_has_at_index(s, i, binary_tag(), 0);
    }
    // the first marker is this one, and only the diff line comes before it
    lemma_first_after_line(s, i, l1, mk);
    assert forall|k: int|
        i <= k < m && (k == i || s[k - 1] == '\n') implies !#[trigger] starts_other_part(s, k) by {
        if k == i {
            if has_at(s, k, old_file_tag()) {
                lemma_has_at_index(s, k, old_file_tag(), 0);
            }
            if has_at(s, k, new_file_tag()) {
                lemma_has_at_index(s, k, new_file_tag(), 0);
            }
            if has_at(s, k, hunk_start_tag()) {
                lemma_has_at_index(s, k, hunk_start_tag(), 0);
            }
            if has_at(s, k, binary_tag()) {
                lemma_has_at_index(s, k, binary_tag(), 0);
            }
        } else {
            lemma_has_at_index(s, i, l1, k - 1 - i);
        }
    }
    assert(header_block(s, i, m));
    lemma_first_after_line(s, b, o, lf);
    lemma_first_after_line(s, e, n, lf);
    assert(s.subrange(b, c) == o);
    assert(s.subrange(e, f) == n);
    assert(p.hunks =~= Seq::<SpecHunk>::empty());
    assert(p == empty_patch(o, n));
    assert(f + 1 == i + t.len());
}

// ---------------------------------------------------------------------------
// Patches
// ---------------------------------------------------------------------------

/// A written patch with hunks, a line feed, then the end or another patch,
/// read from `i` where no binary files line and no bare rename is found and
/// the first "--- " from `i` on is where the patch starts, reads as the patch.
proof fn lemma_text_patch_at(s: Seq<char>, i: int, a: int, p: SpecPatch)
    requires
        0 <= i <= a,
        text_printable(p),
        has_at(s, a, print_patch(p) + seq!['\n']),
        patch_stop(s, a + print_patch(p).len() + 1),
        spec_binary_files_differ(s, i) is None,
        spec_file_rename_only(s, i) is None,
        find_from(s, i, old_file_tag()) == Some(a),
    ensures
        spec_patch(s, i) == Step::Done(a + print_patch(p).len() + 1, p),
{
    reveal(spec_patch);
    let t = print_patch(p) + seq!['\n'];
    lemma_text_patch_split(p);
    let hd = headers_text(p) + seq!['\n'];
    lemma_has_at_concat(s, a, hd, hunks_text(p.hunks));
    assert(hd =~= old_file_tag() + print_file(p.old) + seq!['\n'] + new_file_tag()
        + print_file(p.new) + seq!['\n']);
    lemma_headers_printed(s, a, p.old, p.new);
    assert(t.subrange(0, 4) =~= old_file_tag());
    lemma_has_at_part(s, a, t, 0, old_file_tag());
    assert(find_from(s, a, old_file_tag()) == Some(a));
    assert(crate::parser::spec_headers(s, i) == crate::parser::spec_headers(s, a)) by {
        reveal(crate::parser::spec_headers);
    }
    let e = a + hd.len();
    let j = e + hunks_text(p.hunks).len();
    assert(j == a + t.len());
    lemma_chunks_printed(s, e, p.hunks);
    if j < s.len() {
        if has_at(s, j, old_file_tag()) {
            lemma_has_at_index(s, j, old_file_tag(), 0);
        }
        if has_at(s, j, binary_tag()) {
            lemma_has_at_index(s, j, binary_tag(), 0);
        }
        if has_at(s, j, diff_tag()) {
            lemma_has_at_index(s, j, diff_tag(), 0);
        }
    }
    assert(line_ending(s, j) is None);
    assert(skip_line_endings(s, j) == j);
    assert(text_patch(p.old, p.new, p.hunks) == p);
}

/// A written patch, a line feed, then the end or another patch, reads as the
/// patch.
proof fn lemma_patch_printed(s: Seq<char>, i: int, p: SpecPatch)
    requires
        0 <= i,
        patch_printable(p),
        has_at(s, i, print_patch(p) + seq!['\n']),
        patch_stop(s, i + print_patch(p).len() + 1),
    ensures
        spec_patch(s, i) == Step::Done(i + print_patch(p).len() + 1, p),
{
    reveal(spec_patch);
    let t = print_patch(p) + seq!['\n'];
    if p.hunks.len() == 0 {
        if names_split_at_and(p.old.path, p.new.path) {
            assert(binary_printable(p));
            lemma_binary_printed(s, i, p);
        } else {
            lemma_rename_printed(s, i, p);
        }
    } else {
        assert(text_printable(p));
        reveal(spec_binary_files_differ);
        lemma_has_at_index(s, i, t, 0);
        assert(t[0] == '-');
        if has_at(s, i, binary_tag()) {
            lemma_has_at_index(s, i, binary_tag(), 0);
        }
        lemma_text_no_rename(s, i, p);
        assert(t.subrange(0, 4) =~= old_file_tag());
        lemma_has_at_part(s, i, t, 0, old_file_tag());
        lemma_find_from(s, i, old_file_tag());
        lemma_text_patch_at(s, i, i, p);
    }
}

/// A written patch starts where another patch may start.
proof fn lemma_patch_starts(s: Seq<char>, j: int, p: SpecPatch)
    requires
        has_at(s, j, print_patch(p) + seq!['\n']),
    ensures
        patch_stop(s, j),
{
    let t = print_patch(p) + seq!['\n'];
    if p.hunks.len() == 0 {
        if names_split_at_and(p.old.path, p.new.path) {
            assert(t.subrange(0, 13) =~= binary_tag());
            lemma_has_at_part(s, j, t, 0, binary_tag());
        } else {
            assert(t.subrange(0, 5) =~= diff_tag());
            lemma_has_at_part(s, j, t, 0, diff_tag());
        }
    } else {
        assert(t.subrange(0, 4) =~= old_file_tag());
        lemma_has_at_part(s, j, t, 0, old_file_tag());
    }
}

/// Written patches, each followed by a line feed, up to the end of a text,
/// read as the patches.
proof fn lemma_more_patches_printed(s: Seq<char>, i: int, ps: Seq<SpecPatch>)
    requires
        0 <= i,
        has_at(s, i, patches_text(ps)),
        i + patches_text(ps).len() == s.len(),
        forall|k: int| 0 <= k < ps.len() ==> patch_printable(#[trigger] ps[k]),
    ensures
        more_patches(s, i) == Step::Done(s.len() as int, ps),
    decreases ps.len(),
{
    if ps.len() == 0 {
        assert(ps =~= Seq::<SpecPatch>::empty());
        reveal(spec_patch);
        reveal(spec_binary_files_differ);
        reveal(spec_file_rename_only);
        reveal(crate::parser::spec_headers);
        assert(i == s.len());
        assert(find_from(s, i, old_file_tag()) is None);
    } else {
        let first = print_patch(ps[0]) + seq!['\n'];
        let rest = patches_text(ps.drop_first());
        assert(patches_text(ps) == first + rest);
        lemma_has_at_concat(s, i, first, rest);
        let j = i + first.len();
        assert(patch_printable(ps[0]));
        if ps.drop_first().len() > 0 {
            let p1 = ps.drop_first()[0];
            assert(rest == print_patch(p1) + seq!['\n'] + patches_text(ps.drop_first().drop_first()));
            lemma_has_at_concat(s, j, print_patch(p1) + seq!['\n'], patches_text(ps.drop_first().drop_first()));
            lemma_patch_starts(s, j, p1);
        } else {
            assert(rest.len() == 0);
        }
        lemma_patch_printed(s, i, ps[0]);
        assert forall|k: int| 0 <= k < ps.drop_first().len() implies patch_printable(
            #[trigger] ps.drop_first()[k],
        ) by {
            assert(ps.drop_first()[k] == ps[k + 1]);
        }
        lemma_more_patches_printed(s, j, ps.drop_first());
        assert(seq![ps[0]] + ps.drop_first() =~= ps);
    }
}

/// Reading what is written of a non-empty sequence of patches that read back
/// (each written and followed by a line feed) gives back those patches.
pub proof fn law_print_then_parse(ps: Seq<SpecPatch>)
    requires
        ps.len() > 0,
        forall|k: int| 0 <= k < ps.len() ==> patch_printable(#[trigger] ps[k]),
    ensures
        patches_of(print_patches(ps)) == Step::Done(print_patches(ps).len() as int, ps),
{
    reveal(spec_multiple_patches);
    lemma_print_patches_text(ps);
    let s = print_patches(ps);
    assert(s.subrange(0, s.len() as int) =~= s);
    lemma_more_patches_printed(s, 0, ps);
    let first = print_patch(ps[0]) + seq!['\n'];
    assert(patches_text(ps) == first + patches_text(ps.drop_first()));
    assert(more_patches(s, 0) == Step::Done(s.len() as int, ps));
}

/// Reading a written patch that reads back, followed by a line feed, as a
/// single patch gives back the patch, and reads all of the text.
pub proof fn law_print_then_parse_single(p: SpecPatch)
    requires
        patch_printable(p),
    ensures
        spec_patch(print_patch(p) + seq!['\n'], 0) == Step::Done(print_patch(p).len() + 1int, p),
        single_patch_of(print_patch(p) + seq!['\n']) == Step::Done(print_patch(p).len() + 1int, p),
{
    let s = print_patch(p) + seq!['\n'];
    assert(s.subrange(0, s.len() as int) =~= s);
    lemma_patch_printed(s, 0, p);
}

proof fn lemma_preamble_first_header(x: Seq<char>, t: Seq<char>)
    requires
        x.len() == 0 || x.last() == '\n',
        find_from(x, 0, old_file_tag()) is None,
        t.len() >= 4,
        t.subrange(0, 4) == old_file_tag(),
    ensures
        find_from(x + t, 0, old_file_tag()) == Some(x.len() as int),
{
    let s = x + t;
    let a = x.len() as int;
    assert(s.subrange(a, a + 4) =~= t.subrange(0, 4));
    lemma_find_from(x, 0, old_file_tag());
    assert forall|k: int| 0 <= k < a implies !#[trigger] has_at(s, k, old_file_tag()) by {
        if has_at(s, k, old_file_tag()) {
            if k + 4 <= a {
                assert(x.subrange(k, k + 4) =~= s.subrange(k, k + 4));
                assert(has_at(x, k, old_file_tag()));
            } else {
                lemma_has_at_index(s, k, old_file_tag(), a - 1 - k);
                assert(s[a - 1] == x.last());
            }
        }
    }
    lemma_find_from_first(s, 0, old_file_tag(), a);
}

proof fn lemma_preamble_no_rename(x: Seq<char>, t: Seq<char>)
    requires
        find_from(x, 0, similarity_marker()) is None,
        nl_safe(t),
        t.len() > 0,
        t[0] == '-',
    ensures
        find_from(x + t, 0, similarity_marker()) is None,
{
    let s = x + t;
    let a = x.len() as int;
    lemma_find_from(x, 0, similarity_marker());
    lemma_find_from(s, 0, similarity_marker());
    if find_from(s, 0, similarity_marker()) is Some {
        let k = find_from(s, 0, similarity_marker())->0;
        let m = similarity_marker();
        if k + 23 <= a {
            assert(x.subrange(k, k + 23) =~= s.subrange(k, k + 23));
            assert(has_at(x, k, m));
        } else if k < a {
            lemma_has_at_index(s, k, m, a - k);
            assert(s[a] == t[0]);
        } else {
            lemma_has_at_index(s, k, m, 0);
            lemma_has_at_index(s, k, m, 1);
            assert(s[k] == t[k - a]);
            assert(s[k + 1] == t[k - a + 1]);
        }
    }
}

/// Lines before the header lines of a patch are skipped: a written patch with
/// hunks, after text that is empty or ends in a line feed, that does not start
/// with "B", and that holds neither "--- " nor a "similarity index 100%" line,
/// reads as the patch.
pub proof fn law_preamble_is_skipped(x: Seq<char>, p: SpecPatch)
    requires
        text_printable(p),
        x.len() == 0 || (x.last() == '\n' && x[0] != 'B'),
        find_from(x, 0, old_file_tag()) is None,
        find_from(x, 0, similarity_marker()) is None,
    ensures
        spec_patch(x + print_patch(p) + seq!['\n'], 0) == Step::Done(
            x.len() + print_patch(p).len() + 1int,
            p,
        ),
{
    let t = print_patch(p) + seq!['\n'];
    let s = x + t;
    assert(x + print_patch(p) + seq!['\n'] =~= s);
    let a = x.len() as int;
    assert(s.subrange(a, s.len() as int) =~= t);
    assert(t.subrange(0, 4) =~= old_file_tag());
    lemma_preamble_first_header(x, t);
    lemma_patch_safe(p);
    lemma_preamble_no_rename(x, t);
    reveal(spec_file_rename_only);
    reveal(spec_binary_files_differ);
    if has_at(s, 0, binary_tag()) {
        lemma_has_at_index(s, 0, binary_tag(), 0);
        if a > 0 {
            assert(s[0] == x[0]);
        } else {
            assert(s[0] == t[0]);
        }
    }
    lemma_text_patch_at(s, 0, a, p);
}

} // verus!
