//! Writing patches back in the unified diff format.
use vstd::prelude::*;
use crate::ast::{
    File, FileMetadata, Hunk, Line, LineKind, Patch, Range, SpecFile, SpecHunk, SpecLine,
    SpecMetadata, SpecPatch,
};
use crate::literals::{
    and_tag, and_tag_chars, differ_tag, binary_tag, diff_git_tag, hunk_end_tag, hunk_tag,
    new_file_tag, new_path_tag, new_range_tag, no_newline_marker, old_file_tag, rename_from_tag,
    rename_to_tag, similarity_marker,
};
use crate::scan::{chars_of, find_at, find_from};
use crate::text::{decimal, push_char, push_decimal, push_str, push_string};
use crate::timestamp::{format_timestamp, formatted_timestamp, fraction_layout};

verus! {

/// The characters that make a name or metadata text need quotes.
pub open spec fn needs_escape(c: char) -> bool {
    c == ' ' || c == '\t' || c == '\r' || c == '\n' || c == '"' || c == '\0' || c == '\\'
}

/// Whether a text is written in quotes.
pub open spec fn needs_quotes(t: Seq<char>) -> bool {
    exists|k: int| 0 <= k < t.len() && needs_escape(#[trigger] t[k])
}

/// How a character is written inside quotes.
pub open spec fn escape_char(c: char) -> Seq<char> {
    if c == '\0' {
        seq!['\\', '0']
    } else if c == '\n' {
        seq!['\\', 'n']
    } else if c == '\r' {
        seq!['\\', 'r']
    } else if c == '\t' {
        seq!['\\', 't']
    } else if c == '"' {
        seq!['\\', '"']
    } else if c == '\\' {
        seq!['\\', '\\']
    } else {
        seq![c]
    }
}

/// How a text is written inside quotes.
pub open spec fn escape_all(t: Seq<char>) -> Seq<char>
    decreases t.len(),
{
    if t.len() == 0 {
        Seq::empty()
    } else {
        escape_all(t.drop_last()) + escape_char(t.last())
    }
}

/// How a file name or metadata text is written: quoted and escaped where it
/// holds a space, a tab, a line break, a quote, a NUL or a backslash; as it
/// is otherwise.
pub open spec fn print_name(t: Seq<char>) -> Seq<char> {
    if needs_quotes(t) {
        seq!['"'] + escape_all(t) + seq!['"']
    } else {
        t
    }
}

/// How file metadata is written; a timestamp as chrono writes it with
/// fractional seconds (nothing where chrono cannot hold it).
pub open spec fn print_meta(m: SpecMetadata) -> Seq<char> {
    match m {
        SpecMetadata::DateTime(t) => match formatted_timestamp(t, fraction_layout()) {
            Some(text) => text,
            None => Seq::empty(),
        },
        SpecMetadata::Other(text) => print_name(text),
    }
}

/// How a file is written in a header line: its name, then a tab and the metadata.
pub open spec fn print_file(f: SpecFile) -> Seq<char> {
    print_name(f.path) + match f.meta {
        Some(m) => seq!['\t'] + print_meta(m),
        None => Seq::empty(),
    }
}

/// How a range is written: start, comma, count.
pub open spec fn print_range(r: Range) -> Seq<char> {
    decimal(r.start as nat) + seq![','] + decimal(r.count as nat)
}

/// The prefix of a hunk line of a kind.
pub open spec fn line_prefix(kind: LineKind) -> char {
    match kind {
        LineKind::Add => '+',
        LineKind::Remove => '-',
        LineKind::Context => ' ',
    }
}

/// How a hunk line is written: prefix and text, and the marker line where the
/// line feed is missing.
pub open spec fn print_line(l: SpecLine) -> Seq<char> {
    seq![line_prefix(l.kind)] + l.content + if l.missing_newline {
        seq!['\n'] + no_newline_marker()
    } else {
        Seq::empty()
    }
}

/// The lines of a hunk, each after a line feed.
pub open spec fn print_lines(ls: Seq<SpecLine>) -> Seq<char>
    decreases ls.len(),
{
    if ls.len() == 0 {
        Seq::empty()
    } else {
        print_lines(ls.drop_last()) + seq!['\n'] + print_line(ls.last())
    }
}

/// The header line of a hunk, without its line feed.
pub open spec fn print_hunk_header(h: SpecHunk) -> Seq<char> {
    hunk_tag() + print_range(h.old_range) + new_range_tag() + print_range(h.new_range)
        + hunk_end_tag() + h.range_hint
}

/// How a hunk is written: its header line and its lines.
pub open spec fn print_hunk(h: SpecHunk) -> Seq<char> {
    print_hunk_header(h) + print_lines(h.lines)
}

/// The hunks of a patch, each after a line feed.
pub open spec fn print_hunks(hs: Seq<SpecHunk>) -> Seq<char>
    decreases hs.len(),
{
    if hs.len() == 0 {
        Seq::empty()
    } else {
        print_hunks(hs.drop_last()) + seq!['\n'] + print_hunk(hs.last())
    }
}

/// The names `old` and `new` split back out of "old and new" at its first " and ".
pub open spec fn names_split_at_and(old: Seq<char>, new: Seq<char>) -> bool {
    find_from(old + and_tag() + new, 0, and_tag()) == Some(old.len() as int)
}

/// The git lines of a rename without any change, without a final line feed.
pub open spec fn print_rename(old: Seq<char>, new: Seq<char>) -> Seq<char> {
    diff_git_tag() + old + new_path_tag() + new + similarity_marker() + rename_from_tag() + old
        + seq!['\n'] + rename_to_tag() + new
}

/// How a patch is written, without a final line feed: a patch without hunks
/// as a "Binary files A and B differ" line where its names split back out of
/// "A and B", as the git lines of a rename otherwise; any other as its two
/// header lines and its hunks.
pub open spec fn print_patch(p: SpecPatch) -> Seq<char> {
    if p.hunks.len() == 0 {
        if names_split_at_and(p.old.path, p.new.path) {
            binary_tag() + p.old.path + and_tag() + p.new.path + differ_tag()
        } else {
            print_rename(p.old.path, p.new.path)
        }
    } else {
        old_file_tag() + print_file(p.old) + seq!['\n'] + new_file_tag() + print_file(p.new)
            + print_hunks(p.hunks)
    }
}

/// How a sequence of patches is written: each followed by a line feed.
pub open spec fn print_patches(ps: Seq<SpecPatch>) -> Seq<char>
    decreases ps.len(),
{
    if ps.len() == 0 {
        Seq::empty()
    } else {
        print_patches(ps.drop_last()) + print_patch(ps.last()) + seq!['\n']
    }
}

/// Appends `t` as a file name or metadata text is written.
fn push_name(out: &mut String, t: &String)
    ensures
        final(out)@ == old(out)@ + print_name(t@),
{
    let cs = chars_of(t.as_str());
    let mut quote = false;
    let mut k: usize = 0;
    while k < cs.len()
        invariant
            k <= cs.len(),
            cs@ == t@,
            quote == exists|j: int| 0 <= j < k && needs_escape(#[trigger] cs@[j]),
        decreases cs.len() - k,
    {
        let c = cs[k];
        if c == ' ' || c == '\t' || c == '\r' || c == '\n' || c == '"' || c == '\0' || c == '\\' {
            quote = true;
        }
        k = k + 1;
    }
    if !quote {
        push_string(out, t);
        return;
    }
    push_char(out, '"');
    let ghost start = out@;
    let mut k: usize = 0;
    assert(cs@.take(0) =~= Seq::<char>::empty());
    while k < cs.len()
        invariant
            k <= cs.len(),
            cs@ == t@,
            out@ == start + escape_all(cs@.take(k as int)),
        decreases cs.len() - k,
    {
        let c = cs[k];
        if c == '\0' {
            push_char(out, '\\');
            push_char(out, '0');
        } else if c == '\n' {
            push_char(out, '\\');
            push_char(out, 'n');
        } else if c == '\r' {
            push_char(out, '\\');
            push_char(out, 'r');
        } else if c == '\t' {
            push_char(out, '\\');
            push_char(out, 't');
        } else if c == '"' {
            push_char(out, '\\');
            push_char(out, '"');
        } else if c == '\\' {
            push_char(out, '\\');
            push_char(out, '\\');
        } else {
            push_char(out, c);
        }
        proof {
            assert(cs@.take(k + 1).drop_last() =~= cs@.take(k as int));
            assert(out@ =~= start + escape_all(cs@.take(k + 1)));
        }
        k = k + 1;
    }
    push_char(out, '"');
    assert(cs@.take(cs.len() as int) =~= cs@);
    assert(out@ =~= old(out)@ + print_name(t@));
}

/// Appends how the metadata is written.
fn push_meta(out: &mut String, m: &FileMetadata)
    ensures
        final(out)@ == old(out)@ + print_meta(m@),
{
    match m {
        FileMetadata::DateTime(t) => {
            match format_timestamp(t, "%F %T%.f %z") {
                Some(text) => push_string(out, &text),
                None => {
                    assert(old(out)@ + Seq::<char>::empty() =~= old(out)@);
                },
            }
        },
        FileMetadata::Other(text) => push_name(out, text),
    }
}

/// Appends how a file is written in a header line.
fn push_file(out: &mut String, f: &File)
    ensures
        final(out)@ == old(out)@ + print_file(f@),
{
    let ghost start = old(out)@;
    push_name(out, &f.path);
    match &f.meta {
        Some(m) => {
            push_char(out, '\t');
            push_meta(out, m);
            assert(out@ =~= start + print_file(f@));
        },
        None => {
            assert(out@ =~= start + print_file(f@));
        },
    }
}

impl Range {
    /// How the range is written: start, comma, count.
    pub fn to_string(&self) -> (r: String)
        ensures
            r@ == print_range(*self),
    {
        let mut out = String::new();
        push_range(&mut out, self);
        assert(out@ =~= print_range(*self));
        out
    }
}

fn push_range(out: &mut String, r: &Range)
    ensures
        final(out)@ == old(out)@ + print_range(*r),
{
    push_decimal(out, r.start);
    push_char(out, ',');
    push_decimal(out, r.count);
    assert(out@ =~= old(out)@ + print_range(*r));
}

fn push_line(out: &mut String, l: &Line)
    ensures
        final(out)@ == old(out)@ + print_line(l@),
{
    let prefix = match l.kind {
        LineKind::Add => '+',
        LineKind::Remove => '-',
        LineKind::Context => ' ',
    };
    push_char(out, prefix);
    push_string(out, &l.content);
    if l.missing_newline {
        push_str(out, "\n\\ No newline at end of file");
        proof {
            reveal_strlit("\n\\ No newline at end of file");
        }
        assert("\n\\ No newline at end of file"@ =~= seq!['\n'] + no_newline_marker());
    }
    assert(out@ =~= old(out)@ + print_line(l@));
}

impl Line {
    /// How the line is written: prefix and text, and the marker line where the
    /// line feed is missing.
    pub fn to_string(&self) -> (r: String)
        ensures
            r@ == print_line(self@),
    {
        let mut out = String::new();
        push_line(&mut out, self);
        assert(out@ =~= print_line(self@));
        out
    }
}

fn push_hunk(out: &mut String, h: &Hunk)
    ensures
        final(out)@ == old(out)@ + print_hunk(h@),
{
    let ghost start = old(out)@;
    push_str(out, "@@ -");
    push_range(out, &h.old_range);
    push_str(out, " +");
    push_range(out, &h.new_range);
    push_str(out, " @@");
    push_string(out, &h.range_hint);
    proof {
        reveal_strlit("@@ -");
        reveal_strlit(" +");
        reveal_strlit(" @@");
        assert("@@ -"@ =~= hunk_tag());
        assert(" +"@ =~= new_range_tag());
        assert(" @@"@ =~= hunk_end_tag());
    }
    let ghost head = out@;
    let mut k: usize = 0;
    let ghost lines = h@.lines;
    assert(lines.take(0) =~= Seq::<SpecLine>::empty());
    while k < h.lines.len()
        invariant
            k <= h.lines.len(),
            lines == h@.lines,
            out@ == head + print_lines(lines.take(k as int)),
        decreases h.lines.len() - k,
    {
        push_char(out, '\n');
        push_line(out, &h.lines[k]);
        proof {
            assert(lines.take(k + 1).drop_last() =~= lines.take(k as int));
            assert(lines[k as int] == h.lines@[k as int]@);
        }
        k = k + 1;
    }
    assert(lines.take(h.lines.len() as int) =~= lines);
    assert(out@ =~= start + print_hunk(h@));
}

impl Hunk {
    /// How the hunk is written: its header line and its lines.
    pub fn to_string(&self) -> (r: String)
        ensures
            r@ == print_hunk(self@),
    {
        let mut out = String::new();
        push_hunk(&mut out, self);
        assert(out@ =~= print_hunk(self@));
        out
    }
}

/// Whether the names split back out of "old and new" at its first " and ".
fn split_at_and(old: &String, new: &String) -> (r: bool)
    ensures
        r == names_split_at_and(old@, new@),
{
    let mut joined = String::new();
    push_string(&mut joined, old);
    push_str(&mut joined, " and ");
    push_string(&mut joined, new);
    proof {
        reveal_strlit(" and ");
        assert(" and "@ =~= and_tag());
        assert(joined@ =~= old@ + and_tag() + new@);
    }
    let cs = chars_of(joined.as_str());
    let n = chars_of(old.as_str()).len();
    match find_at(cs.as_slice(), 0, &and_tag_chars()) {
        Some(k) => k == n,
        None => false,
    }
}

fn push_patch(out: &mut String, p: &Patch)
    ensures
        final(out)@ == old(out)@ + print_patch(p@),
{
    let ghost start = old(out)@;
    proof {
        reveal_strlit("Binary files ");
        reveal_strlit(" and ");
        reveal_strlit(" differ");
        reveal_strlit("--- ");
        reveal_strlit("\n+++ ");
        assert("Binary files "@ =~= binary_tag());
        assert(" and "@ =~= and_tag());
        assert(" differ"@ =~= differ_tag());
        assert("--- "@ =~= old_file_tag());
        assert("\n+++ "@ =~= seq!['\n'] + new_file_tag());
    }
    if p.hunks.len() == 0 && !split_at_and(&p.old.path, &p.new.path) {
        push_str(out, "diff --git a/");
        push_string(out, &p.old.path);
        push_str(out, " b/");
        push_string(out, &p.new.path);
        push_str(out, "\nsimilarity index 100%\nrename from ");
        push_string(out, &p.old.path);
        push_str(out, "\nrename to ");
        push_string(out, &p.new.path);
        proof {
            reveal_strlit("diff --git a/");
            reveal_strlit(" b/");
            reveal_strlit("\nsimilarity index 100%\nrename from ");
            reveal_strlit("\nrename to ");
            assert("diff --git a/"@ =~= diff_git_tag());
            assert(" b/"@ =~= new_path_tag());
            assert("\nsimilarity index 100%\nrename from "@ =~= similarity_marker()
                + rename_from_tag());
            assert("\nrename to "@ =~= seq!['\n'] + rename_to_tag());
        }
        assert(out@ =~= start + print_patch(p@));
        return;
    }
    if p.hunks.len() == 0 {
        push_str(out, "Binary files ");
        push_string(out, &p.old.path);
        push_str(out, " and ");
        push_string(out, &p.new.path);
        push_str(out, " differ");
        assert(out@ =~= start + print_patch(p@));
        return;
    }
    push_str(out, "--- ");
    push_file(out, &p.old);
    push_str(out, "\n+++ ");
    push_file(out, &p.new);
    let ghost head = out@;
    let ghost hunks = p@.hunks;
    let mut k: usize = 0;
    assert(hunks.take(0) =~= Seq::<SpecHunk>::empty());
    while k < p.hunks.len()
        invariant
            k <= p.hunks.len(),
            hunks == p@.hunks,
            out@ == head + print_hunks(hunks.take(k as int)),
        decreases p.hunks.len() - k,
    {
        push_char(out, '\n');
        push_hunk(out, &p.hunks[k]);
        proof {
            assert(hunks.take(k + 1).drop_last() =~= hunks.take(k as int));
            assert(hunks[k as int] == p.hunks@[k as int]@);
        }
        k = k + 1;
    }
    assert(hunks.take(p.hunks.len() as int) =~= hunks);
    assert(out@ =~= start + print_patch(p@));
}

impl Patch {
    /// How the patch is written, without a final line feed.
    pub fn to_string(&self) -> (r: String)
        ensures
            r@ == print_patch(self@),
    {
        let mut out = String::new();
        push_patch(&mut out, self);
        assert(out@ =~= print_patch(self@));
        out
    }
}

/// Writes a sequence of patches, each followed by a line feed.
pub fn format_patches(patches: &[Patch]) -> (r: String)
    ensures
        r@ == print_patches(patches@.map_values(|p: Patch| p@)),
{
    let mut out = String::new();
    let ghost ps = patches@.map_values(|p: Patch| p@);
    let mut k: usize = 0;
    assert(ps.take(0) =~= Seq::<SpecPatch>::empty());
    assert(out@ =~= Seq::<char>::empty());
    while k < patches.len()
        invariant
            k <= patches.len(),
            ps == patches@.map_values(|p: Patch| p@),
            out@ == print_patches(ps.take(k as int)),
        decreases patches.len() - k,
    {
        push_patch(&mut out, &patches[k]);
        push_char(&mut out, '\n');
        proof {
            assert(ps.take(k + 1).drop_last() =~= ps.take(k as int));
            assert(ps[k as int] == patches@[k as int]@);
        }
        k = k + 1;
    }
    assert(ps.take(patches.len() as int) =~= ps);
    out
}

} // verus!
