use gitpatch::parser::{
    binary_files_differ, consume_content_line, file_metadata_from, headers, patch, range,
    unescaped_str,
};
use gitpatch::{
    format_patches, ErrorKind, File, FileMetadata, Hunk, Line, LineKind, Patch, Range, Timestamp,
};

fn text_patch(old: &str, new: &str, lines: Vec<Line>) -> Patch {
    let old_missing = lines
        .iter()
        .filter(|l| l.kind != LineKind::Add)
        .last()
        .map_or(false, |l| l.missing_newline);
    let new_missing = lines
        .iter()
        .filter(|l| l.kind != LineKind::Remove)
        .last()
        .map_or(false, |l| l.missing_newline);
    Patch {
        old: File { path: old.into(), meta: None },
        new: File { path: new.into(), meta: None },
        hunks: vec![Hunk {
            old_range: Range { start: 1, count: 2 },
            new_range: Range { start: 1, count: 3 },
            range_hint: " fn main()".into(),
            lines,
            old_missing_newline: old_missing,
            new_missing_newline: new_missing,
        }],
        old_missing_newline: old_missing,
        new_missing_newline: new_missing,
    }
}

fn binary_patch(old: &str, new: &str) -> Patch {
    Patch {
        old: File { path: old.into(), meta: None },
        new: File { path: new.into(), meta: None },
        hunks: vec![],
        old_missing_newline: false,
        new_missing_newline: false,
    }
}

#[test]
fn written_patches_read_back() {
    let mut escaped = text_patch(
        "dir with space/a \"quoted\" name\t.rs",
        "plain.rs",
        vec![
            LineKind::Context.to_line("  indented"),
            LineKind::Remove.to_line("--a;"),
            LineKind::Add.to_line("++a;"),
            LineKind::Add.to_line_full("last", true),
        ],
    );
    escaped.old.meta = Some(FileMetadata::Other("back\\slash and \0 nul".into()));
    escaped.new.meta = Some(FileMetadata::Other("e044048282ce75186ecc7a214fd3d9ba478a2816".into()));
    let patches = vec![
        escaped,
        binary_patch("old image.png", "new image.png"),
        text_patch("x", "y", vec![]),
        binary_patch("", "only new"),
    ];
    let text = format_patches(&patches);
    assert_eq!(Patch::from_multiple(&text).unwrap(), patches);
}

#[test]
fn written_patch_reads_back_as_single() {
    let p = text_patch("a", "b", vec![LineKind::Remove.to_line_full("gone", true)]);
    let text = format!("{}\n", p.to_string());
    assert_eq!(Patch::from_single(&text).unwrap(), p);
}

#[test]
fn read_written_read_again() {
    let sample = "\
diff --git a/src/lib.rs b/src/lib.rs
index 3b18e51..a9c2f1e 100644
--- a/src/lib.rs
+++ b/src/lib.rs
@@ -1,3 +1,4 @@ mod a;
 use std::fmt;
-use std::io;
+use std::io::{self, Read};
+use std::fs;
 
Binary files logo.png and logo2.png differ
--- \"with space\"\t2002-02-21 23:30:39.942229878 -0800
+++ plain\t2002-02-21 23:30:50 -0800
@@ -5 +5 @@
-old
\\ No newline at end of file
+new
\\ No newline at end of file
";
    let first = Patch::from_multiple(sample).unwrap();
    assert_eq!(first.len(), 3);
    assert_eq!(first[0].hunks[0].range_hint, " mod a;");
    assert_eq!(first[0].hunks[0].lines[4], LineKind::Context.to_line(""));
    assert_eq!(first[2].hunks[0].old_range, Range { start: 5, count: 1 });
    assert!(first[2].old_missing_newline && first[2].new_missing_newline);
    let again = Patch::from_multiple(&format_patches(&first)).unwrap();
    assert_eq!(again, first);
}

#[test]
fn timestamps_are_written_as_diff_writes_them() {
    let sample = "--- a\t2002-02-21 23:30:39.500 -0800\n+++ b\t2002-02-21 23:30:39 +0130\n@@ -1,1 +1,1 @@\n-x\n+y\n";
    let p = Patch::from_single(sample).unwrap();
    assert_eq!(
        p.old.meta,
        Some(FileMetadata::DateTime(Timestamp {
            year: 2002,
            month: 2,
            day: 21,
            hour: 23,
            minute: 30,
            second: 39,
            nanosecond: 500_000_000,
            offset_seconds: -8 * 3600,
        }))
    );
    assert_eq!(format!("{}\n", p.to_string()), sample);
}

#[test]
fn timestamp_that_chrono_cannot_hold_is_written_empty() {
    let mut p = text_patch("a", "b", vec![LineKind::Context.to_line("x")]);
    p.old.meta = Some(FileMetadata::DateTime(Timestamp {
        year: 2002,
        month: 13,
        day: 1,
        hour: 0,
        minute: 0,
        second: 0,
        nanosecond: 0,
        offset_seconds: 0,
    }));
    assert!(p.to_string().starts_with("--- a\t\n+++ b\n"));
}

#[test]
fn pieces_are_written() {
    assert_eq!(Range { start: 12, count: 0 }.to_string(), "12,0");
    assert_eq!(LineKind::Add.to_line("x").to_string(), "+x");
    assert_eq!(
        LineKind::Context.to_line_full("x", true).to_string(),
        " x\n\\ No newline at end of file"
    );
    let h = Hunk {
        old_range: Range { start: 1, count: 1 },
        new_range: Range { start: 2, count: 1 },
        range_hint: String::new(),
        lines: vec![LineKind::Remove.to_line("a")],
        old_missing_newline: false,
        new_missing_newline: false,
    };
    assert_eq!(h.to_string(), "@@ -1,1 +2,1 @@\n-a");
    assert_eq!(binary_patch("a b", "c").to_string(), "Binary files a b and c differ");
}

#[test]
fn trailing_empty_lines_are_skipped() {
    let p = Patch::from_single("--- a\n+++ b\n@@ -1 +1 @@\n-x\n+y\n\r\n\n").unwrap();
    assert_eq!(p.hunks.len(), 1);
    assert_eq!(p.hunks[0].lines.len(), 2);
}

#[test]
fn trailing_blank_lines_after_a_hunk_are_dropped() {
    let cs: Vec<char> = "--- a\n+++ b\n@@ -1 +1 @@\n-x\n+y\n\n".chars().collect();
    let (end, p) = patch(&cs, 0).unwrap();
    assert_eq!(end, cs.len());
    assert_eq!(p.hunks.len(), 1);
    assert_eq!(
        p.hunks[0].lines,
        vec![LineKind::Remove.to_line_full("x", false), LineKind::Add.to_line_full("y", false)]
    );
    let p = Patch::from_single("--- a\n+++ b\n@@ -1 +1 @@\n-x\n+y\n\n\n").unwrap();
    assert_eq!(p.hunks[0].lines.len(), 2);
}

#[test]
fn blank_lines_before_the_next_patch_are_dropped() {
    let sample = "--- a\n+++ b\n@@ -1 +1 @@\n-x\n+y\n\n\n--- c\n+++ d\n@@ -1 +1 @@\n-x\n+y\n";
    let patches = Patch::from_multiple(sample).unwrap();
    assert_eq!(patches.len(), 2);
    assert_eq!(patches[0].hunks[0].lines.len(), 2);
    assert_eq!(patches[1].old.path, "c");
}

#[test]
fn empty_line_in_hunk_is_context() {
    let p = Patch::from_single("--- a\n+++ b\n@@ -1,3 +1,3 @@\n x\n\n y\n").unwrap();
    assert_eq!(p.hunks[0].lines[1], LineKind::Context.to_line(""));
    assert_eq!(p.hunks[0].lines.len(), 3);
}

#[test]
fn tab_only_metadata_is_none_but_quoted_tab_is_kept() {
    let p = Patch::from_single("--- a\t\t\n+++ b\t\"\\t\"\n@@ -1 +1 @@\n-x\n+y\n").unwrap();
    assert_eq!(p.old.meta, None);
    assert_eq!(p.new.meta, Some(FileMetadata::Other("\t".into())));
}

#[test]
fn binary_names_are_trimmed_at_the_end() {
    let p = Patch::from_single("Binary files a and b  differ \t\n").unwrap();
    assert_eq!(p.old.path, "a");
    assert_eq!(p.new.path, "b ");
}

#[test]
fn rename_after_a_text_patch_is_a_patch_of_its_own() {
    let sample = "\
--- a
+++ b
@@ -1 +1 @@
-x
+y
diff --git a/p b/q
similarity index 100%
rename from p
rename to q
";
    let cs: Vec<char> = sample.chars().collect();
    let (end, first) = patch(&cs, 0).unwrap();
    assert_eq!(first.old.path, "a");
    assert_eq!(first.hunks.len(), 1);
    assert_eq!(cs[end..].iter().collect::<String>(), "diff --git a/p b/q\nsimilarity index 100%\nrename from p\nrename to q\n");
    let patches = Patch::from_multiple(sample).unwrap();
    assert_eq!(patches.len(), 2);
    assert_eq!(patches[0].old.path, "a");
    assert_eq!(patches[0].hunks.len(), 1);
    assert_eq!(patches[1].old.path, "p");
    assert_eq!(patches[1].new.path, "q");
    assert!(patches[1].hunks.is_empty());
}

#[test]
fn leftover_text_after_a_single_patch_is_eof() {
    let err = Patch::from_single("Binary files a and b differ\nxyz").unwrap_err();
    assert_eq!(err.kind, ErrorKind::Eof);
    assert_eq!(err.line, 2);
    assert_eq!(err.offset, 28);
    assert_eq!(err.fragment, "xyz");
}

#[test]
fn number_too_large_is_an_overflow_error() {
    let s = "--- a\n+++ b\n@@ -18446744073709551616 +1 @@\n-x\n+y\n";
    let err = Patch::from_multiple(s).unwrap_err();
    assert_eq!(err.kind, ErrorKind::Overflow);
    assert_eq!(err.line, 3);
    assert_eq!(err.offset, 16);
    let err = Patch::from_single(s).unwrap_err();
    assert_eq!(err.kind, ErrorKind::Overflow);
    assert_eq!(err.offset, 16);
}

#[test]
fn single_and_multiple_agree() {
    let one = "--- a\n+++ b\n@@ -1 +1 @@\n-x\n+y\n";
    assert_eq!(Patch::from_multiple(one).unwrap(), vec![Patch::from_single(one).unwrap()]);
    let two = "Binary files a and b differ\nBinary files c and d differ\n";
    assert_eq!(Patch::from_multiple(two).unwrap().len(), 2);
    assert!(Patch::from_single(two).is_err());
}

#[test]
fn preamble_before_headers_is_skipped() {
    let h: Vec<char> = "--- a\n+++ b\n".chars().collect();
    let q: Vec<char> = "diff --git a/x b/x\nindex 1..2 100644\n--- a\n+++ b\n".chars().collect();
    let (e1, f1) = headers(&h, 0).unwrap();
    let (e2, f2) = headers(&q, 0).unwrap();
    assert_eq!(f1, f2);
    assert_eq!(e2 - e1, q.len() - h.len());
}

#[test]
fn missing_headers_is_take_until() {
    let err = Patch::from_multiple("hello\nworld\n").unwrap_err();
    assert_eq!(err.kind, ErrorKind::TakeUntil);
    assert_eq!(err.line, 1);
    assert_eq!(err.offset, 0);
    assert_eq!(err.fragment, "hello\nworld\n");
    assert_eq!(err.description(), "Take until");
    assert_eq!(err.to_string(), "Line 1: Error while parsing: hello\nworld\n");
}

#[test]
fn missing_new_header_is_tag() {
    let err = Patch::from_single("--- a\n*** b\n").unwrap_err();
    assert_eq!(err.kind, ErrorKind::Tag);
    assert_eq!(err.line, 2);
    assert_eq!(err.offset, 6);
    assert_eq!(err.fragment, "*** b\n");
}

#[test]
fn empty_file_name_is_is_not() {
    let err = Patch::from_single("--- \n+++ b\n").unwrap_err();
    assert_eq!(err.kind, ErrorKind::IsNot);
    assert_eq!(err.offset, 4);
}

#[test]
fn lone_carriage_return_in_metadata_is_crlf() {
    let err = Patch::from_single("--- a\tx\ry\n+++ b\n").unwrap_err();
    assert_eq!(err.kind, ErrorKind::CrLf);
    assert_eq!(err.offset, 5);
    assert_eq!(err.fragment, "\tx\ry\n+++ b\n");
}

#[test]
fn bad_range_is_digit() {
    let err = Patch::from_single("--- a\n+++ b\n@@ -x +1 @@\n").unwrap_err();
    assert_eq!(err.kind, ErrorKind::Digit);
    assert_eq!(err.line, 3);
    assert_eq!(err.offset, 16);
}

#[test]
fn text_after_the_last_patch_is_eof() {
    let err = Patch::from_multiple("Binary files a and b differ\ngarbage\n").unwrap_err();
    assert_eq!(err.kind, ErrorKind::Eof);
    assert_eq!(err.line, 2);
    assert_eq!(err.offset, 28);
    assert_eq!(err.fragment, "garbage\n");
    assert_eq!(err.description(), "End of file");
}

#[test]
fn error_offset_counts_bytes() {
    let err = Patch::from_multiple("Binary files \u{e9}t\u{e9} and \u{1f600} differ\n!\n").unwrap_err();
    assert_eq!(err.kind, ErrorKind::Eof);
    assert_eq!(err.offset, "Binary files \u{e9}t\u{e9} and \u{1f600} differ\n".len());
    assert_eq!(err.fragment, "!\n");
}

#[test]
fn hunk_header_without_count_has_count_one() {
    let p = Patch::from_single("--- a\n+++ b\n@@ -7 +9,0 @@\n-x\n").unwrap();
    assert_eq!(p.hunks[0].old_range, Range { start: 7, count: 1 });
    assert_eq!(p.hunks[0].new_range, Range { start: 9, count: 0 });
}

#[test]
fn hunk_followed_by_header_has_no_lines() {
    let p = Patch::from_single("--- a\n+++ b\n@@ -1 +1 @@\n@@ -2 +2 @@\n x\n").unwrap();
    assert_eq!(p.hunks.len(), 2);
    assert!(p.hunks[0].lines.is_empty());
    assert_eq!(p.hunks[1].lines.len(), 1);
}

#[test]
fn crlf_lines_drop_the_carriage_return() {
    let p = Patch::from_single("--- a\r\n+++ b\r\n@@ -1 +1 @@\r\n-x\r\n+y\r\n").unwrap();
    assert_eq!(p.hunks[0].lines[0].content, "x");
    assert_eq!(p.hunks[0].lines[1].content, "y");
}

#[test]
fn preamble_lines_are_skipped() {
    let p = text_patch("a.txt", "b.txt", vec![LineKind::Add.to_line("new")]);
    let text = format!("Index: a.txt\n====================\ncommit 1234\n{}\n", p.to_string());
    assert_eq!(Patch::from_single(&text).unwrap(), p);
}

#[test]
fn number_too_large_stops_reading() {
    let cs: Vec<char> = "99999999999999999999,1".chars().collect();
    assert_eq!(range(&cs, 0).unwrap_err().kind, ErrorKind::Overflow);
    let cs: Vec<char> = "1,99999999999999999999".chars().collect();
    assert_eq!(range(&cs, 0).unwrap_err().kind, ErrorKind::Overflow);
    let cs: Vec<char> = "18446744073709551615".chars().collect();
    assert_eq!(range(&cs, 0).unwrap().1, Range { start: u64::MAX, count: 1 });
    let cs: Vec<char> = "--- a\n+++ b\n@@ -1 +18446744073709551616 @@\n".chars().collect();
    assert_eq!(patch(&cs, 0).unwrap_err().kind, ErrorKind::Overflow);
}

#[test]
fn error_kinds_have_descriptions() {
    assert_eq!(ErrorKind::Tag.description(), "Tag");
    assert_eq!(ErrorKind::IsNot.description(), "IsNot");
    assert_eq!(ErrorKind::CrLf.description(), "CrLf");
    assert_eq!(ErrorKind::Digit.description(), "Digit");
}

#[test]
fn first_timestamp_read_wins_over_text() {
    let a = Timestamp {
        year: 2002, month: 2, day: 21, hour: 23, minute: 30, second: 39, nanosecond: 942229878,
        offset_seconds: 3600,
    };
    let b = Timestamp { nanosecond: 0, ..a };
    let text = String::from("2002-02-21 23:30:39 +0100");
    assert_eq!(file_metadata_from(text.clone(), Some(a), Some(b)), FileMetadata::DateTime(a));
    assert_eq!(file_metadata_from(text.clone(), Some(a), None), FileMetadata::DateTime(a));
    assert_eq!(file_metadata_from(text.clone(), None, Some(b)), FileMetadata::DateTime(b));
    assert_eq!(file_metadata_from(text.clone(), None, None), FileMetadata::Other(text));
}

#[test]
fn blank_line_between_hunks_is_context() {
    let s = "--- a\n+++ b\n@@ -1 +1 @@\n-x\n+y\n\n@@ -5 +5 @@\n-p\n+q\n";
    let p = Patch::from_single(s).unwrap();
    assert_eq!(p.hunks.len(), 2);
    assert_eq!(
        p.hunks[0].lines,
        vec![
            LineKind::Remove.to_line_full("x", false),
            LineKind::Add.to_line_full("y", false),
            LineKind::Context.to_line(""),
        ]
    );
    assert_eq!(p.hunks[1].old_range, Range { start: 5, count: 1 });
}

#[test]
fn binary_line_and_content_line_rules() {
    let cs: Vec<char> = "Binary files a b and c differ \nrest".chars().collect();
    let (end, p) = binary_files_differ(&cs, 0).unwrap();
    assert_eq!(cs[end..].iter().collect::<String>(), "rest");
    assert_eq!((p.old.path.as_str(), p.new.path.as_str()), ("a b", "c"));
    let cs: Vec<char> = "Binary files a b differ\n".chars().collect();
    assert!(binary_files_differ(&cs, 0).is_none());
    let cs: Vec<char> = "text\r\n\\ No newline at end of file\nnext".chars().collect();
    let (end, text, missing) = consume_content_line(&cs, 0).unwrap();
    assert_eq!((text.as_str(), missing), ("text", true));
    assert_eq!(cs[end..].iter().collect::<String>(), "next");
    let cs: Vec<char> = "text\nnext".chars().collect();
    let (end, text, missing) = consume_content_line(&cs, 0).unwrap();
    assert_eq!((text.as_str(), missing, end), ("text", false, 5));
}

#[test]
fn escaped_text_at_the_end_unescapes() {
    let cs: Vec<char> = "a\\tb\\\\ \\\"c".chars().collect();
    let (end, text) = unescaped_str(&cs, 0).unwrap();
    assert_eq!(end, cs.len());
    assert_eq!(text, "a\tb\\ \"c");
    let cs: Vec<char> = "x\\ny\"rest".chars().collect();
    let (end, text) = unescaped_str(&cs, 0).unwrap();
    assert_eq!((end, text.as_str()), (4, "x\ny"));
}

#[test]
fn rename_whose_names_do_not_split_is_written_as_rename_lines() {
    let s = "diff --git a/x b/y\nsimilarity index 100%\nrename from a and b\nrename to c\n";
    let ps = Patch::from_multiple(s).unwrap();
    assert_eq!((ps[0].old.path.as_str(), ps[0].new.path.as_str()), ("a and b", "c"));
    let written = format_patches(&ps);
    assert_eq!(
        written,
        "diff --git a/a and b b/c\nsimilarity index 100%\nrename from a and b\nrename to c\n"
    );
    assert_eq!(Patch::from_multiple(&written).unwrap(), ps);
    let plain = binary_patch("a", "b");
    assert_eq!(plain.to_string(), "Binary files a and b differ");
}
