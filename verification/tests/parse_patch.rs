use chrono::{DateTime, Datelike, Timelike};
use gitpatch::{File, FileMetadata, LineKind, ParseError, Patch, Timestamp};

/// The timestamp that chrono reads from an RFC 3339 text.
fn rfc3339(text: &str) -> Timestamp {
    let t = DateTime::parse_from_rfc3339(text).unwrap();
    Timestamp {
        year: t.year(),
        month: t.month(),
        day: t.day(),
        hour: t.hour(),
        minute: t.minute(),
        second: t.second(),
        nanosecond: t.nanosecond(),
        offset_seconds: t.offset().local_minus_utc(),
    }
}

#[test]
fn test_parse() -> Result<(), ParseError> {
    let sample = "\
--- before.py
+++ after.py
@@ -1,4 +1,4 @@
-bacon
-eggs
-ham
+python
+eggy
+hamster
 guido\n";
    let patch = Patch::from_single(sample)?;
    assert_eq!(
        patch.old,
        File {
            path: "before.py".into(),
            meta: None
        }
    );
    assert_eq!(
        patch.new,
        File {
            path: "after.py".into(),
            meta: None
        }
    );
    assert!(!patch.new_missing_newline);

    assert_eq!(format!("{}\n", patch.to_string()), sample);

    Ok(())
}

#[test]
fn test_parse_no_newline_indicator() -> Result<(), ParseError> {
    let sample = "\
--- before.py
+++ after.py
@@ -1,4 +1,4 @@
-bacon
-eggs
-ham
+python
+eggy
+hamster
 guido
\\ No newline at end of file\n";
    let patch = Patch::from_single(sample)?;
    assert_eq!(
        patch.old,
        File {
            path: "before.py".into(),
            meta: None
        }
    );
    assert_eq!(
        patch.new,
        File {
            path: "after.py".into(),
            meta: None
        }
    );
    assert!(patch.new_missing_newline);

    assert_eq!(format!("{}\n", patch.to_string()), sample);

    Ok(())
}

#[test]
fn test_parse_timestamps() -> Result<(), ParseError> {
    let sample = "\
--- before.py\t2002-02-21 23:30:39.942229878 -0800
+++ after.py\t2002-02-21 23:30:50 -0800
@@ -1,4 +1,4 @@
-bacon
-eggs
-ham
+python
+eggy
+hamster
 guido
\\ No newline at end of file";
    let patch = Patch::from_single(sample)?;
    assert_eq!(
        patch.old,
        File {
            path: "before.py".into(),
            meta: Some(FileMetadata::DateTime(rfc3339(
                "2002-02-21T23:30:39.942229878-08:00"
            ))),
        }
    );
    assert_eq!(
        patch.new,
        File {
            path: "after.py".into(),
            meta: Some(FileMetadata::DateTime(rfc3339("2002-02-21T23:30:50-08:00"))),
        }
    );
    assert!(patch.new_missing_newline);

    // to_string() adds no trailing newline
    assert_eq!(patch.to_string(), sample);

    Ok(())
}

#[test]
fn test_parse_other() -> Result<(), ParseError> {
    let sample = "\
--- before.py\t08f78e0addd5bf7b7aa8887e406493e75e8d2b55
+++ after.py\te044048282ce75186ecc7a214fd3d9ba478a2816
@@ -1,4 +1,4 @@
-bacon
-eggs
-ham
+python
+eggy
+hamster
 guido\n";
    let patch = Patch::from_single(sample)?;
    assert_eq!(
        patch.old,
        File {
            path: "before.py".into(),
            meta: Some(FileMetadata::Other(
                "08f78e0addd5bf7b7aa8887e406493e75e8d2b55".into()
            )),
        }
    );
    assert_eq!(
        patch.new,
        File {
            path: "after.py".into(),
            meta: Some(FileMetadata::Other(
                "e044048282ce75186ecc7a214fd3d9ba478a2816".into()
            )),
        }
    );
    assert!(!patch.new_missing_newline);

    assert_eq!(format!("{}\n", patch.to_string()), sample);

    Ok(())
}

#[test]
fn test_parse_escaped() -> Result<(), ParseError> {
    let sample = "\
--- before.py\t\"asdf \\\\ \\n \\t \\0 \\r \\\" \"
+++ \"My Work/after.py\"\t\"My project is cool! Wow!!; SELECT * FROM USERS;\"
@@ -1,4 +1,4 @@
-bacon
-eggs
-ham
+python
+eggy
+hamster
 guido\n";
    let patch = Patch::from_single(sample)?;
    assert_eq!(
        patch.old,
        File {
            path: "before.py".into(),
            meta: Some(FileMetadata::Other("asdf \\ \n \t \0 \r \" ".into())),
        }
    );
    assert_eq!(
        patch.new,
        File {
            path: "My Work/after.py".into(),
            meta: Some(FileMetadata::Other(
                "My project is cool! Wow!!; SELECT * FROM USERS;".into()
            )),
        }
    );
    assert!(!patch.new_missing_newline);

    assert_eq!(format!("{}\n", patch.to_string()), sample);

    Ok(())
}

#[test]
fn test_parse_triple_plus_minus() -> Result<(), ParseError> {
    // Lines starting with +++ or --- followed by a space are taken for headers;
    // without the space they are ordinary added and removed lines.
    let sample = r#"--- main.c
+++ main.c
@@ -1,4 +1,7 @@
+#include<stdio.h>
+
 int main() {
 double a;
---a;
+++a;
+printf("%d\n", a);
 }
"#;
    let patches = Patch::from_multiple(sample).unwrap();
    assert_eq!(patches.len(), 1);

    let patch = &patches[0];
    assert_eq!(
        patch.old,
        File {
            path: "main.c".into(),
            meta: None
        }
    );
    assert_eq!(
        patch.new,
        File {
            path: "main.c".into(),
            meta: None
        }
    );
    assert!(!patch.new_missing_newline);

    assert_eq!(patch.hunks.len(), 1);
    assert_eq!(patch.hunks[0].lines.len(), 8);

    assert_eq!(format!("{}\n", patch.to_string()), sample);

    Ok(())
}

// The hunk ranges are not used to decide where a hunk ends, so a removed line
// "-- a;" and an added line "++ a;" are taken for the headers of a new patch.
#[test]
#[should_panic]
fn test_parse_triple_plus_minus_hack() {
    let sample = r#"--- main.c
+++ main.c
@@ -1,4 +1,7 @@
+#include<stdio.h>
+
 int main() {
 double a;
--- a;
+++ a;
+printf("%d\n", a);
 }
"#;
    let patches = Patch::from_multiple(sample).unwrap();
    assert_eq!(patches.len(), 1);

    let patch = &patches[0];
    assert_eq!(
        patch.old,
        File {
            path: "main.c".into(),
            meta: None
        }
    );
    assert_eq!(
        patch.new,
        File {
            path: "main.c".into(),
            meta: None
        }
    );
    assert!(!patch.new_missing_newline);

    assert_eq!(patch.hunks.len(), 1);
    assert_eq!(patch.hunks[0].lines.len(), 8);

    assert_eq!(format!("{}\n", patch.to_string()), sample);
}

#[test]
fn binary_diff_with_crlf() {
    let sample = "Binary files old.bin and new.bin differ\r\n";

    let patch = Patch::from_single(sample).unwrap();
    assert_eq!(patch.old.path, "old.bin");
    assert_eq!(patch.old.meta, None);
    assert_eq!(patch.new.path, "new.bin");
    assert_eq!(patch.new.meta, None);
    assert_eq!(patch.hunks, []);
}

#[test]
fn binary_diff_with_ambiguous_names() {
    // The main goal here is that this doesn't crash or error:
    // the format with quotes means for some names there is no
    // unambiguous meaning.
    let sample = "Binary files a differ program and a patcher binary and a wiggler differ\r\n";

    let patch = Patch::from_single(sample).unwrap();
    assert_eq!(patch.old.path, "a differ program");
    assert_eq!(patch.old.meta, None);
    assert_eq!(patch.new.path, "a patcher binary and a wiggler");
    assert_eq!(patch.new.meta, None);
    assert_eq!(patch.hunks, []);
}

#[test]
fn binary_diff_with_spaces_in_name() {
    let sample = "Binary files an old binary and a new binary differ\n";

    let patch = Patch::from_single(sample).unwrap();
    assert_eq!(patch.old.path, "an old binary");
    assert_eq!(patch.old.meta, None);
    assert_eq!(patch.new.path, "a new binary");
    assert_eq!(patch.new.meta, None);
    assert_eq!(patch.hunks, []);
}

#[test]
fn single_binary_diff() {
    let sample = "Binary files old.bin and new.bin differ\n";

    let patch = Patch::from_single(sample).unwrap();
    assert_eq!(patch.old.path, "old.bin");
    assert_eq!(patch.old.meta, None);
    assert_eq!(patch.new.path, "new.bin");
    assert_eq!(patch.new.meta, None);
    assert_eq!(patch.hunks, []);
}

#[test]
fn multiple_binary_diffs() {
    let sample = "Binary files old.bin and new.bin differ
Binary files old1.bin and new1.bin differ
";
    let patches = Patch::from_multiple(sample).unwrap();
    assert_eq!(patches.len(), 2);
    assert_eq!(patches[0].old.path, "old.bin");
    assert_eq!(patches[1].old.path, "old1.bin");
}

#[test]
fn binary_diff_with_text_diff() {
    let sample = "\
--- before.py
+++ after.py
@@ -1,4 +1,4 @@
-bacon
-eggs
-ham
+python
+eggy
+hamster
 guido
Binary files old.bin and new.bin differ
";
    let patches = Patch::from_multiple(sample).unwrap();
    assert_eq!(patches.len(), 2);
    assert_eq!(patches[0].old.path, "before.py");
    assert_eq!(patches[1].old.path, "old.bin");
}

#[test]
fn parses_file_renames_with_some_diff() {
    let sample = "\
diff --git a/src/ast.rs b/src/ast-2.rs
similarity index 99%
rename from src/ast.rs
rename to src/ast-2.rs
index d923f10..b47f160 100644
--- a/src/ast.rs
+++ b/src/ast-2.rs
@@ -4,6 +4,7 @@ use std::fmt;
 use chrono::{DateTime, FixedOffset};
 
 use crate::parser::{parse_multiple_patches, parse_single_patch, ParseError};
+use new_crate;
 
 /// A complete patch summarizing the differences between two files
 #[derive(Debug, Clone, Eq, PartialEq)]
";

    let patches = Patch::from_multiple(sample).unwrap();
    assert_eq!(patches.len(), 1);
    assert_eq!(patches[0].old.path, "a/src/ast.rs");
    assert_eq!(patches[0].new.path, "b/src/ast-2.rs");

    assert!(patches[0].hunks[0]
        .lines
        .iter()
        .any(|line| line.kind == LineKind::Add && line.content == "use new_crate;"));
}

#[test]
fn parses_file_rename_with_100_pct_similarity() {
    let sample = "\
diff --git a/original-path.rs b/new-path.rs
similarity index 100%
rename from original-path.rs
rename to new-path.rs
";

    let patches = Patch::from_multiple(sample).unwrap();

    assert_eq!(patches.len(), 1);
    assert_eq!(patches[0].old.path, "original-path.rs");
    assert_eq!(patches[0].new.path, "new-path.rs");
    assert!(patches[0].hunks.is_empty());
}

#[test]
fn binary_diff_interspersed_with_text_diff() {
    let sample = "\
--- before.py
+++ after.py
@@ -1,4 +1,4 @@
-bacon
-eggs
-ham
+python
+eggy
+hamster
 guido
Binary files old.bin and new.bin differ
--- before2.py
+++ after2.py
@@ -1,4 +1,4 @@
-bacon
-eggs
-ham
+python
+eggy
+hamster
 guido
Binary files old2.bin and new2.bin differ
";
    let patches = Patch::from_multiple(sample).unwrap();
    assert_eq!(patches.len(), 4);
    assert_eq!(patches[0].old.path, "before.py");
    assert_eq!(patches[1].old.path, "old.bin");
    assert_eq!(patches[2].new.path, "after2.py");
    assert_eq!(patches[3].new.path, "new2.bin");
}

#[test]
fn timestamps_are_equal_where_their_instants_are() {
    let stamps = [
        "2002-02-21T23:30:39.942229878+01:00",
        "2002-02-21T22:30:39.942229878+00:00",
        "2002-02-21T22:30:39+00:00",
        "2002-03-01T00:30:00+01:00",
        "2002-02-28T23:30:00+00:00",
        "2000-02-29T23:59:59-05:30",
        "2000-03-01T05:29:59+00:00",
        "1969-12-31T23:00:00-01:00",
        "1970-01-01T00:00:00Z",
        "0001-01-01T00:00:00+00:00",
        "9999-12-31T23:59:59+14:00",
    ];
    for a in stamps {
        for b in stamps {
            let same = DateTime::parse_from_rfc3339(a).unwrap() == DateTime::parse_from_rfc3339(b).unwrap();
            assert_eq!(rfc3339(a) == rfc3339(b), same, "{} {}", a, b);
        }
    }
    assert_eq!(rfc3339("2002-02-21T23:30:39+01:00"), rfc3339("2002-02-21T22:30:39Z"));
}
