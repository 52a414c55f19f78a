use chrono::{DateTime, Datelike, Timelike};
use gitpatch::error::Failure;
use gitpatch::parser::{
    bare, chunk, chunk_header, filename, header_line_content, headers, patch, quoted, range,
    unescaped_str,
};
use gitpatch::{File, FileMetadata, Hunk, LineKind, Patch, Range, Timestamp};

/// The timestamp that chrono reads from an RFC 3339 text.
fn rfc3339(text: &str) -> Timestamp {
    let t = DateTime::parse_from_rfc3339(text).unwrap();
    Timestamp {
        year: t.year(),
        month: t.month(),
        day: t.day(),
        hour: t.hour(),
        minute: t.minute(),
        second: t.second(),
        nanosecond: t.nanosecond(),
        offset_seconds: t.offset().local_minus_utc(),
    }
}

/// Runs a rule on the whole of `input`; gives what is left and what was read.
fn run<T>(
    rule: fn(&[char], usize) -> Result<(usize, T), Failure>,
    input: &str,
) -> (String, T) {
    let cs: Vec<char> = input.chars().collect();
    let (end, value) = rule(&cs, 0).unwrap();
    (cs[end..].iter().collect(), value)
}

/// Runs a rule whose failures are not reported on the whole of `input`.
fn run_opt<T>(rule: fn(&[char], usize) -> Option<(usize, T)>, input: &str) -> (String, T) {
    let cs: Vec<char> = input.chars().collect();
    let (end, value) = rule(&cs, 0).unwrap();
    (cs[end..].iter().collect(), value)
}

#[test]
fn test_unescape() {
    assert_eq!(
        run_opt(unescaped_str, "file \\\"name\\\""),
        ("".to_string(), "file \"name\"".to_string())
    );
}

#[test]
fn test_quoted() {
    assert_eq!(
        run_opt(quoted, "\"file name\""),
        ("".to_string(), "file name".to_string())
    );
}

#[test]
fn test_bare() {
    assert_eq!(run(bare, "file-name "), ("".to_string(), "file-name ".to_string()));
    assert_eq!(run(bare, "file-name\t"), ("\t".to_string(), "file-name".to_string()));
    assert_eq!(run(bare, "file-name\n"), ("\n".to_string(), "file-name".to_string()));
}

#[test]
fn test_filename() {
    // bare
    assert_eq!(run(filename, "asdf\t"), ("\t".to_string(), "asdf".to_string()));

    // quoted
    assert_eq!(
        run(filename, r#""a/My Project/src/foo.rs" "#),
        (" ".to_string(), "a/My Project/src/foo.rs".to_string())
    );
    assert_eq!(
        run(filename, r#""\"asdf\" fdsh \\\t\r" "#),
        (" ".to_string(), "\"asdf\" fdsh \\\t\r".to_string())
    );
    assert_eq!(
        run(filename, r#""a s\"\nd\0f" "#),
        (" ".to_string(), "a s\"\nd\0f".to_string())
    );
}

#[test]
fn test_header_line_contents() {
    assert_eq!(
        run(header_line_content, "lao\n"),
        (
            "\n".to_string(),
            File {
                path: "lao".into(),
                meta: None,
            }
        )
    );

    assert_eq!(
        run(header_line_content, "lao\t2002-02-21 23:30:39.942229878 -0800\n"),
        (
            "\n".to_string(),
            File {
                path: "lao".into(),
                meta: Some(FileMetadata::DateTime(rfc3339(
                    "2002-02-21T23:30:39.942229878-08:00"
                ))),
            }
        )
    );

    assert_eq!(
        run(header_line_content, "lao\t2002-02-21 23:30:39 -0800\n"),
        (
            "\n".to_string(),
            File {
                path: "lao".into(),
                meta: Some(FileMetadata::DateTime(rfc3339("2002-02-21T23:30:39-08:00"))),
            }
        )
    );

    assert_eq!(
        run(header_line_content, "lao\t08f78e0addd5bf7b7aa8887e406493e75e8d2b55\n"),
        (
            "\n".to_string(),
            File {
                path: "lao".into(),
                meta: Some(FileMetadata::Other(
                    "08f78e0addd5bf7b7aa8887e406493e75e8d2b55".into()
                )),
            }
        )
    );
}

#[test]
fn test_headers() {
    let sample = "\
--- lao	2002-02-21 23:30:39.942229878 -0800
+++ tzu	2002-02-21 23:30:50.442260588 -0800\n";
    assert_eq!(
        run(headers, sample),
        (
            "".to_string(),
            (
                File {
                    path: "lao".into(),
                    meta: Some(FileMetadata::DateTime(rfc3339(
                        "2002-02-21T23:30:39.942229878-08:00"
                    ))),
                },
                File {
                    path: "tzu".into(),
                    meta: Some(FileMetadata::DateTime(rfc3339(
                        "2002-02-21T23:30:50.442260588-08:00"
                    ))),
                },
            )
        )
    );

    let sample2 = "\
--- lao
+++ tzu\n";
    assert_eq!(
        run(headers, sample2),
        (
            "".to_string(),
            (
                File { path: "lao".into(), meta: None },
                File { path: "tzu".into(), meta: None },
            )
        )
    );

    // note: the trailing tab after tzu is intentional and significant here
    let sample2b = "\
--- lao
+++ tzu	\n";
    assert_eq!(
        run(headers, sample2b),
        (
            "".to_string(),
            (
                File { path: "lao".into(), meta: None },
                File { path: "tzu".into(), meta: None },
            )
        )
    );

    let sample3 = "\
--- lao	08f78e0addd5bf7b7aa8887e406493e75e8d2b55
+++ tzu	e044048282ce75186ecc7a214fd3d9ba478a2816\n";
    assert_eq!(
        run(headers, sample3),
        (
            "".to_string(),
            (
                File {
                    path: "lao".into(),
                    meta: Some(FileMetadata::Other(
                        "08f78e0addd5bf7b7aa8887e406493e75e8d2b55".into()
                    )),
                },
                File {
                    path: "tzu".into(),
                    meta: Some(FileMetadata::Other(
                        "e044048282ce75186ecc7a214fd3d9ba478a2816".into()
                    )),
                },
            )
        )
    );
}

#[test]
fn test_headers_crlf() {
    let sample = "\
--- lao	2002-02-21 23:30:39.942229878 -0800\r
+++ tzu	2002-02-21 23:30:50.442260588 -0800\r\n";
    assert_eq!(
        run(headers, sample),
        (
            "".to_string(),
            (
                File {
                    path: "lao".into(),
                    meta: Some(FileMetadata::DateTime(rfc3339(
                        "2002-02-21T23:30:39.942229878-08:00"
                    ))),
                },
                File {
                    path: "tzu".into(),
                    meta: Some(FileMetadata::DateTime(rfc3339(
                        "2002-02-21T23:30:50.442260588-08:00"
                    ))),
                },
            )
        )
    );
}

#[test]
fn test_range() {
    assert_eq!(run(range, "1,7"), ("".to_string(), Range { start: 1, count: 7 }));
    assert_eq!(run(range, "2"), ("".to_string(), Range { start: 2, count: 1 }));
}

#[test]
fn test_chunk_header() {
    assert_eq!(
        run(chunk_header, "@@ -1,7 +1,6 @@ foo bar\n"),
        (
            "".to_string(),
            (
                Range { start: 1, count: 7 },
                Range { start: 1, count: 6 },
                " foo bar".to_string(),
            )
        )
    );
}

fn first_hunk() -> Hunk {
    Hunk {
        old_range: Range { start: 1, count: 7 },
        new_range: Range { start: 1, count: 6 },
        range_hint: "".to_string(),
        old_missing_newline: false,
        new_missing_newline: false,
        lines: vec![
            LineKind::Remove.to_line("The Way that can be told of is not the eternal Way;"),
            LineKind::Remove.to_line("The name that can be named is not the eternal name."),
            LineKind::Context.to_line("The Nameless is the origin of Heaven and Earth;"),
            LineKind::Remove.to_line("The Named is the mother of all things."),
            LineKind::Add.to_line("The named is the mother of all things."),
            LineKind::Add.to_line(""),
            LineKind::Context.to_line("Therefore let there always be non-being,"),
            LineKind::Context.to_line("  so we may see their subtlety,"),
            LineKind::Context.to_line("And let there always be being,"),
        ],
    }
}

#[test]
fn test_chunk() {
    let sample = "\
@@ -1,7 +1,6 @@
-The Way that can be told of is not the eternal Way;
-The name that can be named is not the eternal name.
 The Nameless is the origin of Heaven and Earth;
-The Named is the mother of all things.
+The named is the mother of all things.
+
 Therefore let there always be non-being,
   so we may see their subtlety,
 And let there always be being,\n";
    assert_eq!(run(chunk, sample), ("".to_string(), first_hunk()));
}

#[test]
fn test_patch() {
    // https://www.gnu.org/software/diffutils/manual/html_node/Example-Unified.html
    let sample = "\
--- lao	2002-02-21 23:30:39.942229878 -0800
+++ tzu	2002-02-21 23:30:50.442260588 -0800
@@ -1,7 +1,6 @@
-The Way that can be told of is not the eternal Way;
-The name that can be named is not the eternal name.
 The Nameless is the origin of Heaven and Earth;
-The Named is the mother of all things.
+The named is the mother of all things.
+
 Therefore let there always be non-being,
   so we may see their subtlety,
 And let there always be being,
@@ -9,3 +8,6 @@
 The two are the same,
 But after they are produced,
   they have different names.
+They both may be called deep and profound.
+Deeper and more profound,
+The door of all subtleties!\n";

    let expected = Patch {
        old: File {
            path: "lao".into(),
            meta: Some(FileMetadata::DateTime(rfc3339("2002-02-21T23:30:39.942229878-08:00"))),
        },
        new: File {
            path: "tzu".into(),
            meta: Some(FileMetadata::DateTime(rfc3339("2002-02-21T23:30:50.442260588-08:00"))),
        },
        old_missing_newline: false,
        new_missing_newline: false,
        hunks: vec![
            first_hunk(),
            Hunk {
                old_range: Range { start: 9, count: 3 },
                new_range: Range { start: 8, count: 6 },
                range_hint: "".to_string(),
                old_missing_newline: false,
                new_missing_newline: false,
                lines: vec![
                    LineKind::Context.to_line("The two are the same,"),
                    LineKind::Context.to_line("But after they are produced,"),
                    LineKind::Context.to_line("  they have different names."),
                    LineKind::Add.to_line("They both may be called deep and profound."),
                    LineKind::Add.to_line("Deeper and more profound,"),
                    LineKind::Add.to_line("The door of all subtleties!"),
                ],
            },
        ],
    };

    assert_eq!(run(patch, sample), ("".to_string(), expected.clone()));

    assert_eq!(format!("{}\n", expected.to_string()), sample);
}
