//! The values that a patch file is parsed into, and their mathematical models.
use vstd::prelude::*;

verus! {

/// A complete patch summarizing the differences between two files.
#[derive(Debug, Clone, PartialEq, Eq)]
pub struct Patch {
    /// The file information of the `-` side of the diff, line prefix: `---`
    pub old: File,
    /// The file information of the `+` side of the diff, line prefix: `+++`
    pub new: File,
    /// The hunks of the patch; empty for a binary file or a bare rename
    pub hunks: Vec<Hunk>,
    /// Whether the last line of the old file lacks a final line feed
    pub old_missing_newline: bool,
    /// Whether the last line of the new file lacks a final line feed
    pub new_missing_newline: bool,
}

/// The name of a file and its optional metadata.
#[derive(Debug, Clone, PartialEq, Eq)]
pub struct File {
    /// The parsed path, unescaped where it was quoted
    pub path: String,
    /// What follows the path on its header line, if anything
    pub meta: Option<FileMetadata>,
}

/// The metadata that can follow a file name in a header line.
#[derive(Debug, Clone, PartialEq, Eq)]
pub enum FileMetadata {
    /// A date and time, as diff writes them
    DateTime(Timestamp),
    /// Any other text, such as a commit hash
    Other(String),
}

/// A date and time with a fixed offset from UTC, in the calendar fields that
/// chrono reports for the local time. Two timestamps are equal where they
/// denote the same instant, whatever their offsets.
#[derive(Debug, Clone, Copy, Eq)]
pub struct Timestamp {
    pub year: i32,
    pub month: u32,
    pub day: u32,
    pub hour: u32,
    pub minute: u32,
    pub second: u32,
    pub nanosecond: u32,
    /// Seconds east of UTC
    pub offset_seconds: i32,
}

/// Whether `y` is a leap year of the proleptic Gregorian calendar.
pub open spec fn is_leap_year(y: int) -> bool {
    (y % 4 == 0 && y % 100 != 0) || y % 400 == 0
}

/// The number of days of month `m` of year `y`.
pub open spec fn days_in_month(y: int, m: int) -> int {
    if m == 2 {
        if is_leap_year(y) { 29 } else { 28 }
    } else if m == 4 || m == 6 || m == 9 || m == 11 {
        30
    } else {
        31
    }
}

impl Timestamp {
    /// The number of the calendar day of the local date, counted from a fixed
    /// day far in the past (March-based years of 400-year eras).
    pub open spec fn day_number(self) -> int {
        let y = self.year + 2147484000 - (if self.month <= 2 { 1int } else { 0int });
        let era = y / 400;
        let yoe = y % 400;
        let mp = (self.month + 9) % 12;
        let doy = (153 * mp + 2) / 5 + self.day;
        era * 146097 + yoe * 365 + yoe / 4 - yoe / 100 + doy
    }

    /// A date and time that chrono can hold and write in any offset: a year
    /// well inside chrono's range, a day of the proleptic Gregorian calendar, a
    /// time of day without a leap second, and an offset of less than a day.
    pub open spec fn is_valid(self) -> bool {
        &&& -262000 <= self.year <= 262000
        &&& 1 <= self.month <= 12
        &&& 1 <= self.day <= days_in_month(self.year as int, self.month as int)
        &&& self.hour < 24
        &&& self.minute < 60
        &&& self.second < 60
        &&& self.nanosecond < 1_000_000_000
        &&& -86400 < self.offset_seconds < 86400
    }

    /// The instant: whole seconds in UTC since a fixed epoch, and the nanoseconds.
    pub open spec fn instant(self) -> (int, u32) {
        (
            self.day_number() * 86400 + self.hour * 3600 + self.minute * 60 + self.second
                - self.offset_seconds,
            self.nanosecond,
        )
    }
}

impl PartialEq for Timestamp {
    fn eq(&self, other: &Self) -> (r: bool) {
        let a = crate::timestamp::instant_of(self);
        let b = crate::timestamp::instant_of(other);
        a.0 == b.0 && a.1 == b.1
    }
}

impl vstd::std_specs::cmp::PartialEqSpecImpl for Timestamp {
    open spec fn obeys_eq_spec() -> bool {
        true
    }

    open spec fn eq_spec(&self, other: &Self) -> bool {
        self.instant() == other.instant()
    }
}

/// One hunk of a patch: a header with the two line ranges and the lines.
#[derive(Debug, Clone, PartialEq, Eq)]
pub struct Hunk {
    /// The lines of the old file that the hunk covers
    pub old_range: Range,
    /// The lines of the new file that the hunk covers
    pub new_range: Range,
    /// The text after the closing `@@` of the hunk header (git puts a hint there)
    pub range_hint: String,
    /// The lines of the hunk
    pub lines: Vec<Line>,
    /// Whether the last old-side line of the hunk lacks a final line feed
    pub old_missing_newline: bool,
    /// Whether the last new-side line of the hunk lacks a final line feed
    pub new_missing_newline: bool,
}

/// A range of lines: the first line and how many there are.
#[derive(Debug, Clone, Copy, PartialEq, Eq)]
pub struct Range {
    pub start: u64,
    pub count: u64,
}

/// The three kinds of hunk lines.
#[derive(Debug, Clone, Copy, PartialEq, Eq, Structural)]
pub enum LineKind {
    /// A line present only in the new file, prefix `+`
    Add,
    /// A line present only in the old file, prefix `-`
    Remove,
    /// A line present in both files, prefix ` `
    Context,
}

/// One line of a hunk.
#[derive(Debug, Clone, PartialEq, Eq)]
pub struct Line {
    pub kind: LineKind,
    /// The text of the line, without its prefix and its line ending
    pub content: String,
    /// Whether the line is followed by the "\ No newline at end of file" marker
    pub missing_newline: bool,
}

/// Model of a `Line`.
pub struct SpecLine {
    pub kind: LineKind,
    pub content: Seq<char>,
    pub missing_newline: bool,
}

/// Model of a `Hunk`.
pub struct SpecHunk {
    pub old_range: Range,
    pub new_range: Range,
    pub range_hint: Seq<char>,
    pub lines: Seq<SpecLine>,
    pub old_missing_newline: bool,
    pub new_missing_newline: bool,
}

/// Model of a `FileMetadata`.
pub enum SpecMetadata {
    DateTime(Timestamp),
    Other(Seq<char>),
}

/// Model of a `File`.
pub struct SpecFile {
    pub path: Seq<char>,
    pub meta: Option<SpecMetadata>,
}

/// Model of a `Patch`.
pub struct SpecPatch {
    pub old: SpecFile,
    pub new: SpecFile,
    pub hunks: Seq<SpecHunk>,
    pub old_missing_newline: bool,
    pub new_missing_newline: bool,
}

impl View for Range {
    type V = Range;

    open spec fn view(&self) -> Range {
        *self
    }
}

impl View for Line {
    type V = SpecLine;

    open spec fn view(&self) -> SpecLine {
        SpecLine { kind: self.kind, content: self.content@, missing_newline: self.missing_newline }
    }
}

impl View for Hunk {
    type V = SpecHunk;

    open spec fn view(&self) -> SpecHunk {
        SpecHunk {
            old_range: self.old_range,
            new_range: self.new_range,
            range_hint: self.range_hint@,
            lines: self.lines@.map_values(|l: Line| l@),
            old_missing_newline: self.old_missing_newline,
            new_missing_newline: self.new_missing_newline,
        }
    }
}

impl View for FileMetadata {
    type V = SpecMetadata;

    open spec fn view(&self) -> SpecMetadata {
        match self {
            FileMetadata::DateTime(t) => SpecMetadata::DateTime(*t),
            FileMetadata::Other(text) => SpecMetadata::Other(text@),
        }
    }
}

impl View for File {
    type V = SpecFile;

    open spec fn view(&self) -> SpecFile {
        SpecFile {
            path: self.path@,
            meta: match self.meta {
                Some(m) => Some(m@),
                None => None,
            },
        }
    }
}

impl View for Patch {
    type V = SpecPatch;

    open spec fn view(&self) -> SpecPatch {
        SpecPatch {
            old: self.old@,
            new: self.new@,
            hunks: self.hunks@.map_values(|h: Hunk| h@),
            old_missing_newline: self.old_missing_newline,
            new_missing_newline: self.new_missing_newline,
        }
    }
}

/// The models of a sequence of patches.
pub open spec fn patches_view(ps: Seq<Patch>) -> Seq<SpecPatch> {
    ps.map_values(|p: Patch| p@)
}

/// The line kinds that belong to the old file.
pub open spec fn on_old_side(kind: LineKind) -> bool {
    kind != LineKind::Add
}

/// The line kinds that belong to the new file.
pub open spec fn on_new_side(kind: LineKind) -> bool {
    kind != LineKind::Remove
}

/// Whether the last old-side line among `lines` lacks a final line feed
/// (false when there is none).
pub open spec fn old_side_missing_newline(lines: Seq<SpecLine>) -> bool
    decreases lines.len(),
{
    if lines.len() == 0 {
        false
    } else if on_old_side(lines.last().kind) {
        lines.last().missing_newline
    } else {
        old_side_missing_newline(lines.drop_last())
    }
}

/// Whether the last new-side line among `lines` lacks a final line feed
/// (false when there is none).
pub open spec fn new_side_missing_newline(lines: Seq<SpecLine>) -> bool
    decreases lines.len(),
{
    if lines.len() == 0 {
        false
    } else if on_new_side(lines.last().kind) {
        lines.last().missing_newline
    } else {
        new_side_missing_newline(lines.drop_last())
    }
}

impl LineKind {
    /// A line of this kind with the given text, followed by a line feed.
    pub fn to_line(&self, content: &str) -> (line: Line)
        ensures
            line@ == (SpecLine { kind: *self, content: content@, missing_newline: false }),
    {
        self.to_line_full(content, false)
    }

    /// A line of this kind with the given text.
    pub fn to_line_full(&self, content: &str, missing_newline: bool) -> (line: Line)
        ensures
            line@ == (SpecLine { kind: *self, content: content@, missing_newline }),
    {
        Line { kind: *self, content: content.to_owned(), missing_newline }
    }
}

} // verus!
