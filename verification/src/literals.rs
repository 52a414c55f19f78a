//! The fixed pieces of text of the unified diff format.
use vstd::prelude::*;

verus! {

/// The start of the header line of the old file.
pub open spec fn old_file_tag() -> Seq<char> {
    seq!['-', '-', '-', ' ']
}

/// The characters of [`old_file_tag`].
pub fn old_file_tag_chars() -> (r: [char; 4])
    ensures
        r@ == old_file_tag(),
{
    let r = ['-', '-', '-', ' '];
    assert(r@ =~= old_file_tag());
    r
}

/// The start of the header line of the new file.
pub open spec fn new_file_tag() -> Seq<char> {
    seq!['+', '+', '+', ' ']
}

/// The characters of [`new_file_tag`].
pub fn new_file_tag_chars() -> (r: [char; 4])
    ensures
        r@ == new_file_tag(),
{
    let r = ['+', '+', '+', ' '];
    assert(r@ =~= new_file_tag());
    r
}

/// The start of a hunk header.
pub open spec fn hunk_tag() -> Seq<char> {
    seq!['@', '@', ' ', '-']
}

/// The characters of [`hunk_tag`].
pub fn hunk_tag_chars() -> (r: [char; 4])
    ensures
        r@ == hunk_tag(),
{
    let r = ['@', '@', ' ', '-'];
    assert(r@ =~= hunk_tag());
    r
}

/// What separates the two ranges of a hunk header.
pub open spec fn new_range_tag() -> Seq<char> {
    seq![' ', '+']
}

/// The characters of [`new_range_tag`].
pub fn new_range_tag_chars() -> (r: [char; 2])
    ensures
        r@ == new_range_tag(),
{
    let r = [' ', '+'];
    assert(r@ =~= new_range_tag());
    r
}

/// What closes the ranges of a hunk header.
pub open spec fn hunk_end_tag() -> Seq<char> {
    seq![' ', '@', '@']
}

/// The characters of [`hunk_end_tag`].
pub fn hunk_end_tag_chars() -> (r: [char; 3])
    ensures
        r@ == hunk_end_tag(),
{
    let r = [' ', '@', '@'];
    assert(r@ =~= hunk_end_tag());
    r
}

/// The line that marks a missing final line feed.
pub open spec fn no_newline_marker() -> Seq<char> {
    seq!['\\', ' ', 'N', 'o', ' ', 'n', 'e', 'w', 'l', 'i', 'n', 'e', ' ', 'a', 't', ' ', 'e', 'n', 'd', ' ', 'o', 'f', ' ', 'f', 'i', 'l', 'e']
}

/// The characters of [`no_newline_marker`].
pub fn no_newline_marker_chars() -> (r: [char; 27])
    ensures
        r@ == no_newline_marker(),
{
    let r = ['\\', ' ', 'N', 'o', ' ', 'n', 'e', 'w', 'l', 'i', 'n', 'e', ' ', 'a', 't', ' ', 'e', 'n', 'd', ' ', 'o', 'f', ' ', 'f', 'i', 'l', 'e'];
    assert(r@ =~= no_newline_marker());
    r
}

/// The start of the line that reports differing binary files.
pub open spec fn binary_tag() -> Seq<char> {
    seq!['B', 'i', 'n', 'a', 'r', 'y', ' ', 'f', 'i', 'l', 'e', 's', ' ']
}

/// The characters of [`binary_tag`].
pub fn binary_tag_chars() -> (r: [char; 13])
    ensures
        r@ == binary_tag(),
{
    let r = ['B', 'i', 'n', 'a', 'r', 'y', ' ', 'f', 'i', 'l', 'e', 's', ' '];
    assert(r@ =~= binary_tag());
    r
}

/// The end of the line that reports differing binary files.
pub open spec fn differ_tag() -> Seq<char> {
    seq![' ', 'd', 'i', 'f', 'f', 'e', 'r']
}

/// The characters of [`differ_tag`].
pub fn differ_tag_chars() -> (r: [char; 7])
    ensures
        r@ == differ_tag(),
{
    let r = [' ', 'd', 'i', 'f', 'f', 'e', 'r'];
    assert(r@ =~= differ_tag());
    r
}

/// What separates the two names on the line that reports differing binary files.
pub open spec fn and_tag() -> Seq<char> {
    seq![' ', 'a', 'n', 'd', ' ']
}

/// The characters of [`and_tag`].
pub fn and_tag_chars() -> (r: [char; 5])
    ensures
        r@ == and_tag(),
{
    let r = [' ', 'a', 'n', 'd', ' '];
    assert(r@ =~= and_tag());
    r
}

/// The line of a git rename without any change, with the line feeds around it.
pub open spec fn similarity_marker() -> Seq<char> {
    seq!['\n', 's', 'i', 'm', 'i', 'l', 'a', 'r', 'i', 't', 'y', ' ', 'i', 'n', 'd', 'e', 'x', ' ', '1', '0', '0', '%', '\n']
}

/// The characters of [`similarity_marker`].
pub fn similarity_marker_chars() -> (r: [char; 23])
    ensures
        r@ == similarity_marker(),
{
    let r = ['\n', 's', 'i', 'm', 'i', 'l', 'a', 'r', 'i', 't', 'y', ' ', 'i', 'n', 'd', 'e', 'x', ' ', '1', '0', '0', '%', '\n'];
    assert(r@ =~= similarity_marker());
    r
}

/// The start of the line that names the old file of a rename.
pub open spec fn rename_from_tag() -> Seq<char> {
    seq!['r', 'e', 'n', 'a', 'm', 'e', ' ', 'f', 'r', 'o', 'm', ' ']
}

/// The characters of [`rename_from_tag`].
pub fn rename_from_tag_chars() -> (r: [char; 12])
    ensures
        r@ == rename_from_tag(),
{
    let r = ['r', 'e', 'n', 'a', 'm', 'e', ' ', 'f', 'r', 'o', 'm', ' '];
    assert(r@ =~= rename_from_tag());
    r
}

/// The start of the line that names the new file of a rename.
pub open spec fn rename_to_tag() -> Seq<char> {
    seq!['r', 'e', 'n', 'a', 'm', 'e', ' ', 't', 'o', ' ']
}

/// The characters of [`rename_to_tag`].
pub fn rename_to_tag_chars() -> (r: [char; 10])
    ensures
        r@ == rename_to_tag(),
{
    let r = ['r', 'e', 'n', 'a', 'm', 'e', ' ', 't', 'o', ' '];
    assert(r@ =~= rename_to_tag());
    r
}

/// The start of a git diff header line.
pub open spec fn diff_tag() -> Seq<char> {
    seq!['d', 'i', 'f', 'f', ' ']
}

/// The characters of [`diff_tag`].
pub fn diff_tag_chars() -> (r: [char; 5])
    ensures
        r@ == diff_tag(),
{
    let r = ['d', 'i', 'f', 'f', ' '];
    assert(r@ =~= diff_tag());
    r
}

/// The start of the git diff header line of a rename, up to the old name.
pub open spec fn diff_git_tag() -> Seq<char> {
    seq!['d', 'i', 'f', 'f', ' ', '-', '-', 'g', 'i', 't', ' ', 'a', '/']
}

/// What stands between the two names of a git diff header line.
pub open spec fn new_path_tag() -> Seq<char> {
    seq![' ', 'b', '/']
}

/// The start of a hunk header, as seen when looking for the next header.
pub open spec fn hunk_start_tag() -> Seq<char> {
    seq!['@', '@', ' ']
}

/// The characters of [`hunk_start_tag`].
pub fn hunk_start_tag_chars() -> (r: [char; 3])
    ensures
        r@ == hunk_start_tag(),
{
    let r = ['@', '@', ' '];
    assert(r@ =~= hunk_start_tag());
    r
}

/// What follows `+` when a line is taken for a header rather than an added line.
pub open spec fn added_header_look() -> Seq<char> {
    seq!['+', '+', ' ']
}

/// The characters of [`added_header_look`].
pub fn added_header_look_chars() -> (r: [char; 3])
    ensures
        r@ == added_header_look(),
{
    let r = ['+', '+', ' '];
    assert(r@ =~= added_header_look());
    r
}

/// What follows `-` when a line is taken for a header rather than a removed line.
pub open spec fn removed_header_look() -> Seq<char> {
    seq!['-', '-', ' ']
}

/// The characters of [`removed_header_look`].
pub fn removed_header_look_chars() -> (r: [char; 3])
    ensures
        r@ == removed_header_look(),
{
    let r = ['-', '-', ' '];
    assert(r@ =~= removed_header_look());
    r
}

/// A line feed on its own.
pub open spec fn line_feed() -> Seq<char> {
    seq!['\n']
}

/// The characters of [`line_feed`].
pub fn line_feed_chars() -> (r: [char; 1])
    ensures
        r@ == line_feed(),
{
    let r = ['\n'];
    assert(r@ =~= line_feed());
    r
}

} // verus!
