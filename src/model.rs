//! The mathematical model of the archive format: text is a sequence of
//! characters, a marker line is recognized by its shape, and parsing and
//! rendering are total functions over sequences.
use vstd::prelude::*;

verus! {

/// What a file looks like in the model: its name and its content.
pub type FileModel = (Seq<char>, Seq<char>);

/// What an archive looks like in the model: its comment and its files in order.
pub type ArchiveModel = (Seq<char>, Seq<FileModel>);

/// The result of one scan: the text before the first marker line, and the
/// marker's name with the text after its line, if a marker was found.
pub type ScanModel = (Seq<char>, Option<(Seq<char>, Seq<char>)>);

/// Whether a character has the Unicode `White_Space` property.
pub uninterp spec fn white_space(c: char) -> bool;

/// The opening of a marker line.
pub open spec fn marker_open() -> Seq<char> {
    seq!['-', '-', ' ']
}

/// The closing of a marker line.
pub open spec fn marker_close() -> Seq<char> {
    seq![' ', '-', '-']
}

/// The text with a newline appended when it is non-empty and does not already end in one.
pub open spec fn with_trailing_newline(s: Seq<char>) -> Seq<char> {
    if s.len() == 0 || s.last() == '\n' {
        s
    } else {
        s.push('\n')
    }
}

/// `s` without its leading whitespace.
pub open spec fn trim_start(s: Seq<char>) -> Seq<char>
    decreases s.len(),
{
    if s.len() > 0 && white_space(s[0]) {
        trim_start(s.drop_first())
    } else {
        s
    }
}

/// `s` without its trailing whitespace.
pub open spec fn trim_end(s: Seq<char>) -> Seq<char>
    decreases s.len(),
{
    if s.len() > 0 && white_space(s.last()) {
        trim_end(s.drop_last())
    } else {
        s
    }
}

/// `s` without its leading and trailing whitespace.
pub open spec fn trim(s: Seq<char>) -> Seq<char> {
    trim_end(trim_start(s))
}

/// The index of the first newline at or after `k`, or the length of `s` if there is none.
pub open spec fn line_end(s: Seq<char>, k: int) -> int
    decreases s.len() - k,
{
    if k < 0 || k >= s.len() {
        s.len() as int
    } else if s[k] == '\n' {
        k
    } else {
        line_end(s, k + 1)
    }
}

/// The line that starts at `k`, without its newline.
pub open spec fn line_at(s: Seq<char>, k: int) -> Seq<char> {
    s.subrange(k, line_end(s, k))
}

/// Where the text after the line that starts at `k` begins.
pub open spec fn next_line(s: Seq<char>, k: int) -> int {
    if line_end(s, k) < s.len() {
        line_end(s, k) + 1
    } else {
        s.len() as int
    }
}

/// Whether `k` is the start of a line of `s`.
pub open spec fn starts_line(s: Seq<char>, k: int) -> bool {
    k == 0 || (0 < k <= s.len() && s[k - 1] == '\n')
}

/// The five-character marker line `-- --`, whose opening and closing share a space.
pub open spec fn bare_marker() -> Seq<char> {
    seq!['-', '-', ' ', '-', '-']
}

/// Whether a line (without its newline) has the shape of a marker line:
/// `-- --`, or at least six characters that open with `-- ` and close with ` --`.
pub open spec fn is_marker_line(l: Seq<char>) -> bool {
    ||| l == bare_marker()
    ||| {
        &&& l.len() >= 6
        &&& l.subrange(0, 3) == marker_open()
        &&& l.subrange(l.len() - 3, l.len() as int) == marker_close()
    }
}

/// The file name that a marker line declares: empty for `-- --`, else what
/// lies between the opening and the closing, without surrounding whitespace.
pub open spec fn marker_name(l: Seq<char>) -> Seq<char> {
    if l.len() >= 6 {
        trim(l.subrange(3, l.len() - 3))
    } else {
        Seq::empty()
    }
}

/// Whether a marker line starts at `k` in `s`.
pub open spec fn marker_at(s: Seq<char>, k: int) -> bool {
    &&& 0 <= k <= s.len()
    &&& starts_line(s, k)
    &&& is_marker_line(line_at(s, k))
}

/// The first position at or after `k` where a marker line starts.
pub open spec fn first_marker_from(s: Seq<char>, k: int) -> Option<int>
    decreases s.len() + 1 - k,
{
    if k < 0 || k > s.len() {
        None
    } else if marker_at(s, k) {
        Some(k)
    } else {
        first_marker_from(s, k + 1)
    }
}

/// One scan of `s`: the text before its first marker line (with a newline
/// supplied when no marker follows), and that marker's name with everything
/// after its line.
pub open spec fn scan(s: Seq<char>) -> ScanModel {
    match first_marker_from(s, 0) {
        Some(k) => (
            s.subrange(0, k),
            Some((marker_name(line_at(s, k)), s.subrange(next_line(s, k), s.len() as int))),
        ),
        None => (with_trailing_newline(s), None),
    }
}

/// The files of an archive, the first named `name`, whose text follows its marker line.
pub open spec fn files_after(name: Seq<char>, rest: Seq<char>) -> Seq<FileModel>
    decreases rest.len(),
{
    match scan(rest).1 {
        Some(next) => {
            proof {
                lemma_scan_shortens(rest);
            }
            seq![(name, scan(rest).0)] + files_after(next.0, next.1)
        },
        None => seq![(name, scan(rest).0)],
    }
}

/// The archive that a text parses to.
pub open spec fn parse(s: Seq<char>) -> ArchiveModel {
    match scan(s).1 {
        Some(first) => (scan(s).0, files_after(first.0, first.1)),
        None => (scan(s).0, Seq::empty()),
    }
}

/// The canonical text of one file: its marker line, then its content.
pub open spec fn render_file(f: FileModel) -> Seq<char> {
    marker_open() + f.0 + marker_close() + seq!['\n'] + with_trailing_newline(f.1)
}

/// The canonical text of a sequence of files.
pub open spec fn render_files(fs: Seq<FileModel>) -> Seq<char>
    decreases fs.len(),
{
    if fs.len() == 0 {
        Seq::empty()
    } else {
        render_files(fs.drop_last()) + render_file(fs.last())
    }
}

/// The canonical text of an archive.
pub open spec fn render(a: ArchiveModel) -> Seq<char> {
    with_trailing_newline(a.0) + render_files(a.1)
}

/// A line ends within the text, at a newline unless it runs to the end.
pub proof fn lemma_line_end_bounds(s: Seq<char>, k: int)
    requires
        0 <= k <= s.len(),
    ensures
        k <= line_end(s, k) <= s.len(),
        line_end(s, k) < s.len() ==> s[line_end(s, k)] == '\n',
    decreases s.len() - k,
{
    if k < s.len() && s[k] != '\n' {
        lemma_line_end_bounds(s, k + 1);
    }
}

/// The marker position that a search returns is a marker at or after where it started.
pub proof fn lemma_first_marker_found(s: Seq<char>, k: int)
    ensures
        first_marker_from(s, k) matches Some(m) ==> k <= m && marker_at(s, m),
    decreases s.len() + 1 - k,
{
    if 0 <= k <= s.len() && !marker_at(s, k) {
        lemma_first_marker_found(s, k + 1);
    }
}

/// The text after a marker line is shorter than the text scanned.
pub proof fn lemma_scan_shortens(s: Seq<char>)
    ensures
        scan(s).1 matches Some(next) ==> next.1.len() < s.len(),
{
    lemma_first_marker_found(s, 0);
    if let Some(k) = first_marker_from(s, 0) {
        lemma_line_end_bounds(s, k);
    }
}

/// Lines of a suffix `t[f..]` are the lines of `t`, shifted by `f`.
pub proof fn lemma_line_shift(t: Seq<char>, f: int, k: int)
    requires
        0 <= f <= t.len(),
        0 <= k <= t.len() - f,
    ensures
        line_end(t.subrange(f, t.len() as int), k) == line_end(t, f + k) - f,
        line_at(t.subrange(f, t.len() as int), k) == line_at(t, f + k),
        next_line(t.subrange(f, t.len() as int), k) == next_line(t, f + k) - f,
    decreases t.len() - f - k,
{
    let s = t.subrange(f, t.len() as int);
    if k < s.len() && s[k] != '\n' {
        lemma_line_shift(t, f, k + 1);
    }
    lemma_line_end_bounds(t, f + k);
    lemma_line_end_bounds(s, k);
    assert(line_at(s, k) =~= line_at(t, f + k));
}

} // verus!
