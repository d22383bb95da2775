//! What holds across parsing and rendering: a parsed archive renders to a
//! text that parses back to the same archive.
use vstd::prelude::*;
use crate::model::{
    files_after, first_marker_from, is_marker_line, lemma_first_marker_found,
    lemma_line_end_bounds, lemma_scan_shortens, line_at, line_end, marker_at, marker_close,
    marker_name, marker_open, next_line, parse, render, render_file, render_files, scan,
    starts_line, trim, trim_end, trim_start, white_space, with_trailing_newline, ArchiveModel,
    FileModel,
};

verus! {

/// A text in which no line is a marker line and which is empty or ends in a newline:
/// what a parse stores as a comment or as a file's content.
pub open spec fn plain_text(t: Seq<char>) -> bool {
    &&& first_marker_from(t, 0) is None
    &&& (t.len() == 0 || t.last() == '\n')
}

/// A name without newlines and without surrounding whitespace: what a parse stores as a name.
pub open spec fn plain_name(n: Seq<char>) -> bool {
    &&& trim(n) == n
    &&& !n.contains('\n')
}

/// A file as a parse produces it.
pub open spec fn plain_file(f: FileModel) -> bool {
    plain_name(f.0) && plain_text(f.1)
}

/// An archive as a parse produces it.
pub open spec fn plain_archive(a: ArchiveModel) -> bool {
    &&& plain_text(a.0)
    &&& forall|i: int| 0 <= i < a.1.len() ==> plain_file(#[trigger] a.1[i])
}

/// The marker line that introduces a file named `n`, with its newline.
pub open spec fn marker_line(n: Seq<char>) -> Seq<char> {
    marker_open() + n + marker_close() + seq!['\n']
}

proof fn lemma_line_end_no_newline(s: Seq<char>, k: int)
    requires
        0 <= k <= s.len(),
    ensures
        forall|j: int| k <= j < line_end(s, k) ==> s[j] != '\n',
    decreases s.len() - k,
{
    if k < s.len() && s[k] != '\n' {
        lemma_line_end_no_newline(s, k + 1);
    }
}

proof fn lemma_line_end_is(s: Seq<char>, k: int, e: int)
    requires
        0 <= k <= e <= s.len(),
        forall|j: int| k <= j < e ==> s[j] != '\n',
        e == s.len() || s[e] == '\n',
    ensures
        line_end(s, k) == e,
    decreases e - k,
{
    if k < e {
        lemma_line_end_is(s, k + 1, e);
    }
}

/// A line of `s` ends at the same place in a text that extends `s`, when that
/// text has a newline where the line ended.
proof fn lemma_line_end_extend(s: Seq<char>, u: Seq<char>, k: int)
    requires
        0 <= k <= s.len() <= u.len(),
        u.subrange(0, s.len() as int) == s,
        line_end(s, k) < u.len(),
        u[line_end(s, k)] == '\n',
    ensures
        line_end(u, k) == line_end(s, k),
        line_at(u, k) == line_at(s, k),
{
    lemma_line_end_bounds(s, k);
    lemma_line_end_no_newline(s, k);
    let e = line_end(s, k);
    assert forall|j: int| k <= j < e implies u[j] != '\n' by {
        assert(u[j] == u.subrange(0, s.len() as int)[j]);
    }
    lemma_line_end_is(u, k, e);
    assert(line_at(u, k) =~= line_at(s, k)) by {
        assert forall|j: int| 0 <= j < e - k implies line_at(u, k)[j] == line_at(s, k)[j] by {
            assert(u[k + j] == u.subrange(0, s.len() as int)[k + j]);
        }
    }
}

proof fn lemma_no_marker_before(s: Seq<char>, a: int)
    requires
        0 <= a,
    ensures
        first_marker_from(s, a) matches Some(p) ==> forall|k: int|
            a <= k < p ==> !marker_at(s, k),
        first_marker_from(s, a) is None ==> forall|k: int|
            a <= k <= s.len() ==> !marker_at(s, k),
    decreases s.len() + 1 - a,
{
    if a <= s.len() && !marker_at(s, a) {
        lemma_no_marker_before(s, a + 1);
    }
}

proof fn lemma_first_marker_is(s: Seq<char>, a: int, p: int)
    requires
        0 <= a <= p,
        forall|k: int| a <= k < p ==> !marker_at(s, k),
        marker_at(s, p),
    ensures
        first_marker_from(s, a) == Some(p),
    decreases p - a,
{
    if a < p {
        lemma_first_marker_is(s, a + 1, p);
    }
}

proof fn lemma_no_marker_from(s: Seq<char>, a: int)
    requires
        0 <= a,
        forall|k: int| a <= k <= s.len() ==> !marker_at(s, k),
    ensures
        first_marker_from(s, a) is None,
    decreases s.len() + 1 - a,
{
    if a <= s.len() {
        lemma_no_marker_from(s, a + 1);
    }
}

proof fn lemma_trim_start_shape(s: Seq<char>)
    ensures
        trim_start(s).len() <= s.len(),
        trim_start(s) == s.subrange(s.len() - trim_start(s).len(), s.len() as int),
        trim_start(s).len() > 0 ==> !white_space(trim_start(s)[0]),
    decreases s.len(),
{
    if s.len() > 0 && white_space(s[0]) {
        lemma_trim_start_shape(s.drop_first());
        assert(trim_start(s) =~= s.subrange(s.len() - trim_start(s).len(), s.len() as int));
    } else {
        assert(s =~= s.subrange(0, s.len() as int));
    }
}

proof fn lemma_trim_end_shape(s: Seq<char>)
    ensures
        trim_end(s).len() <= s.len(),
        trim_end(s) == s.subrange(0, trim_end(s).len() as int),
        trim_end(s).len() > 0 ==> !white_space(trim_end(s).last()),
    decreases s.len(),
{
    if s.len() > 0 && white_space(s.last()) {
        lemma_trim_end_shape(s.drop_last());
        assert(trim_end(s) =~= s.subrange(0, trim_end(s).len() as int));
    } else {
        assert(s =~= s.subrange(0, s.len() as int));
    }
}

/// Trimming a name that has no newline gives a name that stays put under a second trim.
proof fn lemma_trim_plain(x: Seq<char>)
    requires
        !x.contains('\n'),
    ensures
        plain_name(trim(x)),
{
    let ts = trim_start(x);
    let t = trim(x);
    lemma_trim_start_shape(x);
    lemma_trim_end_shape(ts);
    if t.len() > 0 {
        assert(t[0] == ts[0]);
    }
    assert(trim_start(t) == t);
    assert(trim_end(t) == t);
    let off = x.len() - ts.len();
    assert forall|j: int| 0 <= j < t.len() implies t[j] != '\n' by {
        assert(t[j] == ts[j]);
        assert(ts[j] == x[off + j]);
    }
}

/// A plain text scans as itself, with no marker.
proof fn lemma_scan_plain(t: Seq<char>)
    requires
        plain_text(t),
    ensures
        scan(t) == (t, None::<(Seq<char>, Seq<char>)>),
{
}

/// A plain text, then a marker line, then anything: the scan stops at the marker line.
proof fn lemma_scan_marker(c: Seq<char>, n: Seq<char>, rest: Seq<char>)
    requires
        plain_text(c),
        plain_name(n),
    ensures
        scan(c + marker_line(n) + rest) == (c, Some((n, rest))),
{
    let ml = marker_line(n);
    let u = c + ml + rest;
    let p = c.len() as int;
    let e = p + n.len() + 6;
    lemma_no_marker_before(c, 0);
    assert(u.subrange(0, p) =~= c);
    assert forall|k: int| 0 <= k < p implies !marker_at(u, k) by {
        if starts_line(u, k) {
            assert(starts_line(c, k));
            lemma_line_end_bounds(c, k);
            lemma_line_end_no_newline(c, k);
            assert(c[p - 1] == '\n');
            lemma_line_end_extend(c, u, k);
            assert(!marker_at(c, k));
        }
    }
    assert forall|j: int| p <= j < e implies u[j] != '\n' by {
        if j < p + 3 {
            assert(u[j] == marker_open()[j - p]);
        } else if j < p + 3 + n.len() {
            assert(u[j] == n[j - p - 3]);
        } else {
            assert(u[j] == marker_close()[j - p - 3 - n.len()]);
        }
    }
    assert(u[e] == '\n');
    lemma_line_end_is(u, p, e);
    let l = line_at(u, p);
    assert(l =~= marker_open() + n + marker_close());
    assert(l.subrange(0, 3) =~= marker_open());
    assert(l.subrange(l.len() - 3, l.len() as int) =~= marker_close());
    assert(l.subrange(3, l.len() - 3) =~= n);
    if p > 0 {
        assert(u[p - 1] == c.last());
    }
    assert(marker_at(u, p));
    lemma_first_marker_is(u, 0, p);
    assert(next_line(u, p) == e + 1);
    assert(u.subrange(e + 1, u.len() as int) =~= rest);
}

/// The canonical text of files, read from the front.
proof fn lemma_render_files_front(fs: Seq<FileModel>)
    requires
        fs.len() > 0,
    ensures
        render_files(fs) == render_file(fs[0]) + render_files(fs.drop_first()),
    decreases fs.len(),
{
    if fs.len() == 1 {
        assert(fs.drop_last() =~= Seq::<FileModel>::empty());
        assert(fs.drop_first() =~= Seq::<FileModel>::empty());
        assert(render_files(fs) =~= render_file(fs[0]) + render_files(fs.drop_first()));
    } else {
        lemma_render_files_front(fs.drop_last());
        assert(fs.drop_last().drop_first() =~= fs.drop_first().drop_last());
        assert(fs.drop_first().last() == fs.last());
        assert(fs.drop_last()[0] == fs[0]);
        assert(render_files(fs) =~= render_file(fs[0]) + render_files(fs.drop_first()));
    }
}

proof fn lemma_files_after_render(n: Seq<char>, t: Seq<char>, fs: Seq<FileModel>)
    requires
        plain_name(n),
        plain_text(t),
        forall|i: int| 0 <= i < fs.len() ==> plain_file(#[trigger] fs[i]),
    ensures
        files_after(n, t + render_files(fs)) == seq![(n, t)] + fs,
    decreases fs.len(),
{
    if fs.len() == 0 {
        assert(t + render_files(fs) =~= t);
        lemma_scan_plain(t);
        assert(seq![(n, t)] + fs =~= seq![(n, t)]);
    } else {
        let f = fs[0];
        let tail = fs.drop_first();
        assert(plain_file(f));
        lemma_render_files_front(fs);
        assert(render_file(f) =~= marker_line(f.0) + f.1);
        let rest = f.1 + render_files(tail);
        assert(t + render_files(fs) =~= t + marker_line(f.0) + rest);
        lemma_scan_marker(t, f.0, rest);
        assert forall|i: int| 0 <= i < tail.len() implies plain_file(#[trigger] tail[i]) by {
            assert(tail[i] == fs[i + 1]);
        }
        lemma_files_after_render(f.0, f.1, tail);
        assert(seq![(n, t)] + fs =~= seq![(n, t)] + (seq![f] + tail));
    }
}

/// An archive as a parse produces it renders to a text that parses back to it.
pub proof fn lemma_parse_render_plain(a: ArchiveModel)
    requires
        plain_archive(a),
    ensures
        parse(render(a)) == a,
{
    let c = a.0;
    let fs = a.1;
    assert(with_trailing_newline(c) == c);
    if fs.len() == 0 {
        assert(render(a) =~= c);
        lemma_scan_plain(c);
        assert(parse(render(a)) =~= a);
    } else {
        let f = fs[0];
        let tail = fs.drop_first();
        assert(plain_file(f));
        lemma_render_files_front(fs);
        assert(render_file(f) =~= marker_line(f.0) + f.1);
        let rest = f.1 + render_files(tail);
        assert(render(a) =~= c + marker_line(f.0) + rest);
        lemma_scan_marker(c, f.0, rest);
        assert forall|i: int| 0 <= i < tail.len() implies plain_file(#[trigger] tail[i]) by {
            assert(tail[i] == fs[i + 1]);
        }
        lemma_files_after_render(f.0, f.1, tail);
        assert(seq![f] + tail =~= fs);
    }
}

/// What a scan stores as text is plain, and the name it reads is plain.
proof fn lemma_scan_plain_parts(s: Seq<char>)
    ensures
        plain_text(scan(s).0),
        scan(s).1 matches Some(p) ==> plain_name(p.0),
{
    lemma_no_marker_before(s, 0);
    lemma_first_marker_found(s, 0);
    match first_marker_from(s, 0) {
        Some(k) => {
            let c = s.subrange(0, k);
            assert forall|j: int| 0 <= j <= c.len() implies !marker_at(c, j) by {
                lemma_line_end_bounds(c, j);
                if j == k {
                    assert(line_at(c, j).len() == 0);
                }
                if j < k && starts_line(c, j) {
                    assert(s[k - 1] == '\n');
                    assert(c[k - 1] == '\n');
                    lemma_line_end_no_newline(c, j);
                    if line_end(c, j) > k - 1 {
                        assert(c[k - 1] != '\n');
                    }
                    assert(line_end(c, j) < c.len());
                    assert(s[line_end(c, j)] == c[line_end(c, j)]);
                    assert(s.subrange(0, c.len() as int) =~= c);
                    lemma_line_end_extend(c, s, j);
                    if j > 0 {
                        assert(s[j - 1] == c[j - 1]);
                    }
                    assert(starts_line(s, j));
                    assert(!marker_at(s, j));
                }
            }
            lemma_no_marker_from(c, 0);
            if k > 0 {
                assert(c.last() == s[k - 1]);
            }
            let l = line_at(s, k);
            lemma_line_end_bounds(s, k);
            lemma_line_end_no_newline(s, k);
            if l.len() >= 6 {
                let raw = l.subrange(3, l.len() - 3);
                assert forall|i: int| 0 <= i < raw.len() implies raw[i] != '\n' by {
                    assert(raw[i] == s[k + 3 + i]);
                }
                lemma_trim_plain(raw);
            } else {
                let e = Seq::<char>::empty();
                assert(trim(e) == e);
                assert(!e.contains('\n'));
            }
        },
        None => {
            if s.len() > 0 && s.last() != '\n' {
                let c = s.push('\n');
                assert(c.subrange(0, s.len() as int) =~= s);
                assert forall|j: int| 0 <= j <= c.len() implies !marker_at(c, j) by {
                    lemma_line_end_bounds(c, j);
                    if j == c.len() {
                        assert(line_at(c, j).len() == 0);
                    }
                    if j <= s.len() && starts_line(c, j) {
                        lemma_line_end_bounds(s, j);
                        if line_end(s, j) < s.len() {
                            assert(c[line_end(s, j)] == s[line_end(s, j)]);
                        }
                        lemma_line_end_extend(s, c, j);
                        if j > 0 {
                            assert(s[j - 1] == c[j - 1]);
                        }
                        assert(starts_line(s, j));
                        assert(!marker_at(s, j));
                    }
                }
                lemma_no_marker_from(c, 0);
            }
        },
    }
}

proof fn lemma_files_after_plain(n: Seq<char>, rest: Seq<char>)
    requires
        plain_name(n),
    ensures
        forall|i: int|
            0 <= i < files_after(n, rest).len() ==> plain_file(#[trigger] files_after(n, rest)[i]),
    decreases rest.len(),
{
    lemma_scan_plain_parts(rest);
    let fa = files_after(n, rest);
    if let Some(nx) = scan(rest).1 {
        lemma_scan_shortens(rest);
        lemma_files_after_plain(nx.0, nx.1);
        assert forall|i: int| 0 <= i < fa.len() implies plain_file(#[trigger] fa[i]) by {
            if i > 0 {
                assert(fa[i] == files_after(nx.0, nx.1)[i - 1]);
            }
        }
    }
}

/// Every parse produces an archive of plain texts and plain names.
pub proof fn lemma_parse_plain(s: Seq<char>)
    ensures
        plain_archive(parse(s)),
{
    lemma_scan_plain_parts(s);
    if let Some(first) = scan(s).1 {
        lemma_files_after_plain(first.0, first.1);
    }
}

/// Rendering a parsed text and parsing the result gives back the same archive.
pub proof fn lemma_parse_render_parse(s: Seq<char>)
    ensures
        parse(render(parse(s))) == parse(s),
{
    lemma_parse_plain(s);
    lemma_parse_render_plain(parse(s));
}

/// Rendering then parsing reaches a fixed point after one pass: doing it a
/// second time changes nothing.
pub proof fn lemma_render_parse_fixed_point(a: ArchiveModel)
    ensures
        parse(render(parse(render(a)))) == parse(render(a)),
{
    lemma_parse_render_parse(render(a));
}

/// A file whose content is non-empty and lacks a final newline renders as its
/// marker line, its content, and exactly one newline right after it.
pub proof fn lemma_render_file_supplies_newline(f: FileModel)
    requires
        f.1.len() > 0,
        f.1.last() != '\n',
    ensures
        render_file(f) == marker_line(f.0) + f.1 + seq!['\n'],
{
    assert(render_file(f) =~= marker_line(f.0) + f.1 + seq!['\n']);
}

} // verus!
