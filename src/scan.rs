//! The marker scanner: finds the next marker line in a text held as characters.
use vstd::prelude::*;
use crate::model::{
    bare_marker, first_marker_from, is_marker_line, lemma_line_shift, marker_at, scan, with_trailing_newline, lemma_line_end_bounds, line_at, line_end, marker_close, marker_name, marker_open,
    next_line, trim, trim_end, trim_start, white_space,
};

verus! {

/// Relies on `char::is_whitespace`: whether the character has the Unicode
/// `White_Space` property, which depends on the character alone.
#[verifier::external_body]
fn is_whitespace(c: char) -> (r: bool)
    ensures
        r == white_space(c),
{
    c.is_whitespace()
}

/// Relies on `String::push`: appends one character to the end of the string.
#[verifier::external_body]
pub(crate) fn push_char(s: &mut String, c: char)
    ensures
        final(s)@ == old(s)@.push(c),
{
    s.push(c)
}

/// The characters of `s`, in order.
pub fn chars_of(s: &str) -> (r: Vec<char>)
    ensures
        r@ == s@,
{
    let mut r: Vec<char> = Vec::new();
    for c in it: s.chars()
        invariant
            r@ == it.seq().subrange(0, it.index() as int),
    {
        r.push(c);
    }
    r
}

/// A string holding `text[lo..hi]`.
pub fn copy_range(text: &Vec<char>, lo: usize, hi: usize) -> (r: String)
    requires
        lo <= hi <= text.len(),
    ensures
        r@ == text@.subrange(lo as int, hi as int),
{
    let mut r = String::new();
    let mut i = lo;
    while i < hi
        invariant
            lo <= i <= hi <= text.len(),
            r@ == text@.subrange(lo as int, i as int),
        decreases hi - i,
    {
        push_char(&mut r, text[i]);
        assert(text@.subrange(lo as int, i + 1) =~= text@.subrange(lo as int, i as int).push(text@[i as int]));
        i = i + 1;
    }
    r
}

/// A string holding `text[lo..hi]` without its leading and trailing whitespace.
pub fn trimmed(text: &Vec<char>, lo: usize, hi: usize) -> (r: String)
    requires
        lo <= hi <= text.len(),
    ensures
        r@ == trim(text@.subrange(lo as int, hi as int)),
{
    let ghost whole = text@.subrange(lo as int, hi as int);
    let mut a = lo;
    while a < hi && is_whitespace(text[a])
        invariant
            lo <= a <= hi <= text.len(),
            trim_start(whole) == trim_start(text@.subrange(a as int, hi as int)),
        decreases hi - a,
    {
        assert(text@.subrange(a as int, hi as int).drop_first() =~= text@.subrange(a + 1, hi as int));
        a = a + 1;
    }
    assert(trim_start(whole) == text@.subrange(a as int, hi as int));
    let mut b = hi;
    while b > a && is_whitespace(text[b - 1])
        invariant
            lo <= a <= b <= hi <= text.len(),
            trim(whole) == trim_end(text@.subrange(a as int, b as int)),
        decreases b - a,
    {
        assert(text@.subrange(a as int, b as int).drop_last() =~= text@.subrange(a as int, b - 1));
        b = b - 1;
    }
    copy_range(text, a, b)
}


/// Reads the line that starts at `i`: its name when it is a marker line,
/// with the position where the text after it begins.
pub fn try_parse_marker(text: &Vec<char>, i: usize) -> (r: Option<(String, usize)>)
    requires
        i <= text.len(),
    ensures
        match r {
            Some((name, j)) => {
                &&& is_marker_line(line_at(text@, i as int))
                &&& name@ == marker_name(line_at(text@, i as int))
                &&& j == next_line(text@, i as int)
            },
            None => !is_marker_line(line_at(text@, i as int)),
        },
{
    proof {
        lemma_line_end_bounds(text@, i as int);
    }
    let ghost l = line_at(text@, i as int);
    let n = text.len();
    if !(n - i >= 3 && text[i] == '-' && text[i + 1] == '-' && text[i + 2] == ' ') {
        proof {
            if is_marker_line(l) && l != bare_marker() {
                assert(l.subrange(0, 3)[0] == l[0]);
                assert(l.subrange(0, 3)[1] == l[1]);
                assert(l.subrange(0, 3)[2] == l[2]);
            }
        }
        return None;
    }
    let mut e = i;
    while e < n && text[e] != '\n'
        invariant
            i <= e <= n == text.len(),
            line_end(text@, i as int) == line_end(text@, e as int),
        decreases n - e,
    {
        e = e + 1;
    }
    let j = if e < n {
        e + 1
    } else {
        e
    };
    if e - i >= 6 && text[e - 3] == ' ' && text[e - 2] == '-' && text[e - 1] == '-' {
        assert(l.subrange(0, 3) =~= marker_open());
        assert(l.subrange(l.len() - 3, l.len() as int) =~= marker_close());
        assert(l.subrange(3, l.len() - 3) =~= text@.subrange(i + 3, e - 3));
        let name = trimmed(text, i + 3, e - 3);
        Some((name, j))
    } else if e - i == 5 && text[i + 3] == '-' && text[i + 4] == '-' {
        assert(l =~= bare_marker());
        Some((String::new(), j))
    } else {
        proof {
            if is_marker_line(l) {
                if l == bare_marker() {
                    assert(l[3] == '-' && l[4] == '-');
                } else {
                    let m = l.len() - 3;
                    assert(l.subrange(m, l.len() as int)[0] == l[m]);
                    assert(l.subrange(m, l.len() as int)[1] == l[m + 1]);
                    assert(l.subrange(m, l.len() as int)[2] == l[m + 2]);
                }
            }
        }
        None
    }
}

/// Finds the first marker line of `text[from..]`. Returns the text before it
/// and, when there is one, its name with the position where the text after its
/// line begins; when there is none, the whole of `text[from..]` with a newline
/// supplied at its end.
pub fn find_file_marker(text: &Vec<char>, from: usize) -> (r: (String, Option<(String, usize)>))
    requires
        from <= text.len(),
    ensures
        r.0@ == scan(text@.subrange(from as int, text.len() as int)).0,
        match r.1 {
            Some((name, j)) => {
                &&& from < j <= text.len()
                &&& scan(text@.subrange(from as int, text.len() as int)).1 == Some(
                    (name@, text@.subrange(j as int, text.len() as int)),
                )
            },
            None => scan(text@.subrange(from as int, text.len() as int)).1 is None,
        },
{
    let n = text.len();
    let ghost s = text@.subrange(from as int, n as int);
    let mut i = from;
    loop
        invariant
            from <= i <= n == text.len(),
            s == text@.subrange(from as int, n as int),
            first_marker_from(s, 0) == first_marker_from(s, i - from),
        decreases n - i,
    {
        let ghost k = i - from;
        proof {
            lemma_line_shift(text@, from as int, k);
            lemma_line_end_bounds(s, k);
        }
        if i == from || text[i - 1] == '\n' {
            if let Some((name, j)) = try_parse_marker(text, i) {
                assert(marker_at(s, k));
                assert(s.subrange(0, k) =~= text@.subrange(from as int, i as int));
                assert(s.subrange(next_line(s, k), s.len() as int) =~= text@.subrange(
                    j as int,
                    n as int,
                ));
                let before = copy_range(text, from, i);
                return (before, Some((name, j)));
            }
        }
        assert(!marker_at(s, k));
        if i == n {
            let mut rest = copy_range(text, from, n);
            assert(rest@ =~= s);
            assert(first_marker_from(s, k + 1) is None);
            assert(first_marker_from(s, 0) is None);
            if n > from && text[n - 1] != '\n' {
                push_char(&mut rest, '\n');
            }
            assert(rest@ == with_trailing_newline(s));
            return (rest, None);
        }
        i = i + 1;
    }
}

} // verus!
