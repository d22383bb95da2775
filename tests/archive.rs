use simple_txtar::archive::fix_trailing_newline;
use simple_txtar::scan::{chars_of, find_file_marker, try_parse_marker};
use simple_txtar::{Archive, File};

const SIMPLE_ARCHIVE: &str = "\
comment1
comment2
-- file1 --
File 1 text.
-- foo ---
More file 1 text.
-- file 2 --
File 2 text.
-- empty --
-- noNL --
hello world
-- empty filename line --
some content
-- --";

const SIMPLE_FORMAT_OUTPUT: &str = "\
comment1
comment2
-- file1 --
File 1 text.
-- foo ---
More file 1 text.
-- file 2 --
File 2 text.
-- empty --
-- noNL --
hello world
";

fn names_and_contents(a: &Archive) -> Vec<(String, String)> {
    a.iter().map(|f| (f.name.clone(), f.content.clone())).collect()
}

fn pairs(v: &[(&str, &str)]) -> Vec<(String, String)> {
    v.iter().map(|(n, c)| (n.to_string(), c.to_string())).collect()
}

#[test]
fn simple_parse() {
    let expected = Archive {
        comment: "comment1\ncomment2\n".to_string(),
        files: vec![
            File::new("file1", "File 1 text.\n-- foo ---\nMore file 1 text.\n"),
            File::new("file 2", "File 2 text.\n"),
            File::new("empty", ""),
            File::new("noNL", "hello world\n"),
            File::new("empty filename line", "some content\n"),
            File::new("", ""),
        ],
    };

    let parsed = Archive::from(SIMPLE_ARCHIVE);
    assert_eq!(parsed, expected);
}

#[test]
fn simple_format() {
    let a = Archive {
        comment: "comment1\ncomment2\n".to_string(),
        files: vec![
            File::new("file1", "File 1 text.\n-- foo ---\nMore file 1 text.\n"),
            File::new("file 2", "File 2 text.\n"),
            File::new("empty", ""),
            File::new("noNL", "hello world"),
        ],
    };

    assert_eq!(a.to_string(), SIMPLE_FORMAT_OUTPUT);
}

#[test]
fn parse_never_fails_on_odd_inputs() {
    for s in ["", "\n", "no markers at all", "-- a --", "-- a --\n-- b --\n", "-- --", "--  --", "-- x ---\n--", "\n-- \n"] {
        let a = Archive::parse(s);
        let again = Archive::parse(&a.to_string());
        assert_eq!(again, a);
    }
}

#[test]
fn empty_input_gives_empty_archive() {
    let a = Archive::parse("");
    assert_eq!(a.comment(), "");
    assert_eq!(a.files.len(), 0);
}

#[test]
fn comment_without_markers_gets_newline() {
    let a = Archive::parse("just a comment");
    assert_eq!(a.comment(), "just a comment\n");
    assert!(a.files.is_empty());
}

#[test]
fn rendering_reaches_a_fixed_point() {
    let a = Archive {
        comment: "top".to_string(),
        files: vec![
            File::new("  padded  ", "x"),
            File::new("b", "-- c --\ninner"),
        ],
    };
    let once = Archive::parse(&a.to_string());
    let twice = Archive::parse(&once.to_string());
    assert_eq!(twice, once);
    assert_eq!(once.comment(), "top\n");
    assert_eq!(
        names_and_contents(&once),
        pairs(&[("padded", "x\n"), ("b", ""), ("c", "inner\n")])
    );
}

#[test]
fn file_rendering_supplies_one_newline() {
    let f = File::new("a", "body");
    assert_eq!(f.to_string(), "-- a --\nbody\n");
    let g = File::new("a", "body\n");
    assert_eq!(g.to_string(), "-- a --\nbody\n");
    let e = File::new("e", "");
    assert_eq!(e.to_string(), "-- e --\n");
}

#[test]
fn fix_trailing_newline_cases() {
    assert_eq!(fix_trailing_newline(""), "");
    assert_eq!(fix_trailing_newline("a"), "a\n");
    assert_eq!(fix_trailing_newline("a\n"), "a\n");
    assert_eq!(fix_trailing_newline("\u{e9}"), "\u{e9}\n");
}

#[test]
fn name_is_stripped() {
    let a = Archive::parse("--   foo bar   --\nx\n");
    assert_eq!(names_and_contents(&a), pairs(&[("foo bar", "x\n")]));
}

#[test]
fn name_strips_unicode_whitespace() {
    let a = Archive::parse("-- \t\u{3000}n a\u{a0} --\n");
    assert_eq!(names_and_contents(&a), pairs(&[("n a", "")]));
}

#[test]
fn three_trailing_dashes_stay_content() {
    let a = Archive::parse("-- f --\nbefore\n-- foo ---\nafter\n");
    assert_eq!(names_and_contents(&a), pairs(&[("f", "before\n-- foo ---\nafter\n")]));
}

#[test]
fn marker_must_start_a_line() {
    let a = Archive::parse("x -- a --\n-- b --\n");
    assert_eq!(a.comment(), "x -- a --\n");
    assert_eq!(names_and_contents(&a), pairs(&[("b", "")]));
}

#[test]
fn ordering_and_lookup() {
    let a = Archive::parse("c\n-- a --\n1\n-- b --\n2\n");
    assert_eq!(a.comment(), "c\n");
    assert_eq!(names_and_contents(&a), pairs(&[("a", "1\n"), ("b", "2\n")]));
    assert_eq!(a.get("b"), Some(&File::new("b", "2\n")));
    assert_eq!(a.get("z"), None);
}

#[test]
fn lookup_returns_first_of_duplicates() {
    let a = Archive::parse("-- d --\none\n-- d --\ntwo\n");
    assert_eq!(a.get("d"), Some(&a.files[0]));
    assert_eq!(a.get("d").map(|f| f.content.as_str()), Some("one\n"));
    assert_eq!(a.files[1].content, "two\n");
}

#[test]
fn empty_file_and_empty_name() {
    let a = Archive::parse("-- --\n-- x --\nhi");
    assert_eq!(a.comment(), "");
    assert_eq!(names_and_contents(&a), pairs(&[("", ""), ("x", "hi\n")]));
}

#[test]
fn padded_empty_name() {
    let a = Archive::parse("--  --\n-- x --\nhi");
    assert_eq!(a.comment(), "");
    assert_eq!(names_and_contents(&a), pairs(&[("", ""), ("x", "hi\n")]));
}

#[test]
fn scanner_reads_bare_marker() {
    let text = chars_of("-- --\n-- x --\nhi");
    let (name, after) = try_parse_marker(&text, 0).unwrap();
    assert_eq!(name, "");
    assert_eq!(after, 6);
    assert!(try_parse_marker(&chars_of("-- -\n"), 0).is_none());
    assert!(try_parse_marker(&chars_of("-- -x\n"), 0).is_none());
}

#[test]
fn scanner_finds_first_marker() {
    let text = chars_of("c\n-- a --\n1\n");
    let (before, found) = find_file_marker(&text, 0);
    assert_eq!(before, "c\n");
    let (name, after) = found.unwrap();
    assert_eq!(name, "a");
    assert_eq!(after, 10);
    let (rest, none) = find_file_marker(&text, after);
    assert_eq!(rest, "1\n");
    assert!(none.is_none());
}

#[test]
fn no_trailing_newline_input() {
    let a = Archive::parse("-- x --\nhello");
    assert_eq!(names_and_contents(&a), pairs(&[("x", "hello\n")]));
}

#[test]
fn marker_on_last_line_without_newline() {
    let a = Archive::parse("c\n-- last --");
    assert_eq!(a.comment(), "c\n");
    assert_eq!(names_and_contents(&a), pairs(&[("last", "")]));
}

#[test]
fn from_string_forms_agree() {
    let text = "c\n-- a --\n1\n".to_string();
    let a = Archive::from(&text);
    let b = Archive::from(text.clone());
    let c = Archive::parse(&text);
    assert_eq!(a, c);
    assert_eq!(b, c);
}

#[test]
fn index_and_into_iter_follow_order() {
    let a = Archive::parse("-- one --\n1\n-- two --\n2\n");
    assert_eq!(a[0], File::new("one", "1\n"));
    assert_eq!(a[1], File::new("two", "2\n"));
    let v: Vec<File> = a.iter().cloned().collect();
    let owned: Vec<File> = a.into_iter().collect();
    assert_eq!(owned, v);
}

#[test]
fn iter_restarts() {
    let a = Archive::parse("-- x --\n-- y --\n");
    assert_eq!(a.iter().count(), 2);
    assert_eq!(a.iter().next().map(|f| f.name.as_str()), Some("x"));
}
