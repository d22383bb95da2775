//! Archives and the files they hold: parsing text into an archive, rendering
//! it back, and looking files up.
use vstd::prelude::*;
use crate::model::{
    files_after, parse, render, render_file, render_files, scan, with_trailing_newline,
    ArchiveModel, FileModel,
};
use vstd::std_specs::iter::IteratorSpec;
use crate::scan::{chars_of, find_file_marker, push_char};

verus! {

/// A single file within an [`Archive`].
#[derive(Debug, Default, Clone, PartialEq, Eq)]
pub struct File {
    /// The name of the file within the archive.
    pub name: String,
    /// The contents of the file.
    pub content: String,
}

impl View for File {
    type V = FileModel;

    open spec fn view(&self) -> FileModel {
        (self.name@, self.content@)
    }
}

/// An archive: a comment followed by files, in the order they were written.
/// Names need not be unique.
#[derive(Debug, Default, Clone, PartialEq, Eq)]
pub struct Archive {
    /// The text before the first marker line.
    pub comment: String,
    /// The files, in order.
    pub files: Vec<File>,
}

/// The models of a sequence of files.
pub open spec fn files_view(files: Seq<File>) -> Seq<FileModel> {
    files.map_values(|f: File| f@)
}

impl View for Archive {
    type V = ArchiveModel;

    open spec fn view(&self) -> ArchiveModel {
        (self.comment@, files_view(self.files@))
    }
}

/// Whether `i` is the position of the first file of `fs` named `name`.
pub open spec fn first_named(fs: Seq<FileModel>, name: Seq<char>, i: int) -> bool {
    &&& 0 <= i < fs.len()
    &&& fs[i].0 == name
    &&& forall|j: int| 0 <= j < i ==> fs[j].0 != name
}

/// `s`, with a newline appended when it is non-empty and does not already end in one.
pub fn fix_trailing_newline(s: &str) -> (r: String)
    ensures
        r@ == with_trailing_newline(s@),
{
    let mut r = s.to_owned();
    let n = s.unicode_len();
    if n > 0 && s.get_char(n - 1) != '\n' {
        push_char(&mut r, '\n');
    }
    r
}

impl File {
    /// A file with the given name and content.
    pub fn new(name: &str, content: &str) -> (r: File)
        ensures
            r@ == (name@, content@),
    {
        File { name: name.to_owned(), content: content.to_owned() }
    }

    /// The canonical text of this file: the marker line `-- name --`, then the
    /// content, with a newline supplied at its end when it is missing.
    pub fn to_string(&self) -> (r: String)
        ensures
            r@ == render_file(self@),
    {
        let mut out = String::new();
        push_char(&mut out, '-');
        push_char(&mut out, '-');
        push_char(&mut out, ' ');
        out.append(self.name.as_str());
        push_char(&mut out, ' ');
        push_char(&mut out, '-');
        push_char(&mut out, '-');
        push_char(&mut out, '\n');
        let content = fix_trailing_newline(self.content.as_str());
        out.append(content.as_str());
        assert(out@ =~= render_file(self@));
        out
    }
}

impl Archive {
    /// Parses an archive from text. Every text is an archive: this never fails.
    pub fn parse(s: &str) -> (r: Archive)
        ensures
            r@ == parse(s@),
    {
        let text = chars_of(s);
        let n = text.len();
        let (comment, first) = find_file_marker(&text, 0);
        assert(text@.subrange(0, n as int) =~= text@);
        let mut files: Vec<File> = Vec::new();
        let mut cur = first;
        loop
            invariant
                n == text.len(),
                text@ == s@,
                comment@ == scan(s@).0,
                cur matches Some(p) ==> p.1 <= n,
                files_view(files@) + match cur {
                    Some(p) => files_after(p.0@, text@.subrange(p.1 as int, n as int)),
                    None => Seq::empty(),
                } == parse(s@).1,
            ensures
                files_view(files@) == parse(s@).1,
            decreases
                match cur {
                    Some(p) => n + 1 - p.1,
                    None => 0,
                },
        {
            match cur {
                None => {
                    assert(files_view(files@) =~= files_view(files@) + Seq::<FileModel>::empty());
                    break;
                },
                Some((name, j)) => {
                    let ghost old_files = files_view(files@);
                    let ghost rest = text@.subrange(j as int, n as int);
                    let (content, next) = find_file_marker(&text, j);
                    let ghost new_file = (name@, content@);
                    files.push(File { name, content });
                    assert(files_view(files@) =~= old_files.push(new_file));
                    assert(files_after(new_file.0, rest) == seq![new_file] + match scan(rest).1 {
                        Some(nx) => files_after(nx.0, nx.1),
                        None => Seq::empty(),
                    });
                    assert(old_files + files_after(new_file.0, rest) =~= files_view(files@) + match next {
                        Some(p) => files_after(p.0@, text@.subrange(p.1 as int, n as int)),
                        None => Seq::empty(),
                    });
                    cur = next;
                },
            }
        }
        Archive { comment, files }
    }

    /// The comment that comes before the first file; empty when there is none.
    pub fn comment(&self) -> (r: &str)
        ensures
            r@ == self@.0,
    {
        self.comment.as_str()
    }

    /// The first file named `filename`, if there is one.
    pub fn get(&self, filename: &str) -> (r: Option<&File>)
        ensures
            match r {
                Some(f) => exists|i: int|
                    first_named(self@.1, filename@, i) && *f == self.files@[i],
                None => forall|i: int| 0 <= i < self@.1.len() ==> self@.1[i].0 != filename@,
            },
    {
        let key = filename.to_owned();
        let mut i: usize = 0;
        while i < self.files.len()
            invariant
                i <= self.files.len(),
                key@ == filename@,
                forall|j: int| 0 <= j < i ==> self@.1[j].0 != filename@,
            decreases self.files.len() - i,
        {
            if self.files[i].name == key {
                assert(first_named(self@.1, filename@, i as int));
                return Some(&self.files[i]);
            }
            i = i + 1;
        }
        None
    }

    /// The files, in the order they were written.
    pub fn iter(&self) -> (r: std::slice::Iter<'_, File>)
        ensures
            r.remaining() == self.files@.as_ref(),
    {
        self.files.iter()
    }

    /// The canonical text of this archive: the comment, then each file's
    /// marker line and content, with a newline supplied at the end of every
    /// non-empty piece that lacks one.
    pub fn to_string(&self) -> (r: String)
        ensures
            r@ == render(self@),
    {
        let mut out = fix_trailing_newline(self.comment.as_str());
        let mut i: usize = 0;
        while i < self.files.len()
            invariant
                i <= self.files.len(),
                out@ == with_trailing_newline(self@.0) + render_files(self@.1.take(i as int)),
            decreases self.files.len() - i,
        {
            let t = self.files[i].to_string();
            out.append(t.as_str());
            assert(self@.1.take(i + 1).drop_last() =~= self@.1.take(i as int));
            assert(out@ =~= with_trailing_newline(self@.0) + render_files(self@.1.take(i + 1)));
            i = i + 1;
        }
        assert(self@.1.take(i as int) =~= self@.1);
        out
    }
}

impl From<&str> for Archive {
    /// Parses an archive from text; see [`Archive::parse`].
    fn from(s: &str) -> (r: Archive)
        ensures
            r@ == parse(s@),
    {
        Archive::parse(s)
    }
}

/// A parse is stated over the archive's model, not as one exact value, so
/// `from` carries its own `ensures` and no value-level specification.
impl vstd::std_specs::convert::FromSpecImpl<&str> for Archive {
    open spec fn obeys_from_spec() -> bool {
        false
    }

    open spec fn from_spec(v: &str) -> Archive {
        arbitrary()
    }
}

impl From<String> for Archive {
    /// Parses an archive from text; see [`Archive::parse`].
    fn from(s: String) -> (r: Archive)
        ensures
            r@ == parse(s@),
    {
        Archive::parse(s.as_str())
    }
}

impl vstd::std_specs::convert::FromSpecImpl<String> for Archive {
    open spec fn obeys_from_spec() -> bool {
        false
    }

    open spec fn from_spec(v: String) -> Archive {
        arbitrary()
    }
}

impl From<&String> for Archive {
    /// Parses an archive from text; see [`Archive::parse`].
    fn from(s: &String) -> (r: Archive)
        ensures
            r@ == parse(s@),
    {
        Archive::parse(s.as_str())
    }
}

impl vstd::std_specs::convert::FromSpecImpl<&String> for Archive {
    open spec fn obeys_from_spec() -> bool {
        false
    }

    open spec fn from_spec(v: &String) -> Archive {
        arbitrary()
    }
}

impl std::ops::Index<usize> for Archive {
    type Output = File;

    /// The file at position `index`, in the order they were written.
    fn index(&self, index: usize) -> (r: &File)
        ensures
            *r == self.files@[index as int],
    {
        &self.files[index]
    }
}

impl vstd::std_specs::core::IndexSpecImpl<usize> for Archive {
    open spec fn index_req(&self, index: &usize) -> bool {
        *index < self.files.len()
    }
}

impl IntoIterator for Archive {
    type Item = File;

    type IntoIter = std::vec::IntoIter<File>;

    /// The files, in the order they were written.
    fn into_iter(self) -> (r: std::vec::IntoIter<File>)
        ensures
            r.remaining() == self.files@,
    {
        proof {
            vstd::std_specs::vec::axiom_spec_into_iter(self.files);
        }
        self.files.into_iter()
    }
}

} // verus!
