//! The file-explorer read model: directory content split into files and
//! directories, with an optional selected file, and the path-name helpers
//! that derive display names.  Reading the directory itself is the event
//! loop's work; this model only classifies what it is given.

use vstd::prelude::*;

use crate::text::{chars_of, string_of};

verus! {

/// What one directory entry names, as the I/O layer classified it: a
/// file, a directory, or something else (a broken link, a socket, the
/// unreadable).
#[derive(Clone, Copy, PartialEq, Eq, Structural, Debug)]
pub enum EntryKind {
    File,
    Directory,
    Other,
}

/// One directory entry as the I/O layer reports it: a path and what it
/// names.
#[derive(Debug)]
pub struct DirEntry {
    pub path: String,
    pub kind: EntryKind,
}

/// A message the explorer emits towards the session.
#[derive(Debug)]
pub enum Message {
    OpenFile(String),
    OpenDir(String),
    NewFile,
}

/// The paths of the file entries, in order; entries naming neither a
/// file nor a directory appear in no list.
pub open spec fn file_paths(entries: Seq<(Seq<char>, EntryKind)>) -> Seq<Seq<char>>
    decreases entries.len(),
{
    if entries.len() == 0 {
        Seq::empty()
    } else if entries.last().1 == EntryKind::File {
        file_paths(entries.drop_last()).push(entries.last().0)
    } else {
        file_paths(entries.drop_last())
    }
}

/// The paths of the directory entries, in order.
pub open spec fn dir_paths(entries: Seq<(Seq<char>, EntryKind)>) -> Seq<Seq<char>>
    decreases entries.len(),
{
    if entries.len() == 0 {
        Seq::empty()
    } else if entries.last().1 == EntryKind::Directory {
        dir_paths(entries.drop_last()).push(entries.last().0)
    } else {
        dir_paths(entries.drop_last())
    }
}

/// The character sequences of a vector of strings.
pub open spec fn paths_view(v: Seq<String>) -> Seq<Seq<char>> {
    v.map_values(|s: String| s@)
}

/// The character sequences of a vector of directory entries.
pub open spec fn entries_view(v: Seq<DirEntry>) -> Seq<(Seq<char>, EntryKind)> {
    v.map_values(|e: DirEntry| (e.path@, e.kind))
}

/// The explorer read model.
#[derive(Debug)]
pub struct FileExplorer {
    pub files: Vec<String>,
    pub dirs: Vec<String>,
    pub selected_file: Option<String>,
}

impl FileExplorer {
    /// An empty explorer with nothing selected.
    pub fn new() -> (r: FileExplorer)
        ensures
            r.files@.len() == 0,
            r.dirs@.len() == 0,
            r.selected_file is None,
    {
        FileExplorer { files: Vec::new(), dirs: Vec::new(), selected_file: None }
    }

    /// An explorer showing the given content, files and directories kept
    /// apart in their original order.
    pub fn with_content(content: &Vec<DirEntry>) -> (r: FileExplorer)
        ensures
            paths_view(r.files@) == file_paths(entries_view(content@)),
            paths_view(r.dirs@) == dir_paths(entries_view(content@)),
            r.selected_file is None,
    {
        let mut files: Vec<String> = Vec::new();
        let mut dirs: Vec<String> = Vec::new();
        let n = content.len();
        for i in 0..n
            invariant
                n == content@.len(),
                paths_view(files@) == file_paths(entries_view(content@.take(i as int))),
                paths_view(dirs@) == dir_paths(entries_view(content@.take(i as int))),
        {
            proof {
                assert(entries_view(content@.take(i + 1)).drop_last() =~= entries_view(
                    content@.take(i as int),
                ));
                assert(entries_view(content@.take(i + 1)).last() == (
                    content@[i as int].path@,
                    content@[i as int].kind,
                ));
            }
            match content[i].kind {
                EntryKind::Directory => {
                    dirs.push(content[i].path.clone());
                    proof {
                        assert(paths_view(dirs@) =~= dir_paths(
                            entries_view(content@.take(i + 1)),
                        ));
                        assert(paths_view(files@) =~= file_paths(
                            entries_view(content@.take(i + 1)),
                        ));
                    }
                },
                EntryKind::File => {
                    files.push(content[i].path.clone());
                    proof {
                        assert(paths_view(files@) =~= file_paths(
                            entries_view(content@.take(i + 1)),
                        ));
                        assert(paths_view(dirs@) =~= dir_paths(
                            entries_view(content@.take(i + 1)),
                        ));
                    }
                },
                EntryKind::Other => {
                    proof {
                        assert(paths_view(files@) =~= file_paths(
                            entries_view(content@.take(i + 1)),
                        ));
                        assert(paths_view(dirs@) =~= dir_paths(
                            entries_view(content@.take(i + 1)),
                        ));
                    }
                },
            }
        }
        proof {
            assert(content@.take(n as int) =~= content@);
        }
        FileExplorer { files, dirs, selected_file: None }
    }

    /// Like `with_content`, with no content meaning an empty explorer.
    pub fn with_content_maybe(content: Option<&Vec<DirEntry>>) -> (r: FileExplorer)
        ensures
            match content {
                Some(c) => paths_view(r.files@) == file_paths(entries_view(c@)) && paths_view(
                    r.dirs@,
                ) == dir_paths(entries_view(c@)),
                None => r.files@.len() == 0 && r.dirs@.len() == 0,
            },
            r.selected_file is None,
    {
        match content {
            Some(c) => FileExplorer::with_content(c),
            None => FileExplorer::new(),
        }
    }

    /// Marks one file as selected.
    pub fn select_file(self, path: &str) -> (r: FileExplorer)
        ensures
            r.files@ == self.files@,
            r.dirs@ == self.dirs@,
            r.selected_file matches Some(p) && p@ == path@,
    {
        FileExplorer { selected_file: Some(path.to_owned()), ..self }
    }

    /// Marks one file as selected when a path is given; keeps the current
    /// selection otherwise.
    pub fn select_file_maybe(self, path: Option<&str>) -> (r: FileExplorer)
        ensures
            r.files@ == self.files@,
            r.dirs@ == self.dirs@,
            match path {
                Some(p) => r.selected_file matches Some(q) && q@ == p@,
                None => r.selected_file == self.selected_file,
            },
    {
        match path {
            Some(p) => self.select_file(p),
            None => self,
        }
    }
}

impl Default for FileExplorer {
    /// An empty explorer with nothing selected.
    fn default() -> (r: FileExplorer)
        ensures
            r.files@.len() == 0,
            r.dirs@.len() == 0,
            r.selected_file is None,
    {
        FileExplorer::new()
    }
}

/// The characters after the last `/`, or the whole sequence when it holds
/// none.
pub open spec fn after_last_slash(s: Seq<char>) -> Seq<char>
    decreases s.len(),
{
    if s.len() == 0 {
        Seq::empty()
    } else if s.last() == '/' {
        Seq::empty()
    } else {
        after_last_slash(s.drop_last()).push(s.last())
    }
}

/// The characters before the last `/`, or nothing when it holds none.
pub open spec fn before_last_slash(s: Seq<char>) -> Seq<char> {
    if after_last_slash(s).len() == s.len() {
        Seq::empty()
    } else {
        s.take(s.len() - after_last_slash(s).len() - 1)
    }
}

/// The sequence without trailing separators.
pub open spec fn strip_slashes(s: Seq<char>) -> Seq<char>
    decreases s.len(),
{
    if s.len() > 0 && s.last() == '/' {
        strip_slashes(s.drop_last())
    } else {
        s
    }
}

/// The final component of a path: the characters after the last
/// separator, trailing separators ignored.
pub open spec fn last_component(s: Seq<char>) -> Seq<char> {
    after_last_slash(strip_slashes(s))
}

/// True of a component that names a file or directory: nonempty and not
/// a dot navigation.
pub open spec fn is_real_component(c: Seq<char>) -> bool {
    c.len() > 0 && c != "."@ && c != ".."@
}

/// The path without its final component and the separator before it.
pub open spec fn parent_path(s: Seq<char>) -> Seq<char> {
    before_last_slash(strip_slashes(s))
}

/// The display name of a path: its final component when that names
/// something, and nothing otherwise.
pub open spec fn spec_display_name(s: Seq<char>) -> Seq<char> {
    if is_real_component(last_component(s)) {
        last_component(s)
    } else {
        Seq::empty()
    }
}

proof fn lemma_strip_at(s: Seq<char>, b: int)
    requires
        0 <= b <= s.len(),
        forall|j: int| b <= j < s.len() ==> s[j] == '/',
        b > 0 ==> s[b - 1] != '/',
    ensures
        strip_slashes(s) == s.take(b),
    decreases s.len() - b,
{
    if b == s.len() {
        assert(s.take(b) =~= s);
    } else {
        assert(s.last() == '/');
        assert(forall|j: int| b <= j < s.drop_last().len() ==> s.drop_last()[j] == '/');
        lemma_strip_at(s.drop_last(), b);
        assert(s.drop_last().take(b) =~= s.take(b));
    }
}

proof fn lemma_after_no_slash(s: Seq<char>)
    requires
        forall|j: int| 0 <= j < s.len() ==> s[j] != '/',
    ensures
        after_last_slash(s) == s,
    decreases s.len(),
{
    if s.len() > 0 {
        lemma_after_no_slash(s.drop_last());
        assert(after_last_slash(s) =~= s);
    }
}

proof fn lemma_after_at_slash(s: Seq<char>, i: int)
    requires
        0 <= i < s.len(),
        s[i] == '/',
        forall|j: int| i < j < s.len() ==> s[j] != '/',
    ensures
        after_last_slash(s) == s.skip(i + 1),
    decreases s.len(),
{
    if i == s.len() - 1 {
        assert(after_last_slash(s) =~= s.skip(i + 1));
    } else {
        lemma_after_at_slash(s.drop_last(), i);
        assert(s.drop_last().skip(i + 1) =~= s.skip(i + 1).drop_last());
        assert(after_last_slash(s) =~= s.skip(i + 1));
    }
}

/// Splits a path: the final component (trailing separators ignored), the
/// index it starts at, and the index the stripped path ends at.
fn split_path(path: &str) -> (r: (Vec<char>, usize, usize))
    ensures
        r.1 <= r.2 <= path@.len(),
        strip_slashes(path@) == path@.take(r.2 as int),
        r.0@ == last_component(path@),
        r.0@ == path@.subrange(r.1 as int, r.2 as int),
        r.1 == 0 ==> parent_path(path@) == Seq::<char>::empty(),
        r.1 > 0 ==> parent_path(path@) == path@.take(r.1 as int - 1),
{
    let chars = chars_of(path);
    let n = chars.len();
    let mut b: usize = n;
    while b > 0 && chars[b - 1] == '/'
        invariant
            b <= n,
            n == chars@.len(),
            chars@ == path@,
            forall|j: int| b <= j < n ==> chars@[j] == '/',
        decreases b,
    {
        b = b - 1;
    }
    proof {
        lemma_strip_at(path@, b as int);
    }
    let mut cut: usize = 0;
    for i in 0..b
        invariant
            b <= n,
            n == chars@.len(),
            chars@ == path@,
            cut <= i,
            cut > 0 ==> chars@[cut - 1] == '/',
            forall|j: int| cut <= j < i ==> chars@[j] != '/',
            strip_slashes(path@) == path@.take(b as int),
    {
        if chars[i] == '/' {
            cut = i + 1;
        }
    }
    let mut out: Vec<char> = Vec::new();
    let mut i = cut;
    while i < b
        invariant
            cut <= i <= b <= n,
            n == chars@.len(),
            chars@ == path@,
            out@ == path@.subrange(cut as int, i as int),
        decreases b - i,
    {
        out.push(chars[i]);
        proof {
            assert(out@ =~= path@.subrange(cut as int, i + 1));
        }
        i = i + 1;
    }
    proof {
        let t = path@.take(b as int);
        if cut == 0 {
            assert(forall|j: int| 0 <= j < t.len() ==> t[j] != '/');
            lemma_after_no_slash(t);
            assert(out@ =~= t);
            assert(after_last_slash(t).len() == t.len());
        } else {
            assert(t[cut - 1] == '/');
            assert(forall|j: int| cut <= j < t.len() ==> t[j] != '/');
            lemma_after_at_slash(t, cut - 1);
            assert(out@ =~= t.skip(cut as int));
            assert(after_last_slash(t).len() == t.len() - cut);
            assert(before_last_slash(t) =~= path@.take(cut - 1));
        }
    }
    (out, cut, b)
}

fn is_dot_component(v: &Vec<char>) -> (r: bool)
    ensures
        r == (v@ == "."@ || v@ == ".."@),
{
    proof {
        reveal_strlit(".");
        reveal_strlit("..");
    }
    if v.len() == 1 && v[0] == '.' {
        proof {
            assert(v@ =~= "."@);
        }
        true
    } else if v.len() == 2 && v[0] == '.' && v[1] == '.' {
        proof {
            assert(v@ =~= ".."@);
        }
        true
    } else {
        proof {
            assert(v@ != "."@ && v@ != ".."@) by {
                if v@ == "."@ {
                    assert(v@.len() == 1 && v@[0] == '.');
                }
                if v@ == ".."@ {
                    assert(v@.len() == 2 && v@[0] == '.' && v@[1] == '.');
                }
            }
        }
        false
    }
}

/// The display name of a path: its final component (trailing separators
/// ignored), or the empty string when the path ends in a root or a dot
/// navigation.
pub fn file_name_of(path: &str) -> (r: String)
    ensures
        r@ == spec_display_name(path@),
{
    let (c, _, _) = split_path(path);
    if c.len() == 0 {
        String::new()
    } else if is_dot_component(&c) {
        String::new()
    } else {
        string_of(&c)
    }
}

/// The display name of a path, when its final component names something:
/// trailing separators are ignored, and a path ending in a root or a dot
/// navigation has none.
pub fn get_file_name(path: &str) -> (r: Option<String>)
    ensures
        r is Some <==> is_real_component(last_component(path@)),
        r matches Some(name) ==> name@ == last_component(path@),
{
    let (c, _, _) = split_path(path);
    if c.len() == 0 {
        None
    } else if is_dot_component(&c) {
        None
    } else {
        Some(string_of(&c))
    }
}

/// The display name of a path's parent directory, when the parent's
/// final component names something.
pub fn get_directory_name(path: &str) -> (r: Option<String>)
    ensures
        r is Some <==> is_real_component(last_component(parent_path(path@))),
        r matches Some(name) ==> name@ == last_component(parent_path(path@)),
{
    let chars = chars_of(path);
    let (_, cut, _) = split_path(path);
    if cut == 0 {
        proof {
            assert(strip_slashes(Seq::<char>::empty()) =~= Seq::<char>::empty());
            assert(last_component(parent_path(path@)) =~= Seq::<char>::empty());
        }
        None
    } else {
        let mut parent: Vec<char> = Vec::new();
        let m = cut - 1;
        for i in 0..m
            invariant
                m < cut <= chars@.len(),
                chars@ == path@,
                parent@ == path@.take(i as int),
        {
            parent.push(chars[i]);
            proof {
                assert(parent@ =~= path@.take(i + 1));
            }
        }
        let parent_s = string_of(&parent);
        proof {
            assert(parent_s@ == parent_path(path@));
        }
        get_file_name(parent_s.as_str())
    }
}

} // verus!
