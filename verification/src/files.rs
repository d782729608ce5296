//! The files of one snapshot: relative path to content, each path once.

use vstd::hash_map::StringHashMap;
use vstd::prelude::*;

verus! {

/// The content of one file: its text, or `None` for a file that is not text.
#[derive(Debug)]
pub struct FileData {
    pub text_content: Option<String>,
}

impl FileData {
    /// The text that stands for this file when it is compared: its own text,
    /// or the empty text for a file that is not text.
    pub open spec fn text(&self) -> Seq<char> {
        match self.text_content {
            Some(s) => s@,
            None => Seq::<char>::empty(),
        }
    }
}

/// One file of a snapshot, as the contracts see it: its path, whether it
/// is text, and the text that stands for it when it is compared.
pub ghost struct FileView {
    pub path: Seq<char>,
    pub is_text: bool,
    pub text: Seq<char>,
}

/// A file as the contracts see it.
pub open spec fn file_view(path: Seq<char>, data: FileData) -> FileView {
    FileView { path, is_text: data.text_content is Some, text: data.text() }
}

/// No two files of the sequence have the same path.
pub open spec fn distinct_paths(files: Seq<FileView>) -> bool {
    forall|i: int, j: int|
        0 <= i < files.len() && 0 <= j < files.len() && i != j ==> (#[trigger] files[i]).path != (
        #[trigger] files[j]).path
}

/// Some file of the sequence has this path.
pub open spec fn has_path(files: Seq<FileView>, path: Seq<char>) -> bool {
    exists|i: int| 0 <= i < files.len() && (#[trigger] files[i]).path == path
}

/// The position of the file with this path.
pub open spec fn position_of(files: Seq<FileView>, path: Seq<char>) -> int {
    choose|i: int| 0 <= i < files.len() && (#[trigger] files[i]).path == path
}

/// The text of the file with this path.
pub open spec fn text_at(files: Seq<FileView>, path: Seq<char>) -> Seq<char> {
    files[position_of(files, path)].text
}

/// A map from relative path to file content that keeps the files in the order
/// in which their paths first came in.
pub struct FileMap {
    paths: Vec<String>,
    contents: Vec<FileData>,
    index: StringHashMap<usize>,
}

impl View for FileMap {
    type V = Seq<FileView>;

    closed spec fn view(&self) -> Seq<FileView> {
        Seq::new(
            self.paths@.len(),
            |i: int| file_view(self.paths@[i]@, self.contents@[i]),
        )
    }
}

impl FileMap {
    #[verifier::type_invariant]
    spec fn well_formed(&self) -> bool {
        &&& self.paths@.len() == self.contents@.len()
        &&& forall|i: int|
            0 <= i < self.paths@.len() ==> {
                &&& self.index@.contains_key(#[trigger] self.paths@[i]@)
                &&& self.index@[self.paths@[i]@] == i
            }
        &&& forall|p: Seq<char>| #[trigger]
            self.index@.contains_key(p) ==> {
                &&& self.index@[p] < self.paths@.len()
                &&& self.paths@[self.index@[p] as int]@ == p
            }
    }

    /// A map without files.
    pub fn new() -> (files: Self)
        ensures
            files@ == Seq::<FileView>::empty(),
    {
        let files = FileMap { paths: Vec::new(), contents: Vec::new(), index: StringHashMap::new() };
        assert(files@ =~= Seq::<FileView>::empty());
        files
    }

    /// The number of files. No two of them have the same path.
    pub fn len(&self) -> (n: usize)
        ensures
            n == self@.len(),
            distinct_paths(self@),
    {
        proof {
            use_type_invariant(self);
        }
        self.paths.len()
    }

    /// Gives the file with this path the content `data`: a path that is
    /// already there keeps its place and gets the new content, a new path
    /// comes after the others.
    pub fn insert(&mut self, path: String, data: FileData)
        ensures
            has_path(old(self)@, path@) ==> final(self)@ == old(self)@.update(
                position_of(old(self)@, path@),
                file_view(path@, data),
            ),
            !has_path(old(self)@, path@) ==> final(self)@ == old(self)@.push(
                file_view(path@, data),
            ),
    {
        proof {
            use_type_invariant(&*self);
        }
        let ghost before = self@;
        let ghost entry = file_view(path@, data);
        let mut taken = FileMap::new();
        core::mem::swap(self, &mut taken);
        let FileMap { mut paths, mut contents, mut index } = taken;
        let found = match index.get(path.as_str()) {
            Some(i) => Some(*i),
            None => None,
        };
        match found {
            Some(i) => {
                proof {
                    let c = position_of(before, path@);
                    assert(before[i as int].path == path@);
                    assert(before[c].path == path@);
                    assert(index@[paths@[c]@] == c);
                }
                contents.set(i, data);
                *self = FileMap { paths, contents, index };
                assert(self@ =~= before.update(i as int, entry));
            },
            None => {
                proof {
                    if has_path(before, path@) {
                        let c = position_of(before, path@);
                        assert(before[c].path == path@);
                        assert(index@.contains_key(paths@[c]@));
                    }
                }
                let n = paths.len();
                index.insert(path.clone(), n);
                paths.push(path);
                contents.push(data);
                *self = FileMap { paths, contents, index };
                assert(self@ =~= before.push(entry));
            },
        }
    }

    /// The path of the file at a position.
    pub fn path_at(&self, i: usize) -> (path: &String)
        requires
            i < self@.len(),
        ensures
            path@ == self@[i as int].path,
    {
        &self.paths[i]
    }

    /// The content of the file at a position.
    pub fn data_at(&self, i: usize) -> (data: &FileData)
        requires
            i < self@.len(),
        ensures
            data.text() == self@[i as int].text,
            data.text_content is Some == self@[i as int].is_text,
    {
        proof {
            use_type_invariant(self);
        }
        &self.contents[i]
    }

    /// The content of the file with this path, if there is one.
    pub fn get(&self, path: &str) -> (found: Option<&FileData>)
        ensures
            found is Some <==> has_path(self@, path@),
            found matches Some(data) ==> file_view(path@, *data) == self@[position_of(
                self@,
                path@,
            )],
    {
        proof {
            use_type_invariant(self);
        }
        match self.index.get(path) {
            Some(i) => {
                let data = &self.contents[*i];
                proof {
                    let k = *i as int;
                    assert(self@[k].path == path@);
                    let c = position_of(self@, path@);
                    assert(self@[c].path == path@);
                    assert(self.paths@[c]@ == path@);
                    assert(self.index@[self.paths@[c]@] == c);
                    assert(c == k);
                }
                Some(data)
            },
            None => {
                proof {
                    if has_path(self@, path@) {
                        let c = position_of(self@, path@);
                        assert(self@[c].path == path@);
                        assert(self.index@.contains_key(self.paths@[c]@));
                    }
                }
                None
            },
        }
    }
}

} // verus!
