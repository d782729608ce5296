//! The records that the stages hand to one another, and their models.

use crate::files::FileMap;
use vstd::prelude::*;
use vstd::string::StringExecFns;

verus! {

/// What one line of a diff says.
#[derive(Debug, Clone, Copy, PartialEq, Eq, Structural)]
pub enum ChangeTag {
    /// The line is in both texts.
    Equal,
    /// The line is in the old text only.
    Delete,
    /// The line is in the new text only.
    Insert,
}

/// One line of a diff: its tag, its position in the old and in the new text
/// where it has one, and the line itself.
#[derive(Debug)]
pub struct TextChange {
    pub tag: ChangeTag,
    pub old_index: Option<usize>,
    pub new_index: Option<usize>,
    pub value: String,
}

/// The model of a [`TextChange`].
pub ghost struct LineChange {
    pub tag: ChangeTag,
    pub old_index: Option<usize>,
    pub new_index: Option<usize>,
    pub value: Seq<char>,
}

impl View for TextChange {
    type V = LineChange;

    open spec fn view(&self) -> LineChange {
        LineChange {
            tag: self.tag,
            old_index: self.old_index,
            new_index: self.new_index,
            value: self.value@,
        }
    }
}

/// The models of a sequence of changes.
pub open spec fn changes_view(changes: Seq<TextChange>) -> Seq<LineChange> {
    Seq::new(changes.len(), |i: int| changes[i]@)
}

/// The sign under which a change is shown.
pub open spec fn tag_sign(tag: ChangeTag) -> Seq<char> {
    match tag {
        ChangeTag::Equal => seq!['='],
        ChangeTag::Delete => seq!['-'],
        ChangeTag::Insert => seq!['+'],
    }
}

/// A line without the newline that ends it, if one does.
pub open spec fn without_final_newline(line: Seq<char>) -> Seq<char> {
    if line.len() > 0 && line.last() == '\n' {
        line.drop_last()
    } else {
        line
    }
}

/// How a change is shown: its sign, a space, and the line without the
/// newline that ends it.
pub open spec fn change_text(change: LineChange) -> Seq<char> {
    tag_sign(change.tag) + seq![' '] + without_final_newline(change.value)
}

impl TextChange {
    /// The change as one line of text: `+`, `-` or `=`, a space, and the
    /// line without the newline that ends it.
    pub fn to_string(&self) -> (text: String)
        ensures
            text@ == change_text(self@),
    {
        let sign = match self.tag {
            ChangeTag::Equal => "=",
            ChangeTag::Delete => "-",
            ChangeTag::Insert => "+",
        };
        proof {
            reveal_strlit("=");
            reveal_strlit("-");
            reveal_strlit("+");
            reveal_strlit(" ");
            reveal_strlit("\n");
        }
        assert(sign@ =~= tag_sign(self.tag));
        let mut text = String::from_str(sign);
        text.append(" ");
        let line = self.value.as_str();
        let n = line.unicode_len();
        if n > 0 && line.get_char(n - 1) == '\n' {
            let body = line.substring_char(0, n - 1);
            assert(body@ =~= line@.drop_last());
            text.append(body);
        } else {
            text.append(line);
        }
        assert(" "@ =~= seq![' ']);
        text
    }
}

/// The changes to one file.
#[derive(Debug)]
pub struct FileChange {
    pub filename: String,
    pub changes: Vec<TextChange>,
}

/// The model of a [`FileChange`].
pub ghost struct FileDelta {
    pub filename: Seq<char>,
    pub changes: Seq<LineChange>,
}

impl View for FileChange {
    type V = FileDelta;

    open spec fn view(&self) -> FileDelta {
        FileDelta { filename: self.filename@, changes: changes_view(self.changes@) }
    }
}

/// The models of a sequence of file changes.
pub open spec fn deltas_view(files: Seq<FileChange>) -> Seq<FileDelta> {
    Seq::new(files.len(), |i: int| files[i]@)
}

/// What turns one snapshot into another: the files that came, the files that
/// went, and the files whose text differs.
#[derive(Debug)]
pub struct TextualVersionDiff {
    pub added_files: Vec<FileChange>,
    pub deleted_files: Vec<FileChange>,
    pub modified_files: Vec<FileChange>,
}

/// The model of a [`TextualVersionDiff`].
pub ghost struct SnapshotDiff {
    pub added: Seq<FileDelta>,
    pub deleted: Seq<FileDelta>,
    pub modified: Seq<FileDelta>,
}

impl View for TextualVersionDiff {
    type V = SnapshotDiff;

    open spec fn view(&self) -> SnapshotDiff {
        SnapshotDiff {
            added: deltas_view(self.added_files@),
            deleted: deltas_view(self.deleted_files@),
            modified: deltas_view(self.modified_files@),
        }
    }
}

/// One snapshot of the codebase: its name, where it came from, and its files.
pub struct Version {
    pub name: String,
    pub path: std::path::PathBuf,
    pub files: FileMap,
}

/// What one snapshot differs by from another, in one direction: the numbers
/// of files added, deleted and modified, and the divergence in hundredths.
#[derive(Debug, Clone, Copy, PartialEq, Eq, Structural)]
pub struct DivCalcResult {
    pub added: usize,
    pub deleted: usize,
    pub modified: usize,
    pub divergence: u128,
}

impl DivCalcResult {
    /// The result that says nothing differs.
    pub fn new() -> (zero: Self)
        ensures
            zero == (DivCalcResult { added: 0, deleted: 0, modified: 0, divergence: 0 }),
    {
        DivCalcResult { added: 0, deleted: 0, modified: 0, divergence: 0 }
    }
}

/// What a node of the inferred tree says: the snapshot's name, and how it
/// differs from its parent (file counts, and the divergence in hundredths).
#[derive(Debug)]
pub struct DiffInfo {
    pub name: String,
    pub added: usize,
    pub deleted: usize,
    pub modified: usize,
    pub divergence: u128,
}

/// The model of a [`DiffInfo`].
pub ghost struct DiffSummary {
    pub name: Seq<char>,
    pub added: usize,
    pub deleted: usize,
    pub modified: usize,
    pub divergence: u128,
}

impl View for DiffInfo {
    type V = DiffSummary;

    open spec fn view(&self) -> DiffSummary {
        DiffSummary {
            name: self.name@,
            added: self.added,
            deleted: self.deleted,
            modified: self.modified,
            divergence: self.divergence,
        }
    }
}

impl Clone for DiffInfo {
    fn clone(&self) -> (copy: Self)
        ensures
            copy@ == self@,
    {
        DiffInfo {
            name: self.name.clone(),
            added: self.added,
            deleted: self.deleted,
            modified: self.modified,
            divergence: self.divergence,
        }
    }
}

impl DiffInfo {
    /// No file differs from the parent.
    pub fn no_changes(&self) -> (none: bool)
        ensures
            none == (self.added == 0 && self.deleted == 0 && self.modified == 0),
    {
        self.added == 0 && self.deleted == 0 && self.modified == 0
    }
}

/// `std::path::PathBuf`, of which nothing is said: a path is carried along,
/// never looked into.
#[verifier::external_type_specification]
#[verifier::external_body]
pub struct ExPathBuf(std::path::PathBuf);

} // verus!
