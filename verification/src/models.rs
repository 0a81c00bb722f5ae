//! The records that pass between the parts of the library, and their views.

use vstd::prelude::*;

verus! {

/// One collected file: where it was found, its name below the project root
/// (always with `/` between segments) and its whole text.
#[derive(Clone, Debug)]
pub struct FileInfo {
    pub file_url: String,
    pub file_name: String,
    pub file_content: String,
}

/// What one collection run produced. The note comes first, so that it is also
/// first when the record is written out field by field.
#[derive(Clone, Debug)]
pub struct ProjectOutput {
    pub llm_note: Option<String>,
    pub files: Vec<FileInfo>,
    pub tree_view: Option<String>,
}

/// What a settings file holds.
#[derive(Debug)]
pub struct LoadedSettings {
    pub patterns_include: Vec<String>,
    pub patterns_exclude: Vec<String>,
    pub output_path: Option<String>,
    pub dev_memo: Vec<String>,
    pub llm_note: Vec<String>,
}

/// A collected file as three texts.
pub struct FileView {
    pub url: Seq<char>,
    pub name: Seq<char>,
    pub content: Seq<char>,
}

/// A collection run's result as plain texts.
pub struct OutputView {
    pub note: Option<Seq<char>>,
    pub files: Seq<FileView>,
    pub tree: Option<Seq<char>>,
}

/// Settings as plain texts.
pub struct SettingsView {
    pub includes: Seq<Seq<char>>,
    pub excludes: Seq<Seq<char>>,
    pub output_path: Option<Seq<char>>,
    pub memo: Seq<Seq<char>>,
    pub notes: Seq<Seq<char>>,
}

/// The text of each string.
pub open spec fn texts(v: Seq<String>) -> Seq<Seq<char>> {
    Seq::new(v.len(), |i: int| v[i]@)
}

/// The text of an optional string.
pub open spec fn opt_text(s: Option<String>) -> Option<Seq<char>> {
    match s {
        Some(t) => Some(t@),
        None => None,
    }
}

/// The text of an optional string slice.
pub open spec fn opt_str(s: Option<&str>) -> Option<Seq<char>> {
    match s {
        Some(t) => Some(t@),
        None => None,
    }
}

/// The view of each file.
pub open spec fn file_views(v: Seq<FileInfo>) -> Seq<FileView> {
    Seq::new(v.len(), |i: int| v[i]@)
}

impl View for FileInfo {
    type V = FileView;

    open spec fn view(&self) -> FileView {
        FileView { url: self.file_url@, name: self.file_name@, content: self.file_content@ }
    }
}

impl View for ProjectOutput {
    type V = OutputView;

    open spec fn view(&self) -> OutputView {
        OutputView {
            note: opt_text(self.llm_note),
            files: file_views(self.files@),
            tree: opt_text(self.tree_view),
        }
    }
}

impl View for LoadedSettings {
    type V = SettingsView;

    open spec fn view(&self) -> SettingsView {
        SettingsView {
            includes: texts(self.patterns_include@),
            excludes: texts(self.patterns_exclude@),
            output_path: opt_text(self.output_path),
            memo: texts(self.dev_memo@),
            notes: texts(self.llm_note@),
        }
    }
}

/// Appending a string appends its text.
pub proof fn lemma_texts_push(v: Seq<String>, s: String)
    ensures
        texts(v.push(s)) == texts(v).push(s@),
{
    assert(texts(v.push(s)) =~= texts(v).push(s@));
}

} // verus!
