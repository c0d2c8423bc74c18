//! What the server answers: locations, diagnostics, completions and code actions.
use crate::edits::{TextEdit, TextEditView};
use crate::position::Range;
use crate::text::{option_view, views};
use vstd::prelude::*;

verus! {

/// A range of a file.
#[derive(Debug, PartialEq, Eq)]
pub struct Location {
    pub uri: String,
    pub range: Range,
}

/// What [`Location`] stands for.
pub struct LocationView {
    pub uri: Seq<char>,
    pub range: Range,
}

impl View for Location {
    type V = LocationView;

    open spec fn view(&self) -> LocationView {
        LocationView { uri: self.uri@, range: self.range }
    }
}

/// How severe a finding is.
#[derive(Debug, Clone, Copy, PartialEq, Eq, Structural)]
pub enum DiagnosticSeverity {
    Error,
    Warning,
    Information,
    Hint,
}

/// How severe the two kinds of findings are.
#[derive(Debug, Clone, Copy, PartialEq, Eq, Structural)]
pub struct DiagnosticConfig {
    pub missing_annotation: DiagnosticSeverity,
    pub mismatched_annotation: DiagnosticSeverity,
}

/// A missing annotation is a hint, a mismatched one an error.
pub open spec fn default_config() -> DiagnosticConfig {
    DiagnosticConfig {
        missing_annotation: DiagnosticSeverity::Hint,
        mismatched_annotation: DiagnosticSeverity::Error,
    }
}

impl Default for DiagnosticConfig {
    fn default() -> (r: Self)
        ensures
            r == default_config(),
    {
        DiagnosticConfig {
            missing_annotation: DiagnosticSeverity::Hint,
            mismatched_annotation: DiagnosticSeverity::Error,
        }
    }
}

/// What is wrong with an annotation.
#[derive(Debug, Clone, Copy, PartialEq, Eq, Structural)]
pub enum AnnotationDiagnosticKind {
    Missing,
    Mismatched,
}

/// A parameter whose annotation is not that of its fixture.
#[derive(Debug, PartialEq, Eq)]
pub struct FixtureAnnotationDiagnostic {
    pub kind: AnnotationDiagnosticKind,
    pub fixture_name: String,
    pub fixture_annotation: String,
    pub range: Range,
    pub edit_range: Range,
}

/// What [`FixtureAnnotationDiagnostic`] stands for.
pub struct FixtureAnnotationDiagnosticView {
    pub kind: AnnotationDiagnosticKind,
    pub fixture_name: Seq<char>,
    pub fixture_annotation: Seq<char>,
    pub range: Range,
    pub edit_range: Range,
}

impl View for FixtureAnnotationDiagnostic {
    type V = FixtureAnnotationDiagnosticView;

    open spec fn view(&self) -> FixtureAnnotationDiagnosticView {
        FixtureAnnotationDiagnosticView {
            kind: self.kind,
            fixture_name: self.fixture_name@,
            fixture_annotation: self.fixture_annotation@,
            range: self.range,
            edit_range: self.edit_range,
        }
    }
}

impl Clone for FixtureAnnotationDiagnostic {
    fn clone(&self) -> (r: Self)
        ensures
            r@ == self@,
    {
        FixtureAnnotationDiagnostic {
            kind: self.kind,
            fixture_name: self.fixture_name.clone(),
            fixture_annotation: self.fixture_annotation.clone(),
            range: self.range,
            edit_range: self.edit_range,
        }
    }
}

/// A finding as the editor shows it.
#[derive(Debug, PartialEq, Eq)]
pub struct Diagnostic {
    pub range: Range,
    pub severity: DiagnosticSeverity,
    pub source: String,
    pub message: String,
}

/// What [`Diagnostic`] stands for.
pub struct DiagnosticView {
    pub range: Range,
    pub severity: DiagnosticSeverity,
    pub source: Seq<char>,
    pub message: Seq<char>,
}

impl View for Diagnostic {
    type V = DiagnosticView;

    open spec fn view(&self) -> DiagnosticView {
        DiagnosticView {
            range: self.range,
            severity: self.severity,
            source: self.source@,
            message: self.message@,
        }
    }
}

/// What a completion stands for.
#[derive(Debug, Clone, Copy, PartialEq, Eq, Structural)]
pub enum CompletionItemKind {
    Function,
}

/// A fixture that can be written at a position; `insert_text` is the label where it is not
/// given.
#[derive(Debug, PartialEq, Eq)]
pub struct CompletionItem {
    pub label: String,
    pub kind: CompletionItemKind,
    pub detail: String,
    pub insert_text: Option<String>,
    pub additional_text_edits: Option<Vec<TextEdit>>,
}

/// What [`CompletionItem`] stands for.
pub struct CompletionItemView {
    pub label: Seq<char>,
    pub kind: CompletionItemKind,
    pub detail: Seq<char>,
    pub insert_text: Option<Seq<char>>,
    pub additional_text_edits: Option<Seq<TextEditView>>,
}

impl View for CompletionItem {
    type V = CompletionItemView;

    open spec fn view(&self) -> CompletionItemView {
        CompletionItemView {
            label: self.label@,
            kind: self.kind,
            detail: self.detail@,
            insert_text: option_view(self.insert_text),
            additional_text_edits: match self.additional_text_edits {
                Some(edits) => Some(views(edits@)),
                None => None,
            },
        }
    }
}

/// The edits of one file.
#[derive(Debug, PartialEq, Eq)]
pub struct WorkspaceEdit {
    pub uri: String,
    pub edits: Vec<TextEdit>,
}

/// What [`WorkspaceEdit`] stands for.
pub struct WorkspaceEditView {
    pub uri: Seq<char>,
    pub edits: Seq<TextEditView>,
}

impl View for WorkspaceEdit {
    type V = WorkspaceEditView;

    open spec fn view(&self) -> WorkspaceEditView {
        WorkspaceEditView { uri: self.uri@, edits: views(self.edits@) }
    }
}

/// Whether an action mends one place or the whole file.
#[derive(Debug, Clone, Copy, PartialEq, Eq, Structural)]
pub enum CodeActionKind {
    QuickFix,
    Source,
}

/// Something that the editor can do to a file.
#[derive(Debug, PartialEq, Eq)]
pub struct CodeAction {
    pub title: String,
    pub kind: CodeActionKind,
    pub edit: WorkspaceEdit,
}

/// What [`CodeAction`] stands for.
pub struct CodeActionView {
    pub title: Seq<char>,
    pub kind: CodeActionKind,
    pub edit: WorkspaceEditView,
}

impl View for CodeAction {
    type V = CodeActionView;

    open spec fn view(&self) -> CodeActionView {
        CodeActionView { title: self.title@, kind: self.kind, edit: self.edit@ }
    }
}

/// The edits of one file.
pub fn workspace_edit(uri: &str, edits: Vec<TextEdit>) -> (r: WorkspaceEdit)
    ensures
        r@.uri == uri@,
        r@.edits == views(edits@),
{
    WorkspaceEdit { uri: uri.to_owned(), edits }
}

/// What is said of an answer is said of all its parts.
pub proof fn answers_stand_for_their_parts(
    location: Location,
    diagnostic: Diagnostic,
    item: CompletionItem,
    action: CodeAction,
)
    ensures
        location@.uri == location.uri@ && location@.range == location.range,
        diagnostic@.range == diagnostic.range && diagnostic@.severity == diagnostic.severity
            && diagnostic@.source == diagnostic.source@ && diagnostic@.message
            == diagnostic.message@,
        item@.label == item.label@ && item@.kind == item.kind && item@.detail == item.detail@,
        item@.insert_text is Some <==> item.insert_text is Some,
        item.insert_text is Some ==> item@.insert_text->0 == item.insert_text->0@,
        item@.additional_text_edits is Some <==> item.additional_text_edits is Some,
        item.additional_text_edits is Some ==> item@.additional_text_edits->0 == views(
            item.additional_text_edits->0@,
        ),
        action@.title == action.title@ && action@.kind == action.kind,
        action@.edit.uri == action.edit.uri@,
        action@.edit.edits == views(action.edit.edits@),
        forall|i: int|
            0 <= i < action.edit.edits@.len() ==> (#[trigger] views(action.edit.edits@)[i]).range
                == action.edit.edits@[i].range && views(action.edit.edits@)[i].new_text
                == action.edit.edits@[i].new_text@,
{
}

/// What is said of a finding is said of all its parts.
pub proof fn findings_stand_for_their_parts(d: FixtureAnnotationDiagnostic)
    ensures
        d@.kind == d.kind,
        d@.fixture_name == d.fixture_name@,
        d@.fixture_annotation == d.fixture_annotation@,
        d@.range == d.range,
        d@.edit_range == d.edit_range,
{
}

}
