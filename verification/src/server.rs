//! What the server does with a message, and what it keeps between messages.
use crate::completion::completions_of;
use crate::diagnostics::{annotation_diagnostics_of, code_actions_of, diagnostic_of};
use crate::fixture::FixtureView;
use crate::index::{all_fixtures, is_located, FixtureIndex, FixtureIndexView};
use crate::navigation::{definition_at, references_at};
use crate::path::{is_absolute, same_path, FilePath, PathView};
use crate::position::{Position, Range};
use crate::protocol::{
    default_config, CodeAction, CompletionItem, CompletionItemView, Diagnostic, DiagnosticConfig,
    DiagnosticSeverity, DiagnosticView, FixtureAnnotationDiagnosticView, Location, LocationView,
};
use crate::text::{byte_len, chars_of, fits, is_text, option_view, string_of, views};
use crate::uri::{path_from_uri, path_named_by};
use crate::workspace::{parseable, source_at, UnreadableFile, Workspace, WorkspaceView};
use vstd::prelude::*;

verus! {

/// What a message asks for.
#[derive(Debug, Clone, Copy, PartialEq, Eq, Structural)]
pub enum Action {
    Initialize,
    Complete,
    Define,
    FindReferences,
    OfferActions,
    /// A request that is answered with nothing.
    AnswerNull,
    Open,
    Change,
    Close,
    Exit,
    Ignore,
}

/// What a message asks for: a message with an id is a request, one without is a notification.
pub open spec fn action_for(has_id: bool, method: Option<Seq<char>>) -> Action {
    match method {
        Some(m) => if has_id {
            if m == "initialize"@ {
                Action::Initialize
            } else if m == "textDocument/completion"@ {
                Action::Complete
            } else if m == "textDocument/definition"@ {
                Action::Define
            } else if m == "textDocument/references"@ {
                Action::FindReferences
            } else if m == "textDocument/codeAction"@ {
                Action::OfferActions
            } else {
                Action::AnswerNull
            }
        } else {
            if m == "textDocument/didOpen"@ {
                Action::Open
            } else if m == "textDocument/didChange"@ {
                Action::Change
            } else if m == "textDocument/didClose"@ {
                Action::Close
            } else if m == "exit"@ {
                Action::Exit
            } else {
                Action::Ignore
            }
        },
        None => Action::Ignore,
    }
}

/// The action sends an answer.
pub open spec fn answers(action: Action) -> bool {
    match action {
        Action::Initialize => true,
        Action::Complete => true,
        Action::Define => true,
        Action::FindReferences => true,
        Action::OfferActions => true,
        Action::AnswerNull => true,
        _ => false,
    }
}

/// What a message asks for.
pub fn route(has_id: bool, method: &Option<String>) -> (r: Action)
    ensures
        r == action_for(has_id, option_view(*method)),
{
    match method {
        Some(m) => if has_id {
            if is_text(m, "initialize") {
                Action::Initialize
            } else if is_text(m, "textDocument/completion") {
                Action::Complete
            } else if is_text(m, "textDocument/definition") {
                Action::Define
            } else if is_text(m, "textDocument/references") {
                Action::FindReferences
            } else if is_text(m, "textDocument/codeAction") {
                Action::OfferActions
            } else {
                Action::AnswerNull
            }
        } else {
            if is_text(m, "textDocument/didOpen") {
                Action::Open
            } else if is_text(m, "textDocument/didChange") {
                Action::Change
            } else if is_text(m, "textDocument/didClose") {
                Action::Close
            } else if is_text(m, "exit") {
                Action::Exit
            } else {
                Action::Ignore
            }
        },
        None => Action::Ignore,
    }
}

/// Every request is answered, whatever its method, and no notification is; only a notification
/// ends the server.
pub proof fn requests_are_answered(has_id: bool, method: Seq<char>)
    ensures
        answers(action_for(has_id, Some(method))) == has_id,
        action_for(has_id, Some(method)) == Action::Exit ==> !has_id,
{
}

/// What the server offers in its answer to the first request.
#[derive(Debug, Clone, Copy, PartialEq, Eq, Structural)]
pub struct Capabilities {
    pub completion: bool,
    pub definition: bool,
    pub references: bool,
    pub code_actions: bool,
    /// The editor sends the whole text of a file whenever it changes.
    pub full_text: bool,
}

/// What the server offers.
pub fn capabilities() -> (r: Capabilities)
    ensures
        r.completion && r.definition && r.references && r.code_actions && r.full_text,
{
    Capabilities {
        completion: true,
        definition: true,
        references: true,
        code_actions: true,
        full_text: true,
    }
}

/// A letter of ASCII in lower case; any other character as it is.
pub open spec fn lower(c: char) -> char {
    if 0x41 <= c as u32 <= 0x5a {
        ((c as u8) + 0x20) as u8 as char
    } else {
        c
    }
}

/// The severity that a text names, in whatever case.
pub open spec fn severity_named(value: Seq<char>) -> Option<DiagnosticSeverity> {
    let name = value.map_values(|c: char| lower(c));
    if name == "error"@ {
        Some(DiagnosticSeverity::Error)
    } else if name == "warning"@ || name == "warn"@ {
        Some(DiagnosticSeverity::Warning)
    } else if name == "information"@ || name == "info"@ {
        Some(DiagnosticSeverity::Information)
    } else if name == "hint"@ {
        Some(DiagnosticSeverity::Hint)
    } else {
        None
    }
}

fn lower_of(c: char) -> (r: char)
    ensures
        r == lower(c),
{
    let u: u32 = c as u32;
    if 0x41 <= u && u <= 0x5a {
        let b: u8 = c as u8;
        (b + 0x20) as char
    } else {
        c
    }
}

/// The severity that a text names.
pub fn severity_from_str(value: &str) -> (r: Option<DiagnosticSeverity>)
    ensures
        r == severity_named(value@),
{
    let chars: Vec<char> = chars_of(value);
    let mut lowered: Vec<char> = Vec::new();
    let mut i: usize = 0;
    while i < chars.len()
        invariant
            i <= chars@.len(),
            lowered@.len() == i,
            forall|j: int| 0 <= j < i ==> #[trigger] lowered@[j] == lower(chars@[j]),
        decreases chars@.len() - i,
    {
        lowered.push(lower_of(chars[i]));
        i = i + 1;
    }
    let name: String = string_of(&lowered);
    assert(name@ =~= value@.map_values(|c: char| lower(c)));
    if is_text(&name, "error") {
        Some(DiagnosticSeverity::Error)
    } else if is_text(&name, "warning") || is_text(&name, "warn") {
        Some(DiagnosticSeverity::Warning)
    } else if is_text(&name, "information") || is_text(&name, "info") {
        Some(DiagnosticSeverity::Information)
    } else if is_text(&name, "hint") {
        Some(DiagnosticSeverity::Hint)
    } else {
        None
    }
}

/// The severity that an option gives; the default where it gives none.
pub open spec fn configured(
    value: Option<Seq<char>>,
    default: DiagnosticSeverity,
) -> DiagnosticSeverity {
    match value {
        Some(v) => match severity_named(v) {
            Some(severity) => severity,
            None => default,
        },
        None => default,
    }
}

/// The severities that the options give.
pub open spec fn config_for(
    missing: Option<Seq<char>>,
    mismatched: Option<Seq<char>>,
) -> DiagnosticConfig {
    DiagnosticConfig {
        missing_annotation: configured(missing, default_config().missing_annotation),
        mismatched_annotation: configured(mismatched, default_config().mismatched_annotation),
    }
}

fn configured_severity(value: &Option<String>, default: DiagnosticSeverity) -> (r:
    DiagnosticSeverity)
    ensures
        r == configured(option_view(*value), default),
{
    match value {
        Some(v) => match severity_from_str(v.as_str()) {
            Some(severity) => severity,
            None => default,
        },
        None => default,
    }
}

/// The severities that the options of the first request give.
pub fn diagnostics_from_initialize(missing: &Option<String>, mismatched: &Option<String>) -> (r:
    DiagnosticConfig)
    ensures
        r == config_for(option_view(*missing), option_view(*mismatched)),
{
    let config: DiagnosticConfig = DiagnosticConfig::default();
    DiagnosticConfig {
        missing_annotation: configured_severity(missing, config.missing_annotation),
        mismatched_annotation: configured_severity(mismatched, config.mismatched_annotation),
    }
}

/// The root that the first request names.
pub fn root_from_initialize(root_uri: &Option<String>) -> (r: Option<FilePath>)
    ensures
        option_view(r) == (match *root_uri {
            Some(uri) => path_named_by(uri@),
            None => None,
        }),
        r matches Some(root) ==> is_absolute(root@),
{
    match root_uri {
        Some(uri) => path_from_uri(uri.as_str()),
        None => None,
    }
}

/// A text that the editor has open.
#[derive(Debug)]
pub struct Document {
    pub path: FilePath,
    pub text: String,
}

/// The texts that the editor has open.
#[derive(Debug)]
pub struct Documents {
    entries: Vec<Document>,
}

/// The texts by their paths; a later one takes the place of an earlier one.
pub open spec fn texts_of(entries: Seq<Document>) -> Map<PathView, Seq<char>>
    decreases entries.len(),
{
    if entries.len() == 0 {
        Map::empty()
    } else {
        texts_of(entries.drop_last()).insert(entries.last().path@, entries.last().text@)
    }
}

impl View for Documents {
    type V = Map<PathView, Seq<char>>;

    closed spec fn view(&self) -> Map<PathView, Seq<char>> {
        texts_of(self.entries@)
    }
}

impl Documents {
    /// No texts.
    pub fn new() -> (r: Documents)
        ensures
            r@ == Map::<PathView, Seq<char>>::empty(),
    {
        Documents { entries: Vec::new() }
    }

    /// The text of a path.
    pub fn get(&self, path: &FilePath) -> (r: Option<&String>)
        ensures
            option_view(r) == (if self@.dom().contains(path@) {
                Some(self@[path@])
            } else {
                None
            }),
    {
        let mut i: usize = self.entries.len();
        assert(self.entries@.take(i as int) =~= self.entries@);
        while i > 0
            invariant
                i <= self.entries@.len(),
                self@.dom().contains(path@) == texts_of(
                    self.entries@.take(i as int),
                ).dom().contains(path@),
                self@.dom().contains(path@) ==> self@[path@] == texts_of(
                    self.entries@.take(i as int),
                )[path@],
            decreases i,
        {
            i = i - 1;
            assert(self.entries@.take(i + 1).drop_last() =~= self.entries@.take(i as int));
            assert(self.entries@.take(i + 1).last() == self.entries@[i as int]);
            if same_path(&self.entries[i].path, path) {
                return Some(&self.entries[i].text);
            }
        }
        None
    }

    /// Drops the text of a path.
    pub fn remove(&mut self, path: &FilePath)
        ensures
            final(self)@ == old(self)@.remove(path@),
    {
        let ghost all = self.entries@;
        let mut kept: Vec<Document> = Vec::new();
        let mut i: usize = 0;
        assert(texts_of(kept@) =~= texts_of(all.take(0)).remove(path@));
        while i < self.entries.len()
            invariant
                i <= self.entries@.len(),
                all == self.entries@,
                texts_of(kept@) == texts_of(all.take(i as int)).remove(path@),
            decreases self.entries@.len() - i,
        {
            let entry: &Document = &self.entries[i];
            proof {
                assert(all.take(i + 1).drop_last() =~= all.take(i as int));
                assert(all.take(i + 1).last() == *entry);
            }
            if !same_path(&entry.path, path) {
                let copy: Document = Document {
                    path: entry.path.clone(),
                    text: entry.text.clone(),
                };
                let ghost fewer = kept@;
                kept.push(copy);
                assert(kept@.drop_last() =~= fewer);
            }
            assert(texts_of(kept@) =~= texts_of(all.take(i + 1)).remove(path@));
            i = i + 1;
        }
        assert(all.take(all.len() as int) =~= all);
        self.entries = kept;
    }

    /// Keeps a text under a path.
    pub fn insert(&mut self, path: FilePath, text: String)
        ensures
            final(self)@ == old(self)@.insert(path@, text@),
    {
        self.remove(&path);
        let ghost fewer = self.entries@;
        self.entries.push(Document { path, text });
        assert(self.entries@.drop_last() =~= fewer);
        assert(self@ =~= old(self)@.insert(path@, text@));
    }
}

/// Why a message cannot be dealt with.
#[derive(Debug, PartialEq, Eq)]
pub enum ServerError {
    /// No root is known.
    NotInitialized,
    /// A file of the project has no readable text.
    Unreadable(UnreadableFile),
}

/// What [`ServerError`] stands for.
pub enum ServerErrorView {
    NotInitialized,
    Unreadable(PathView),
}

impl View for ServerError {
    type V = ServerErrorView;

    open spec fn view(&self) -> ServerErrorView {
        match self {
            ServerError::NotInitialized => ServerErrorView::NotInitialized,
            ServerError::Unreadable(e) => ServerErrorView::Unreadable(e.path@),
        }
    }
}

/// What the server keeps between messages.
#[derive(Debug)]
pub struct Server {
    root: Option<FilePath>,
    documents: Documents,
    diagnostics: DiagnosticConfig,
}

/// What [`Server`] stands for.
pub struct ServerView {
    pub root: Option<PathView>,
    pub documents: Map<PathView, Seq<char>>,
    pub diagnostics: DiagnosticConfig,
}

impl View for Server {
    type V = ServerView;

    closed spec fn view(&self) -> ServerView {
        ServerView {
            root: option_view(self.root),
            documents: self.documents@,
            diagnostics: self.diagnostics,
        }
    }
}

/// The root has a URL, and the texts can be parsed.
pub open spec fn is_sound(server: ServerView) -> bool {
    &&& server.root matches Some(root) ==> is_absolute(root)
    &&& forall|path: PathView| #[trigger]
        server.documents.dom().contains(path) ==> fits(server.documents[path])
}

/// What is answered: a list, or why there is none.
pub open spec fn reply<T: View>(r: Result<Vec<T>, ServerError>) -> Result<
    Seq<T::V>,
    ServerErrorView,
> {
    match r {
        Ok(items) => Ok(views(items@)),
        Err(e) => Err(e@),
    }
}

/// What is answered to a request for a place.
pub open spec fn place_reply(r: Result<Option<Location>, ServerError>) -> Result<
    Option<LocationView>,
    ServerErrorView,
> {
    match r {
        Ok(location) => Ok(option_view(location)),
        Err(e) => Err(e@),
    }
}

/// What is published after a text has changed.
pub open spec fn published(r: Result<Option<Vec<Diagnostic>>, ServerError>) -> Result<
    Option<Seq<DiagnosticView>>,
    ServerErrorView,
> {
    match r {
        Ok(Some(diagnostics)) => Ok(Some(views(diagnostics@))),
        Ok(None) => Ok(None),
        Err(e) => Err(e@),
    }
}

/// A list, or that a file cannot be read.
pub open spec fn from_outcome<T>(r: Result<T, PathView>) -> Result<T, ServerErrorView> {
    match r {
        Ok(value) => Ok(value),
        Err(path) => Err(ServerErrorView::Unreadable(path)),
    }
}

/// The index of the project, as its files are now.
pub open spec fn index_of(ws: WorkspaceView, server: ServerView) -> Result<
    FixtureIndexView,
    ServerErrorView,
> {
    match server.root {
        Some(root) => match all_fixtures(ws, root) {
            Ok(fixtures) => Ok(FixtureIndexView { root, fixtures }),
            Err(path) => Err(ServerErrorView::Unreadable(path)),
        },
        None => Err(ServerErrorView::NotInitialized),
    }
}

/// The text of a file as the editor has it, else as the file is.
pub open spec fn current_text(ws: WorkspaceView, server: ServerView, path: PathView) -> Option<
    Seq<char>,
> {
    if server.documents.dom().contains(path) {
        Some(server.documents[path])
    } else {
        source_at(ws, path)
    }
}

/// The completions at a position of a file.
pub open spec fn completion_reply(
    ws: WorkspaceView,
    server: ServerView,
    path: PathView,
    position: Position,
) -> Result<Seq<CompletionItemView>, ServerErrorView> {
    match index_of(ws, server) {
        Ok(index) => match current_text(ws, server, path) {
            Some(text) => Ok(completions_of(ws, index, path, text, position)),
            None => Err(ServerErrorView::Unreadable(path)),
        },
        Err(e) => Err(e),
    }
}

/// The findings in a text.
pub open spec fn findings(
    ws: WorkspaceView,
    index: FixtureIndexView,
    path: PathView,
    text: Seq<char>,
    config: DiagnosticConfig,
) -> Seq<DiagnosticView> {
    annotation_diagnostics_of(ws, index, path, text).map_values(
        |d: FixtureAnnotationDiagnosticView| diagnostic_of(d, config),
    )
}

/// The state with a text of the editor.
pub open spec fn with_text(server: ServerView, path: PathView, text: Seq<char>) -> ServerView {
    ServerView {
        root: server.root,
        documents: server.documents.insert(path, text),
        diagnostics: server.diagnostics,
    }
}

/// The state without the text of a path.
pub open spec fn without_text(server: ServerView, path: PathView) -> ServerView {
    ServerView {
        root: server.root,
        documents: server.documents.remove(path),
        diagnostics: server.diagnostics,
    }
}

/// What is published when the editor hands over a text: the findings in it, or nothing where
/// there is no path or no text.
pub open spec fn text_reply(
    ws: WorkspaceView,
    server: ServerView,
    path: Option<PathView>,
    text: Option<Seq<char>>,
) -> Result<Option<Seq<DiagnosticView>>, ServerErrorView> {
    match (path, text) {
        (Some(p), Some(t)) => match index_of(ws, server) {
            Ok(index) => Ok(Some(findings(ws, index, p, t, server.diagnostics))),
            Err(e) => Err(e),
        },
        _ => Ok(None),
    }
}

/// The state after the editor has handed over a text: the text is kept once its findings are
/// known, and nothing changes where there are none.
pub open spec fn state_after_text(
    ws: WorkspaceView,
    server: ServerView,
    path: Option<PathView>,
    text: Option<Seq<char>>,
) -> ServerView {
    match (path, text) {
        (Some(p), Some(t)) => if index_of(ws, server) is Ok {
            with_text(server, p, t)
        } else {
            server
        },
        _ => server,
    }
}

/// What the editor hands over is what is read from then on, until the file is closed; the texts
/// of other files stay as they are.
pub proof fn editor_text_is_current(
    ws: WorkspaceView,
    server: ServerView,
    path: PathView,
    text: Seq<char>,
    other: PathView,
)
    requires
        index_of(ws, server) is Ok,
    ensures
        current_text(ws, state_after_text(ws, server, Some(path), Some(text)), path) == Some(text),
        current_text(
            ws,
            without_text(state_after_text(ws, server, Some(path), Some(text)), path),
            path,
        ) == source_at(ws, path),
        other != path ==> current_text(
            ws,
            state_after_text(ws, server, Some(path), Some(text)),
            other,
        ) == current_text(ws, server, other),
        other != path ==> current_text(ws, without_text(server, path), other) == current_text(
            ws,
            server,
            other,
        ),
{
}

/// A text that cannot be looked at because there is no index is not kept.
pub proof fn failed_message_changes_nothing(
    ws: WorkspaceView,
    server: ServerView,
    path: Option<PathView>,
    text: Option<Seq<char>>,
)
    requires
        text_reply(ws, server, path, text) is Err,
    ensures
        state_after_text(ws, server, path, text) == server,
{
}

impl Default for Server {
    fn default() -> (r: Self)
        ensures
            r@.root is None,
            r@.documents == Map::<PathView, Seq<char>>::empty(),
            r@.diagnostics == default_config(),
            is_sound(r@),
    {
        Server {
            root: None,
            documents: Documents::new(),
            diagnostics: DiagnosticConfig::default(),
        }
    }
}

impl Server {
    /// Takes over the root and the severities that the first request gives.
    pub fn initialize(
        &mut self,
        root: Option<FilePath>,
        missing: &Option<String>,
        mismatched: &Option<String>,
    )
        requires
            is_sound(old(self)@),
            root matches Some(path) ==> is_absolute(path@),
        ensures
            final(self)@.root == option_view(root),
            final(self)@.documents == old(self)@.documents,
            final(self)@.diagnostics == config_for(
                option_view(*missing),
                option_view(*mismatched),
            ),
            is_sound(final(self)@),
    {
        self.root = root;
        self.diagnostics = diagnostics_from_initialize(missing, mismatched);
        assert(self@.documents == old(self)@.documents);
    }

    /// The root of the project.
    pub fn root(&self) -> (r: Option<&FilePath>)
        ensures
            option_view(r) == self@.root,
    {
        match &self.root {
            Some(root) => Some(root),
            None => None,
        }
    }

    fn index(&self, ws: &Workspace) -> (r: Result<FixtureIndex, ServerError>)
        requires
            parseable(ws@),
            is_sound(self@),
        ensures
            (match r {
                Ok(index) => Ok(index@),
                Err(e) => Err(e@),
            }) == index_of(ws@, self@),
            r matches Ok(index) ==> is_located(index@),
    {
        match &self.root {
            Some(root) => match FixtureIndex::build(ws, root) {
                Ok(index) => Ok(index),
                Err(e) => Err(ServerError::Unreadable(e)),
            },
            None => Err(ServerError::NotInitialized),
        }
    }

    /// The completions at a position of a file.
    pub fn handle_completion(&self, ws: &Workspace, path: &FilePath, position: Position) -> (r:
        Result<Vec<CompletionItem>, ServerError>)
        requires
            parseable(ws@),
            is_sound(self@),
        ensures
            reply(r) == completion_reply(ws@, self@, path@, position),
    {
        let index: FixtureIndex = match self.index(ws) {
            Ok(index) => index,
            Err(e) => {
                return Err(e);
            },
        };
        let found: Result<Vec<CompletionItem>, UnreadableFile> = match self.documents.get(path) {
            Some(text) => index.completions_for_text(ws, path, text.as_str(), position),
            None => index.completions(ws, path, position),
        };
        match found {
            Ok(items) => Ok(items),
            Err(e) => Err(ServerError::Unreadable(e)),
        }
    }

    /// Where the name at a position of a file leads.
    pub fn handle_definition(&self, ws: &Workspace, path: &FilePath, position: Position) -> (r:
        Result<Option<Location>, ServerError>)
        requires
            parseable(ws@),
            is_sound(self@),
        ensures
            place_reply(r) == (match index_of(ws@, self@) {
                Ok(index) => from_outcome(definition_at(ws@, index, path@, position)),
                Err(e) => Err(e),
            }),
    {
        let index: FixtureIndex = match self.index(ws) {
            Ok(index) => index,
            Err(e) => {
                return Err(e);
            },
        };
        match index.definition(ws, path, position) {
            Ok(location) => Ok(location),
            Err(e) => Err(ServerError::Unreadable(e)),
        }
    }

    /// The uses of the fixture that a position of a file means.
    pub fn handle_references(&self, ws: &Workspace, path: &FilePath, position: Position) -> (r:
        Result<Vec<Location>, ServerError>)
        requires
            parseable(ws@),
            is_sound(self@),
        ensures
            reply(r) == (match index_of(ws@, self@) {
                Ok(index) => from_outcome(references_at(ws@, index, path@, position)),
                Err(e) => Err(e),
            }),
    {
        let index: FixtureIndex = match self.index(ws) {
            Ok(index) => index,
            Err(e) => {
                return Err(e);
            },
        };
        match index.references(ws, path, position) {
            Ok(locations) => Ok(locations),
            Err(e) => Err(ServerError::Unreadable(e)),
        }
    }

    /// The actions for a range of a file.
    pub fn handle_code_action(&self, ws: &Workspace, path: &FilePath, uri: &str, range: Range) -> (
    r: Result<Vec<CodeAction>, ServerError>)
        requires
            parseable(ws@),
            is_sound(self@),
        ensures
            reply(r) == (match index_of(ws@, self@) {
                Ok(index) => Ok(
                    code_actions_of(
                        ws@,
                        index,
                        path@,
                        match current_text(ws@, self@, path@) {
                            Some(text) => text,
                            None => ""@,
                        },
                        uri@,
                        Some(range),
                    ),
                ),
                Err(e) => Err(e),
            }),
    {
        let index: FixtureIndex = match self.index(ws) {
            Ok(index) => index,
            Err(e) => {
                return Err(e);
            },
        };
        let empty: String = "".to_owned();
        proof {
            reveal_strlit("");
            assert(""@ =~= Seq::<char>::empty());
            assert(byte_len(""@) == 0);
        }
        let text: &String = match self.documents.get(path) {
            Some(text) => text,
            None => match ws.read(path) {
                Some(text) => text,
                None => &empty,
            },
        };
        match index.code_actions_for_text_range(ws, path, text.as_str(), uri, Some(range)) {
            Ok(actions) => Ok(actions),
            Err(e) => Err(ServerError::Unreadable(e)),
        }
    }

    fn take_text(&mut self, ws: &Workspace, path: FilePath, text: String) -> (r: Result<
        Option<Vec<Diagnostic>>,
        ServerError,
    >)
        requires
            parseable(ws@),
            is_sound(old(self)@),
            fits(text@),
        ensures
            published(r) == text_reply(ws@, old(self)@, Some(path@), Some(text@)),
            final(self)@ == state_after_text(ws@, old(self)@, Some(path@), Some(text@)),
            is_sound(final(self)@),
    {
        let index: FixtureIndex = match self.index(ws) {
            Ok(index) => index,
            Err(e) => {
                return Err(e);
            },
        };
        match index.diagnostics_for_text(ws, &path, text.as_str(), self.diagnostics) {
            Ok(diagnostics) => {
                self.documents.insert(path, text);
                Ok(Some(diagnostics))
            },
            Err(e) => Err(ServerError::Unreadable(e)),
        }
    }

    /// Takes over the text of a file that the editor opens, and finds what is wrong with it.
    pub fn handle_did_open(&mut self, ws: &Workspace, path: Option<FilePath>, text: String) -> (r:
        Result<Option<Vec<Diagnostic>>, ServerError>)
        requires
            parseable(ws@),
            is_sound(old(self)@),
            path is Some ==> fits(text@),
        ensures
            published(r) == text_reply(ws@, old(self)@, option_view(path), Some(text@)),
            final(self)@ == state_after_text(ws@, old(self)@, option_view(path), Some(text@)),
            is_sound(final(self)@),
    {
        match path {
            Some(path) => self.take_text(ws, path, text),
            None => Ok(None),
        }
    }

    /// Takes over the text of a file that the editor changes: the last one that it sends.
    pub fn handle_did_change(
        &mut self,
        ws: &Workspace,
        path: Option<FilePath>,
        changes: Vec<String>,
    ) -> (r: Result<Option<Vec<Diagnostic>>, ServerError>)
        requires
            parseable(ws@),
            is_sound(old(self)@),
            path is Some && changes@.len() > 0 ==> fits(changes@.last()@),
        ensures
            published(r) == text_reply(
                ws@,
                old(self)@,
                option_view(path),
                if changes@.len() > 0 {
                    Some(changes@.last()@)
                } else {
                    None
                },
            ),
            final(self)@ == state_after_text(
                ws@,
                old(self)@,
                option_view(path),
                if changes@.len() > 0 {
                    Some(changes@.last()@)
                } else {
                    None
                },
            ),
            is_sound(final(self)@),
    {
        let mut changes: Vec<String> = changes;
        match path {
            Some(path) => match changes.pop() {
                Some(text) => self.take_text(ws, path, text),
                None => Ok(None),
            },
            None => Ok(None),
        }
    }

    /// Drops the text of a file that the editor closes; says whether its findings are taken back.
    pub fn handle_did_close(&mut self, path: Option<FilePath>) -> (r: bool)
        requires
            is_sound(old(self)@),
        ensures
            r == path.is_some(),
            final(self)@ == (match path {
                Some(p) => without_text(old(self)@, p@),
                None => old(self)@,
            }),
            is_sound(final(self)@),
    {
        match path {
            Some(path) => {
                self.documents.remove(&path);
                true
            },
            None => false,
        }
    }
}

/// The requests that the server serves, by their methods; every other one is answered with null.
/// Of the notifications it takes note of those on open files and of the one that ends it.
pub proof fn methods_are_served(method: Seq<char>)
    ensures
        action_for(true, Some(method)) == Action::Initialize <==> method == "initialize"@,
        action_for(true, Some(method)) == Action::Complete <==> method
            == "textDocument/completion"@,
        action_for(true, Some(method)) == Action::Define <==> method == "textDocument/definition"@,
        action_for(true, Some(method)) == Action::FindReferences <==> method
            == "textDocument/references"@,
        action_for(true, Some(method)) == Action::OfferActions <==> method
            == "textDocument/codeAction"@,
        action_for(false, Some(method)) == Action::Open <==> method == "textDocument/didOpen"@,
        action_for(false, Some(method)) == Action::Change <==> method
            == "textDocument/didChange"@,
        action_for(false, Some(method)) == Action::Close <==> method == "textDocument/didClose"@,
        action_for(false, Some(method)) == Action::Exit <==> method == "exit"@,
        action_for(true, None) == Action::Ignore,
        action_for(false, None) == Action::Ignore,
{
    reveal_strlit("initialize");
    reveal_strlit("textDocument/completion");
    reveal_strlit("textDocument/definition");
    reveal_strlit("textDocument/references");
    reveal_strlit("textDocument/codeAction");
    reveal_strlit("textDocument/didOpen");
    reveal_strlit("textDocument/didChange");
    reveal_strlit("textDocument/didClose");
    reveal_strlit("exit");
    assert("initialize"@.len() == 10);
    assert("textDocument/completion"@.len() == 23 && "textDocument/completion"@[13] == 'c');
    assert("textDocument/definition"@.len() == 23 && "textDocument/definition"@[13] == 'd');
    assert("textDocument/references"@.len() == 23 && "textDocument/references"@[13] == 'r');
    assert("textDocument/codeAction"@.len() == 23 && "textDocument/codeAction"@[13] == 'c');
    assert("textDocument/completion"@[15] == 'm' && "textDocument/codeAction"@[15] == 'd');
    assert("textDocument/didOpen"@.len() == 20);
    assert("textDocument/didChange"@.len() == 22);
    assert("textDocument/didClose"@.len() == 21);
    assert("exit"@.len() == 4);
}

/// A severity is named by its word, whatever the case of its letters; `warn` and `info` are short
/// for two of them, and nothing else names one.
pub proof fn severities_are_named_in_any_case(value: Seq<char>, other: Seq<char>)
    requires
        value.map_values(|c: char| lower(c)) == other,
    ensures
        severity_named(value) == Some(DiagnosticSeverity::Error) <==> other == "error"@,
        severity_named(value) == Some(DiagnosticSeverity::Warning) <==> other == "warning"@ || other
            == "warn"@,
        severity_named(value) == Some(DiagnosticSeverity::Information) <==> other
            == "information"@ || other == "info"@,
        severity_named(value) == Some(DiagnosticSeverity::Hint) <==> other == "hint"@,
{
    reveal_strlit("error");
    reveal_strlit("warning");
    reveal_strlit("warn");
    reveal_strlit("information");
    reveal_strlit("info");
    reveal_strlit("hint");
    assert("error"@.len() == 5 && "warning"@.len() == 7 && "warn"@.len() == 4);
    assert("information"@.len() == 11 && "info"@.len() == 4 && "hint"@.len() == 4);
    assert("warn"@[0] == 'w' && "info"@[0] == 'i' && "hint"@[0] == 'h');
}

/// Letters lose their case and nothing else changes.
pub proof fn letters_lose_their_case(c: char)
    ensures
        'A' <= c <= 'Z' ==> lower(c) as u32 == c as u32 + 32,
        !('A' <= c <= 'Z') ==> lower(c) == c,
{
}

/// Each kind of finding has the severity that its own option names, and else that of its kind: a
/// hint for a missing annotation and an error for a different one.
pub proof fn options_give_severities(missing: Option<Seq<char>>, mismatched: Option<Seq<char>>)
    ensures
        missing matches Some(value) ==> (severity_named(value) matches Some(severity)
            ==> config_for(missing, mismatched).missing_annotation == severity),
        missing is None || severity_named(missing->0) is None ==> config_for(
            missing,
            mismatched,
        ).missing_annotation == DiagnosticSeverity::Hint,
        mismatched matches Some(value) ==> (severity_named(value) matches Some(severity)
            ==> config_for(missing, mismatched).mismatched_annotation == severity),
        mismatched is None || severity_named(mismatched->0) is None ==> config_for(
            missing,
            mismatched,
        ).mismatched_annotation == DiagnosticSeverity::Error,
{
}

/// Completions are those of the text that the editor has, with the fixtures of the project as its
/// files are.
pub proof fn completions_are_of_the_editor_text(
    ws: WorkspaceView,
    server: ServerView,
    root: PathView,
    fixtures: Seq<FixtureView>,
    path: PathView,
    position: Position,
)
    requires
        server.root == Some(root),
        all_fixtures(ws, root) == Ok::<Seq<FixtureView>, PathView>(fixtures),
    ensures
        server.documents.dom().contains(path) ==> completion_reply(ws, server, path, position)
            == Ok::<Seq<CompletionItemView>, ServerErrorView>(
            completions_of(
                ws,
                FixtureIndexView { root, fixtures },
                path,
                server.documents[path],
                position,
            ),
        ),
        !server.documents.dom().contains(path) && source_at(ws, path) is None
            ==> completion_reply(ws, server, path, position) == Err::<
            Seq<CompletionItemView>,
            ServerErrorView,
        >(ServerErrorView::Unreadable(path)),
        !server.documents.dom().contains(path) && source_at(ws, path) is Some
            ==> completion_reply(ws, server, path, position) == Ok::<
            Seq<CompletionItemView>,
            ServerErrorView,
        >(
            completions_of(
                ws,
                FixtureIndexView { root, fixtures },
                path,
                source_at(ws, path)->0,
                position,
            ),
        ),
{
}

/// Before a root is known nothing is answered or published, and nothing is kept.
pub proof fn nothing_is_known_without_a_root(
    ws: WorkspaceView,
    server: ServerView,
    path: PathView,
    text: Seq<char>,
    position: Position,
)
    requires
        server.root is None,
    ensures
        completion_reply(ws, server, path, position) == Err::<
            Seq<CompletionItemView>,
            ServerErrorView,
        >(ServerErrorView::NotInitialized),
        text_reply(ws, server, Some(path), Some(text)) == Err::<
            Option<Seq<DiagnosticView>>,
            ServerErrorView,
        >(ServerErrorView::NotInitialized),
        state_after_text(ws, server, Some(path), Some(text)) == server,
{
}

/// When the editor hands over a text, all its findings are published, each with the severity that
/// is set for its kind, and in their order.
pub proof fn findings_are_published(
    ws: WorkspaceView,
    server: ServerView,
    root: PathView,
    fixtures: Seq<FixtureView>,
    path: PathView,
    text: Seq<char>,
    i: int,
)
    requires
        server.root == Some(root),
        all_fixtures(ws, root) == Ok::<Seq<FixtureView>, PathView>(fixtures),
    ensures
        ({
            let found = annotation_diagnostics_of(
                ws,
                FixtureIndexView { root, fixtures },
                path,
                text,
            );
            let reply = text_reply(ws, server, Some(path), Some(text));
            &&& reply is Ok && reply->Ok_0 is Some
            &&& reply->Ok_0->0.len() == found.len()
            &&& 0 <= i < found.len() ==> reply->Ok_0->0[i].range == found[i].range
                && reply->Ok_0->0[i] == diagnostic_of(found[i], server.diagnostics)
        }),
{
}

/// Where a message names no local file, or hands over no text, nothing is published and nothing
/// changes.
pub proof fn messages_without_a_file_change_nothing(
    ws: WorkspaceView,
    server: ServerView,
    path: Option<PathView>,
    text: Option<Seq<char>>,
)
    requires
        path is None || text is None,
    ensures
        text_reply(ws, server, path, text) == Ok::<Option<Seq<DiagnosticView>>, ServerErrorView>(
            None,
        ),
        state_after_text(ws, server, path, text) == server,
{
}

/// A file that cannot be read is named in the answer.
pub proof fn unreadable_files_are_reported<T>(
    ws: WorkspaceView,
    server: ServerView,
    root: PathView,
    path: PathView,
    value: T,
)
    ensures
        from_outcome(Err::<T, PathView>(path)) == Err::<T, ServerErrorView>(
            ServerErrorView::Unreadable(path),
        ),
        from_outcome(Ok::<T, PathView>(value)) == Ok::<T, ServerErrorView>(value),
        server.root == Some(root) && all_fixtures(ws, root) == Err::<Seq<FixtureView>, PathView>(
            path,
        ) ==> index_of(ws, server) == Err::<FixtureIndexView, ServerErrorView>(
            ServerErrorView::Unreadable(path),
        ),
        server.root == Some(root) && all_fixtures(ws, root) is Ok ==> index_of(ws, server) == Ok::<
            FixtureIndexView,
            ServerErrorView,
        >(FixtureIndexView { root, fixtures: all_fixtures(ws, root)->Ok_0 }),
{
}

/// The server keeps a text under its path and nothing else: the root, the severities and the texts
/// of other paths stay.
pub proof fn only_the_text_changes(
    ws: WorkspaceView,
    server: ServerView,
    path: PathView,
    text: Seq<char>,
)
    ensures
        state_after_text(ws, server, Some(path), Some(text)).root == server.root,
        state_after_text(ws, server, Some(path), Some(text)).diagnostics == server.diagnostics,
        without_text(server, path).root == server.root,
        without_text(server, path).diagnostics == server.diagnostics,
        without_text(server, path).documents == server.documents.remove(path),
        index_of(ws, server) is Ok ==> state_after_text(
            ws,
            server,
            Some(path),
            Some(text),
        ).documents == server.documents.insert(path, text),
{
}

/// What is answered is what was found, item by item, or the reason why nothing was.
pub proof fn answers_hold_what_was_found(
    items: Vec<CompletionItem>,
    location: Option<Location>,
    diagnostics: Vec<Diagnostic>,
    e: ServerError,
    i: int,
)
    ensures
        reply(Ok::<Vec<CompletionItem>, ServerError>(items)) is Ok,
        reply(Ok::<Vec<CompletionItem>, ServerError>(items))->Ok_0.len() == items@.len(),
        0 <= i < items@.len() ==> reply(Ok::<Vec<CompletionItem>, ServerError>(items))->Ok_0[i]
            == items@[i]@,
        place_reply(Ok(location)) == Ok::<Option<LocationView>, ServerErrorView>(
            match location {
                Some(l) => Some(l@),
                None => None,
            },
        ),
        published(Ok(Some(diagnostics))) is Ok && published(Ok(Some(diagnostics)))->Ok_0 is Some,
        published(Ok(Some(diagnostics)))->Ok_0->0.len() == diagnostics@.len(),
        0 <= i < diagnostics@.len() ==> published(Ok(Some(diagnostics)))->Ok_0->0[i]
            == diagnostics@[i]@,
        published(Ok(None)) == Ok::<Option<Seq<DiagnosticView>>, ServerErrorView>(None),
        reply(Err::<Vec<CompletionItem>, ServerError>(e)) == Err::<
            Seq<CompletionItemView>,
            ServerErrorView,
        >(e@),
        place_reply(Err(e)) == Err::<Option<LocationView>, ServerErrorView>(e@),
        published(Err(e)) == Err::<Option<Seq<DiagnosticView>>, ServerErrorView>(e@),
        e is NotInitialized <==> e@ is NotInitialized,
        e matches ServerError::Unreadable(file) ==> e@ == ServerErrorView::Unreadable(file.path@),
{
}

}
