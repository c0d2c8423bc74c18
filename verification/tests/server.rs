//! The server: what it does with messages, and what it keeps between them.
use pyfixy_lsp::path::FilePath;
use pyfixy_lsp::position::{Position, Range};
use pyfixy_lsp::protocol::{DiagnosticConfig, DiagnosticSeverity};
use pyfixy_lsp::server::{
    capabilities, diagnostics_from_initialize, root_from_initialize, route, severity_from_str,
    Action, Documents, Server, ServerError,
};
use pyfixy_lsp::uri::{path_from_uri, uri_for};
use pyfixy_lsp::wire::{frame, next_header_step, read_header_line, HeaderLine, HeaderStep};
use pyfixy_lsp::workspace::{FileContent, FileEntry, UnreadableFile, Workspace};

const CONFTEST: &str = "import pytest\n@pytest.fixture\ndef db(): pass\n";

fn workspace(files: &[(&str, &str)]) -> Workspace {
    let mut entries = Vec::new();
    for (path, text) in files {
        entries.push(FileEntry {
            path: FilePath::parse(path),
            content: FileContent::Source(text.to_string()),
        });
    }
    Workspace { entries }
}

fn started(root: &str) -> Server {
    let mut server = Server::default();
    let uri = url::Url::from_directory_path(root).unwrap().to_string();
    server.initialize(root_from_initialize(&Some(uri)), &None, &None);
    server
}

fn method(name: &str) -> Option<String> {
    Some(name.to_string())
}

#[test]
fn initialize_advertises_completion_and_definition() {
    assert_eq!(route(true, &method("initialize")), Action::Initialize);
    let caps = capabilities();
    assert!(caps.completion);
    assert_eq!(caps.definition, true);
    assert_eq!(caps.references, true);
    assert!(caps.code_actions);
    assert!(caps.full_text);
}

#[test]
fn completion_uses_unsaved_did_open_text() {
    let conftest = "/work/tests/conftest.py";
    let test = "/work/tests/test_app.py";
    let files = workspace(&[(conftest, CONFTEST), (test, "def test_thing(): pass\n")]);
    let mut server = started("/work");
    assert_eq!(route(false, &method("textDocument/didOpen")), Action::Open);
    let published = server
        .handle_did_open(
            &files,
            Some(FilePath::parse(test)),
            "def test_thing(existing, ): pass\n".to_string(),
        )
        .unwrap();
    assert_eq!(published, Some(Vec::new()));

    assert_eq!(
        route(true, &method("textDocument/completion")),
        Action::Complete
    );
    let completion = server
        .handle_completion(
            &files,
            &FilePath::parse(test),
            Position {
                line: 0,
                character: 25,
            },
        )
        .unwrap();
    assert!(completion.iter().any(|item| item.label == "db"));
}

#[test]
fn completion_and_definition_work_over_stdio() {
    let conftest = "/work/tests/conftest.py";
    let test = "/work/tests/test_app.py";
    let files = workspace(&[(conftest, CONFTEST), (test, "def test_thing(db): pass\n")]);
    let server = started("/work");
    let path = FilePath::parse(test);
    let position = Position {
        line: 0,
        character: 15,
    };

    let completion = server.handle_completion(&files, &path, position).unwrap();
    assert!(completion.iter().any(|item| item.label == "db"));

    assert_eq!(
        route(true, &method("textDocument/definition")),
        Action::Define
    );
    let definition = server
        .handle_definition(&files, &path, position)
        .unwrap()
        .unwrap();
    assert_eq!(
        definition.uri,
        url::Url::from_file_path(conftest).unwrap().to_string()
    );

    assert_eq!(
        route(true, &method("textDocument/references")),
        Action::FindReferences
    );
    let references = server
        .handle_references(
            &files,
            &FilePath::parse(conftest),
            Position {
                line: 2,
                character: 5,
            },
        )
        .unwrap();
    let test_uri = url::Url::from_file_path(test).unwrap().to_string();
    assert!(references.iter().any(|location| location.uri == test_uri));
}

#[test]
fn every_request_is_answered_and_no_notification_is() {
    assert_eq!(
        route(true, &method("textDocument/codeAction")),
        Action::OfferActions
    );
    assert_eq!(route(true, &method("shutdown")), Action::AnswerNull);
    assert_eq!(route(true, &method("workspace/symbol")), Action::AnswerNull);
    assert_eq!(route(true, &method("exit")), Action::AnswerNull);
    assert_eq!(
        route(true, &method("textDocument/didOpen")),
        Action::AnswerNull
    );
    assert_eq!(
        route(false, &method("textDocument/didChange")),
        Action::Change
    );
    assert_eq!(
        route(false, &method("textDocument/didClose")),
        Action::Close
    );
    assert_eq!(route(false, &method("exit")), Action::Exit);
    assert_eq!(route(false, &method("initialize")), Action::Ignore);
    assert_eq!(route(false, &method("initialized")), Action::Ignore);
    assert_eq!(route(true, &None), Action::Ignore);
    assert_eq!(route(false, &None), Action::Ignore);
}

#[test]
fn the_editor_text_counts_until_the_file_is_closed() {
    let test = "/work/test_app.py";
    let files = workspace(&[
        ("/work/conftest.py", CONFTEST),
        (test, "def test_thing(db): pass\n"),
    ]);
    let mut server = started("/work");
    let path = FilePath::parse(test);
    let position = Position {
        line: 1,
        character: 15,
    };
    assert!(server
        .handle_completion(&files, &path, position)
        .unwrap()
        .is_empty());

    let changed = server
        .handle_did_change(
            &files,
            Some(path.clone()),
            vec![
                "def test_thing(): pass\n".to_string(),
                "\ndef test_thing(db): pass\n".to_string(),
            ],
        )
        .unwrap();
    assert!(changed.is_some());
    assert_eq!(
        server
            .handle_completion(&files, &path, position)
            .unwrap()
            .len(),
        1
    );

    assert!(server.handle_did_close(Some(path.clone())));
    assert!(server
        .handle_completion(&files, &path, position)
        .unwrap()
        .is_empty());
}

#[test]
fn a_change_without_text_or_path_publishes_nothing() {
    let files = workspace(&[("/work/conftest.py", CONFTEST)]);
    let mut server = started("/work");
    let path = FilePath::parse("/work/test_app.py");
    assert_eq!(
        server
            .handle_did_change(&files, Some(path), Vec::new())
            .unwrap(),
        None
    );
    assert_eq!(
        server
            .handle_did_change(&files, None, vec!["x = 1\n".to_string()])
            .unwrap(),
        None
    );
    assert_eq!(
        server
            .handle_did_open(&files, None, "x = 1\n".to_string())
            .unwrap(),
        None
    );
    assert!(!server.handle_did_close(None));
}

#[test]
fn nothing_works_before_the_root_is_known() {
    let files = workspace(&[("/work/test_app.py", "def test_thing(db): pass\n")]);
    let mut server = Server::default();
    let path = FilePath::parse("/work/test_app.py");
    let position = Position {
        line: 0,
        character: 15,
    };
    let range = Range {
        start: position,
        end: position,
    };
    assert!(server.root().is_none());
    assert_eq!(
        server.handle_completion(&files, &path, position),
        Err(ServerError::NotInitialized)
    );
    assert_eq!(
        server.handle_definition(&files, &path, position),
        Err(ServerError::NotInitialized)
    );
    assert_eq!(
        server.handle_references(&files, &path, position),
        Err(ServerError::NotInitialized)
    );
    assert_eq!(
        server.handle_code_action(&files, &path, "file:///work/test_app.py", range),
        Err(ServerError::NotInitialized)
    );
    assert_eq!(
        server.handle_did_open(&files, Some(path.clone()), "x = 1\n".to_string()),
        Err(ServerError::NotInitialized)
    );
}

#[test]
fn a_text_without_an_index_is_not_kept() {
    let mut files = workspace(&[("/work/test_app.py", "def test_thing(): pass\n")]);
    files.entries.push(FileEntry {
        path: FilePath::parse("/work/broken.py"),
        content: FileContent::Unreadable,
    });
    let mut server = started("/work");
    let path = FilePath::parse("/work/test_app.py");
    let broken = || {
        ServerError::Unreadable(UnreadableFile {
            path: FilePath::parse("/work/broken.py"),
        })
    };
    assert_eq!(
        server.handle_did_open(
            &files,
            Some(path.clone()),
            "def test_thing(db): pass\n".to_string()
        ),
        Err(broken())
    );
    files.entries.pop();
    files.entries.push(FileEntry {
        path: FilePath::parse("/work/conftest.py"),
        content: FileContent::Source(CONFTEST.to_string()),
    });
    let position = Position {
        line: 0,
        character: 17,
    };
    assert!(server
        .handle_completion(&files, &path, position)
        .unwrap()
        .is_empty());
}

#[test]
fn a_file_that_is_nowhere_has_no_completions() {
    let files = workspace(&[("/work/conftest.py", CONFTEST)]);
    let server = started("/work");
    let path = FilePath::parse("/work/test_app.py");
    let position = Position {
        line: 0,
        character: 15,
    };
    let missing = || {
        ServerError::Unreadable(UnreadableFile {
            path: FilePath::parse("/work/test_app.py"),
        })
    };
    assert_eq!(
        server.handle_completion(&files, &path, position),
        Err(missing())
    );
    assert_eq!(
        server.handle_definition(&files, &path, position),
        Err(missing())
    );
    assert_eq!(
        server.handle_references(&files, &path, position),
        Err(missing())
    );
    let range = Range {
        start: position,
        end: position,
    };
    assert_eq!(
        server.handle_code_action(&files, &path, "file:///work/test_app.py", range),
        Ok(Vec::new())
    );
}

#[test]
fn code_actions_use_the_editor_text() {
    let conftest = "import pytest\n@pytest.fixture\ndef db() -> int: pass\n";
    let files = workspace(&[
        ("/work/conftest.py", conftest),
        ("/work/test_app.py", "def test_thing(): pass\n"),
    ]);
    let mut server = started("/work");
    let path = FilePath::parse("/work/test_app.py");
    let published = server
        .handle_did_open(
            &files,
            Some(path.clone()),
            "def test_thing(db): pass\n".to_string(),
        )
        .unwrap()
        .unwrap();
    assert_eq!(published.len(), 1);
    assert_eq!(published[0].severity, DiagnosticSeverity::Hint);
    assert_eq!(published[0].source, "pyfixy");
    assert_eq!(
        published[0].message,
        "Fixture `db` returns `int`; parameter is missing an annotation"
    );
    let at = Position {
        line: 0,
        character: 16,
    };
    let uri = "file:///work/test_app.py";
    let actions = server
        .handle_code_action(&files, &path, uri, Range { start: at, end: at })
        .unwrap();
    assert_eq!(actions.len(), 2);
    assert_eq!(actions[0].edit.uri, uri);
    assert_eq!(actions[0].edit.edits[0].new_text, ": int");
    assert_eq!(actions[0].edit.edits[0].range.start.character, 17);
}

#[test]
fn severities_are_read_in_any_case() {
    assert_eq!(severity_from_str("error"), Some(DiagnosticSeverity::Error));
    assert_eq!(
        severity_from_str("WARNING"),
        Some(DiagnosticSeverity::Warning)
    );
    assert_eq!(severity_from_str("Warn"), Some(DiagnosticSeverity::Warning));
    assert_eq!(
        severity_from_str("information"),
        Some(DiagnosticSeverity::Information)
    );
    assert_eq!(
        severity_from_str("iNFo"),
        Some(DiagnosticSeverity::Information)
    );
    assert_eq!(severity_from_str("Hint"), Some(DiagnosticSeverity::Hint));
    assert_eq!(severity_from_str("off"), None);
    assert_eq!(severity_from_str(""), None);
    assert_eq!(severity_from_str("\u{212a}int"), None);
}

#[test]
fn unknown_severities_leave_the_defaults() {
    let default = DiagnosticConfig::default();
    assert_eq!(default.missing_annotation, DiagnosticSeverity::Hint);
    assert_eq!(default.mismatched_annotation, DiagnosticSeverity::Error);
    assert_eq!(diagnostics_from_initialize(&None, &None), default);
    assert_eq!(
        diagnostics_from_initialize(&method("loud"), &method("quiet")),
        default
    );
    let config = diagnostics_from_initialize(&method("warning"), &method("info"));
    assert_eq!(config.missing_annotation, DiagnosticSeverity::Warning);
    assert_eq!(config.mismatched_annotation, DiagnosticSeverity::Information);
}

#[test]
fn roots_come_from_file_urls() {
    let root = root_from_initialize(&method("file:///work/my%20project/")).unwrap();
    assert_eq!(root.display(), "/work/my project");
    assert!(root_from_initialize(&None).is_none());
    assert!(root_from_initialize(&method("no url")).is_none());
    assert!(root_from_initialize(&method("https://example.org/work")).is_none());
}

#[test]
fn paths_need_not_be_unicode() {
    let uri = "file:///work/%FFa%C3%A9/%80.py";
    let path = path_from_uri(uri).unwrap();
    assert_eq!(path, FilePath::parse_bytes(&b"/work/\xffa\xc3\xa9/\x80.py".to_vec()));
    assert_eq!(path.bytes(), b"/work/\xffa\xc3\xa9/\x80.py");
    assert_eq!(path.display(), "/work/\u{fffd}a\u{e9}/\u{fffd}.py");
    assert_eq!(path.extension(), Some(b"py".to_vec()));
    assert_eq!(uri_for(&path), uri);
    let root = root_from_initialize(&method("file:///work/%ff")).unwrap();
    assert_eq!(root.bytes(), b"/work/\xff");
    assert!(!path.starts_with(&root));
    assert!(root.child("conftest.py").starts_with(&root));
}

#[test]
fn urls_of_files_read_back() {
    let path = FilePath::parse("/work/tests/a b#c.py");
    let uri = uri_for(&path);
    assert_eq!(uri, "file:///work/tests/a%20b%23c.py");
    assert_eq!(path_from_uri(&uri), Some(path));
    assert_eq!(uri_for(&FilePath::parse("/")), "file:///");
}

#[test]
fn documents_keep_the_last_text_of_a_path() {
    let mut documents = Documents::new();
    let a = FilePath::parse("/a.py");
    let b = FilePath::parse("/b.py");
    assert_eq!(documents.get(&a), None);
    documents.insert(a.clone(), "one".to_string());
    documents.insert(b.clone(), "two".to_string());
    documents.insert(a.clone(), "three".to_string());
    assert_eq!(documents.get(&a).map(|text| text.as_str()), Some("three"));
    assert_eq!(documents.get(&b).map(|text| text.as_str()), Some("two"));
    documents.remove(&a);
    assert_eq!(documents.get(&a), None);
    assert_eq!(documents.get(&b).map(|text| text.as_str()), Some("two"));
}

#[test]
fn header_lines_are_told_apart() {
    assert_eq!(read_header_line("\r\n"), HeaderLine::End);
    assert_eq!(read_header_line("\n"), HeaderLine::End);
    assert_eq!(read_header_line(""), HeaderLine::End);
    assert_eq!(
        read_header_line("Content-Length: 42\r\n"),
        HeaderLine::Length(42)
    );
    assert_eq!(
        read_header_line("Content-Length: +007\n"),
        HeaderLine::Length(7)
    );
    assert_eq!(
        read_header_line("Content-Length: 18446744073709551615\r\n"),
        HeaderLine::Length(usize::MAX)
    );
    assert_eq!(
        read_header_line("Content-Length: 18446744073709551616\r\n"),
        HeaderLine::Invalid
    );
    assert_eq!(
        read_header_line("Content-Length: \r\n"),
        HeaderLine::Invalid
    );
    assert_eq!(
        read_header_line("Content-Length: -1\r\n"),
        HeaderLine::Invalid
    );
    assert_eq!(
        read_header_line("Content-Length: 4 2\r\n"),
        HeaderLine::Invalid
    );
    assert_eq!(
        read_header_line("content-length: 42\r\n"),
        HeaderLine::Other
    );
    assert_eq!(read_header_line("Content-Length:42\r\n"), HeaderLine::Other);
}

#[test]
fn header_steps_follow_the_lines() {
    assert_eq!(
        next_header_step(None, "Content-Length: 5\r\n"),
        HeaderStep::Continue(Some(5))
    );
    assert_eq!(
        next_header_step(Some(5), "Content-Length: 6\r\n"),
        HeaderStep::Continue(Some(6))
    );
    assert_eq!(
        next_header_step(Some(5), "Content-Type: text\r\n"),
        HeaderStep::Continue(Some(5))
    );
    assert_eq!(next_header_step(Some(5), "\r\n"), HeaderStep::Body(5));
    assert_eq!(next_header_step(None, "\r\n"), HeaderStep::Stop);
    assert_eq!(
        next_header_step(None, "Content-Length: x\r\n"),
        HeaderStep::Fail
    );
}

#[test]
fn frames_give_the_length_in_bytes() {
    assert_eq!(frame("{}"), "Content-Length: 2\r\n\r\n{}");
    assert_eq!(frame(""), "Content-Length: 0\r\n\r\n");
    assert_eq!(frame("\"äö\""), "Content-Length: 6\r\n\r\n\"äö\"");
    assert_eq!(frame("0123456789"), "Content-Length: 10\r\n\r\n0123456789");
    let framed = frame("body");
    let line = framed.split_inclusive('\n').next().unwrap();
    assert_eq!(read_header_line(line), HeaderLine::Length(4));
}
