//! Whole projects: what the index finds in them, and what it answers.
use pyfixy_lsp::annotation::ImportRequirement;
use pyfixy_lsp::fixture::fixtures_in_text;
use pyfixy_lsp::index::FixtureIndex;
use pyfixy_lsp::path::FilePath;
use pyfixy_lsp::position::{Position, Range};
use pyfixy_lsp::protocol::AnnotationDiagnosticKind;
use pyfixy_lsp::workspace::{FileContent, FileEntry, Workspace};

/// A project below `/work`.
struct Project {
    root: FilePath,
    files: Workspace,
}

impl Project {
    fn new() -> Project {
        Project {
            root: FilePath::parse("/work"),
            files: Workspace {
                entries: Vec::new(),
            },
        }
    }

    fn path(&self, name: &str) -> FilePath {
        FilePath::parse(&format!("/work/{name}"))
    }

    fn write(&mut self, path: &FilePath, text: &str) {
        let mut directory = path.parent();
        while let Some(path) = directory {
            if self.files.has(&path) {
                break;
            }
            directory = path.parent();
            self.files.entries.push(FileEntry {
                path,
                content: FileContent::Directory,
            });
        }
        self.files.entries.push(FileEntry {
            path: path.clone(),
            content: FileContent::Source(text.to_string()),
        });
    }

    fn text(&self, path: &FilePath) -> &str {
        self.files.read(path).unwrap()
    }

    fn index(&self) -> FixtureIndex {
        FixtureIndex::build(&self.files, &self.root).unwrap()
    }
}

fn file_url(path: &FilePath) -> String {
    url::Url::from_file_path(path.display()).unwrap().to_string()
}

#[test]
fn discovers_pytest_fixture_decorators_and_custom_names() {
    let mut project = Project::new();
    let file = project.path("tests/conftest.py");
    project.write(&file, "import pytest\n\n@pytest.fixture\ndef db(): pass\n\n@pytest.fixture(name=\"client\")\ndef make_client(): pass\n");
    let fixtures = fixtures_in_text(&project.files, &file, project.text(&file));
    let names: Vec<_> = fixtures.into_iter().map(|f| f.name).collect();
    assert_eq!(names, vec!["db", "client"]);
}

#[test]
fn completes_visible_conftest_fixtures_in_test_parameters() {
    let mut project = Project::new();
    project.write(
        &project.path("tests/conftest.py"),
        "import pytest\n@pytest.fixture\ndef db(): pass\n",
    );
    let test = project.path("tests/test_app.py");
    project.write(&test, "def test_thing(\n): pass\n");
    let index = project.index();
    let items = index
        .completions(
            &project.files, &test,
            Position {
                line: 0,
                character: 15,
            },
        )
        .unwrap();
    assert!(items.iter().any(|item| item.label == "db"));
}

#[test]
fn does_not_complete_outside_parameter_list() {
    let mut project = Project::new();
    project.write(
        &project.path("tests/conftest.py"),
        "import pytest\n@pytest.fixture\ndef db(): pass\n",
    );
    let test = project.path("tests/test_app.py");
    project.write(&test, "def test_thing():\n    db\n");
    let index = project.index();
    let items = index
        .completions(
            &project.files, &test,
            Position {
                line: 1,
                character: 5,
            },
        )
        .unwrap();
    assert!(items.is_empty());
}

#[test]
fn completes_same_file_fixture_decorated_with_imported_fixture() {
    let mut project = Project::new();
    let test = project.path("tests/test_app.py");
    project.write(&test,
        "from pytest import fixture\n\n@fixture\ndef user(): pass\n\ndef test_thing(): pass\n",
    );
    let index = project.index();
    let items = index
        .completions(
            &project.files, &test,
            Position {
                line: 5,
                character: 15,
            },
        )
        .unwrap();
    assert!(items.iter().any(|item| item.label == "user"));
}

#[test]
fn conftest_fixture_is_visible_to_nested_tests() {
    let mut project = Project::new();
    project.write(
        &project.path("tests/conftest.py"),
        "import pytest\n@pytest.fixture\ndef db(): pass\n",
    );
    let test = project.path("tests/sub/test_app.py");
    project.write(&test, "def test_thing(): pass\n");
    let index = project.index();
    let items = index
        .completions(
            &project.files, &test,
            Position {
                line: 0,
                character: 15,
            },
        )
        .unwrap();
    assert!(items.iter().any(|item| item.label == "db"));
}

#[test]
fn sibling_conftest_fixture_is_not_visible() {
    let mut project = Project::new();
    project.write(
        &project.path("tests/api/conftest.py"),
        "import pytest\n@pytest.fixture\ndef api_client(): pass\n",
    );
    let test = project.path("tests/web/test_app.py");
    project.write(&test, "def test_thing(): pass\n");
    let index = project.index();
    let items = index
        .completions(
            &project.files, &test,
            Position {
                line: 0,
                character: 15,
            },
        )
        .unwrap();
    assert!(!items.iter().any(|item| item.label == "api_client"));
}

#[test]
fn completes_multiline_test_parameters() {
    let mut project = Project::new();
    project.write(
        &project.path("tests/conftest.py"),
        "import pytest\n@pytest.fixture\ndef db(): pass\n",
    );
    let test = project.path("tests/test_app.py");
    project.write(&test, "def test_thing(\n    \n): pass\n");
    let index = project.index();
    let items = index
        .completions(
            &project.files, &test,
            Position {
                line: 1,
                character: 4,
            },
        )
        .unwrap();
    assert!(items.iter().any(|item| item.label == "db"));
}

#[test]
fn completes_inside_multiline_params_with_defaults_and_annotations() {
    let mut project = Project::new();
    project.write(
        &project.path("tests/conftest.py"),
        "import pytest\n@pytest.fixture\ndef db(): pass\n",
    );
    let test = project.path("tests/test_app.py");
    project.write(&test,
        "def test_thing(\n    existing: str = call((1, 2)),\n    \n): pass\n",
    );
    let index = project.index();
    let items = index
        .completions(
            &project.files, &test,
            Position {
                line: 2,
                character: 4,
            },
        )
        .unwrap();
    assert!(items.iter().any(|item| item.label == "db"));
}

#[test]
fn references_use_ast_parameter_ranges_not_string_matches() {
    let mut project = Project::new();
    let conftest = project.path("tests/conftest.py");
    project.write(&conftest,
        "import pytest\n@pytest.fixture\ndef db(): pass\n",
    );
    let test = project.path("tests/test_app.py");
    project.write(&test, "def test_thing(db_name, db): pass\n");
    let index = project.index();
    let refs = index
        .references(
            &project.files, &conftest,
            Position {
                line: 2,
                character: 5,
            },
        )
        .unwrap();
    assert_eq!(refs.len(), 1);
    assert_eq!(refs[0].range.start.character, 24);
}

#[test]
fn async_fixture_is_discovered() {
    let mut project = Project::new();
    project.write(
        &project.path("tests/conftest.py"),
        "import pytest\n@pytest.fixture\nasync def async_db(): pass\n",
    );
    let test = project.path("tests/test_app.py");
    project.write(&test, "def test_thing(): pass\n");
    let index = project.index();
    let items = index
        .completions(
            &project.files, &test,
            Position {
                line: 0,
                character: 15,
            },
        )
        .unwrap();
    assert!(items.iter().any(|item| item.label == "async_db"));
}

#[test]
fn nearest_conftest_fixture_wins_for_definition() {
    let mut project = Project::new();
    let root_conftest = project.path("tests/conftest.py");
    let nested_conftest = project.path("tests/sub/conftest.py");
    project.write(&root_conftest,
        "import pytest\n@pytest.fixture\ndef db(): pass\n",
    );
    project.write(&nested_conftest,
        "import pytest\n@pytest.fixture\ndef db(): pass\n",
    );
    let test = project.path("tests/sub/test_app.py");
    project.write(&test, "def test_thing(db): pass\n");
    let index = project.index();
    let location = index
        .definition(
            &project.files, &test,
            Position {
                line: 0,
                character: 15,
            },
        )
        .unwrap()
        .unwrap();
    assert_eq!(location.uri, file_url(&nested_conftest));
}

#[test]
fn star_imported_conftest_reexport_fixture_is_visible() {
    let mut project = Project::new();
    let fixture_module = project.path("project/testing/fixtures/clients.py");
    project.write(&fixture_module,
        "import pytest\n@pytest.fixture\ndef api_client(): pass\n",
    );
    project.write(
        &project.path("project/conftest.py"),
        "from project.testing.fixtures.clients import api_client\n",
    );
    project.write(
        &project.path("project/features/widgets/tests/conftest.py"),
        "from project.conftest import *\n",
    );
    let test = project.path("project/features/widgets/tests/test_widgets.py");
    project.write(&test, "def test_create_widget(api_client): pass\n");

    let index = project.index();
    let location = index
        .definition(
            &project.files, &test,
            Position {
                line: 0,
                character: 24,
            },
        )
        .unwrap()
        .unwrap();
    assert_eq!(location.uri, file_url(&fixture_module));
}

#[test]
fn imported_fixture_is_visible() {
    let mut project = Project::new();
    let helper = project.path("tests/fixtures.py");
    project.write(&helper,
        "import pytest\n@pytest.fixture\ndef user(): pass\n",
    );
    let test = project.path("tests/test_app.py");
    project.write(&test,
        "from tests.fixtures import user\n\ndef test_thing(user): pass\n",
    );
    let index = project.index();
    let location = index
        .definition(
            &project.files, &test,
            Position {
                line: 2,
                character: 15,
            },
        )
        .unwrap()
        .unwrap();
    assert_eq!(location.uri, file_url(&helper));
}

#[test]
fn pytest_plugins_fixture_is_visible() {
    let mut project = Project::new();
    let plugin = project.path("tests/plugins/db.py");
    project.write(&plugin,
        "import pytest\n@pytest.fixture\ndef plugin_db(): pass\n",
    );
    let test = project.path("tests/test_app.py");
    project.write(&test,
        "pytest_plugins = [\n    'tests.plugins.db',\n]\n\ndef test_thing(plugin_db): pass\n",
    );
    let index = project.index();
    let location = index
        .definition(
            &project.files, &test,
            Position {
                line: 4,
                character: 17,
            },
        )
        .unwrap()
        .unwrap();
    assert_eq!(location.uri, file_url(&plugin));
}

#[test]
fn ancestor_conftest_pytest_plugins_fixture_is_visible() {
    let mut project = Project::new();
    let plugin = project.path("tests/cohorts/integration.py");
    project.write(&plugin,
        "import pytest\n@pytest.fixture\ndef integration_env(): pass\n",
    );
    project.write(
        &project.path("app/modules/conftest.py"),
        "pytest_plugins = [\n    'tests.cohorts.integration',\n]\n",
    );
    let test = project.path("app/modules/evaluations/tests/test_eval.py");
    project.write(&test,
        "def test_thing(\n    integration_env: Settings,\n): pass\n",
    );

    let index = project.index();
    let location = index
        .definition(
            &project.files, &test,
            Position {
                line: 1,
                character: 5,
            },
        )
        .unwrap()
        .unwrap();
    assert_eq!(location.uri, file_url(&plugin));
}

#[test]
fn references_from_fixture_definition_find_visible_test_params() {
    let mut project = Project::new();
    let conftest = project.path("tests/conftest.py");
    project.write(&conftest,
        "import pytest\n@pytest.fixture\ndef db(): pass\n",
    );
    let test_one = project.path("tests/test_one.py");
    let test_two = project.path("tests/sub/test_two.py");
    let sibling = project.path("other/test_other.py");
    project.write(&test_one, "def test_one(db): pass\n");
    project.write(&test_two, "def test_two(\n    db,\n): pass\n");
    project.write(&sibling, "def test_other(db): pass\n");
    let index = project.index();
    let refs = index
        .references(
            &project.files, &conftest,
            Position {
                line: 2,
                character: 5,
            },
        )
        .unwrap();
    let uris: Vec<_> = refs.iter().map(|loc| loc.uri.clone()).collect();
    assert!(uris.contains(&file_url(&test_one)));
    assert!(uris.contains(&file_url(&test_two)));
    assert!(!uris.contains(&file_url(&sibling)));
}

#[test]
fn references_from_fixture_parameter_find_other_usages() {
    let mut project = Project::new();
    project.write(
        &project.path("tests/conftest.py"),
        "import pytest\n@pytest.fixture\ndef db(): pass\n",
    );
    let test_one = project.path("tests/test_one.py");
    let test_two = project.path("tests/test_two.py");
    project.write(&test_one, "def test_one(db): pass\n");
    project.write(&test_two, "def test_two(db): pass\n");
    let index = project.index();
    let refs = index
        .references(
            &project.files, &test_one,
            Position {
                line: 0,
                character: 13,
            },
        )
        .unwrap();
    assert_eq!(refs.len(), 2);
    let test_one_uri = file_url(&test_one);
    let test_two_uri = file_url(&test_two);
    assert!(refs.iter().any(|loc| loc.uri == test_one_uri));
    assert!(refs.iter().any(|loc| loc.uri == test_two_uri));
}

#[test]
fn references_include_fixture_dependencies() {
    let mut project = Project::new();
    let conftest = project.path("tests/conftest.py");
    project.write(&conftest,
        "import pytest\n@pytest.fixture\ndef db(): pass\n\n@pytest.fixture\ndef user(db): pass\n",
    );
    let test = project.path("tests/test_app.py");
    project.write(&test, "def test_user(db): pass\n");
    let index = project.index();
    let refs = index
        .references(
            &project.files, &conftest,
            Position {
                line: 2,
                character: 5,
            },
        )
        .unwrap();
    assert_eq!(refs.len(), 2);
    let conftest_uri = file_url(&conftest);
    let test_uri = file_url(&test);
    assert!(refs
        .iter()
        .any(|loc| loc.uri == conftest_uri && loc.range.start.line == 5));
    assert!(refs.iter().any(|loc| loc.uri == test_uri));
}

#[test]
fn definition_resolves_fixture_parameter_to_conftest() {
    let mut project = Project::new();
    let conftest = project.path("tests/conftest.py");
    project.write(&conftest,
        "import pytest\n@pytest.fixture\ndef db(): pass\n",
    );
    let test = project.path("tests/test_app.py");
    project.write(&test, "def test_thing(db): pass\n");
    let index = project.index();
    let location = index
        .definition(
            &project.files, &test,
            Position {
                line: 0,
                character: 15,
            },
        )
        .unwrap()
        .unwrap();
    assert_eq!(location.uri, file_url(&conftest));
}

#[test]
fn fixtures_capture_return_annotation_and_imports() {
    let mut project = Project::new();
    let file = project.path("tests/conftest.py");
    project.write(&file,
        "import pytest
from starlette.testclient import TestClient

@pytest.fixture
def admin_client() -> TestClient: pass
",
    );
    let fixtures = fixtures_in_text(&project.files, &file, project.text(&file));
    let ann = fixtures[0].return_annotation.as_ref().unwrap();
    assert_eq!(ann.text, "TestClient");
    assert_eq!(
        ann.imports,
        vec![ImportRequirement {
            module: "starlette.testclient".into(),
            name: "TestClient".into(),
            alias: None,
        }]
    );
}

#[test]
fn diagnostics_report_missing_and_mismatched_fixture_annotations() {
    let mut project = Project::new();
    project.write(
        &project.path("tests/conftest.py"),
        "import pytest
@pytest.fixture
def db() -> Session: pass
",
    );
    let test = project.path("tests/test_app.py");
    let text = "def test_one(db): pass
def test_two(db: str): pass
";
    project.write(&test, text);
    let index = project.index();
    let diags = index.annotation_diagnostics_for_text(&project.files, &test, text).unwrap();
    assert_eq!(diags.len(), 2);
    assert_eq!(diags[0].kind, AnnotationDiagnosticKind::Missing);
    assert_eq!(diags[1].kind, AnnotationDiagnosticKind::Mismatched);
}

#[test]
fn fixture_annotation_diagnostics_unwrap_generator_yield_type() {
    let mut project = Project::new();
    project.write(
        &project.path("tests/conftest.py"),
        "import pytest
from collections.abc import AsyncGenerator
from dishka import AsyncContainer

@pytest.fixture
async def create_di_container() -> AsyncGenerator[AsyncContainer]:
    yield AsyncContainer()
",
    );
    let test = project.path("tests/test_app.py");
    let text = "from dishka import AsyncContainer

def test_one(create_di_container: AsyncContainer): pass
def test_two(create_di_container): pass
";
    project.write(&test, text);
    let index = project.index();
    let diags = index.annotation_diagnostics_for_text(&project.files, &test, text).unwrap();
    assert_eq!(diags.len(), 1);
    assert_eq!(diags[0].kind, AnnotationDiagnosticKind::Missing);
    assert_eq!(diags[0].fixture_annotation, "AsyncContainer");
}

#[test]
fn fixture_annotation_code_action_imports_unwrapped_generator_yield_type() {
    let mut project = Project::new();
    project.write(
        &project.path("tests/conftest.py"),
        "import pytest
from collections.abc import AsyncGenerator
from dishka import AsyncContainer

@pytest.fixture
async def create_di_container() -> AsyncGenerator[AsyncContainer]:
    yield AsyncContainer()
",
    );
    let test = project.path("tests/test_app.py");
    let text = "def test_one(create_di_container): pass
";
    project.write(&test, text);
    let index = project.index();
    let actions = index
        .code_actions_for_text_range(&project.files, &test, text, &file_url(&test), None)
        .unwrap();
    let action = actions
        .iter()
        .find(|action| action.title == "Add fixture type annotation")
        .unwrap();
    let edits = &action.edit.edits;
    assert!(edits.iter().any(|edit| edit.new_text == ": AsyncContainer"));
    assert!(edits
        .iter()
        .any(|edit| edit.new_text.contains("from dishka import AsyncContainer")));
    assert!(!edits
        .iter()
        .any(|edit| edit.new_text.contains("AsyncGenerator")));
}

#[test]
fn code_actions_filter_to_requested_parameter_range() {
    let mut project = Project::new();
    project.write(
        &project.path("tests/conftest.py"),
        "import pytest
@pytest.fixture
def admin_client() -> TestClient: pass
@pytest.fixture
def root_client() -> RootClient: pass
",
    );
    let test = project.path("tests/test_app.py");
    let text = "def test_user(admin_client, root_client): pass
";
    project.write(&test, text);
    let index = project.index();
    let actions = index
        .code_actions_for_text_range(
            &project.files, &test,
            text,
            &file_url(&test),
            Some(Range {
                start: Position {
                    line: 0,
                    character: 14,
                },
                end: Position {
                    line: 0,
                    character: 14,
                },
            }),
        )
        .unwrap();
    let quickfixes: Vec<_> = actions
        .iter()
        .filter(|action| action.title == "Add fixture type annotation")
        .collect();
    assert_eq!(quickfixes.len(), 1);
    let edits = &quickfixes[0].edit.edits;
    assert!(edits.iter().any(|edit| edit.new_text == ": TestClient"));
    assert!(!edits.iter().any(|edit| edit.new_text == ": RootClient"));
}

#[test]
fn whole_file_action_coalesces_multiple_imports_at_same_position() {
    let mut project = Project::new();
    project.write(
        &project.path("tests/conftest.py"),
        "import pytest
from app.clients import AdminClient
from app.clients import RootClient
@pytest.fixture
def admin_client() -> AdminClient: pass
@pytest.fixture
def root_client() -> RootClient: pass
",
    );
    let test = project.path("tests/test_app.py");
    let text = "def test_user(admin_client, root_client): pass
";
    project.write(&test, text);
    let index = project.index();
    let actions = index
        .code_actions_for_text_range(&project.files, &test, text, &file_url(&test), None)
        .unwrap();
    let file_action = actions
        .iter()
        .find(|action| action.title == "Add fixture type annotations in file")
        .unwrap();
    let edits = &file_action.edit.edits;
    let import_edits: Vec<_> = edits
        .iter()
        .filter(|edit| {
            edit.range.start.line == 0
                && edit.range.start.character == 0
                && edit.range.start == edit.range.end
        })
        .collect();
    assert_eq!(import_edits.len(), 1);
    assert!(import_edits[0]
        .new_text
        .contains("from app.clients import AdminClient\n"));
    assert!(import_edits[0]
        .new_text
        .contains("from app.clients import RootClient\n"));
}

#[test]
fn complex_fixture_annotation_imports_all_referenced_symbols() {
    let mut project = Project::new();
    project.write(
        &project.path("tests/conftest.py"),
        "import pytest
from collections.abc import Callable
from typing import Optional
from app.models import SomeType
from app.results import AnotherType

@pytest.fixture
def factory() -> Callable[[Optional[SomeType]], AnotherType]: pass
",
    );
    let test = project.path("tests/test_app.py");
    let text = "def test_factory(factory): pass
";
    project.write(&test, text);
    let index = project.index();
    let actions = index
        .code_actions_for_text_range(
            &project.files, &test,
            text,
            &file_url(&test),
            Some(Range {
                start: Position {
                    line: 0,
                    character: 17,
                },
                end: Position {
                    line: 0,
                    character: 17,
                },
            }),
        )
        .unwrap();
    let quickfix = actions
        .iter()
        .find(|action| action.title == "Add fixture type annotation")
        .unwrap();
    let edits = &quickfix.edit.edits;
    let edit_text = edits
        .iter()
        .map(|edit| edit.new_text.as_str())
        .collect::<String>();
    assert!(edit_text.contains("from app.models import SomeType\n"));
    assert!(edit_text.contains("from app.results import AnotherType\n"));
    assert!(edit_text.contains("from collections.abc import Callable\n"));
    assert!(edit_text.contains("from typing import Optional\n"));
    assert!(edits
        .iter()
        .any(|edit| edit.new_text == ": Callable[[Optional[SomeType]], AnotherType]"));
}

#[test]
fn local_fixture_return_type_is_imported_from_fixture_module() {
    let mut project = Project::new();
    project.write(
        &project.path("tests/__init__.py"), "");
    project.write(
        &project.path("tests/conftest.py"),
        "import pytest

class LocalClient: pass

@pytest.fixture
def local_client() -> LocalClient: pass
",
    );
    let test = project.path("tests/test_app.py");
    let text = "def test_local(local_client): pass
";
    project.write(&test, text);
    let index = project.index();
    let actions = index
        .code_actions_for_text_range(&project.files, &test, text, &file_url(&test), None)
        .unwrap();
    let quickfix = actions
        .iter()
        .find(|action| action.title == "Add fixture type annotation")
        .unwrap();
    let edits = &quickfix.edit.edits;
    assert!(edits
        .iter()
        .any(|edit| edit.new_text == "from tests.conftest import LocalClient\n"));
    assert!(edits.iter().any(|edit| edit.new_text == ": LocalClient"));
}

#[test]
fn imports_are_inserted_after_multiline_import_block() {
    let mut project = Project::new();
    project.write(
        &project.path("tests/conftest.py"),
        "import pytest
from fastapi.testclient import TestClient

@pytest.fixture
def client() -> TestClient: pass
",
    );
    let test = project.path("tests/test_app.py");
    let text = "from app.module import (\n    Existing,\n)\n\ndef test_client(client): pass\n";
    project.write(&test, text);
    let index = project.index();
    let actions = index
        .code_actions_for_text_range(&project.files, &test, text, &file_url(&test), None)
        .unwrap();
    let quickfix = actions
        .iter()
        .find(|action| action.title == "Add fixture type annotation")
        .unwrap();
    let edits = &quickfix.edit.edits;
    let import_edit = edits
        .iter()
        .find(|edit| edit.new_text == "from fastapi.testclient import TestClient\n")
        .unwrap();
    assert_eq!(import_edit.range.start.line, 3);
    assert_eq!(import_edit.range.start.character, 0);
}

#[test]
fn aliased_fixture_annotation_preserves_existing_alias_import() {
    let mut project = Project::new();
    project.write(
        &project.path("tests/conftest.py"),
        "import pytest
from app.models import User as ModelUser

@pytest.fixture
def user() -> ModelUser: pass
",
    );
    let test = project.path("tests/test_app.py");
    let text = "def test_user(user): pass
";
    project.write(&test, text);
    let index = project.index();
    let actions = index
        .code_actions_for_text_range(&project.files, &test, text, &file_url(&test), None)
        .unwrap();
    let quickfix = actions
        .iter()
        .find(|action| action.title == "Add fixture type annotation")
        .unwrap();
    let edits = &quickfix.edit.edits;
    assert!(edits
        .iter()
        .any(|edit| edit.new_text == "from app.models import User as ModelUser\n"));
    assert!(edits.iter().any(|edit| edit.new_text == ": ModelUser"));
}

#[test]
fn imports_are_inserted_after_module_docstring_and_future_imports() {
    let mut project = Project::new();
    project.write(
        &project.path("tests/conftest.py"),
        "import pytest
from fastapi.testclient import TestClient

@pytest.fixture
def client() -> TestClient: pass
",
    );
    let test = project.path("tests/test_app.py");
    let text = "\"\"\"module docs\"\"\"\nfrom __future__ import annotations\n\ndef test_client(client): pass\n";
    project.write(&test, text);
    let index = project.index();
    let actions = index
        .code_actions_for_text_range(&project.files, &test, text, &file_url(&test), None)
        .unwrap();
    let quickfix = actions
        .iter()
        .find(|action| action.title == "Add fixture type annotation")
        .unwrap();
    let edits = &quickfix.edit.edits;
    let import_edit = edits
        .iter()
        .find(|edit| edit.new_text == "from fastapi.testclient import TestClient\n")
        .unwrap();
    assert_eq!(import_edit.range.start.line, 2);
    assert_eq!(import_edit.range.start.character, 0);
}

#[test]
fn imports_do_not_merge_into_existing_single_line_from_import() {
    let mut project = Project::new();
    project.write(
        &project.path("tests/conftest.py"),
        "import pytest
from app.models import User

@pytest.fixture
def user() -> User: pass
",
    );
    let test = project.path("tests/test_app.py");
    let text = "from app.models import Existing\n\ndef test_user(user): pass\n";
    project.write(&test, text);
    let index = project.index();
    let actions = index
        .code_actions_for_text_range(&project.files, &test, text, &file_url(&test), None)
        .unwrap();
    let quickfix = actions
        .iter()
        .find(|action| action.title == "Add fixture type annotation")
        .unwrap();
    let edits = &quickfix.edit.edits;
    assert!(edits
        .iter()
        .any(|edit| edit.new_text == "from app.models import User\n"));
    assert!(!edits.iter().any(|edit| edit.new_text == ", User"));
}

#[test]
fn imports_do_not_merge_into_existing_multiline_from_import() {
    let mut project = Project::new();
    project.write(
        &project.path("tests/conftest.py"),
        "import pytest
from app.models import User

@pytest.fixture
def user() -> User: pass
",
    );
    let test = project.path("tests/test_app.py");
    let text = "from app.models import (\n    Existing,\n)\n\ndef test_user(user): pass\n";
    project.write(&test, text);
    let index = project.index();
    let actions = index
        .code_actions_for_text_range(&project.files, &test, text, &file_url(&test), None)
        .unwrap();
    let quickfix = actions
        .iter()
        .find(|action| action.title == "Add fixture type annotation")
        .unwrap();
    let edits = &quickfix.edit.edits;
    let import_edit = edits
        .iter()
        .find(|edit| edit.new_text == "from app.models import User\n")
        .unwrap();
    assert_eq!(import_edit.range.start.line, 3);
    assert_eq!(import_edit.range.start.character, 0);
    assert!(!edits.iter().any(|edit| edit.new_text == "    User,\n"));
}

#[test]
fn completion_does_not_insert_annotation_inside_existing_annotation_context() {
    let mut project = Project::new();
    project.write(
        &project.path("tests/conftest.py"),
        "import pytest
@pytest.fixture
def user() -> User: pass
",
    );
    let test = project.path("tests/test_app.py");
    let text = "def test_user(user: Us): pass\n";
    project.write(&test, text);
    let index = project.index();
    let items = index
        .completions_for_text(
            &project.files, &test,
            text,
            Position {
                line: 0,
                character: 22,
            },
        )
        .unwrap();
    let item = items.iter().find(|item| item.label == "user").unwrap();
    assert_eq!(item.insert_text.as_deref(), Some("user"));
    assert!(item.additional_text_edits.is_none());
}

#[test]
fn code_actions_add_import_and_replace_or_insert_annotation() {
    let mut project = Project::new();
    project.write(
        &project.path("tests/conftest.py"),
        "import pytest
from app.models import User
@pytest.fixture
def user() -> User: pass
",
    );
    let test = project.path("tests/test_app.py");
    let text = "def test_user(user): pass
";
    project.write(&test, text);
    let index = project.index();
    let actions = index
        .code_actions_for_text(&project.files, &test, text, &file_url(&test))
        .unwrap();
    let edits = &actions[0].edit.edits;
    assert!(edits.iter().any(|e| e.new_text
        == "from app.models import User
"));
    assert!(edits.iter().any(|e| e.new_text == ": User"));
}

#[test]
fn imported_and_qualified_annotations_are_equivalent() {
    let mut project = Project::new();
    project.write(
        &project.path("tests/conftest.py"),
        "import pytest
from starlette.testclient import TestClient
@pytest.fixture
def admin_client() -> TestClient: pass
",
    );
    let test = project.path("tests/test_app.py");
    let text = "import starlette.testclient

def test_x(admin_client: starlette.testclient.TestClient): pass
";
    project.write(&test, text);
    let index = project.index();
    let diags = index.annotation_diagnostics_for_text(&project.files, &test, text).unwrap();
    assert!(diags.is_empty());
}

#[test]
fn completion_inserts_annotation_and_import_edit() {
    let mut project = Project::new();
    project.write(
        &project.path("tests/conftest.py"),
        "import pytest
from starlette.testclient import TestClient
@pytest.fixture
def admin_client() -> TestClient: pass
",
    );
    let test = project.path("tests/test_app.py");
    let text = "def test_x(admin_): pass
";
    project.write(&test, text);
    let index = project.index();
    let items = index
        .completions_for_text(
            &project.files, &test,
            text,
            Position {
                line: 0,
                character: 17,
            },
        )
        .unwrap();
    let item = items.iter().find(|i| i.label == "admin_client").unwrap();
    assert_eq!(
        item.insert_text.as_deref(),
        Some("admin_client: TestClient")
    );
    assert!(item
        .additional_text_edits
        .as_ref()
        .unwrap()
        .iter()
        .any(|e| e.new_text
            == "from starlette.testclient import TestClient
"));
}
