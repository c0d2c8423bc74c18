//! Which fixtures are found, imported and seen.
use pyfixy_lsp::edits::TextEdit;
use pyfixy_lsp::fixture::{fixtures_in_text, Fixture};
use pyfixy_lsp::index::FixtureIndex;
use pyfixy_lsp::navigation::sort_locations;
use pyfixy_lsp::path::FilePath;
use pyfixy_lsp::position::{position_to_index, Position, Range};
use pyfixy_lsp::protocol::Location;
use pyfixy_lsp::reexports::{conftest_reexports, expand, import_specs, ImportSpec, Reexport};
use pyfixy_lsp::text::chars_of;
use pyfixy_lsp::visibility::{
    fixture_visibility_score, imported_fixture_sources_from_text, plugin_paths_for,
    rank_fixtures, FixtureImport,
};
use pyfixy_lsp::workspace::{
    collect_python_files, module_to_path, pytest_plugin_config_files, pytest_plugin_modules,
    FileContent, FileEntry, UnreadableFile, Workspace,
};

fn workspace(files: &[(&str, &str)]) -> Workspace {
    let mut entries = Vec::new();
    for (path, text) in files {
        entries.push(FileEntry {
            path: FilePath::parse(path),
            content: FileContent::Source(text.to_string()),
        });
    }
    Workspace { entries }
}

fn path(text: &str) -> FilePath {
    FilePath::parse(text)
}

fn at(line: u32, character: u32) -> Position {
    Position { line, character }
}

fn fixture(name: &str, file: &str, visible: &str) -> Fixture {
    let range = Range {
        start: at(0, 0),
        end: at(0, 0),
    };
    Fixture {
        name: name.to_string(),
        path: path(file),
        visibility_path: path(visible),
        range,
        name_range: range,
        return_annotation: None,
    }
}

fn keys(fixtures: &[Fixture]) -> Vec<(String, String, String)> {
    fixtures
        .iter()
        .map(|f| (f.name.clone(), f.path.display(), f.visibility_path.display()))
        .collect()
}

fn key(name: &str, file: &str, visible: &str) -> (String, String, String) {
    (name.to_string(), file.to_string(), visible.to_string())
}

#[test]
fn decorators_make_fixtures() {
    let text = "import pytest\n\
        @pytest.fixture\ndef a(): pass\n\
        @fixture()\ndef b(): pass\n\
        @pytest.fixture(scope='x', name='named')\ndef c(): pass\n\
        @pytest.fixture(name=NAME)\ndef d(): pass\n\
        @other.fixture\ndef e(): pass\n\
        @cached\n@fixture\ndef f(): pass\n\
        def g(): pass\n\
        class H:\n    @fixture\n    def i(self):\n        @fixture\n        def j(): pass\n";
    let files = workspace(&[]);
    let fixtures = fixtures_in_text(&files, &path("/work/conftest.py"), text);
    let names: Vec<&str> = fixtures.iter().map(|f| f.name.as_str()).collect();
    assert_eq!(names, vec!["a", "b", "named", "d", "f", "i"]);
    assert_eq!(fixtures[0].range.start, at(1, 0));
    assert_eq!(fixtures[0].name_range.start, at(2, 4));
    assert_eq!(fixtures[0].name_range.end, at(2, 5));
    assert_eq!(fixtures[0].visibility_path, path("/work/conftest.py"));
    assert!(fixtures_in_text(&files, &path("/work/a.py"), "@fixture\ndef broken(").is_empty());
}

#[test]
fn name_ranges_are_those_of_the_definition() {
    let files = workspace(&[]);
    let text = "@fixture(name='x')\ndef fix(): pass\n";
    let fixtures = fixtures_in_text(&files, &path("/work/conftest.py"), text);
    assert_eq!(fixtures[0].name_range.start, at(1, 4));
    assert_eq!(fixtures[0].name_range.end, at(1, 7));
}

#[test]
fn references_from_a_definition_named_in_its_decorator() {
    for decorator in [
        "@pytest.fixture(name=\"db\")",
        "@pytest.fixture(scope=\"db\")",
        "@fixture(db)",
    ] {
        let conftest = format!("import pytest\n{decorator}\ndef db(): pass\n");
        let files = workspace(&[
            ("/work/tests/conftest.py", conftest.as_str()),
            ("/work/tests/test_one.py", "def test_one(db): pass\n"),
        ]);
        let index = FixtureIndex::build(&files, &path("/work")).unwrap();
        for character in [4u32, 5] {
            let references = index
                .references(&files, &path("/work/tests/conftest.py"), at(2, character))
                .unwrap();
            assert_eq!(references.len(), 1);
            assert_eq!(references[0].uri, "file:///work/tests/test_one.py");
            assert_eq!(references[0].range.start, at(0, 13));
            assert_eq!(references[0].range.end, at(0, 15));
        }
        assert!(index
            .references(&files, &path("/work/tests/conftest.py"), at(1, 22))
            .unwrap()
            .is_empty());
    }
}

#[test]
fn custom_names_are_referred_to_from_the_definition() {
    let files = workspace(&[
        (
            "/work/conftest.py",
            "import pytest\n@pytest.fixture(name = \"client\")\ndef make_client(): pass\n",
        ),
        ("/work/test_one.py", "def test_one(make_client, client): pass\n"),
    ]);
    let index = FixtureIndex::build(&files, &path("/work")).unwrap();
    let references = index
        .references(&files, &path("/work/conftest.py"), at(2, 8))
        .unwrap();
    assert_eq!(references.len(), 1);
    assert_eq!(references[0].range.start, at(0, 26));
}

#[test]
fn project_files_leave_out_skipped_directories() {
    let mut files = workspace(&[
        ("/work/a.py", ""),
        ("/work/venv/b.py", ""),
        ("/work/sub/.git/c.py", ""),
        ("/work/sub/d.py", ""),
        ("/work/e.txt", ""),
        ("/other/f.py", ""),
        ("/work/.py", ""),
    ]);
    files.entries.push(FileEntry {
        path: path("/work/dir.py"),
        content: FileContent::Directory,
    });
    files.entries.push(FileEntry {
        path: path("/work/unreadable.py"),
        content: FileContent::Unreadable,
    });
    let found: Vec<String> = collect_python_files(&files, &path("/work"))
        .iter()
        .map(|entry| entry.path.display())
        .collect();
    assert_eq!(
        found,
        vec!["/work/a.py", "/work/sub/d.py", "/work/unreadable.py"]
    );
}

#[test]
fn unreadable_files_stop_the_index() {
    let mut files = workspace(&[("/work/a.py", "")]);
    files.entries.push(FileEntry {
        path: path("/work/b.py"),
        content: FileContent::Unreadable,
    });
    assert_eq!(
        FixtureIndex::build(&files, &path("/work")).err(),
        Some(UnreadableFile {
            path: path("/work/b.py")
        })
    );
    assert_eq!(
        import_specs(&files, &path("/work/c.py"), &path("/work")).err(),
        Some(UnreadableFile {
            path: path("/work/c.py")
        })
    );
    let empty = FixtureIndex::default();
    assert!(empty.fixtures().is_empty());
    assert_eq!(empty.root().display(), "");
}

#[test]
fn modules_are_looked_up_below_the_root() {
    let files = workspace(&[("/work/app/models.py", "")]);
    assert_eq!(
        module_to_path(&files, &path("/work"), "app.models"),
        Some(path("/work/app/models.py"))
    );
    assert_eq!(module_to_path(&files, &path("/work"), "app.views"), None);
    assert_eq!(module_to_path(&files, &path("/work/app"), "app.models"), None);
}

#[test]
fn plugins_come_from_the_file_and_the_conftests_above() {
    let mut files = workspace(&[
        ("/work/tests/test_a.py", "pytest_plugins = ('a', ['b'])\n"),
        ("/work/tests/conftest.py", "pytest_plugins = 'c'\nother = 'd'\n"),
        ("/work/conftest.py", "x = pytest_plugins = ['plugins.e']\n"),
        ("/work/plugins/e.py", ""),
    ]);
    let file = path("/work/tests/test_a.py");
    let configs: Vec<String> = pytest_plugin_config_files(&files, &file)
        .iter()
        .map(|config| config.display())
        .collect();
    assert_eq!(
        configs,
        vec![
            "/work/tests/test_a.py",
            "/work/tests/conftest.py",
            "/work/conftest.py"
        ]
    );
    assert_eq!(
        pytest_plugin_modules(&files, &file).unwrap(),
        vec!["a", "b", "c", "plugins.e"]
    );
    assert_eq!(
        plugin_paths_for(&files, &path("/work"), &file),
        vec![path("/work/plugins/e.py")]
    );
    assert_eq!(
        pytest_plugin_modules(&files, &path("/work/missing.py")),
        Err(UnreadableFile {
            path: path("/work/missing.py")
        })
    );
    files.entries[1].content = FileContent::Unreadable;
    assert_eq!(
        pytest_plugin_modules(&files, &file),
        Err(UnreadableFile {
            path: path("/work/tests/conftest.py")
        })
    );
    assert!(plugin_paths_for(&files, &path("/work"), &file).is_empty());
}

#[test]
fn imports_of_a_conftest_are_listed() {
    let files = workspace(&[
        ("/work/a.py", ""),
        (
            "/work/conftest.py",
            "from a import x, y as z\nfrom a import *\nfrom missing import w\nimport a\n",
        ),
    ]);
    let specs = import_specs(&files, &path("/work/conftest.py"), &path("/work")).unwrap();
    assert_eq!(specs.len(), 3);
    assert!(matches!(&specs[0], ImportSpec::Named { imported, visible, source }
        if imported == "x" && visible == "x" && *source == path("/work/a.py")));
    assert!(matches!(&specs[1], ImportSpec::Named { imported, visible, .. }
        if imported == "y" && visible == "z"));
    assert!(matches!(&specs[2], ImportSpec::Star { source } if *source == path("/work/a.py")));
    let reexports = conftest_reexports(&files, &path("/work")).unwrap();
    assert_eq!(reexports.len(), 3);
    assert_eq!(reexports[0].conftest, path("/work/conftest.py"));
}

#[test]
fn reexports_are_followed_to_the_end() {
    let reexports = vec![
        Reexport {
            conftest: path("/c/conftest.py"),
            spec: ImportSpec::Star {
                source: path("/b/conftest.py"),
            },
        },
        Reexport {
            conftest: path("/b/conftest.py"),
            spec: ImportSpec::Named {
                imported: "x".to_string(),
                visible: "y".to_string(),
                source: path("/a.py"),
            },
        },
        Reexport {
            conftest: path("/b/conftest.py"),
            spec: ImportSpec::Star {
                source: path("/c/conftest.py"),
            },
        },
    ];
    let fixtures = vec![fixture("x", "/a.py", "/a.py"), fixture("w", "/a.py", "/a.py")];
    let all = expand(fixtures, &reexports);
    assert_eq!(
        keys(&all),
        vec![
            key("x", "/a.py", "/a.py"),
            key("w", "/a.py", "/a.py"),
            key("y", "/a.py", "/b/conftest.py"),
            key("y", "/a.py", "/c/conftest.py"),
        ]
    );
    let again = expand(all.clone(), &reexports);
    assert_eq!(keys(&again), keys(&all));
}

#[test]
fn names_imported_from_modules_are_listed() {
    let files = workspace(&[("/work/a.py", "")]);
    let text = "from a import x as y\nfrom b import z\nfrom . import w\nimport a\n";
    let imports = imported_fixture_sources_from_text(&files, text, &path("/work"));
    let found: Vec<(String, Option<String>)> = imports
        .iter()
        .map(|i| {
            (
                i.visible.clone(),
                i.source.as_ref().map(|source| source.display()),
            )
        })
        .collect();
    assert_eq!(
        found,
        vec![
            ("y".to_string(), Some("/work/a.py".to_string())),
            ("z".to_string(), None),
            ("w".to_string(), None),
        ]
    );
}

#[test]
fn scores_follow_the_way_a_fixture_is_seen() {
    let file = path("/work/tests/sub/test_a.py");
    let root = path("/work");
    let none: Vec<FixtureImport> = Vec::new();
    let no_plugins: Vec<FilePath> = Vec::new();
    let score = |f: &Fixture, imports: &Vec<FixtureImport>, plugins: &Vec<FilePath>| {
        fixture_visibility_score(f, &file, imports, plugins, &root)
    };
    let own = fixture("x", "/work/a.py", "/work/tests/sub/test_a.py");
    assert_eq!(score(&own, &none, &no_plugins), Some(10000));
    let helper = fixture("x", "/work/a.py", "/work/a.py");
    assert_eq!(score(&helper, &none, &no_plugins), None);
    assert_eq!(score(&helper, &none, &vec![path("/work/a.py")]), Some(8000));
    let import = |source: Option<&str>| FixtureImport {
        visible: "x".to_string(),
        source: source.map(path),
    };
    let from_a = vec![import(Some("/work/a.py"))];
    let from_b = vec![import(Some("/work/b.py"))];
    let from_nowhere = vec![import(None)];
    assert_eq!(score(&helper, &from_a, &no_plugins), Some(9000));
    assert_eq!(score(&helper, &from_b, &no_plugins), None);
    assert_eq!(score(&helper, &from_nowhere, &no_plugins), Some(9000));
    let both = vec![import(None), import(Some("/work/b.py"))];
    assert_eq!(score(&helper, &both, &no_plugins), None);

    let conftest = |dir: &str| fixture("x", "/work/a.py", &format!("{dir}/conftest.py"));
    assert_eq!(score(&conftest("/work"), &none, &no_plugins), Some(1000));
    assert_eq!(score(&conftest("/work/tests"), &none, &no_plugins), Some(1001));
    assert_eq!(
        score(&conftest("/work/tests/sub"), &none, &no_plugins),
        Some(1002)
    );
    assert_eq!(score(&conftest("/work/other"), &none, &no_plugins), None);
    assert_eq!(score(&conftest(""), &none, &no_plugins), Some(1000));
}

#[test]
fn the_best_fixture_of_each_name_is_ranked_by_name() {
    let fixtures = vec![
        fixture("b", "/work/conftest.py", "/work/conftest.py"),
        fixture("a", "/work/conftest.py", "/work/conftest.py"),
        fixture("b", "/work/tests/conftest.py", "/work/tests/conftest.py"),
        fixture("b", "/work/x.py", "/work/tests/conftest.py"),
        fixture("c", "/work/other/conftest.py", "/work/other/conftest.py"),
    ];
    let ranked = rank_fixtures(
        &fixtures,
        &path("/work/tests/test_a.py"),
        &Vec::new(),
        &Vec::new(),
        &path("/work"),
    );
    let found: Vec<(&str, String)> = ranked
        .iter()
        .map(|f| (f.name.as_str(), f.path.display()))
        .collect();
    assert_eq!(
        found,
        vec![
            ("a", "/work/conftest.py".to_string()),
            ("b", "/work/tests/conftest.py".to_string()),
        ]
    );
}

#[test]
fn places_are_sorted_and_ties_keep_their_order() {
    let place = |uri: &str, start: Position, end: Position| Location {
        uri: uri.to_string(),
        range: Range { start, end },
    };
    let sorted = sort_locations(vec![
        place("b", at(0, 0), at(0, 1)),
        place("a", at(2, 0), at(2, 9)),
        place("a", at(1, 5), at(1, 9)),
        place("a", at(1, 5), at(1, 6)),
        place("a", at(1, 4), at(1, 6)),
    ]);
    assert_eq!(
        sorted,
        vec![
            place("a", at(1, 4), at(1, 6)),
            place("a", at(1, 5), at(1, 9)),
            place("a", at(1, 5), at(1, 6)),
            place("a", at(2, 0), at(2, 9)),
            place("b", at(0, 0), at(0, 1)),
        ]
    );
}

#[test]
fn every_finding_has_its_action() {
    let files = workspace(&[(
        "/work/conftest.py",
        "import pytest\n@pytest.fixture\ndef db() -> int: pass\n",
    )]);
    let index = FixtureIndex::build(&files, &path("/work")).unwrap();
    let file = path("/work/test_a.py");
    let uri = "file:///work/test_a.py";
    let text = "def test_a(db): pass\ndef test_b(db: str): pass\ndef test_c(db: i n t): pass\n";
    assert!(index
        .annotation_diagnostics_for_text(&files, &file, text)
        .unwrap()
        .is_empty());
    let text = "def test_a(db): pass\ndef test_b(db: str): pass\ndef test_c(db: int): pass\n";
    let found = index
        .annotation_diagnostics_for_text(&files, &file, text)
        .unwrap();
    assert_eq!(found.len(), 2);
    let actions = index
        .code_actions_for_text(&files, &file, text, uri)
        .unwrap();
    assert_eq!(actions.len(), 3);
    assert_eq!(actions[1].edit.edits[0].new_text, "int");
    assert_eq!(actions[1].edit.edits[0].range.start, at(1, 15));
    assert_eq!(actions[2].edit.edits.len(), 2);
    let clean = "def test_c(db: int): pass\n";
    assert!(index
        .code_actions_for_text(&files, &file, clean, uri)
        .unwrap()
        .is_empty());
    let items = index
        .completions_for_text(&files, &file, "def test_a(): pass\n", at(0, 11))
        .unwrap();
    assert_eq!(items.len(), 1);
    assert_eq!(items[0].label, "db");
    assert_eq!(items[0].detail, "pytest fixture (/work/conftest.py)");
    assert_eq!(items[0].insert_text.as_deref(), Some("db: int"));
    assert_eq!(items[0].additional_text_edits, None);
}

fn applied(text: &str, edits: &[TextEdit]) -> String {
    let chars = chars_of(text);
    let mut places: Vec<(usize, usize, &str)> = edits
        .iter()
        .map(|e| {
            (
                position_to_index(&chars, e.range.start),
                position_to_index(&chars, e.range.end),
                e.new_text.as_str(),
            )
        })
        .collect();
    places.sort();
    let mut out = String::new();
    let mut done = 0;
    for (start, end, new_text) in places {
        out.extend(&chars[done..start]);
        out.push_str(new_text);
        done = end;
    }
    out.extend(&chars[done..]);
    out
}

#[test]
fn action_for_the_file_leaves_no_finding() {
    let files = workspace(&[(
        "/work/conftest.py",
        "import pytest\nfrom app import User\n@pytest.fixture\ndef user() -> User: pass\n\
         @pytest.fixture\ndef db() -> int: pass\n",
    )]);
    let index = FixtureIndex::build(&files, &path("/work")).unwrap();
    let file = path("/work/test_a.py");
    let uri = "file:///work/test_a.py";
    let text = "import os\n\ndef test_a(db, user): pass\ndef test_b(user: str, db: int): pass\n";
    let found = index
        .annotation_diagnostics_for_text(&files, &file, text)
        .unwrap();
    assert_eq!(found.len(), 3);
    let actions = index
        .code_actions_for_text(&files, &file, text, uri)
        .unwrap();
    let mended = applied(text, &actions[3].edit.edits);
    assert_eq!(
        mended,
        "import os\nfrom app import User\n\ndef test_a(db: int, user: User): pass\n\
         def test_b(user: User, db: int): pass\n"
    );
    assert!(index
        .annotation_diagnostics_for_text(&files, &file, &mended)
        .unwrap()
        .is_empty());
    for i in 0..3 {
        let edits = &actions[3].edit.edits;
        for part in &actions[i].edit.edits {
            assert!(edits
                .iter()
                .any(|e| e.range == part.range && e.new_text.contains(&part.new_text)));
        }
    }
}

#[test]
fn added_imports_can_change_what_a_qualified_annotation_means() {
    let files = workspace(&[(
        "/work/conftest.py",
        "import pytest\nfrom app import User\n@pytest.fixture\ndef user() -> User: pass\n",
    )]);
    let index = FixtureIndex::build(&files, &path("/work")).unwrap();
    let file = path("/work/test_a.py");
    let found = |text: &str| {
        index
            .annotation_diagnostics_for_text(&files, &file, text)
            .unwrap()
            .len()
    };
    assert_eq!(found("import app\ndef test_a(user: app.User): pass\n"), 0);
    assert_eq!(
        found("import app\nfrom app import User\ndef test_a(user: app.User): pass\n"),
        1
    );
}

#[test]
fn own_fixtures_and_imports_outrank_the_conftest() {
    let define = "import pytest\n@pytest.fixture\ndef db(): pass\n";
    let files = workspace(&[
        ("/work/conftest.py", define),
        ("/work/helpers.py", define),
        (
            "/work/test_a.py",
            "from helpers import db\n\ndef test_x(db): pass\n",
        ),
        (
            "/work/test_b.py",
            "import pytest\n@pytest.fixture\ndef db(): pass\ndef test_x(db): pass\n",
        ),
    ]);
    let index = FixtureIndex::build(&files, &path("/work")).unwrap();
    let visible = |file: &str| {
        index
            .visible_fixtures(&files, &path(file))
            .iter()
            .map(|f| f.path.display())
            .collect::<Vec<String>>()
    };
    assert_eq!(visible("/work/test_a.py"), vec!["/work/helpers.py"]);
    assert_eq!(visible("/work/test_b.py"), vec!["/work/test_b.py"]);
    assert_eq!(visible("/work/test_c.py"), vec!["/work/conftest.py"]);
    assert!(visible("/elsewhere/test_d.py").is_empty());
    let references = index
        .references(&files, &path("/work/test_b.py"), at(2, 4))
        .unwrap();
    let uris: Vec<&str> = references.iter().map(|l| l.uri.as_str()).collect();
    assert_eq!(uris, vec!["file:///work/test_a.py", "file:///work/test_b.py"]);
    assert_eq!(references[1].range.start, at(3, 11));
    assert!(index
        .references(&files, &path("/work/test_b.py"), at(0, 0))
        .unwrap()
        .is_empty());
    assert_eq!(
        index
            .definition(&files, &path("/work/test_a.py"), at(0, 22))
            .unwrap(),
        None
    );
}
