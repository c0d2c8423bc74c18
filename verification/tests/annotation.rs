//! Annotations as text, and the imports that they need.
use pyfixy_lsp::annotation::{
    annotation_symbols, annotation_uses_import, canonical_annotation, contains_word, is_ident,
    replace_word, split_top_level_args, unwrap_fixture_value_annotation, ImportBinding,
    ImportRequirement,
};
use pyfixy_lsp::fixture::annotations_agree;
use pyfixy_lsp::imports::{
    find_binding, import_resolution_map, module_name_for_path, resolve_import_from_module,
};
use pyfixy_lsp::path::FilePath;
use pyfixy_lsp::requirements::{imports_for_annotation, is_likely_local_type};
use pyfixy_lsp::workspace::{FileContent, FileEntry, Workspace};

fn workspace(files: &[&str]) -> Workspace {
    let mut entries = Vec::new();
    for path in files {
        entries.push(FileEntry {
            path: FilePath::parse(path),
            content: FileContent::Source(String::new()),
        });
    }
    Workspace { entries }
}

fn requirement(module: &str, name: &str, alias: Option<&str>) -> ImportRequirement {
    ImportRequirement {
        module: module.to_string(),
        name: name.to_string(),
        alias: alias.map(|alias| alias.to_string()),
    }
}

fn binding(visible: &str, requirement: ImportRequirement) -> ImportBinding {
    ImportBinding {
        visible: visible.to_string(),
        requirement,
    }
}

#[test]
fn identifier_bytes_are_ascii() {
    assert!(is_ident(b'_'));
    assert!(is_ident(b'a'));
    assert!(is_ident(b'Z'));
    assert!(is_ident(b'7'));
    assert!(!is_ident(b'.'));
    assert!(!is_ident(b'@'));
    assert!(!is_ident(b'['));
    assert!(!is_ident(0xc3));
}

#[test]
fn symbols_skip_attributes_builtins_and_repetitions() {
    assert_eq!(
        annotation_symbols("dict[str, app.models . User] | User | User | None"),
        vec!["app", "User"]
    );
    assert_eq!(annotation_symbols("3abc"), vec!["abc"]);
    assert_eq!(annotation_symbols("_x1"), vec!["_x1"]);
    assert_eq!(annotation_symbols("list[int]"), Vec::<String>::new());
    assert_eq!(annotation_symbols("äb"), vec!["b"]);
    assert_eq!(annotation_symbols(""), Vec::<String>::new());
}

#[test]
fn words_are_found_whole() {
    assert!(contains_word("list[User]", "User"));
    assert!(contains_word("User", "User"));
    assert!(contains_word("UserX | User", "User"));
    assert!(!contains_word("UserX", "User"));
    assert!(!contains_word("XUser", "User"));
    assert!(!contains_word("User", ""));
    assert!(!contains_word("", "User"));
    assert!(!contains_word("1User", "User"));
    assert!(contains_word("äUser", "User"));
}

#[test]
fn words_are_replaced_whole() {
    assert_eq!(replace_word("A|AB|A", "A", "m.A"), "m.A|AB|m.A");
    assert_eq!(replace_word("x.A", "A", "B"), "x.B");
    assert_eq!(replace_word("A", "A", ""), "");
    assert_eq!(replace_word("abc", "", "x"), "abc");
    assert_eq!(replace_word("é", "A", "B"), "\u{c3}\u{a9}");
}

#[test]
fn replaced_words_are_gone() {
    let text = "User | list[User] | Users | dé.User";
    assert!(!contains_word(&replace_word(text, "User", "Account"), "User"));
    assert!(contains_word(&replace_word(text, "User", "app.User"), "User"));
    assert!(!contains_word(&replace_word("Users", "User", "app.User"), "User"));
    assert_eq!(replace_word("Users | x", "User", "Account"), "Users | x");
    assert_eq!(replace_word("User | User", "User", "User"), "User | User");
}

#[test]
fn arguments_are_split_outside_brackets() {
    assert_eq!(
        split_top_level_args("a, b[c, d], (e, f), {g, h}"),
        vec!["a", "b[c, d]", "(e, f)", "{g, h}"]
    );
    assert_eq!(split_top_level_args(""), vec![""]);
    assert_eq!(split_top_level_args(","), vec!["", ""]);
    assert_eq!(split_top_level_args("a], b"), vec!["a], b"]);
}

#[test]
fn wrappers_give_way_to_what_they_yield() {
    let unwrap = |annotation: &str| unwrap_fixture_value_annotation(annotation);
    assert_eq!(
        unwrap("Generator[dict[str, int], None, None]"),
        Some("dict[str,int]".to_string())
    );
    assert_eq!(unwrap("typing.Iterator[User]"), Some("User".to_string()));
    assert_eq!(
        unwrap("collections.abc.AsyncGenerator [ User , None ]"),
        Some("User".to_string())
    );
    assert_eq!(unwrap("AsyncIterator[User]"), Some("User".to_string()));
    assert_eq!(unwrap("list[User]"), None);
    assert_eq!(unwrap("Generator[]"), None);
    assert_eq!(unwrap("Generator"), None);
    assert_eq!(unwrap("Generator]["), None);
    assert_eq!(unwrap("MyGenerator[User]"), None);
}

#[test]
fn imports_are_used_by_their_visible_names() {
    let user = requirement("app.models", "User", None);
    assert!(annotation_uses_import("list[User]", &user));
    assert!(!annotation_uses_import("list[Users]", &user));
    let aliased = requirement("app.models", "User", Some("Model"));
    assert!(annotation_uses_import("Model", &aliased));
    assert!(!annotation_uses_import("User", &aliased));
    let module = requirement("app.models", "", None);
    assert!(annotation_uses_import("app.models.User", &module));
    assert!(!annotation_uses_import("app.User", &module));
}

#[test]
fn imported_names_are_written_out() {
    let imports = vec![
        binding("User", requirement("app.models", "User", None)),
        binding("starlette", requirement("starlette.testclient", "", None)),
        binding("tc", requirement("starlette.testclient", "", Some("tc"))),
    ];
    assert_eq!(
        canonical_annotation("dict[User, tc.Client]", &imports),
        "dict[app.models.User,starlette.testclient.Client]"
    );
    assert_eq!(
        canonical_annotation("starlette.testclient.Client", &imports),
        "starlette.testclient.Client"
    );
}

#[test]
fn annotations_agree_across_imports_and_white_space() {
    let left = vec![binding("User", requirement("app.models", "User", None))];
    let right = vec![binding("M", requirement("app.models", "User", Some("M")))];
    let none = Vec::new();
    assert!(annotations_agree("User", "M", &left, &right));
    assert!(annotations_agree("list [ User ]", "list[User]", &none, &left));
    assert!(annotations_agree("User", "app.models.User", &left, &none));
    assert!(!annotations_agree("User", "M", &left, &none));
    assert!(!annotations_agree("User", "Account", &left, &left));
}

#[test]
fn local_types_are_guessed_from_the_text() {
    assert!(is_likely_local_type("Client", "class Client: pass\n"));
    assert!(is_likely_local_type("Client", "Client = object\n"));
    assert!(is_likely_local_type("Client", "class ClientBase: pass\n"));
    assert!(!is_likely_local_type("Client", "from app import Client\n"));
}

#[test]
fn modules_are_named_by_their_packages() {
    let files = workspace(&["/work/app/__init__.py", "/work/app/sub/__init__.py"]);
    let name = |path: &str| module_name_for_path(&files, &FilePath::parse(path));
    assert_eq!(name("/work/app/sub/models.py"), Some("app.sub.models".to_string()));
    assert_eq!(name("/work/app/sub/__init__.py"), Some("app.sub".to_string()));
    assert_eq!(name("/work/app/models.py"), Some("app.models".to_string()));
    assert_eq!(name("/work/models.py"), Some("models".to_string()));
    assert_eq!(name("/work/__init__.py"), Some("work".to_string()));
    assert_eq!(name("/work/other/a.b.py"), Some("a.b".to_string()));
    assert_eq!(name("/__init__.py"), None);
    assert_eq!(name("/"), None);
}

#[test]
fn modules_have_names_that_are_text() {
    let files = Workspace {
        entries: vec![FileEntry {
            path: FilePath::parse_bytes(&b"/work/\xff/__init__.py".to_vec()),
            content: FileContent::Source(String::new()),
        }],
    };
    let name = |path: &[u8]| module_name_for_path(&files, &FilePath::parse_bytes(&path.to_vec()));
    assert_eq!(name(b"/work/\xff.py"), None);
    assert_eq!(name(b"/work/\xff/models.py"), None);
    assert_eq!(name(b"/work/\xff/sub/models.py"), Some("models".to_string()));
    assert_eq!(name("/work/é.py".as_bytes()), Some("é".to_string()));
}

#[test]
fn relative_imports_are_resolved() {
    let files = workspace(&["/work/app/__init__.py", "/work/app/sub/__init__.py"]);
    let path = FilePath::parse("/work/app/sub/models.py");
    let resolve = |level: u32, module: Option<&str>| {
        resolve_import_from_module(&files, &path, level, module)
    };
    assert_eq!(resolve(0, Some("a.b")), Some("a.b".to_string()));
    assert_eq!(resolve(0, None), None);
    assert_eq!(resolve(1, Some("users")), Some("app.sub.users".to_string()));
    assert_eq!(resolve(1, None), Some("app.sub".to_string()));
    assert_eq!(resolve(2, Some("users.x")), Some("app.users.x".to_string()));
    assert_eq!(resolve(3, Some("users")), Some("users".to_string()));
    assert_eq!(resolve(3, None), None);
    assert_eq!(resolve(9, Some("users")), Some("users".to_string()));
    assert_eq!(
        resolve_import_from_module(&files, &FilePath::parse("/"), 1, Some("users")),
        None
    );
}

#[test]
fn each_name_is_bound_once_by_its_last_import() {
    let files = workspace(&["/work/app/__init__.py"]);
    let path = FilePath::parse("/work/app/views.py");
    let text = "import os.path\nimport json as j\nfrom a import X\nfrom .b import Y as X\nfrom c import *\n";
    let bindings = import_resolution_map(&files, &path, text);
    let visible: Vec<&str> = bindings.iter().map(|b| b.visible.as_str()).collect();
    assert_eq!(visible, vec!["os", "j", "X"]);
    assert_eq!(bindings[0].requirement, requirement("os.path", "", None));
    assert_eq!(bindings[1].requirement, requirement("json", "", Some("j")));
    assert_eq!(
        bindings[2].requirement,
        requirement("app.b", "Y", Some("X"))
    );
    assert_eq!(find_binding(&bindings, "X"), Some(2));
    assert_eq!(find_binding(&bindings, "Z"), None);
    assert!(import_resolution_map(&files, &path, "def broken(\n").is_empty());
}

#[test]
fn requirements_come_sorted_and_once() {
    let files = workspace(&["/work/app/__init__.py"]);
    let path = FilePath::parse("/work/app/views.py");
    let text = "from z import B\nfrom a import C, A\nimport typing as t\nclass Local: pass\n";
    assert_eq!(
        imports_for_annotation(&files, &path, text, "dict[B, A] | C | Local | t.Any | Other"),
        vec![
            requirement("a", "A", None),
            requirement("a", "C", None),
            requirement("app.views", "Local", None),
            requirement("typing", "", Some("t")),
            requirement("z", "B", None),
        ]
    );
    let repeated = "from a import A\nfrom a import A as B\n";
    assert_eq!(
        imports_for_annotation(&files, &path, repeated, "B | A"),
        vec![requirement("a", "A", None), requirement("a", "A", Some("B"))]
    );
}
