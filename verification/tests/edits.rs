//! Edits: where imports go, how edits are put together, and what the actions are made of.
use pyfixy_lsp::annotation::{FixtureAnnotation, ImportRequirement};
use pyfixy_lsp::diagnostics::{diagnostic_for, edits_for_annotation};
use pyfixy_lsp::edits::{
    coalesce_text_edits, import_exists, import_insert_line, import_insert_line_in,
    import_text_edits, looks_like_string_literal_stmt, TextEdit,
};
use pyfixy_lsp::fixture::{fixture_value_annotation, Fixture};
use pyfixy_lsp::path::FilePath;
use pyfixy_lsp::position::{position_to_index, Position, Range};
use pyfixy_lsp::protocol::{
    AnnotationDiagnosticKind, DiagnosticConfig, DiagnosticSeverity, FixtureAnnotationDiagnostic,
};
use pyfixy_lsp::text::chars_of;

fn at(line: u32, character: u32) -> Position {
    Position { line, character }
}

fn edit(start: Position, end: Position, new_text: &str) -> TextEdit {
    TextEdit {
        range: Range { start, end },
        new_text: new_text.to_string(),
    }
}

fn requirement(module: &str, name: &str, alias: Option<&str>) -> ImportRequirement {
    ImportRequirement {
        module: module.to_string(),
        name: name.to_string(),
        alias: alias.map(|alias| alias.to_string()),
    }
}

fn annotation(text: &str, imports: Vec<ImportRequirement>) -> FixtureAnnotation {
    FixtureAnnotation {
        text: text.to_string(),
        imports,
    }
}

fn fixture(return_annotation: Option<FixtureAnnotation>) -> Fixture {
    let range = Range {
        start: at(0, 0),
        end: at(0, 0),
    };
    Fixture {
        name: "db".to_string(),
        path: FilePath::parse("/work/conftest.py"),
        visibility_path: FilePath::parse("/work/conftest.py"),
        range,
        name_range: range,
        return_annotation,
    }
}

#[test]
fn imports_that_exist_are_recognised() {
    let text = "import json\nimport numpy as np\nfrom a.b import C, D as E\nfrom .f import G\n";
    assert!(import_exists(text, &requirement("json", "", None)));
    assert!(import_exists(text, &requirement("numpy", "", Some("np"))));
    assert!(!import_exists(text, &requirement("numpy", "", None)));
    assert!(import_exists(text, &requirement("a.b", "C", None)));
    assert!(import_exists(text, &requirement("a.b", "D", Some("E"))));
    assert!(!import_exists(text, &requirement("a.b", "D", None)));
    assert!(!import_exists(text, &requirement("a.b", "C", Some("X"))));
    assert!(!import_exists(text, &requirement("f", "G", None)));
    assert!(!import_exists("def broken(\nfrom a import B\n", &requirement("a", "B", None)));
    assert!(import_exists("def broken(\n  import a \n", &requirement("a", "", None)));
}

#[test]
fn string_statements_are_recognised() {
    for source in ["\"a\"", "'a'", "r\"a\"", "r'a'", "R\"a\"", "R'a'", "  \"\"\"a\"\"\""] {
        assert!(looks_like_string_literal_stmt(source));
    }
    for source in ["", "x", "b'a'", "f'a'", "(\"a\")", "r"] {
        assert!(!looks_like_string_literal_stmt(source));
    }
}

#[test]
fn imports_go_after_the_imports_of_a_module() {
    assert_eq!(import_insert_line(""), 0);
    assert_eq!(import_insert_line("x = 1\nimport a\n"), 0);
    assert_eq!(import_insert_line("import a\n\nimport b\nx = 1\n"), 3);
    assert_eq!(import_insert_line("'doc'\nx = 1\n"), 1);
    assert_eq!(import_insert_line("import a\n'no doc'\nimport b\n"), 1);
    assert_eq!(import_insert_line("import a"), 1);
    assert_eq!(import_insert_line("from a import (\n    b,\n)\nx = 1\n"), 3);
}

#[test]
fn imports_go_after_lines_that_look_like_imports() {
    let line = |text: &str| import_insert_line_in(&chars_of(text), &None);
    assert_eq!(line(""), 0);
    assert_eq!(line("import a\n\ndef broken(\n"), 2);
    assert_eq!(line("\nimport a\nx\nimport b\n"), 2);
    assert_eq!(line("from a import (\n    b,\n)\n\ndef broken(\n"), 3);
    assert_eq!(line("from a import (\n    b,\n"), 2);
    assert_eq!(line("x\nimport a\n"), 0);
    assert_eq!(import_insert_line("import a\n\ndef broken(\n"), 2);
}

#[test]
fn import_edits_write_the_statements_that_are_missing() {
    let wanted = annotation(
        "X",
        vec![
            requirement("a", "", None),
            requirement("b", "", Some("c")),
            requirement("d", "E", None),
            requirement("f", "G", Some("H")),
        ],
    );
    let edits = import_text_edits("'doc'\nfrom d import E\n", &wanted);
    assert_eq!(
        edits,
        vec![
            edit(at(2, 0), at(2, 0), "import a\n"),
            edit(at(2, 0), at(2, 0), "import b as c\n"),
            edit(at(2, 0), at(2, 0), "from f import G as H\n"),
        ]
    );
    let all = "import a\nimport b as c\nfrom d import E\nfrom f import G as H\n";
    assert!(import_text_edits(all, &wanted).is_empty());
}

#[test]
fn inserted_imports_are_not_added_again() {
    let wanted = annotation(
        "X",
        vec![
            requirement("a", "", None),
            requirement("b.c", "", Some("d")),
            requirement("e", "F", None),
            requirement("g", "H", Some("I")),
        ],
    );
    for text in ["", "'doc'\nimport x\n\ndef f(): pass", "import a\nfrom e import F\nx = 1\n"] {
        let edits = import_text_edits(text, &wanted);
        assert!(!edits.is_empty());
        let chars = chars_of(text);
        let place = position_to_index(&chars, edits[0].range.start);
        let mut after: String = chars[..place].iter().collect();
        for edit in &edits {
            assert_eq!(edit.range, edits[0].range);
            after.push_str(&edit.new_text);
        }
        after.extend(&chars[place..]);
        for edit in &edits {
            assert!(after.lines().any(|line| line == edit.new_text.trim_end()));
        }
        assert!(import_text_edits(&after, &wanted).is_empty());
    }
}

#[test]
fn insertions_at_one_position_become_one() {
    let edits = vec![
        edit(at(0, 0), at(0, 0), "a\n"),
        edit(at(1, 2), at(1, 4), "x"),
        edit(at(0, 0), at(0, 0), "b\n"),
        edit(at(0, 0), at(0, 0), "a\n"),
        edit(at(1, 2), at(1, 4), "x"),
        edit(at(1, 2), at(1, 4), "y"),
        edit(at(2, 0), at(2, 0), "c\n"),
    ];
    let coalesced = coalesce_text_edits(&edits);
    assert_eq!(
        coalesced,
        vec![
            edit(at(0, 0), at(0, 0), "a\nb\n"),
            edit(at(1, 2), at(1, 4), "x"),
            edit(at(1, 2), at(1, 4), "y"),
            edit(at(2, 0), at(2, 0), "c\n"),
        ]
    );
    assert_eq!(coalesce_text_edits(&coalesced), coalesced);
    assert!(coalesce_text_edits(&Vec::new()).is_empty());
}

#[test]
fn values_of_generators_keep_only_the_imports_they_use() {
    let generator = fixture(Some(annotation(
        "Generator[Session, None, None]",
        vec![
            requirement("typing", "Generator", None),
            requirement("sqlalchemy", "Session", None),
        ],
    )));
    assert_eq!(
        fixture_value_annotation(&generator),
        Some(annotation(
            "Session",
            vec![requirement("sqlalchemy", "Session", None)]
        ))
    );
    let plain = fixture(Some(annotation("list[ int ]", Vec::new())));
    assert_eq!(
        fixture_value_annotation(&plain),
        Some(annotation("list[ int ]", Vec::new()))
    );
    assert_eq!(fixture_value_annotation(&fixture(None)), None);
}

#[test]
fn findings_are_mended_by_inserting_or_replacing() {
    let found = |kind: AnnotationDiagnosticKind| FixtureAnnotationDiagnostic {
        kind,
        fixture_name: "db".to_string(),
        fixture_annotation: "Session".to_string(),
        range: Range {
            start: at(0, 11),
            end: at(0, 13),
        },
        edit_range: Range {
            start: at(0, 11),
            end: at(0, 13),
        },
    };
    let session = fixture(Some(annotation(
        "Session",
        vec![requirement("orm", "Session", None)],
    )));
    let text = chars_of("def test_x(db): pass\n");
    let import = edit(at(0, 0), at(0, 0), "from orm import Session\n");
    assert_eq!(
        edits_for_annotation(
            &text,
            &None,
            &found(AnnotationDiagnosticKind::Missing),
            &session
        ),
        vec![import.clone(), edit(at(0, 13), at(0, 13), ": Session")]
    );
    assert_eq!(
        edits_for_annotation(
            &text,
            &None,
            &found(AnnotationDiagnosticKind::Mismatched),
            &session
        ),
        vec![import, edit(at(0, 11), at(0, 13), "Session")]
    );
    assert!(edits_for_annotation(
        &text,
        &None,
        &found(AnnotationDiagnosticKind::Missing),
        &fixture(None)
    )
    .is_empty());
    let config = DiagnosticConfig {
        missing_annotation: DiagnosticSeverity::Warning,
        mismatched_annotation: DiagnosticSeverity::Information,
    };
    let missing = diagnostic_for(&found(AnnotationDiagnosticKind::Missing), config);
    assert_eq!(missing.severity, DiagnosticSeverity::Warning);
    assert_eq!(
        missing.message,
        "Fixture `db` returns `Session`; parameter is missing an annotation"
    );
    let mismatched = diagnostic_for(&found(AnnotationDiagnosticKind::Mismatched), config);
    assert_eq!(mismatched.severity, DiagnosticSeverity::Information);
    assert_eq!(
        mismatched.message,
        "Fixture `db` returns `Session`, but parameter has a different annotation"
    );
    assert_eq!(mismatched.range.start, at(0, 11));
    assert_eq!(mismatched.source, "pyfixy");
}
