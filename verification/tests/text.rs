//! Texts, positions and paths.
use pyfixy_lsp::parameters::{
    fallback_is_in_function_params, identifier_at_position, is_in_function_params,
    is_in_function_params_of, is_in_parameter_annotation_context, parameter_annotation_infos,
    parameter_name_ranges,
};
use pyfixy_lsp::path::{same_path, FilePath};
use pyfixy_lsp::position::{
    byte_to_position, position_in_range, position_le, position_to_byte,
    ranges_intersect_or_touch_cursor, Position, Range,
};
use pyfixy_lsp::syntax::SourceModule;
use pyfixy_lsp::text::{
    byte_slice_of, can_be_parsed, chars_of, find_in, is_before, is_whitespace, joined, lines_of, pieces,
    rfind_in, squeezed, string_of, trimmed, utf16_width_of, utf8_width_of,
};

fn at(line: u32, character: u32) -> Position {
    Position { line, character }
}

fn span(start: Position, end: Position) -> Range {
    Range { start, end }
}

#[test]
fn widths_of_characters() {
    for c in ['a', '\u{7f}', 'é', '\u{7ff}', '\u{800}', '€', '\u{ffff}', '😀'] {
        assert_eq!(utf8_width_of(c), c.len_utf8());
        assert_eq!(utf16_width_of(c) as usize, c.len_utf16());
    }
    for c in [
        ' ', '\t', '\n', '\u{b}', '\r', '\u{85}', '\u{a0}', '\u{1680}', '\u{2003}', '\u{2028}',
        '\u{202f}', '\u{205f}', '\u{3000}', 'a', '\u{200b}', '\u{1f}', '\u{feff}',
    ] {
        assert_eq!(is_whitespace(c), c.is_whitespace(), "{:?}", c);
    }
}

#[test]
fn texts_are_cut_like_strings() {
    for text in [
        "", "a", "\n", "a\n", "a\r\nb", "a\n\nb\n", "a\r", "\r\n", "é\nü", "a\r\r\nb",
    ] {
        let lines: Vec<String> = lines_of(&chars_of(text)).iter().map(string_of).collect();
        let expected: Vec<&str> = text.lines().collect();
        assert_eq!(lines, expected);
        assert_eq!(string_of(&trimmed(&chars_of(text))), text.trim());
        let split: Vec<&str> = text.split('\n').collect();
        let found = pieces(&chars_of(text), '\n');
        assert_eq!(found, split);
        assert_eq!(joined(&found, "\n"), text);
    }
    assert_eq!(string_of(&squeezed(&chars_of(" a b\u{3000}c\n"))), "abc");
}

#[test]
fn texts_are_searched_like_strings() {
    let text = chars_of("abcabc");
    assert_eq!(find_in(&text, &chars_of("bc")), Some(1));
    assert_eq!(rfind_in(&text, &chars_of("bc")), Some(4));
    assert_eq!(find_in(&text, &chars_of("")), Some(0));
    assert_eq!(rfind_in(&text, &chars_of("")), Some(6));
    assert_eq!(find_in(&text, &chars_of("x")), None);
    assert_eq!(rfind_in(&text, &chars_of("abcabcabc")), None);
}

#[test]
fn texts_are_ordered_like_strings() {
    let texts = ["", "a", "aa", "ab", "b", "é", "\u{ffff}", "😀"];
    for a in texts {
        for b in texts {
            assert_eq!(is_before(a, b), a < b);
        }
    }
}

#[test]
fn slices_end_at_character_boundaries() {
    let text = chars_of("aéb");
    assert_eq!(byte_slice_of(&text, 1, 3), Some(vec!['é']));
    assert_eq!(byte_slice_of(&text, 1, 2), None);
    assert_eq!(byte_slice_of(&text, 2, 3), None);
    assert_eq!(byte_slice_of(&text, 3, 1), None);
    assert_eq!(byte_slice_of(&text, 0, 4), Some(text.clone()));
    assert_eq!(byte_slice_of(&text, 0, 5), None);
    assert_eq!(byte_slice_of(&text, 4, 4), Some(Vec::new()));
    assert!(can_be_parsed("aéb"));
}

#[test]
fn offsets_and_positions_round_trip() {
    let text = "ab\né😀x\n\nlast";
    let chars = chars_of(text);
    let mut offset = 0usize;
    for c in text.chars() {
        assert_eq!(position_to_byte(&chars, byte_to_position(&chars, offset)), offset);
        offset += c.len_utf8();
    }
    assert_eq!(byte_to_position(&chars, 9), at(1, 3));
    assert_eq!(byte_to_position(&chars, 3), at(1, 0));
    assert_eq!(byte_to_position(&chars, text.len()), at(3, 4));
    assert_eq!(byte_to_position(&chars, 1000), at(3, 4));
    assert_eq!(position_to_byte(&chars, at(1, 2)), 9);
    assert_eq!(position_to_byte(&chars, at(0, 99)), text.len());
    assert_eq!(position_to_byte(&chars, at(9, 0)), text.len());
}

#[test]
fn later_offsets_have_later_positions() {
    let chars = chars_of("a\nbc\n");
    for offset in 0..5usize {
        let here = byte_to_position(&chars, offset);
        let next = byte_to_position(&chars, offset + 1);
        assert!(position_le(here, next));
        assert!(!position_le(next, here));
    }
}

#[test]
fn ranges_meet_cursors_and_selections() {
    let range = span(at(1, 4), at(2, 2));
    assert!(position_in_range(at(1, 4), range));
    assert!(position_in_range(at(2, 2), range));
    assert!(position_in_range(at(1, 99), range));
    assert!(!position_in_range(at(1, 3), range));
    assert!(!position_in_range(at(2, 3), range));
    let touches = |start: Position, end: Position| {
        ranges_intersect_or_touch_cursor(range, span(start, end))
    };
    assert!(touches(at(2, 2), at(2, 2)));
    assert!(!touches(at(2, 3), at(2, 3)));
    assert!(touches(at(0, 0), at(1, 4)));
    assert!(touches(at(2, 2), at(3, 0)));
    assert!(touches(at(0, 0), at(9, 0)));
    assert!(!touches(at(0, 0), at(1, 3)));
}

#[test]
fn paths_are_taken_apart() {
    let path = FilePath::parse("/work//app/./models.tar.py");
    assert_eq!(path.display(), "/work/app/models.tar.py");
    assert_eq!(path.file_name(), Some(b"models.tar.py".to_vec()));
    assert_eq!(path.file_stem(), Some(b"models.tar".to_vec()));
    assert_eq!(path.extension(), Some(b"py".to_vec()));
    assert_eq!(path.parent().unwrap().display(), "/work/app");
    assert!(path.starts_with(&FilePath::parse("/work/app")));
    assert!(path.starts_with(&path));
    assert!(!path.starts_with(&FilePath::parse("/work/ap")));
    assert!(same_path(&path, &FilePath::parse("/work/app/models.tar.py")));
    let root = FilePath::parse("/");
    assert_eq!(root.display(), "/");
    assert!(root.parent().is_none());
    assert!(root.file_name().is_none());
    assert_eq!(FilePath::parse("a").parent().unwrap().display(), "");
    assert_eq!(FilePath::parse(".hidden").extension(), None);
    assert_eq!(FilePath::parse("/a/..").file_name(), None);
    let mut module = FilePath::parse("/work/app/models");
    module.set_py_extension();
    assert_eq!(module.display(), "/work/app/models.py");
    module.set_py_extension();
    assert_eq!(module.display(), "/work/app/models.py");
}

#[test]
fn identifiers_at_positions_are_whole() {
    let text = chars_of("def f(db_name, é): pass");
    let identifier = |character: u32| identifier_at_position(&text, at(0, character));
    assert_eq!(identifier(6), Some("db_name".to_string()));
    assert_eq!(identifier(9), Some("db_name".to_string()));
    assert_eq!(identifier(13), Some("db_name".to_string()));
    assert_eq!(identifier(14), None);
    assert_eq!(identifier(15), None);
    assert_eq!(identifier(99), Some("pass".to_string()));
}

#[test]
fn parameters_are_found_by_the_parser() {
    let text = "class A:\n    def m(self, db): pass\ndef f(a=1): pass\nx = 1\n";
    assert!(is_in_function_params(text, at(1, 18)));
    assert!(is_in_function_params(text, at(2, 6)));
    assert!(is_in_function_params(text, at(2, 10)));
    assert!(!is_in_function_params(text, at(2, 3)));
    assert!(!is_in_function_params(text, at(2, 11)));
    assert!(!is_in_function_params(text, at(3, 0)));
    assert!(!is_in_function_params("def f(", at(0, 6)));
}

#[test]
fn parameters_are_guessed_where_there_is_no_parse() {
    let text = chars_of("def f(a, b");
    assert!(fallback_is_in_function_params(&text, at(0, 9)));
    assert!(!fallback_is_in_function_params(&text, at(0, 5)));
    assert!(!fallback_is_in_function_params(&chars_of("def f(a)"), at(0, 8)));
    assert!(!fallback_is_in_function_params(&chars_of("def f(a: int"), at(0, 12)));
    assert!(!fallback_is_in_function_params(&chars_of("f(a"), at(0, 3)));
    let broken = Some(SourceModule {
        invalid_syntax: true,
        body: Vec::new(),
    });
    let valid = Some(SourceModule {
        invalid_syntax: false,
        body: Vec::new(),
    });
    assert!(is_in_function_params_of(&text, &broken, at(0, 9)));
    assert!(!is_in_function_params_of(&text, &valid, at(0, 9)));
    assert!(!is_in_function_params_of(&text, &None, at(0, 9)));
}

#[test]
fn annotations_follow_the_colon_of_their_parameter() {
    let text = chars_of("def f(a: int, b");
    assert!(!is_in_parameter_annotation_context(&text, at(0, 7)));
    assert!(is_in_parameter_annotation_context(&text, at(0, 9)));
    assert!(!is_in_parameter_annotation_context(&text, at(0, 14)));
    assert!(!is_in_parameter_annotation_context(&chars_of("x: int"), at(0, 4)));
    assert!(!is_in_parameter_annotation_context(&chars_of("def f"), at(0, 5)));
}

#[test]
fn parameters_are_listed_with_nested_functions() {
    let text = "def f(db: 'X' = 1, *args, k):\n    def g(db): pass\n";
    assert_eq!(
        parameter_name_ranges(text, &"db".to_string()),
        vec![
            span(at(0, 6), at(0, 17)),
            span(at(1, 10), at(1, 12)),
        ]
    );
    let infos = parameter_annotation_infos(text);
    let names: Vec<&str> = infos.iter().map(|info| info.name.as_str()).collect();
    assert_eq!(names, vec!["db", "args", "k", "db"]);
    assert_eq!(infos[0].name_range, span(at(0, 6), at(0, 8)));
    assert_eq!(
        infos[0].annotation,
        Some(("'X'".to_string(), span(at(0, 10), at(0, 13))))
    );
    assert_eq!(infos[3].annotation, None);
    assert!(parameter_annotation_infos("def f(").is_empty());
}
