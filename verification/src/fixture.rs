//! Fixtures: how they are found in a text, and what their parameters say.
use crate::annotation::{
    annotation_uses_import, canonical, canonical_annotation, has_word,
    imports_are_written_out_in_turn, is_ascii, is_name, is_start, lone_word_is_replaced,
    names_that_are_not_imported_stay, unwrap_fixture_value_annotation, visible_name, yielded,
    FixtureAnnotation, FixtureAnnotationView, ImportBinding, ImportBindingView, ImportRequirement,
    ImportRequirementView,
};
use crate::imports::{bindings_in, import_bindings};
use crate::path::{FilePath, PathView};
use crate::position::{position_of_offset, range_for_text_range, range_of_offsets, Range};
use crate::requirements::{imports_for_annotation_in, requirements};
use crate::syntax::{
    collect_functions, expression_view, functions_in, parse_body, python_body, Expression,
    ExpressionView, FunctionDefinition, FunctionView, KeywordArgument, KeywordArgumentView,
    Statement, StatementView,
};
use crate::text::{
    byte_slice, byte_slice_of, chars_of, fits, is_text, lemma_filter_map_count,
    lemma_filter_map_has, lemma_filter_map_order, lemma_views_push, option_view, same_chars,
    squeeze, squeezed, string_of, trim, trimmed, views,
};
use crate::workspace::{parseable, source_at, Workspace, WorkspaceView};
use vstd::prelude::*;

verus! {

/// A pytest fixture: where it is defined, and from which file on it is visible.
#[derive(Debug, PartialEq, Eq)]
pub struct Fixture {
    pub name: String,
    pub path: FilePath,
    pub visibility_path: FilePath,
    pub range: Range,
    pub name_range: Range,
    pub return_annotation: Option<FixtureAnnotation>,
}

/// What [`Fixture`] stands for.
pub struct FixtureView {
    pub name: Seq<char>,
    pub path: PathView,
    pub visibility_path: PathView,
    pub range: Range,
    pub name_range: Range,
    pub return_annotation: Option<FixtureAnnotationView>,
}

impl View for Fixture {
    type V = FixtureView;

    open spec fn view(&self) -> FixtureView {
        FixtureView {
            name: self.name@,
            path: self.path@,
            visibility_path: self.visibility_path@,
            range: self.range,
            name_range: self.name_range,
            return_annotation: option_view(self.return_annotation),
        }
    }
}

impl Clone for Fixture {
    fn clone(&self) -> (r: Self)
        ensures
            r@ == self@,
    {
        Fixture {
            name: self.name.clone(),
            path: self.path.clone(),
            visibility_path: self.visibility_path.clone(),
            range: self.range,
            name_range: self.name_range,
            return_annotation: match &self.return_annotation {
                Some(annotation) => Some(annotation.clone()),
                None => None,
            },
        }
    }
}

/// The expression is `fixture` or `pytest.fixture`, or a call of one of them.
pub open spec fn names_fixture(e: ExpressionView) -> bool
    decreases e,
{
    match e {
        ExpressionView::Name(id) => id == "fixture"@,
        ExpressionView::Attribute(value, attr) => attr == "fixture"@ && *value
            == ExpressionView::Name("pytest"@),
        ExpressionView::Call(func, _) => names_fixture(*func),
        _ => false,
    }
}

/// The keyword gives a name as a string literal.
pub open spec fn keyword_name(k: KeywordArgumentView) -> Option<Seq<char>> {
    match k.value {
        ExpressionView::StringLiteral(value) => if k.arg == Some("name"@) {
            Some(value)
        } else {
            None
        },
        _ => None,
    }
}

/// The name that the first such keyword, from `i` on, gives.
pub open spec fn keyword_name_from(keywords: Seq<KeywordArgumentView>, i: int) -> Option<Seq<char>>
    decreases keywords.len() - i,
{
    if i < 0 || i >= keywords.len() {
        None
    } else {
        match keyword_name(keywords[i]) {
            Some(name) => Some(name),
            None => keyword_name_from(keywords, i + 1),
        }
    }
}

/// The name that a decorator gives its fixture.
pub open spec fn decorator_name(e: ExpressionView) -> Option<Seq<char>> {
    match e {
        ExpressionView::Call(_, keywords) => keyword_name_from(keywords, 0),
        _ => None,
    }
}

/// The fixture that the first fixture decorator, from `i` on, makes of a function.
pub open spec fn fixture_name_from(f: FunctionView, i: int) -> Option<Seq<char>>
    decreases f.decorators.len() - i,
{
    if i < 0 || i >= f.decorators.len() {
        None
    } else if names_fixture(f.decorators[i]) {
        match decorator_name(f.decorators[i]) {
            Some(name) => Some(name),
            None => Some(f.name),
        }
    } else {
        fixture_name_from(f, i + 1)
    }
}

/// The name of the fixture that a function defines; `None` if it defines none.
pub open spec fn fixture_name_of(f: FunctionView) -> Option<Seq<char>> {
    fixture_name_from(f, 0)
}

/// Whether an expression names pytest's decorator.
pub fn is_fixture_expr(e: &Expression) -> (r: bool)
    ensures
        r == names_fixture(e@),
    decreases e,
{
    proof {
        reveal_with_fuel(expression_view, 2);
    }
    match e {
        Expression::Name(id) => is_text(id, "fixture"),
        Expression::Attribute(value, attr) => {
            let pytest: bool = match &**value {
                Expression::Name(id) => is_text(id, "pytest"),
                _ => false,
            };
            pytest && is_text(attr, "fixture")
        },
        Expression::Call(func, _) => is_fixture_expr(func),
        _ => false,
    }
}

fn is_name_keyword(k: &KeywordArgument) -> (r: Option<&String>)
    ensures
        option_view(r) == keyword_name(k@),
{
    match &k.arg {
        Some(arg) => if is_text(arg, "name") {
            match &k.value {
                Expression::StringLiteral(value) => Some(value),
                _ => None,
            }
        } else {
            None
        },
        None => None,
    }
}

/// The name that the keywords of a fixture decorator give.
pub fn fixture_name_kw(keywords: &Vec<KeywordArgument>) -> (r: Option<String>)
    ensures
        option_view(r) == keyword_name_from(views(keywords@), 0),
{
    let ghost all = views(keywords@);
    let mut i: usize = 0;
    while i < keywords.len()
        invariant
            i <= keywords@.len(),
            all == views(keywords@),
            keyword_name_from(all, 0) == keyword_name_from(all, i as int),
        decreases keywords@.len() - i,
    {
        assert(all[i as int] == keywords@[i as int]@);
        match is_name_keyword(&keywords[i]) {
            Some(name) => {
                return Some(name.clone());
            },
            None => {},
        }
        i = i + 1;
    }
    None
}

/// The name of the fixture that a function defines.
pub fn fixture_name(f: &FunctionDefinition) -> (r: Option<String>)
    ensures
        option_view(r) == fixture_name_of(f@),
{
    let mut i: usize = 0;
    while i < f.decorators.len()
        invariant
            i <= f.decorators@.len(),
            fixture_name_of(f@) == fixture_name_from(f@, i as int),
        decreases f.decorators@.len() - i,
    {
        let decorator: &Expression = &f.decorators[i];
        assert(f@.decorators[i as int] == decorator@);
        if is_fixture_expr(decorator) {
            match decorator {
                Expression::Call(_, keywords) => {
                    assert(decorator@->Call_1 =~= views(keywords@));
                    match fixture_name_kw(keywords) {
                        Some(name) => {
                            return Some(name);
                        },
                        None => {},
                    }
                },
                _ => {},
            }
            return Some(f.name.clone());
        }
        i = i + 1;
    }
    None
}

/// The annotation of a function's result, with the imports that it needs elsewhere.
pub open spec fn return_annotation_of(
    ws: WorkspaceView,
    path: PathView,
    text: Seq<char>,
    body: Seq<StatementView>,
    f: FunctionView,
) -> Option<FixtureAnnotationView> {
    match f.returns {
        Some(range) => match byte_slice(text, range.start as int, range.end as int) {
            Some(source) => Some(
                FixtureAnnotationView {
                    text: trim(source),
                    imports: requirements(ws, path, text, body, trim(source)),
                },
            ),
            None => None,
        },
        None => None,
    }
}

/// The annotation of a function's result.
pub fn fixture_return_annotation(
    ws: &Workspace,
    path: &FilePath,
    text: &str,
    body: &Vec<Statement>,
    f: &FunctionDefinition,
) -> (r: Option<FixtureAnnotation>)
    requires
        fits(text@),
    ensures
        option_view(r) == return_annotation_of(ws@, path@, text@, views(body@), f@),
{
    match f.returns {
        Some(range) => {
            let chars: Vec<char> = chars_of(text);
            match byte_slice_of(&chars, range.start as usize, range.end as usize) {
                Some(source) => {
                    let annotation: String = string_of(&trimmed(&source));
                    let imports: Vec<ImportRequirement> = imports_for_annotation_in(
                        ws,
                        path,
                        text,
                        body,
                        annotation.as_str(),
                    );
                    Some(FixtureAnnotation { text: annotation, imports })
                },
                None => None,
            }
        },
        None => None,
    }
}

/// Where the name of a function stands.
pub open spec fn function_name_range_of(text: Seq<char>, f: FunctionView) -> Range {
    range_of_offsets(text, f.name_range.start as int, f.name_range.end as int)
}

/// The fixture that a function of a text defines.
pub open spec fn fixture_of(
    ws: WorkspaceView,
    path: PathView,
    text: Seq<char>,
    body: Seq<StatementView>,
    f: FunctionView,
) -> Option<FixtureView> {
    match fixture_name_of(f) {
        Some(name) => Some(
            FixtureView {
                name,
                path,
                visibility_path: path,
                range: range_of_offsets(text, f.range.start as int, f.range.end as int),
                name_range: function_name_range_of(text, f),
                return_annotation: return_annotation_of(ws, path, text, body, f),
            },
        ),
        None => None,
    }
}

/// The fixtures of a parsed text: those of its functions and of the methods of its classes.
pub open spec fn fixtures_of(
    ws: WorkspaceView,
    path: PathView,
    text: Seq<char>,
    body: Seq<StatementView>,
) -> Seq<FixtureView> {
    functions_in(body, false).filter_map(|f: FunctionView| fixture_of(ws, path, text, body, f))
}

fn fixture_in(
    ws: &Workspace,
    path: &FilePath,
    text: &str,
    body: &Vec<Statement>,
    f: &FunctionDefinition,
) -> (r: Option<Fixture>)
    requires
        fits(text@),
    ensures
        option_view(r) == fixture_of(ws@, path@, text@, views(body@), f@),
{
    match fixture_name(f) {
        Some(name) => {
            let chars: Vec<char> = chars_of(text);
            let range: Range = range_for_text_range(&chars, f.range);
            let name_range: Range = range_for_text_range(&chars, f.name_range);
            Some(
                Fixture {
                    name,
                    path: path.clone(),
                    visibility_path: path.clone(),
                    range,
                    name_range,
                    return_annotation: fixture_return_annotation(ws, path, text, body, f),
                },
            )
        },
        None => None,
    }
}

/// The fixtures of a parsed text.
pub fn fixtures_in_body(ws: &Workspace, path: &FilePath, text: &str, body: &Vec<Statement>) -> (r:
    Vec<Fixture>)
    requires
        fits(text@),
    ensures
        views(r@) == fixtures_of(ws@, path@, text@, views(body@)),
{
    let mut functions: Vec<&FunctionDefinition> = Vec::new();
    collect_functions(body, false, &mut functions);
    let ghost all = functions_in(views(body@), false);
    assert(views(functions@) =~= all);
    let ghost f = |f: FunctionView| fixture_of(ws@, path@, text@, views(body@), f);
    let mut out: Vec<Fixture> = Vec::new();
    let mut i: usize = 0;
    assert(views(out@) =~= all.take(0).filter_map(f));
    while i < functions.len()
        invariant
            fits(text@),
            i <= functions@.len(),
            all == views(functions@),
            f == (|f: FunctionView| fixture_of(ws@, path@, text@, views(body@), f)),
            views(out@) == all.take(i as int).filter_map(f),
        decreases functions@.len() - i,
    {
        proof {
            all.lemma_filter_map_take_succ(f, i as int);
            assert(all[i as int] == functions@[i as int]@);
        }
        match fixture_in(ws, path, text, body, functions[i]) {
            Some(fixture) => {
                proof {
                    lemma_views_push(out@, fixture);
                }
                out.push(fixture);
            },
            None => {},
        }
        assert(views(out@) =~= all.take(i + 1).filter_map(f));
        i = i + 1;
    }
    assert(all.take(all.len() as int) =~= all);
    out
}

/// The fixtures of a text; none if it is no valid module.
pub fn fixtures_in_text(ws: &Workspace, path: &FilePath, text: &str) -> (r: Vec<Fixture>)
    requires
        fits(text@),
    ensures
        views(r@) == fixtures_of(ws@, path@, text@, python_body(text@)),
{
    let body: Vec<Statement> = parse_body(text);
    fixtures_in_body(ws, path, text, &body)
}

/// The annotation of the value that a fixture hands to its tests: of a generator what it
/// yields, with the imports that it uses.
pub open spec fn value_annotation(fixture: FixtureView) -> Option<FixtureAnnotationView> {
    match fixture.return_annotation {
        Some(annotation) => {
            let text = match yielded(annotation.text) {
                Some(value) => value,
                None => annotation.text,
            };
            Some(
                FixtureAnnotationView {
                    text,
                    imports: annotation.imports.filter(
                        |import: ImportRequirementView| has_word(text, visible_name(import)),
                    ),
                },
            )
        },
        None => None,
    }
}

fn used_imports(text: &String, imports: &Vec<ImportRequirement>) -> (r: Vec<ImportRequirement>)
    ensures
        views(r@) == views(imports@).filter(
            |import: ImportRequirementView| has_word(text@, visible_name(import)),
        ),
{
    let ghost all = views(imports@);
    let ghost keep = |import: ImportRequirementView| has_word(text@, visible_name(import));
    let mut out: Vec<ImportRequirement> = Vec::new();
    let mut i: usize = 0;
    proof {
        reveal(Seq::filter);
        assert(views(out@) =~= all.take(0).filter(keep));
    }
    while i < imports.len()
        invariant
            i <= imports@.len(),
            all == views(imports@),
            keep == (|import: ImportRequirementView| has_word(text@, visible_name(import))),
            views(out@) == all.take(i as int).filter(keep),
        decreases imports@.len() - i,
    {
        let copy: ImportRequirement = imports[i].clone();
        proof {
            reveal(Seq::filter);
            assert(all.take(i + 1).drop_last() =~= all.take(i as int));
            assert(all.take(i + 1).last() == copy@);
            lemma_views_push(out@, copy);
        }
        if annotation_uses_import(text.as_str(), &copy) {
            out.push(copy);
        }
        i = i + 1;
    }
    assert(all.take(all.len() as int) =~= all);
    out
}

/// The annotation of the value that a fixture hands to its tests.
pub fn fixture_value_annotation(fixture: &Fixture) -> (r: Option<FixtureAnnotation>)
    ensures
        option_view(r) == value_annotation(fixture@),
{
    match &fixture.return_annotation {
        Some(annotation) => {
            let text: String = match unwrap_fixture_value_annotation(annotation.text.as_str()) {
                Some(value) => value,
                None => annotation.text.clone(),
            };
            let imports: Vec<ImportRequirement> = used_imports(&text, &annotation.imports);
            Some(FixtureAnnotation { text, imports })
        },
        None => None,
    }
}

/// The names that the imports of a file bind; none if the file cannot be read.
pub open spec fn file_bindings(ws: WorkspaceView, path: PathView) -> Seq<ImportBindingView> {
    match source_at(ws, path) {
        Some(text) => bindings_in(ws, path, python_body(text)),
        None => Seq::empty(),
    }
}

/// Two annotations mean the same: they are the same but for white space, or they are the same
/// once each is written out by the imports of its own file.
pub open spec fn agree(
    left: Seq<char>,
    right: Seq<char>,
    left_imports: Seq<ImportBindingView>,
    right_imports: Seq<ImportBindingView>,
) -> bool {
    squeeze(left) == squeeze(right) || canonical(left, left_imports) == canonical(
        right,
        right_imports,
    )
}

/// Whether two annotations mean the same, each by the imports of its own file.
pub fn annotations_agree(
    left: &str,
    right: &str,
    left_imports: &Vec<ImportBinding>,
    right_imports: &Vec<ImportBinding>,
) -> (r: bool)
    ensures
        r == agree(left@, right@, views(left_imports@), views(right_imports@)),
{
    if same_chars(&squeezed(&chars_of(left)), &squeezed(&chars_of(right))) {
        return true;
    }
    canonical_annotation(left, left_imports) == canonical_annotation(right, right_imports)
}

/// Whether an annotation of a test means the same as an annotation of a fixture's file.
pub fn annotations_equivalent(
    ws: &Workspace,
    left: &str,
    right: &str,
    test_file: &FilePath,
    test_body: &Vec<Statement>,
    fixture: &Fixture,
) -> (r: bool)
    requires
        parseable(ws@),
    ensures
        r == agree(
            left@,
            right@,
            bindings_in(ws@, test_file@, views(test_body@)),
            file_bindings(ws@, fixture@.path),
        ),
{
    let left_imports: Vec<ImportBinding> = import_bindings(ws, test_file, test_body);
    let right_imports: Vec<ImportBinding> = match ws.read(&fixture.path) {
        Some(text) => import_bindings(ws, &fixture.path, &parse_body(text.as_str())),
        None => {
            let none: Vec<ImportBinding> = Vec::new();
            assert(views(none@) =~= Seq::<ImportBindingView>::empty());
            none
        },
    };
    annotations_agree(left, right, &left_imports, &right_imports)
}

/// White space never sets two annotations apart, whatever is imported.
pub proof fn white_space_is_no_difference(
    left: Seq<char>,
    right: Seq<char>,
    left_imports: Seq<ImportBindingView>,
    right_imports: Seq<ImportBindingView>,
)
    requires
        squeeze(left) == squeeze(right),
    ensures
        agree(left, right, left_imports, right_imports),
{
}

/// Each fixture of a text comes from a function of the text, and is defined and visible in the
/// file of the text.
pub proof fn fixtures_stand_in_their_file(
    ws: WorkspaceView,
    path: PathView,
    text: Seq<char>,
    body: Seq<StatementView>,
    i: int,
)
    requires
        0 <= i < fixtures_of(ws, path, text, body).len(),
    ensures
        fixtures_of(ws, path, text, body)[i].path == path,
        fixtures_of(ws, path, text, body)[i].visibility_path == path,
        exists|f: FunctionView|
            functions_in(body, false).contains(f) && #[trigger] fixture_of(ws, path, text, body, f)
                == Some(fixtures_of(ws, path, text, body)[i]),
{
    let g = |f: FunctionView| fixture_of(ws, path, text, body, f);
    let all = functions_in(body, false).filter_map(g);
    assert(all.contains(all[i]));
    functions_in(body, false).lemma_filter_map_contains(g, all[i]);
    let f = choose|f: FunctionView| #[trigger]
        functions_in(body, false).contains(f) && g(f) == Some(all[i]);
    assert(fixture_of(ws, path, text, body, f) == Some(fixtures_of(ws, path, text, body)[i]));
}

/// Two annotations are taken for the same exactly if they are equal without white space, or equal
/// when each is written out in full.
pub proof fn accepted_annotations_are_equal(
    left: Seq<char>,
    right: Seq<char>,
    left_imports: Seq<ImportBindingView>,
    right_imports: Seq<ImportBindingView>,
)
    ensures
        agree(left, right, left_imports, right_imports) <==> squeeze(left) == squeeze(right)
            || canonical(left, left_imports) == canonical(right, right_imports),
{
}

/// Where no name of the two annotations is imported, they are taken for the same only if they
/// differ in nothing but white space.
pub proof fn different_annotations_are_told_apart(
    left: Seq<char>,
    right: Seq<char>,
    left_imports: Seq<ImportBindingView>,
    right_imports: Seq<ImportBindingView>,
)
    requires
        is_ascii(left),
        is_ascii(right),
        forall|k: int|
            0 <= k < left_imports.len() ==> !has_word(
                squeeze(left),
                (#[trigger] left_imports[k]).visible,
            ),
        forall|k: int|
            0 <= k < right_imports.len() ==> !has_word(
                squeeze(right),
                (#[trigger] right_imports[k]).visible,
            ),
    ensures
        agree(left, right, left_imports, right_imports) <==> squeeze(left) == squeeze(right),
{
    names_that_are_not_imported_stay(left, left_imports);
    names_that_are_not_imported_stay(right, right_imports);
}

/// A name is taken for the full name that it is imported as: `User` behind
/// `from app.models import User` agrees with `app.models.User` where nothing of that is imported.
pub proof fn imported_names_agree_with_full_names(
    name: Seq<char>,
    module: Seq<char>,
    imported: Seq<char>,
    alias: Option<Seq<char>>,
)
    requires
        is_name(name),
        is_start(name[0]),
        imported.len() > 0,
        squeeze(name) == name,
        squeeze(module + seq!['.'] + imported) == module + seq!['.'] + imported,
    ensures
        agree(
            name,
            module + seq!['.'] + imported,
            seq![
                ImportBindingView {
                    visible: name,
                    requirement: ImportRequirementView { module, name: imported, alias },
                },
            ],
            Seq::empty(),
        ),
{
    let r = ImportRequirementView { module, name: imported, alias };
    let none = Seq::<ImportBindingView>::empty();
    imports_are_written_out_in_turn(name, none, name, r);
    assert(none.push(ImportBindingView { visible: name, requirement: r }) =~= seq![
        ImportBindingView { visible: name, requirement: r },
    ]);
    lone_word_is_replaced(name, module + seq!['.'] + imported);
    imports_are_written_out_in_turn(module + seq!['.'] + imported, none, name, r);
}

/// A decorator makes a fixture if it is `fixture` or `pytest.fixture`, or a call of one that does,
/// with whatever arguments, and else it does not.
pub proof fn fixture_decorators(
    id: Seq<char>,
    value: ExpressionView,
    attr: Seq<char>,
    func: ExpressionView,
    keywords: Seq<KeywordArgumentView>,
)
    ensures
        names_fixture(ExpressionView::Name(id)) <==> id == "fixture"@,
        names_fixture(ExpressionView::Attribute(Box::new(value), attr)) <==> value
            == ExpressionView::Name("pytest"@) && attr == "fixture"@,
        names_fixture(ExpressionView::Call(Box::new(func), keywords)) <==> names_fixture(func),
{
}

/// The keyword is `name`, with a string literal.
pub open spec fn gives_name(k: KeywordArgumentView, name: Seq<char>) -> bool {
    k.arg == Some("name"@) && k.value == ExpressionView::StringLiteral(name)
}

proof fn lemma_keyword_name(keywords: Seq<KeywordArgumentView>, i: int)
    requires
        0 <= i <= keywords.len(),
    ensures
        match keyword_name_from(keywords, i) {
            Some(name) => exists|k: int|
                i <= k < keywords.len() && #[trigger] gives_name(keywords[k], name) && forall|
                    j: int,
                    other: Seq<char>,
                |
                    i <= j < k ==> !#[trigger] gives_name(keywords[j], other),
            None => forall|k: int, name: Seq<char>|
                i <= k < keywords.len() ==> !#[trigger] gives_name(keywords[k], name),
        },
    decreases keywords.len() - i,
{
    if i < keywords.len() {
        match keyword_name(keywords[i]) {
            Some(name) => {
                assert(gives_name(keywords[i], name));
            },
            None => {
                lemma_keyword_name(keywords, i + 1);
                assert forall|name: Seq<char>| !#[trigger] gives_name(keywords[i], name) by {}
                match keyword_name_from(keywords, i + 1) {
                    Some(name) => {
                        let k = choose|k: int|
                            i + 1 <= k < keywords.len() && #[trigger] gives_name(keywords[k], name)
                                && forall|j: int, other: Seq<char>|
                                i + 1 <= j < k ==> !#[trigger] gives_name(keywords[j], other);
                        assert(gives_name(keywords[k], name));
                        assert forall|j: int, other: Seq<char>| i <= j < k implies !#[trigger]
                            gives_name(keywords[j], other) by {}
                    },
                    None => {},
                }
            },
        }
    }
}

/// The decorator is the first of the function that makes a fixture.
pub open spec fn is_fixture_decorator_of(f: FunctionView, i: int) -> bool {
    &&& 0 <= i < f.decorators.len()
    &&& names_fixture(f.decorators[i])
    &&& forall|j: int| 0 <= j < i ==> !names_fixture(#[trigger] f.decorators[j])
}

proof fn lemma_fixture_name(f: FunctionView, i: int, d: int)
    requires
        0 <= i <= d,
        is_fixture_decorator_of(f, d),
    ensures
        fixture_name_from(f, i) == Some(
            match decorator_name(f.decorators[d]) {
                Some(name) => name,
                None => f.name,
            },
        ),
    decreases d - i,
{
    if i < d {
        assert(!names_fixture(f.decorators[i]));
        lemma_fixture_name(f, i + 1, d);
    }
}

proof fn lemma_no_fixture_name(f: FunctionView, i: int)
    requires
        0 <= i,
        forall|j: int| i <= j < f.decorators.len() ==> !names_fixture(#[trigger] f.decorators[j]),
    ensures
        fixture_name_from(f, i) is None,
    decreases f.decorators.len() - i,
{
    if i < f.decorators.len() {
        lemma_no_fixture_name(f, i + 1);
    }
}

/// A function defines a fixture exactly if one of its decorators makes one. The first of these
/// gives it the name of its keyword `name`, the first that is a string literal; without one the
/// fixture has the name of the function.
pub proof fn decorators_name_the_fixture(f: FunctionView, d: int)
    ensures
        fixture_name_of(f) is None <==> forall|j: int|
            0 <= j < f.decorators.len() ==> !names_fixture(#[trigger] f.decorators[j]),
        is_fixture_decorator_of(f, d) && !(f.decorators[d] is Call) ==> fixture_name_of(f) == Some(
            f.name,
        ),
        is_fixture_decorator_of(f, d) ==> (f.decorators[d] matches ExpressionView::Call(
            _,
            keywords,
        ) ==> {
            ||| exists|k: int, name: Seq<char>|
                0 <= k < keywords.len() && #[trigger] gives_name(keywords[k], name) && (forall|
                    j: int,
                    other: Seq<char>,
                |
                    0 <= j < k ==> !#[trigger] gives_name(keywords[j], other)) && fixture_name_of(f)
                    == Some(name)
            ||| (forall|k: int, name: Seq<char>|
                0 <= k < keywords.len() ==> !#[trigger] gives_name(keywords[k], name))
                && fixture_name_of(f) == Some(f.name)
        }),
{
    if exists|j: int| 0 <= j < f.decorators.len() && names_fixture(#[trigger] f.decorators[j]) {
        let j = choose|j: int|
            0 <= j < f.decorators.len() && names_fixture(#[trigger] f.decorators[j]);
        let first = lemma_first_decorator(f, 0, j);
        lemma_fixture_name(f, 0, first);
    } else {
        lemma_no_fixture_name(f, 0);
    }
    if is_fixture_decorator_of(f, d) {
        lemma_fixture_name(f, 0, d);
        match f.decorators[d] {
            ExpressionView::Call(_, keywords) => {
                lemma_keyword_name(keywords, 0);
            },
            _ => {},
        }
    }
}

proof fn lemma_first_decorator(f: FunctionView, i: int, j: int) -> (first: int)
    requires
        0 <= i <= j < f.decorators.len(),
        names_fixture(f.decorators[j]),
        forall|k: int| 0 <= k < i ==> !names_fixture(#[trigger] f.decorators[k]),
    ensures
        is_fixture_decorator_of(f, first),
    decreases j - i,
{
    if names_fixture(f.decorators[i]) {
        i
    } else {
        lemma_first_decorator(f, i + 1, j)
    }
}

/// Every function of a body, methods included, that defines a fixture is found, under its name, in
/// the file, at the ranges of the function and of its name.
pub proof fn fixtures_are_found(
    ws: WorkspaceView,
    path: PathView,
    text: Seq<char>,
    body: Seq<StatementView>,
    f: FunctionView,
) -> (i: int)
    requires
        functions_in(body, false).contains(f),
        fixture_name_of(f) is Some,
    ensures
        0 <= i < fixtures_of(ws, path, text, body).len(),
        fixtures_of(ws, path, text, body)[i].name == fixture_name_of(f)->0,
        fixtures_of(ws, path, text, body)[i].path == path,
        fixtures_of(ws, path, text, body)[i].range == (Range {
            start: position_of_offset(text, f.range.start as int),
            end: position_of_offset(text, f.range.end as int),
        }),
        fixtures_of(ws, path, text, body)[i].name_range == (Range {
            start: position_of_offset(text, f.name_range.start as int),
            end: position_of_offset(text, f.name_range.end as int),
        }),
        fixtures_of(ws, path, text, body)[i].return_annotation is Some <==> (f.returns is Some
            && byte_slice(text, f.returns->0.start as int, f.returns->0.end as int) is Some),
        fixtures_of(ws, path, text, body)[i].return_annotation matches Some(annotation) ==> {
            &&& annotation.text == trim(
                byte_slice(text, f.returns->0.start as int, f.returns->0.end as int)->0,
            )
            &&& annotation.imports == requirements(ws, path, text, body, annotation.text)
        },
{
    let g = |f: FunctionView| fixture_of(ws, path, text, body, f);
    let all = functions_in(body, false);
    lemma_filter_map_has(all, g, all.index_of(f));
    fixtures_of(ws, path, text, body).index_of(g(f)->0)
}

/// What a fixture hands to its tests has the type that its generator yields, and else its own. It
/// needs exactly those imports of the fixture's annotation whose names stand in that type.
pub proof fn values_have_the_type_that_is_yielded(f: FixtureView, r: ImportRequirementView)
    ensures
        value_annotation(f) is Some <==> f.return_annotation is Some,
        f.return_annotation matches Some(annotation) ==> {
            &&& yielded(annotation.text) matches Some(value) ==> value_annotation(f)->0.text
                == value
            &&& yielded(annotation.text) is None ==> value_annotation(f)->0.text == annotation.text
            &&& value_annotation(f)->0.imports.contains(r) <==> annotation.imports.contains(r)
                && has_word(value_annotation(f)->0.text, visible_name(r))
        },
{
    match f.return_annotation {
        Some(annotation) => {
            let value = value_annotation(f)->0;
            let keep = |import: ImportRequirementView|
                has_word(value.text, visible_name(import));
            assert(value.imports == annotation.imports.filter(keep));
            if annotation.imports.contains(r) && keep(r) {
                annotation.imports.lemma_filter_contains(keep, annotation.imports.index_of(r));
            }
            if value.imports.contains(r) {
                annotation.imports.lemma_filter_contains_rev(keep, r);
                annotation.imports.lemma_filter_pred(keep, value.imports.index_of(r));
            }
        },
        None => {},
    }
}

/// Nothing but the two names and calls of them makes a fixture.
pub proof fn other_expressions_make_no_fixture(e: ExpressionView)
    requires
        !(e is Name),
        !(e is Attribute),
        !(e is Call),
    ensures
        !names_fixture(e),
{
}

/// Fixtures come in the order of the functions that define them.
pub proof fn fixtures_follow_the_text(
    ws: WorkspaceView,
    path: PathView,
    text: Seq<char>,
    body: Seq<StatementView>,
    a: int,
    b: int,
)
    requires
        0 <= a < b < functions_in(body, false).len(),
        fixture_of(ws, path, text, body, functions_in(body, false)[a]) is Some,
        fixture_of(ws, path, text, body, functions_in(body, false)[b]) is Some,
    ensures
        exists|i: int, j: int|
            #![trigger fixtures_of(ws, path, text, body)[i], fixtures_of(ws, path, text, body)[j]]
            0 <= i < j < fixtures_of(ws, path, text, body).len() && fixtures_of(
                ws,
                path,
                text,
                body,
            )[i] == fixture_of(ws, path, text, body, functions_in(body, false)[a])->0
                && fixtures_of(ws, path, text, body)[j] == fixture_of(
                ws,
                path,
                text,
                body,
                functions_in(body, false)[b],
            )->0,
{
    let g = |f: FunctionView| fixture_of(ws, path, text, body, f);
    let all = fixtures_of(ws, path, text, body);
    let (i, j) = lemma_filter_map_order(functions_in(body, false), g, a, b);
    assert(all[i] == g(functions_in(body, false)[a])->0);
    assert(all[j] == g(functions_in(body, false)[b])->0);
}

/// What is said of a fixture is said of all its parts.
pub proof fn fixtures_stand_for_their_parts(f: Fixture)
    ensures
        f@.name == f.name@,
        f@.path == views(f.path.components@),
        f@.visibility_path == views(f.visibility_path.components@),
        f@.range == f.range && f@.name_range == f.name_range,
        f@.return_annotation is Some <==> f.return_annotation is Some,
        f.return_annotation matches Some(annotation) ==> {
            &&& f@.return_annotation->0.text == annotation.text@
            &&& f@.return_annotation->0.imports.len() == annotation.imports@.len()
            &&& forall|i: int|
                0 <= i < annotation.imports@.len() ==> {
                    let r = #[trigger] f@.return_annotation->0.imports[i];
                    &&& r.module == annotation.imports@[i].module@
                    &&& r.name == annotation.imports@[i].name@
                    &&& r.alias == match annotation.imports@[i].alias {
                        Some(alias) => Some(alias@),
                        None => None,
                    }
                }
        },
{
}

/// A function defines one fixture at most: fixtures are as many as functions that define one.
pub proof fn functions_define_one_fixture(
    ws: WorkspaceView,
    path: PathView,
    text: Seq<char>,
    body: Seq<StatementView>,
)
    ensures
        fixtures_of(ws, path, text, body).len() == functions_in(body, false).filter(
            |f: FunctionView| fixture_of(ws, path, text, body, f) is Some,
        ).len(),
{
    let g = |f: FunctionView| fixture_of(ws, path, text, body, f);
    lemma_filter_map_count(functions_in(body, false), g);
    let defines = |f: FunctionView| g(f) is Some;
    assert(defines == (|f: FunctionView| fixture_of(ws, path, text, body, f) is Some));
}

}
