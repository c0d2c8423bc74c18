//! Text edits: where imports go, and how edits are put together.
use crate::annotation::{FixtureAnnotation, ImportRequirement, ImportRequirementView};
use crate::applied::written;
use crate::position::{
    byte_to_position, chars_before, lemma_end_bounded, position_of_offset, Position, Range,
};
use crate::syntax::{
    parse_body, parse_module, python_body, python_module, valid_body, ByteRange, ImportedName,
    ImportedNameView, SourceModule, SourceModuleView, Statement, StatementKind, StatementKindView,
    StatementView,
};
use crate::text::{
    byte_len, byte_slice, byte_slice_of, chars_of, contains, fits, has_prefix, is_ended,
    lemma_byte_len_monotonic, lemma_filter_map_has, lemma_lines_of_both, lemma_lines_of_line,
    lemma_occurs_one, lemma_views_push, lines, lines_of, occurs_at, option_view, same_chars,
    separator, split_first, starts_with, trim, trim_end, trim_start, trimmed, trimmed_end,
    trimmed_start, views,
};
use vstd::prelude::*;

verus! {

/// A text that takes the place of a range.
#[derive(Debug, PartialEq, Eq)]
pub struct TextEdit {
    pub range: Range,
    pub new_text: String,
}

/// What [`TextEdit`] stands for.
pub struct TextEditView {
    pub range: Range,
    pub new_text: Seq<char>,
}

impl View for TextEdit {
    type V = TextEditView;

    open spec fn view(&self) -> TextEditView {
        TextEditView { range: self.range, new_text: self.new_text@ }
    }
}

impl Clone for TextEdit {
    fn clone(&self) -> (r: Self)
        ensures
            r@ == self@,
    {
        TextEdit { range: self.range, new_text: self.new_text.clone() }
    }
}

/// The statement that meets a requirement.
pub open spec fn import_statement(r: ImportRequirementView) -> Seq<char> {
    let what = if r.name.len() == 0 {
        "import "@ + r.module
    } else {
        "from "@ + r.module + " import "@ + r.name
    };
    match r.alias {
        Some(alias) => what + " as "@ + alias,
        None => what,
    }
}

fn import_statement_for(r: &ImportRequirement) -> (s: String)
    ensures
        s@ == import_statement(r@),
{
    let mut out: String = String::new();
    if r.name.as_str().is_empty() {
        out.append("import ");
        out.append(r.module.as_str());
        assert(out@ =~= "import "@ + r.module@);
    } else {
        out.append("from ");
        out.append(r.module.as_str());
        out.append(" import ");
        out.append(r.name.as_str());
        assert(out@ =~= "from "@ + r.module@ + " import "@ + r.name@);
    }
    match &r.alias {
        Some(alias) => {
            out.append(" as ");
            out.append(alias.as_str());
        },
        None => {},
    }
    out
}

/// The imported name is the given one, under the given alias.
pub open spec fn imports_name(
    candidate: ImportedNameView,
    name: Seq<char>,
    alias: Option<Seq<char>>,
) -> bool {
    candidate.name == name && candidate.asname == alias
}

/// One of the imported names is the given one, under the given alias.
pub open spec fn has_name(
    names: Seq<ImportedNameView>,
    name: Seq<char>,
    alias: Option<Seq<char>>,
) -> bool {
    exists|i: int| 0 <= i < names.len() && imports_name(#[trigger] names[i], name, alias)
}

/// The statement imports the name from the module, under the alias.
pub open spec fn statement_imports(
    s: StatementView,
    module: Seq<char>,
    name: Seq<char>,
    alias: Option<Seq<char>>,
) -> bool {
    match s.kind {
        StatementKindView::ImportFrom { level, module: from, names } => {
            &&& level == 0
            &&& from == Some(module)
            &&& has_name(names, name, alias)
        },
        _ => false,
    }
}

/// A statement of the body imports the name from the module, under the alias.
pub open spec fn body_imports(
    body: Seq<StatementView>,
    module: Seq<char>,
    name: Seq<char>,
    alias: Option<Seq<char>>,
) -> bool {
    exists|i: int|
        0 <= i < body.len() && statement_imports(#[trigger] body[i], module, name, alias)
}

/// A line of the text is the statement.
pub open spec fn has_line(text: Seq<char>, statement: Seq<char>) -> bool {
    exists|i: int| 0 <= i < lines(text).len() && trim(#[trigger] lines(text)[i]) == statement
}

/// The text meets the requirement already: a line imports the module, or a statement imports
/// the name.
pub open spec fn is_imported(
    text: Seq<char>,
    body: Seq<StatementView>,
    r: ImportRequirementView,
) -> bool {
    if r.name.len() == 0 {
        has_line(text, import_statement(r))
    } else {
        body_imports(body, r.module, r.name, r.alias)
    }
}

fn same_option(a: &Option<String>, b: &Option<String>) -> (r: bool)
    ensures
        r == (option_view(*a) == option_view(*b)),
{
    match (a, b) {
        (Some(x), Some(y)) => *x == *y,
        (None, None) => true,
        _ => false,
    }
}

fn statement_imports_name(
    s: &Statement,
    module: &String,
    name: &String,
    alias: &Option<String>,
) -> (r: bool)
    ensures
        r == statement_imports(s@, module@, name@, option_view(*alias)),
{
    match &s.kind {
        StatementKind::ImportFrom { level, module: from, names } => {
            let ghost all = views(names@);
            assert(s@.kind == StatementKindView::ImportFrom {
                level: *level,
                module: option_view(*from),
                names: all,
            });
            let matches: bool = match from {
                Some(m) => *m == *module,
                None => false,
            };
            if *level != 0 || !matches {
                return false;
            }
            let mut i: usize = 0;
            while i < names.len()
                invariant
                    i <= names@.len(),
                    all == views(names@),
                    s@.kind == (StatementKindView::ImportFrom {
                        level: 0,
                        module: Some(module@),
                        names: all,
                    }),
                    forall|j: int|
                        0 <= j < i ==> !imports_name(
                            #[trigger] all[j],
                            name@,
                            option_view(*alias),
                        ),
                decreases names@.len() - i,
            {
                let candidate: &ImportedName = &names[i];
                assert(all[i as int] == candidate@);
                if candidate.name == *name && same_option(&candidate.asname, alias) {
                    assert(imports_name(all[i as int], name@, option_view(*alias)));
                    assert(has_name(all, name@, option_view(*alias)));
                    return true;
                }
                i = i + 1;
            }
            false
        },
        _ => false,
    }
}

/// Whether a body imports a name from a module, under an alias.
pub fn import_name_exists(
    body: &Vec<Statement>,
    module: &String,
    name: &String,
    alias: &Option<String>,
) -> (r: bool)
    ensures
        r == body_imports(views(body@), module@, name@, option_view(*alias)),
{
    let ghost all = views(body@);
    let mut i: usize = 0;
    while i < body.len()
        invariant
            i <= body@.len(),
            all == views(body@),
            forall|j: int|
                0 <= j < i ==> !statement_imports(
                    #[trigger] all[j],
                    module@,
                    name@,
                    option_view(*alias),
                ),
        decreases body@.len() - i,
    {
        assert(all[i as int] == body@[i as int]@);
        if statement_imports_name(&body[i], module, name, alias) {
            return true;
        }
        i = i + 1;
    }
    false
}

fn has_statement_line(text: &Vec<char>, statement: &String) -> (r: bool)
    ensures
        r == has_line(text@, statement@),
{
    let all: Vec<Vec<char>> = lines_of(text);
    let wanted: Vec<char> = chars_of(statement.as_str());
    let mut i: usize = 0;
    while i < all.len()
        invariant
            i <= all@.len(),
            wanted@ == statement@,
            views(all@) == lines(text@),
            forall|j: int| 0 <= j < i ==> trim(#[trigger] lines(text@)[j]) != statement@,
        decreases all@.len() - i,
    {
        let line: Vec<char> = trimmed(&all[i]);
        assert(lines(text@)[i as int] == all@[i as int]@);
        if same_chars(&line, &wanted) {
            return true;
        }
        i = i + 1;
    }
    false
}

/// Whether a parsed text meets a requirement already.
pub fn import_exists_in(text: &Vec<char>, body: &Vec<Statement>, req: &ImportRequirement) -> (r:
    bool)
    ensures
        r == is_imported(text@, views(body@), req@),
{
    if req.name.as_str().is_empty() {
        has_statement_line(text, &import_statement_for(req))
    } else {
        import_name_exists(body, &req.module, &req.name, &req.alias)
    }
}

/// Whether a text meets a requirement already.
pub fn import_exists(text: &str, req: &ImportRequirement) -> (r: bool)
    requires
        fits(text@),
    ensures
        r == is_imported(text@, python_body(text@), req@),
{
    let body: Vec<Statement> = parse_body(text);
    import_exists_in(&chars_of(text), &body, req)
}

/// The statement starts like a string literal.
pub open spec fn is_string_statement(source: Seq<char>) -> bool {
    let s = trim_start(source);
    ||| starts_with(s, "\""@)
    ||| starts_with(s, "'"@)
    ||| starts_with(s, "r\""@)
    ||| starts_with(s, "r'"@)
    ||| starts_with(s, "R\""@)
    ||| starts_with(s, "R'"@)
}

fn is_string_source(source: &Vec<char>) -> (r: bool)
    ensures
        r == is_string_statement(source@),
{
    let s: Vec<char> = trimmed_start(source);
    has_prefix(&s, "\"") || has_prefix(&s, "'") || has_prefix(&s, "r\"") || has_prefix(&s, "r'")
        || has_prefix(&s, "R\"") || has_prefix(&s, "R'")
}

/// Whether the source of a statement starts like a string literal.
pub fn looks_like_string_literal_stmt(source: &str) -> (r: bool)
    ensures
        r == is_string_statement(source@),
{
    is_string_source(&chars_of(source))
}

/// The line after a statement.
pub open spec fn line_after(text: Seq<char>, range: ByteRange) -> int {
    let end = position_of_offset(text, range.end as int);
    if end.character == 0 {
        end.line as int
    } else {
        end.line + 1
    }
}

/// The source of a statement.
pub open spec fn source_of(text: Seq<char>, range: ByteRange) -> Seq<char> {
    match byte_slice(text, range.start as int, range.end as int) {
        Some(source) => source,
        None => Seq::empty(),
    }
}

/// The statement is an import.
pub open spec fn is_import(s: StatementView) -> bool {
    s.kind is Import || s.kind is ImportFrom
}

/// Goes on looking, at the statement `i`, for the line at which imports end.
pub open spec fn import_line_from(
    text: Seq<char>,
    body: Seq<StatementView>,
    i: int,
    line: int,
) -> int
    decreases body.len() - i,
{
    if i < 0 || i >= body.len() {
        line
    } else {
        let source = source_of(text, body[i].range);
        if (i == 0 && is_string_statement(source)) || is_import(body[i]) {
            import_line_from(text, body, i + 1, line_after(text, body[i].range))
        } else if trim(source).len() > 0 {
            line
        } else {
            import_line_from(text, body, i + 1, line)
        }
    }
}

/// The line ends with the bracket.
pub open spec fn ends_with(line: Seq<char>, bracket: char) -> bool {
    line.len() > 0 && line.last() == bracket
}

/// The line after the closing bracket of an import that goes over several lines.
pub open spec fn block_end(all: Seq<Seq<char>>, i: int) -> int
    decreases all.len() - i,
{
    if i >= all.len() {
        i
    } else if ends_with(trim_end(all[i]), ')') {
        i + 1
    } else {
        block_end(all, i + 1)
    }
}

/// Goes on looking, at the line `i`, for the line at which imports end.
pub open spec fn import_line_among(all: Seq<Seq<char>>, i: int, last: int) -> int
    decreases all.len() - i,
{
    if i < 0 || i >= all.len() {
        last
    } else {
        let t = trim_start(all[i]);
        if starts_with(t, "import "@) || starts_with(t, "from "@) {
            if ends_with(t, '(') {
                import_line_among(all, i + 1, block_end(all, i + 1))
            } else {
                import_line_among(all, i + 1, i + 1)
            }
        } else if t.len() == 0 && i == last {
            import_line_among(all, i + 1, i + 1)
        } else if t.len() > 0 {
            last
        } else {
            import_line_among(all, i + 1, last)
        }
    }
}

/// The line at which an import is inserted: after the docstring and the imports that a module
/// starts with; in a text that is no valid module, after the lines that look like them.
pub open spec fn insert_line(text: Seq<char>, module: Option<SourceModuleView>) -> int {
    match module {
        Some(m) => if m.invalid_syntax {
            import_line_among(lines(text), 0, 0)
        } else {
            import_line_from(text, m.body, 0, 0)
        },
        None => import_line_among(lines(text), 0, 0),
    }
}

proof fn lemma_pieces_bounded(s: Seq<char>, cut: spec_fn(int) -> bool, n: int)
    requires
        0 <= n,
    ensures
        split_first(s, cut, n).len() >= 1,
        split_first(s, cut, n).len() + split_first(s, cut, n).last().len() <= n + 1,
    decreases n,
{
    if n > 0 {
        lemma_pieces_bounded(s, cut, n - 1);
    }
}

/// A text has no more lines than bytes.
pub proof fn lemma_lines_bounded(s: Seq<char>)
    ensures
        lines(s).len() <= byte_len(s),
{
    lemma_pieces_bounded(s, separator(s, '\n'), s.len() as int);
    lemma_byte_len_monotonic(s, 0, s.len() as int);
    assert(s.take(s.len() as int) =~= s);
}

fn line_after_of(text: &Vec<char>, range: ByteRange) -> (r: u32)
    requires
        fits(text@),
    ensures
        r == line_after(text@, range),
{
    let end: Position = byte_to_position(text, range.end as usize);
    proof {
        let n = chars_before(text@, range.end as int);
        lemma_chars_before_bounded(text@, range.end as int);
        lemma_end_bounded(text@.take(n));
        lemma_byte_len_monotonic(text@, n, n);
    }
    if end.character == 0 {
        end.line
    } else {
        end.line + 1
    }
}

proof fn lemma_chars_before_bounded(s: Seq<char>, offset: int)
    ensures
        0 <= chars_before(s, offset) <= s.len(),
    decreases s.len(),
{
    if s.len() > 0 {
        lemma_chars_before_bounded(s.drop_last(), offset);
    }
}

fn import_line_in_body(text: &Vec<char>, body: &Vec<Statement>) -> (r: u32)
    requires
        fits(text@),
    ensures
        r == import_line_from(text@, views(body@), 0, 0),
{
    let ghost all = views(body@);
    let mut line: u32 = 0;
    let mut i: usize = 0;
    while i < body.len()
        invariant
            fits(text@),
            i <= body@.len(),
            all == views(body@),
            import_line_from(text@, all, 0, 0) == import_line_from(
                text@,
                all,
                i as int,
                line as int,
            ),
        decreases body@.len() - i,
    {
        let stmt: &Statement = &body[i];
        assert(all[i as int] == stmt@);
        let source: Vec<char> = match byte_slice_of(
            text,
            stmt.range.start as usize,
            stmt.range.end as usize,
        ) {
            Some(source) => source,
            None => Vec::new(),
        };
        assert(source@ =~= source_of(text@, all[i as int].range));
        let import: bool = match &stmt.kind {
            StatementKind::Import(_) => true,
            StatementKind::ImportFrom { .. } => true,
            _ => false,
        };
        if (i == 0 && is_string_source(&source)) || import {
            line = line_after_of(text, stmt.range);
        } else if trimmed(&source).len() > 0 {
            return line;
        }
        i = i + 1;
    }
    line
}

fn last_is(line: &Vec<char>, bracket: char) -> (r: bool)
    ensures
        r == ends_with(line@, bracket),
{
    line.len() > 0 && line[line.len() - 1] == bracket
}

fn block_end_of(all: &Vec<Vec<char>>, from: usize) -> (r: usize)
    requires
        from <= all@.len(),
    ensures
        r == block_end(views(all@), from as int),
        r <= all@.len(),
{
    let ghost ls = views(all@);
    let mut i: usize = from;
    while i < all.len()
        invariant
            i <= all@.len(),
            ls == views(all@),
            block_end(ls, from as int) == block_end(ls, i as int),
        decreases all@.len() - i,
    {
        assert(ls[i as int] == all@[i as int]@);
        if last_is(&trimmed_end(&all[i]), ')') {
            return i + 1;
        }
        i = i + 1;
    }
    i
}

fn import_line_in_lines(text: &Vec<char>) -> (r: u32)
    requires
        fits(text@),
    ensures
        r == import_line_among(lines(text@), 0, 0),
{
    let all: Vec<Vec<char>> = lines_of(text);
    let ghost ls = lines(text@);
    proof {
        lemma_lines_bounded(text@);
    }
    assert(ls == views(all@));
    let mut last: usize = 0;
    let mut i: usize = 0;
    while i < all.len()
        invariant
            i <= all@.len(),
            ls == views(all@),
            ls == lines(text@),
            all@.len() <= u32::MAX,
            last <= all@.len(),
            import_line_among(ls, 0, 0) == import_line_among(ls, i as int, last as int),
        decreases all@.len() - i,
    {
        assert(ls[i as int] == all@[i as int]@);
        let t: Vec<char> = trimmed_start(&all[i]);
        if has_prefix(&t, "import ") || has_prefix(&t, "from ") {
            if last_is(&t, '(') {
                last = block_end_of(&all, i + 1);
            } else {
                last = i + 1;
            }
        } else if t.len() == 0 && i == last {
            last = i + 1;
        } else if t.len() > 0 {
            return last as u32;
        }
        i = i + 1;
    }
    last as u32
}

/// The line at which an import is inserted into a text with the given parse.
pub fn import_insert_line_in(text: &Vec<char>, module: &Option<SourceModule>) -> (r: u32)
    requires
        fits(text@),
    ensures
        r == insert_line(text@, option_view(*module)),
{
    match module {
        Some(m) => if m.invalid_syntax {
            import_line_in_lines(text)
        } else {
            import_line_in_body(text, &m.body)
        },
        None => import_line_in_lines(text),
    }
}

/// The line at which an import is inserted into a text.
pub fn import_insert_line(text: &str) -> (r: u32)
    requires
        fits(text@),
    ensures
        r == insert_line(text@, python_module(text@)),
{
    let module: Option<SourceModule> = parse_module(text);
    import_insert_line_in(&chars_of(text), &module)
}

/// The place at which an import is inserted.
pub open spec fn insert_position(text: Seq<char>, module: Option<SourceModuleView>) -> Position {
    Position { line: insert_line(text, module) as u32, character: 0 }
}

/// The edit that meets a requirement, if the text does not meet it already.
pub open spec fn import_edit(
    text: Seq<char>,
    module: Option<SourceModuleView>,
    r: ImportRequirementView,
) -> Option<TextEditView> {
    if is_imported(text, valid_body(module), r) {
        None
    } else {
        let at = insert_position(text, module);
        Some(
            TextEditView {
                range: Range { start: at, end: at },
                new_text: import_statement(r) + "\n"@,
            },
        )
    }
}

/// The edits that add the missing imports of an annotation.
pub open spec fn import_edits(
    text: Seq<char>,
    module: Option<SourceModuleView>,
    imports: Seq<ImportRequirementView>,
) -> Seq<TextEditView> {
    imports.filter_map(|r: ImportRequirementView| import_edit(text, module, r))
}

/// The edits that add the missing imports of an annotation to a text with the given parse.
pub fn import_text_edits_in(
    text: &Vec<char>,
    module: &Option<SourceModule>,
    annotation: &FixtureAnnotation,
) -> (r: Vec<TextEdit>)
    requires
        fits(text@),
    ensures
        views(r@) == import_edits(text@, option_view(*module), annotation@.imports),
{
    let none: Vec<Statement> = Vec::new();
    assert(views(none@) =~= Seq::<StatementView>::empty());
    let body: &Vec<Statement> = match module {
        Some(m) => if m.invalid_syntax {
            &none
        } else {
            &m.body
        },
        None => &none,
    };
    let ghost parse = option_view(*module);
    assert(views(body@) =~= valid_body(parse));
    let ghost f = |r: ImportRequirementView| import_edit(text@, parse, r);
    let ghost all = annotation@.imports;
    let mut out: Vec<TextEdit> = Vec::new();
    let mut i: usize = 0;
    assert(views(out@) =~= all.take(0).filter_map(f));
    while i < annotation.imports.len()
        invariant
            fits(text@),
            i <= annotation.imports@.len(),
            all == views(annotation.imports@),
            parse == option_view(*module),
            views(body@) == valid_body(parse),
            f == (|r: ImportRequirementView| import_edit(text@, parse, r)),
            views(out@) == all.take(i as int).filter_map(f),
        decreases annotation.imports@.len() - i,
    {
        let req: &ImportRequirement = &annotation.imports[i];
        proof {
            all.lemma_filter_map_take_succ(f, i as int);
            assert(all[i as int] == req@);
        }
        let ghost so_far = views(out@);
        if !import_exists_in(text, body, req) {
            let line: u32 = import_insert_line_in(text, module);
            let at: Position = Position { line, character: 0 };
            let mut new_text: String = import_statement_for(req);
            new_text.append("\n");
            let edit: TextEdit = TextEdit { range: Range { start: at, end: at }, new_text };
            proof {
                lemma_views_push(out@, edit);
                assert(Some(edit@) == import_edit(text@, parse, req@));
            }
            out.push(edit);
        }
        assert(views(out@) =~= all.take(i + 1).filter_map(f));
        i = i + 1;
    }
    assert(all.take(all.len() as int) =~= all);
    out
}

/// The edits that add the missing imports of an annotation to a text.
pub fn import_text_edits(text: &str, annotation: &FixtureAnnotation) -> (r: Vec<TextEdit>)
    requires
        fits(text@),
    ensures
        views(r@) == import_edits(text@, python_module(text@), annotation@.imports),
{
    let module: Option<SourceModule> = parse_module(text);
    import_text_edits_in(&chars_of(text), &module, annotation)
}

/// The first edit of the same range.
pub open spec fn range_index(edits: Seq<TextEditView>, range: Range) -> Option<int>
    decreases edits.len(),
{
    if edits.len() == 0 {
        None
    } else {
        match range_index(edits.drop_last(), range) {
            Some(i) => Some(i),
            None => if edits.last().range == range {
                Some(edits.len() - 1)
            } else {
                None
            },
        }
    }
}

/// The edit inserts text and replaces none.
pub open spec fn is_insertion(edit: TextEditView) -> bool {
    edit.range.start == edit.range.end
}

/// Edits without repetitions, and with the insertions at one position put into one.
pub open spec fn coalesced(edits: Seq<TextEditView>) -> Seq<TextEditView>
    decreases edits.len(),
{
    if edits.len() == 0 {
        Seq::empty()
    } else {
        let so_far = coalesced(edits.drop_last());
        let edit = edits.last();
        if edits.drop_last().contains(edit) {
            so_far
        } else if is_insertion(edit) {
            match range_index(so_far, edit.range) {
                Some(i) => so_far.update(
                    i,
                    TextEditView {
                        range: edit.range,
                        new_text: so_far[i].new_text + edit.new_text,
                    },
                ),
                None => so_far.push(edit),
            }
        } else {
            so_far.push(edit)
        }
    }
}

proof fn lemma_range_index(edits: Seq<TextEditView>, range: Range, i: int)
    requires
        0 <= i < edits.len(),
        edits[i].range == range,
        forall|j: int| 0 <= j < i ==> (#[trigger] edits[j]).range != range,
    ensures
        range_index(edits, range) == Some(i),
    decreases edits.len(),
{
    if i < edits.len() - 1 {
        lemma_range_index(edits.drop_last(), range, i);
    } else {
        lemma_no_range(edits.drop_last(), range);
    }
}

proof fn lemma_no_range(edits: Seq<TextEditView>, range: Range)
    requires
        forall|j: int| 0 <= j < edits.len() ==> (#[trigger] edits[j]).range != range,
    ensures
        range_index(edits, range) is None,
    decreases edits.len(),
{
    if edits.len() > 0 {
        lemma_no_range(edits.drop_last(), range);
    }
}

proof fn lemma_range_index_found(edits: Seq<TextEditView>, range: Range)
    ensures
        match range_index(edits, range) {
            Some(i) => 0 <= i < edits.len() && edits[i].range == range,
            None => forall|j: int|
                0 <= j < edits.len() ==> (#[trigger] edits[j]).range != range,
        },
    decreases edits.len(),
{
    if edits.len() > 0 {
        lemma_range_index_found(edits.drop_last(), range);
        assert forall|j: int| 0 <= j < edits.len() && range_index(edits, range) is None implies (
        #[trigger] edits[j]).range != range by {
            if j < edits.len() - 1 {
                assert(edits.drop_last()[j].range != range);
            }
        }
    }
}

fn find_range(edits: &Vec<TextEdit>, range: Range) -> (r: Option<usize>)
    ensures
        range_index(views(edits@), range) == (match r {
            Some(i) => Some(i as int),
            None => None,
        }),
        r matches Some(i) ==> i < edits@.len() && edits@[i as int].range == range,
{
    let ghost all = views(edits@);
    let mut i: usize = 0;
    while i < edits.len()
        invariant
            i <= edits@.len(),
            all == views(edits@),
            forall|j: int| 0 <= j < i ==> (#[trigger] all[j]).range != range,
        decreases edits@.len() - i,
    {
        assert(all[i as int] == edits@[i as int]@);
        if edits[i].range == range {
            proof {
                lemma_range_index(all, range, i as int);
            }
            return Some(i);
        }
        i = i + 1;
    }
    proof {
        lemma_no_range(all, range);
    }
    None
}

fn is_repeated(edits: &Vec<TextEdit>, n: usize) -> (r: bool)
    requires
        n < edits@.len(),
    ensures
        r == views(edits@).take(n as int).contains(views(edits@)[n as int]),
{
    let ghost all = views(edits@);
    let mut i: usize = 0;
    while i < n
        invariant
            i <= n < edits@.len(),
            all == views(edits@),
            forall|j: int| 0 <= j < i ==> (#[trigger] all[j]) != all[n as int],
        decreases n - i,
    {
        assert(all[i as int] == edits@[i as int]@);
        assert(all[n as int] == edits@[n as int]@);
        if edits[i].range == edits[n].range && edits[i].new_text == edits[n].new_text {
            assert(all.take(n as int)[i as int] == all[n as int]);
            return true;
        }
        i = i + 1;
    }
    false
}

/// Drops repeated edits, and puts the insertions at one position into one.
pub fn coalesce_text_edits(edits: &Vec<TextEdit>) -> (r: Vec<TextEdit>)
    ensures
        views(r@) == coalesced(views(edits@)),
{
    let ghost all = views(edits@);
    let mut result: Vec<TextEdit> = Vec::new();
    let mut i: usize = 0;
    assert(views(result@) =~= coalesced(all.take(0)));
    while i < edits.len()
        invariant
            i <= edits@.len(),
            all == views(edits@),
            views(result@) == coalesced(all.take(i as int)),
        decreases edits@.len() - i,
    {
        let edit: &TextEdit = &edits[i];
        let ghost so_far = views(result@);
        proof {
            assert(all[i as int] == edit@);
            assert(all.take(i + 1).drop_last() =~= all.take(i as int));
            assert(all.take(i + 1).last() == edit@);
        }
        if !is_repeated(edits, i) {
            let place: Option<usize> = if edit.range.start == edit.range.end {
                find_range(&result, edit.range)
            } else {
                None
            };
            match place {
                Some(k) => {
                    let mut new_text: String = result[k].new_text.clone();
                    new_text.append(edit.new_text.as_str());
                    let merged: TextEdit = TextEdit { range: edit.range, new_text };
                    result.set(k, merged);
                    assert(views(result@) =~= so_far.update(k as int, merged@));
                },
                None => {
                    let copy: TextEdit = edit.clone();
                    proof {
                        lemma_views_push(result@, copy);
                    }
                    result.push(copy);
                },
            }
        }
        i = i + 1;
    }
    assert(all.take(all.len() as int) =~= all);
    result
}

/// No two insertions at one position are left, and no edit stands twice.
pub proof fn coalesced_edits_are_apart(edits: Seq<TextEditView>, i: int, j: int)
    requires
        0 <= i < j < coalesced(edits).len(),
    ensures
        coalesced(edits)[i] != coalesced(edits)[j],
        is_insertion(coalesced(edits)[i]) ==> coalesced(edits)[i].range
            != coalesced(edits)[j].range,
    decreases edits.len(),
{
    let so_far = coalesced(edits.drop_last());
    let edit = edits.last();
    lemma_range_index_found(so_far, edit.range);
    if j < so_far.len() {
        coalesced_edits_are_apart(edits.drop_last(), i, j);
    } else if !is_insertion(edit) && !is_insertion(so_far[i]) {
        lemma_replacements_come_from_input(edits.drop_last(), i);
    }
}

proof fn lemma_replacements_come_from_input(edits: Seq<TextEditView>, i: int)
    requires
        0 <= i < coalesced(edits).len(),
        !is_insertion(coalesced(edits)[i]),
    ensures
        edits.contains(coalesced(edits)[i]),
    decreases edits.len(),
{
    let fewer = edits.drop_last();
    let so_far = coalesced(fewer);
    lemma_range_index_found(so_far, edits.last().range);
    if i < so_far.len() {
        assert(coalesced(edits)[i] == so_far[i]);
        lemma_replacements_come_from_input(fewer, i);
        let k = choose|k: int| 0 <= k < fewer.len() && fewer[k] == so_far[i];
        assert(edits[k] == so_far[i]);
    } else {
        assert(edits[edits.len() - 1] == coalesced(edits)[i]);
    }
}

/// The result does what the edit does: it is the edit, or it is an insertion at the same
/// position whose text holds that of the edit.
pub open spec fn covers(result: TextEditView, edit: TextEditView) -> bool {
    &&& result.range == edit.range
    &&& is_insertion(edit) ==> contains(result.new_text, edit.new_text)
    &&& !is_insertion(edit) ==> result == edit
}

/// One of the edits has the place of the edit, and holds what it writes.
pub open spec fn is_covered(edits: Seq<TextEditView>, edit: TextEditView) -> bool {
    exists|k: int| 0 <= k < edits.len() && covers(#[trigger] edits[k], edit)
}

/// No edit is lost.
pub proof fn coalesced_edits_cover_all(edits: Seq<TextEditView>, i: int)
    requires
        0 <= i < edits.len(),
    ensures
        is_covered(coalesced(edits), edits[i]),
    decreases edits.len(),
{
    let fewer = edits.drop_last();
    let so_far = coalesced(fewer);
    let all = coalesced(edits);
    let edit = edits.last();
    lemma_range_index_found(so_far, edit.range);
    if i < fewer.len() {
        coalesced_edits_cover_all(fewer, i);
        let k = choose|k: int| 0 <= k < so_far.len() && covers(#[trigger] so_far[k], fewer[i]);
        if all[k] != so_far[k] {
            let text = so_far[k].new_text;
            let at = choose|at: int| occurs_at(text, fewer[i].new_text, at);
            assert((text + edit.new_text).subrange(at, at + fewer[i].new_text.len())
                =~= fewer[i].new_text);
            assert(occurs_at(all[k].new_text, fewer[i].new_text, at));
        }
        assert(covers(all[k], edits[i]));
    } else if fewer.contains(edit) {
        let j = choose|j: int| 0 <= j < fewer.len() && fewer[j] == edit;
        coalesced_edits_cover_all(fewer, j);
        let k = choose|k: int| 0 <= k < so_far.len() && covers(#[trigger] so_far[k], fewer[j]);
        assert(covers(all[k], edits[i]));
    } else if is_insertion(edit) && range_index(so_far, edit.range) is Some {
        let k = range_index(so_far, edit.range)->0;
        let text = so_far[k].new_text;
        let whole = text + edit.new_text;
        assert(whole.subrange(text.len() as int, whole.len() as int) =~= edit.new_text);
        assert(occurs_at(all[k].new_text, edit.new_text, text.len() as int));
        assert(covers(all[k], edits[i]));
    } else {
        let k = so_far.len() as int;
        assert(edit.new_text.subrange(0, edit.new_text.len() as int) =~= edit.new_text);
        assert(occurs_at(edit.new_text, edit.new_text, 0));
        assert(covers(all[k], edits[i]));
    }
}

/// Every edit that is left has the place of one of the edits.
pub proof fn lemma_coalesced_place(edits: Seq<TextEditView>, k: int)
    requires
        0 <= k < coalesced(edits).len(),
    ensures
        exists|j: int|
            0 <= j < edits.len() && (#[trigger] edits[j]).range == coalesced(edits)[k].range,
    decreases edits.len(),
{
    let fewer = edits.drop_last();
    let so_far = coalesced(fewer);
    lemma_range_index_found(so_far, edits.last().range);
    if k < so_far.len() {
        lemma_coalesced_place(fewer, k);
        let j = choose|j: int|
            0 <= j < fewer.len() && (#[trigger] fewer[j]).range == so_far[k].range;
        assert(edits[j].range == coalesced(edits)[k].range);
    } else {
        assert(edits[edits.len() - 1].range == coalesced(edits)[k].range);
    }
}

proof fn lemma_coalesced_alone(edits: Seq<TextEditView>, edit: TextEditView, k: int)
    requires
        0 <= k < coalesced(edits).len(),
        coalesced(edits)[k].range == edit.range,
        forall|j: int|
            0 <= j < edits.len() && (#[trigger] edits[j]).range == edit.range ==> edits[j] == edit,
    ensures
        coalesced(edits)[k] == edit,
    decreases edits.len(),
{
    let fewer = edits.drop_last();
    let so_far = coalesced(fewer);
    let last = edits.last();
    lemma_range_index_found(so_far, last.range);
    assert forall|j: int| 0 <= j < fewer.len() && (#[trigger] fewer[j]).range
        == edit.range implies fewer[j] == edit by {
        assert(fewer[j] == edits[j]);
    }
    if k < so_far.len() {
        if so_far[k].range == edit.range {
            lemma_coalesced_alone(fewer, edit, k);
            lemma_coalesced_place(fewer, k);
            let j = choose|j: int|
                0 <= j < fewer.len() && (#[trigger] fewer[j]).range == so_far[k].range;
            assert(fewer.contains(edit)) by {
                assert(fewer[j] == edit);
            }
            if last.range == edit.range {
                assert(last == edits[edits.len() - 1]);
            }
        }
    } else {
        assert(last == edits[edits.len() - 1]);
    }
}

/// An edit that shares its place with no other one is left as it is, and no other edit has its
/// place.
pub proof fn lone_edit_is_kept(edits: Seq<TextEditView>, i: int) -> (k: int)
    requires
        0 <= i < edits.len(),
        forall|j: int|
            0 <= j < edits.len() && (#[trigger] edits[j]).range == edits[i].range ==> edits[j]
                == edits[i],
    ensures
        0 <= k < coalesced(edits).len(),
        coalesced(edits)[k] == edits[i],
        forall|m: int|
            0 <= m < coalesced(edits).len() && m != k ==> (#[trigger] coalesced(edits)[m]).range
                != edits[i].range,
{
    coalesced_edits_cover_all(edits, i);
    let all = coalesced(edits);
    let k = choose|k: int| 0 <= k < all.len() && covers(#[trigger] all[k], edits[i]);
    lemma_coalesced_alone(edits, edits[i], k);
    assert forall|m: int| 0 <= m < all.len() && m != k implies (#[trigger] all[m]).range
        != edits[i].range by {
        if all[m].range == edits[i].range {
            lemma_coalesced_alone(edits, edits[i], m);
            if m < k {
                coalesced_edits_are_apart(edits, m, k);
            } else {
                coalesced_edits_are_apart(edits, k, m);
            }
        }
    }
    k
}

/// Edits that are put together already stay as they are.
pub proof fn coalescing_twice_changes_nothing(edits: Seq<TextEditView>)
    ensures
        coalesced(coalesced(edits)) == coalesced(edits),
{
    lemma_coalesced_prefix(edits, coalesced(edits).len() as int);
    assert(coalesced(edits).take(coalesced(edits).len() as int) =~= coalesced(edits));
}

proof fn lemma_coalesced_prefix(edits: Seq<TextEditView>, n: int)
    requires
        0 <= n <= coalesced(edits).len(),
    ensures
        coalesced(coalesced(edits).take(n)) == coalesced(edits).take(n),
    decreases n,
{
    let all = coalesced(edits);
    if n == 0 {
        assert(all.take(0) =~= Seq::<TextEditView>::empty());
    } else {
        lemma_coalesced_prefix(edits, n - 1);
        let fewer = all.take(n - 1);
        let edit = all[n - 1];
        assert(all.take(n).drop_last() =~= fewer);
        assert(all.take(n).last() == edit);
        assert forall|k: int| 0 <= k < n - 1 implies (#[trigger] fewer[k]) != edit && (
        is_insertion(edit) ==> fewer[k].range != edit.range) by {
            coalesced_edits_are_apart(edits, k, n - 1);
        }
        assert(!fewer.contains(edit));
        if is_insertion(edit) {
            lemma_no_range(fewer, edit.range);
        }
        assert(fewer.push(edit) =~= all.take(n));
    }
}

/// An import is inserted as a line of its own.
pub proof fn imports_are_whole_lines(
    text: Seq<char>,
    module: Option<SourceModuleView>,
    imports: Seq<ImportRequirementView>,
    i: int,
)
    requires
        0 <= i < import_edits(text, module, imports).len(),
    ensures
        is_insertion(import_edits(text, module, imports)[i]),
        import_edits(text, module, imports)[i].range.start == insert_position(text, module),
        insert_position(text, module).character == 0,
        import_edits(text, module, imports)[i].new_text.last() == '\n',
{
    let f = |r: ImportRequirementView| import_edit(text, module, r);
    let edits = imports.filter_map(f);
    assert(edits.contains(edits[i]));
    imports.lemma_filter_map_contains(f, edits[i]);
    reveal_strlit("\n");
}

/// Imports that a text has already are not added again.
pub proof fn no_import_is_added_twice(
    text: Seq<char>,
    module: Option<SourceModuleView>,
    imports: Seq<ImportRequirementView>,
)
    requires
        forall|i: int|
            0 <= i < imports.len() ==> is_imported(text, valid_body(module), #[trigger] imports[i]),
    ensures
        import_edits(text, module, imports) == Seq::<TextEditView>::empty(),
    decreases imports.len(),
{
    if imports.len() > 0 {
        let fewer = imports.drop_last();
        assert forall|i: int| 0 <= i < fewer.len() implies is_imported(
            text,
            valid_body(module),
            #[trigger] fewer[i],
        ) by {
            assert(is_imported(text, valid_body(module), imports[i]));
        }
        no_import_is_added_twice(text, module, fewer);
        assert(is_imported(text, valid_body(module), imports[imports.len() - 1]));
    }
}

/// The statements that are written: `import m`, `from m import n`, and either with `as a`.
pub proof fn statements_name_what_they_import(
    module: Seq<char>,
    name: Seq<char>,
    alias: Seq<char>,
)
    requires
        name.len() > 0,
    ensures
        import_statement(ImportRequirementView { module, name: Seq::empty(), alias: None })
            == "import "@ + module,
        import_statement(ImportRequirementView { module, name: Seq::empty(), alias: Some(alias) })
            == "import "@ + module + " as "@ + alias,
        import_statement(ImportRequirementView { module, name, alias: None }) == "from "@ + module
            + " import "@ + name,
        import_statement(ImportRequirementView { module, name, alias: Some(alias) }) == "from "@
            + module + " import "@ + name + " as "@ + alias,
{
}

/// A name is there already exactly if some statement with `from` imports it, among whatever other
/// names, from the module itself and under the same alias.
pub proof fn imported_names_are_recognised(
    text: Seq<char>,
    body: Seq<StatementView>,
    r: ImportRequirementView,
)
    requires
        r.name.len() > 0,
    ensures
        is_imported(text, body, r) <==> exists|k: int, names: Seq<ImportedNameView>|
            0 <= k < body.len() && (#[trigger] body[k]).kind == (StatementKindView::ImportFrom {
                level: 0,
                module: Some(r.module),
                names,
            }) && #[trigger] names.contains(ImportedNameView { name: r.name, asname: r.alias }),
{
    let wanted = ImportedNameView { name: r.name, asname: r.alias };
    if is_imported(text, body, r) {
        let k = choose|k: int|
            0 <= k < body.len() && statement_imports(
                #[trigger] body[k],
                r.module,
                r.name,
                r.alias,
            );
        match body[k].kind {
            StatementKindView::ImportFrom { level, module, names } => {
                let j = choose|j: int|
                    0 <= j < names.len() && imports_name(#[trigger] names[j], r.name, r.alias);
                assert(names[j] == wanted);
                assert(names.contains(wanted));
                assert(body[k].kind == StatementKindView::ImportFrom {
                    level: 0,
                    module: Some(r.module),
                    names,
                });
            },
            _ => {},
        }
    }
    assert forall|k: int, names: Seq<ImportedNameView>|
        0 <= k < body.len() && (#[trigger] body[k]).kind == (StatementKindView::ImportFrom {
            level: 0,
            module: Some(r.module),
            names,
        }) && #[trigger] names.contains(wanted) implies is_imported(text, body, r) by {
        let j = names.index_of(wanted);
        assert(imports_name(names[j], r.name, r.alias));
        assert(statement_imports(body[k], r.module, r.name, r.alias));
    }
}

/// A module is there already where its statement stands on a line of its own, with whatever white
/// space around it.
pub proof fn imported_modules_are_recognised(
    head: Seq<char>,
    line: Seq<char>,
    tail: Seq<char>,
    body: Seq<StatementView>,
    r: ImportRequirementView,
)
    requires
        r.name.len() == 0,
        is_ended(head),
        !line.contains('\n'),
        line.len() == 0 || line.last() != '\r',
        trim(line) == import_statement(r),
    ensures
        is_imported(head + line.push('\n') + tail, body, r),
{
    let ended = line.push('\n');
    lemma_lines_of_line(line);
    lemma_lines_of_both(head, ended);
    lemma_lines_of_both(head + ended, tail);
    let text = head + ended + tail;
    let k = lines(head).len() as int;
    assert(lines(text)[k] == line);
}

/// A module is there only where a line, white space apart, is its statement.
pub proof fn modules_need_a_line(
    text: Seq<char>,
    body: Seq<StatementView>,
    r: ImportRequirementView,
)
    requires
        r.name.len() == 0,
        forall|i: int|
            0 <= i < lines(text).len() ==> trim(#[trigger] lines(text)[i]) != import_statement(r),
    ensures
        !is_imported(text, body, r),
{
}

/// One edit is written for each import that is not there yet: a line with its statement, at the
/// place for imports; and for nothing else.
pub proof fn missing_imports_are_written(
    text: Seq<char>,
    module: Option<SourceModuleView>,
    imports: Seq<ImportRequirementView>,
    edit: TextEditView,
)
    ensures
        import_edits(text, module, imports).contains(edit) <==> exists|k: int|
            0 <= k < imports.len() && !is_imported(
                text,
                valid_body(module),
                #[trigger] imports[k],
            ) && edit.new_text == import_statement(imports[k]) + seq!['\n'] && edit.range.start
                == insert_position(text, module) && edit.range.end == edit.range.start,
{
    reveal_strlit("\n");
    assert("\n"@ =~= seq!['\n']);
    let f = |r: ImportRequirementView| import_edit(text, module, r);
    if import_edits(text, module, imports).contains(edit) {
        imports.lemma_filter_map_contains(f, edit);
        let r = choose|r: ImportRequirementView| #[trigger]
            imports.contains(r) && f(r) == Some(edit);
        let k = imports.index_of(r);
        assert(!is_imported(text, valid_body(module), imports[k]));
    }
    assert forall|k: int|
        0 <= k < imports.len() && !is_imported(text, valid_body(module), #[trigger] imports[k])
            && edit.new_text == import_statement(imports[k]) + seq!['\n'] && edit.range.start
            == insert_position(text, module) && edit.range.end
            == edit.range.start implies import_edits(text, module, imports).contains(edit) by {
        lemma_filter_map_has(imports, f, k);
        assert(f(imports[k]) == Some(edit));
    }
}

/// Imports are written in the order in which they are asked for.
pub proof fn imports_are_written_in_order(
    text: Seq<char>,
    module: Option<SourceModuleView>,
    first: Seq<ImportRequirementView>,
    second: Seq<ImportRequirementView>,
)
    ensures
        import_edits(text, module, first + second) == import_edits(text, module, first)
            + import_edits(text, module, second),
    decreases second.len(),
{
    let f = |r: ImportRequirementView| import_edit(text, module, r);
    let whole = first + second;
    if second.len() == 0 {
        assert(whole =~= first);
        assert(second.filter_map(f) =~= Seq::<TextEditView>::empty());
        assert(import_edits(text, module, whole) =~= import_edits(text, module, first)
            + import_edits(text, module, second));
    } else {
        imports_are_written_in_order(text, module, first, second.drop_last());
        assert(whole.drop_last() =~= first + second.drop_last());
        assert(whole.last() == second.last());
        assert(import_edits(text, module, whole) =~= import_edits(text, module, first)
            + import_edits(text, module, second));
    }
}

/// A statement is taken for a string if, white space at its start apart, it starts with a quote,
/// or with `r` or `R` and a quote.
pub proof fn strings_start_with_a_quote(source: Seq<char>)
    ensures
        is_string_statement(source) <==> {
            let s = trim_start(source);
            ||| s.len() > 0 && (s[0] == '"' || s[0] == '\'')
            ||| s.len() > 1 && (s[0] == 'r' || s[0] == 'R') && (s[1] == '"' || s[1] == '\'')
        },
{
    let s = trim_start(source);
    reveal_strlit("\"");
    reveal_strlit("'");
    reveal_strlit("r\"");
    reveal_strlit("r'");
    reveal_strlit("R\"");
    reveal_strlit("R'");
    assert("\""@ =~= seq!['"']);
    assert("'"@ =~= seq!['\'']);
    lemma_occurs_one(s, '"', 0);
    lemma_occurs_one(s, '\'', 0);
    lemma_occurs_two(s, 'r', '"', "r\""@);
    lemma_occurs_two(s, 'r', '\'', "r'"@);
    lemma_occurs_two(s, 'R', '"', "R\""@);
    lemma_occurs_two(s, 'R', '\'', "R'"@);
}

proof fn lemma_occurs_two(s: Seq<char>, a: char, b: char, pattern: Seq<char>)
    requires
        pattern.len() == 2,
        pattern[0] == a,
        pattern[1] == b,
    ensures
        starts_with(s, pattern) <==> s.len() > 1 && s[0] == a && s[1] == b,
{
    if s.len() > 1 {
        let head = s.subrange(0, 2);
        if s[0] == a && s[1] == b {
            assert(head =~= pattern);
        }
        if head == pattern {
            assert(head[0] == s[0] && head[1] == s[1]);
        }
    }
}

/// The statement belongs to the head of a module: it is an import, or its docstring.
pub open spec fn is_of_head(text: Seq<char>, body: Seq<StatementView>, i: int) -> bool {
    body[i].kind is Import || body[i].kind is ImportFrom || (i == 0 && is_string_statement(
        source_of(text, body[0].range),
    ))
}

proof fn lemma_import_line(text: Seq<char>, body: Seq<StatementView>, n: int, i: int, line: int)
    requires
        0 <= i <= n <= body.len(),
        forall|k: int| i <= k < n ==> #[trigger] is_of_head(text, body, k),
        n == body.len() || (!is_of_head(text, body, n) && trim(
            source_of(text, body[n].range),
        ).len() > 0),
    ensures
        import_line_from(text, body, i, line) == (if i == n {
            line
        } else {
            line_after(text, body[n - 1].range)
        }),
    decreases n - i,
{
    if i < n {
        assert(is_of_head(text, body, i));
        lemma_import_line(text, body, n, i + 1, line_after(text, body[i].range));
    } else if n < body.len() {
        assert(!is_of_head(text, body, n));
    }
}

/// In a valid module imports go on the line behind the docstring and the imports that it starts
/// with, and on the first line where it starts with none.
pub proof fn imports_go_behind_the_head(text: Seq<char>, module: SourceModuleView, n: int)
    requires
        !module.invalid_syntax,
        0 <= n <= module.body.len(),
        forall|k: int| 0 <= k < n ==> #[trigger] is_of_head(text, module.body, k),
        n == module.body.len() || (!is_of_head(text, module.body, n) && trim(
            source_of(text, module.body[n].range),
        ).len() > 0),
    ensures
        n == 0 ==> insert_line(text, Some(module)) == 0,
        n > 0 ==> ({
            let end = position_of_offset(text, module.body[n - 1].range.end as int);
            &&& end.character > 0 ==> insert_line(text, Some(module)) == end.line + 1
            &&& end.character == 0 ==> insert_line(text, Some(module)) == end.line
        }),
{
    lemma_import_line(text, module.body, n, 0, 0);
}

/// The line looks like an import.
pub open spec fn looks_like_import(line: Seq<char>) -> bool {
    starts_with(trim_start(line), "import "@) || starts_with(trim_start(line), "from "@)
}

proof fn lemma_import_lines(all: Seq<Seq<char>>, n: int, i: int)
    requires
        0 <= i <= n <= all.len(),
        forall|k: int|
            0 <= k < n ==> (looks_like_import(#[trigger] all[k]) && trim_start(all[k]).last()
                != '(') || trim_start(all[k]).len() == 0,
        n == all.len() || (!looks_like_import(all[n]) && trim_start(all[n]).len() > 0),
    ensures
        import_line_among(all, i, i) == n,
    decreases n - i,
{
    reveal_strlit("import ");
    reveal_strlit("from ");
    if i < n {
        lemma_import_lines(all, n, i + 1);
    }
}

/// In a text that is no valid module imports go behind the lines that look like imports, and the
/// empty ones among them, that it starts with.
pub proof fn imports_go_behind_lines_that_look_like_them(
    text: Seq<char>,
    module: Option<SourceModuleView>,
    n: int,
)
    requires
        module matches Some(m) ==> m.invalid_syntax,
        0 <= n <= lines(text).len(),
        forall|k: int|
            0 <= k < n ==> (looks_like_import(#[trigger] lines(text)[k]) && trim_start(
                lines(text)[k],
            ).last() != '(') || trim_start(lines(text)[k]).len() == 0,
        n == lines(text).len() || (!looks_like_import(lines(text)[n]) && trim_start(
            lines(text)[n],
        ).len() > 0),
    ensures
        insert_line(text, module) == n,
{
    lemma_import_lines(lines(text), n, 0);
}

proof fn lemma_block_end(all: Seq<Seq<char>>, i: int, m: int)
    requires
        0 <= i <= m < all.len(),
        ends_with(trim_end(all[m]), ')'),
        forall|k: int| i <= k < m ==> !ends_with(trim_end(#[trigger] all[k]), ')'),
    ensures
        block_end(all, i) == m + 1,
    decreases m - i,
{
    if i < m {
        lemma_block_end(all, i + 1, m);
    }
}

/// There imports go behind the closing bracket of an import that goes over several lines.
pub proof fn imports_go_behind_a_bracketed_import(
    text: Seq<char>,
    module: Option<SourceModuleView>,
    m: int,
)
    requires
        module matches Some(m) ==> m.invalid_syntax,
        1 <= m < lines(text).len(),
        looks_like_import(lines(text)[0]),
        trim_start(lines(text)[0]).last() == '(',
        trim_end(lines(text)[m]).len() > 0,
        trim_end(lines(text)[m]).last() == ')',
        forall|k: int|
            1 <= k < m ==> trim_end(#[trigger] lines(text)[k]).len() == 0 || trim_end(
                lines(text)[k],
            ).last() != ')',
        !looks_like_import(lines(text)[1]),
        trim_start(lines(text)[1]).len() > 0,
    ensures
        insert_line(text, module) == m + 1,
{
    let all = lines(text);
    reveal_strlit("import ");
    reveal_strlit("from ");
    lemma_block_end(all, 1, m);
    assert(import_line_among(all, 1, m + 1) == m + 1);
}

/// Edits at places of their own stay as they are, and in their order.
pub proof fn edits_apart_stay(edits: Seq<TextEditView>)
    requires
        forall|i: int, j: int|
            #![trigger edits[i], edits[j]]
            0 <= i < j < edits.len() ==> edits[i].range != edits[j].range,
    ensures
        coalesced(edits) == edits,
    decreases edits.len(),
{
    if edits.len() > 0 {
        let fewer = edits.drop_last();
        assert forall|i: int, j: int|
            #![trigger fewer[i], fewer[j]]
            0 <= i < j < fewer.len() implies fewer[i].range != fewer[j].range by {
            assert(edits[i].range != edits[j].range);
        }
        edits_apart_stay(fewer);
        let last = edits[edits.len() - 1];
        if fewer.contains(last) {
            let k = fewer.index_of(last);
            assert(edits[k].range != last.range);
        }
        assert forall|j: int| 0 <= j < fewer.len() implies (#[trigger] fewer[j]).range
            != last.range by {
            assert(edits[j].range != edits[edits.len() - 1].range);
        }
        lemma_no_range(fewer, last.range);
        assert(fewer.push(last) =~= edits);
    } else {
        assert(coalesced(edits) =~= edits);
    }
}

/// Different insertions at one place become one, which writes what they write in their order.
pub proof fn insertions_become_one(edits: Seq<TextEditView>, range: Range)
    requires
        edits.len() > 0,
        range.start == range.end,
        forall|i: int| 0 <= i < edits.len() ==> (#[trigger] edits[i]).range == range,
        edits.no_duplicates(),
    ensures
        coalesced(edits) == seq![TextEditView { range, new_text: written(edits) }],
    decreases edits.len(),
{
    let fewer = edits.drop_last();
    let last = edits[edits.len() - 1];
    if fewer.contains(last) {
        let k = fewer.index_of(last);
        assert(edits[k] == edits[edits.len() - 1]);
    }
    if fewer.len() == 0 {
        assert(fewer =~= Seq::<TextEditView>::empty());
        assert(coalesced(fewer) =~= Seq::<TextEditView>::empty());
        assert(range_index(coalesced(fewer), range) is None);
        assert(written(fewer) =~= Seq::<char>::empty());
        assert(written(edits) =~= last.new_text);
        assert(coalesced(edits) =~= seq![TextEditView { range, new_text: written(edits) }]);
    } else {
        assert forall|i: int| 0 <= i < fewer.len() implies (#[trigger] fewer[i]).range
            == range by {
            assert(fewer[i] == edits[i]);
        }
        insertions_become_one(fewer, range);
        lemma_range_index(coalesced(fewer), range, 0);
        assert(coalesced(edits) =~= seq![TextEditView { range, new_text: written(edits) }]);
    }
}

/// An edit that stands there already is dropped.
pub proof fn repeated_edits_are_dropped(edits: Seq<TextEditView>, i: int)
    requires
        0 <= i < edits.len(),
    ensures
        coalesced(edits.push(edits[i])) == coalesced(edits),
{
    let more = edits.push(edits[i]);
    assert(more.drop_last() =~= edits);
    assert(edits.contains(edits[i]));
}

proof fn lemma_lines_before(all: Seq<Seq<char>>, n: int, i: int)
    requires
        0 <= i <= n < all.len(),
        forall|k: int|
            0 <= k < n ==> (looks_like_import(#[trigger] all[k]) && trim_start(all[k]).last()
                != '(') || trim_start(all[k]).len() == 0,
    ensures
        import_line_among(all, i, i) == import_line_among(all, n, n),
    decreases n - i,
{
    reveal_strlit("import ");
    reveal_strlit("from ");
    if i < n {
        lemma_lines_before(all, n, i + 1);
    }
}

/// So they do where other imports come before the bracketed one.
pub proof fn imports_go_behind_a_later_bracketed_import(
    text: Seq<char>,
    module: Option<SourceModuleView>,
    n: int,
    m: int,
)
    requires
        module matches Some(m) ==> m.invalid_syntax,
        0 <= n,
        n + 1 <= m < lines(text).len(),
        forall|k: int|
            0 <= k < n ==> (looks_like_import(#[trigger] lines(text)[k]) && trim_start(
                lines(text)[k],
            ).last() != '(') || trim_start(lines(text)[k]).len() == 0,
        looks_like_import(lines(text)[n]),
        trim_start(lines(text)[n]).last() == '(',
        trim_end(lines(text)[m]).len() > 0,
        trim_end(lines(text)[m]).last() == ')',
        forall|k: int|
            n < k < m ==> trim_end(#[trigger] lines(text)[k]).len() == 0 || trim_end(
                lines(text)[k],
            ).last() != ')',
        !looks_like_import(lines(text)[n + 1]),
        trim_start(lines(text)[n + 1]).len() > 0,
    ensures
        insert_line(text, module) == m + 1,
{
    let all = lines(text);
    reveal_strlit("import ");
    reveal_strlit("from ");
    lemma_lines_before(all, n, 0);
    lemma_block_end(all, n + 1, m);
    assert(import_line_among(all, n + 1, m + 1) == m + 1);
}

/// The edits of the range, in their order.
pub open spec fn at_range(edits: Seq<TextEditView>, range: Range) -> Seq<TextEditView> {
    edits.filter(|e: TextEditView| e.range == range)
}

proof fn lemma_at_range_has(edits: Seq<TextEditView>, edit: TextEditView)
    ensures
        at_range(edits, edit.range).contains(edit) <==> edits.contains(edit),
{
    let keep = |e: TextEditView| e.range == edit.range;
    if edits.contains(edit) {
        edits.lemma_filter_contains(keep, edits.index_of(edit));
    }
    if at_range(edits, edit.range).contains(edit) {
        edits.lemma_filter_contains_rev(keep, edit);
    }
}

proof fn lemma_at_range_of_update(
    edits: Seq<TextEditView>,
    range: Range,
    k: int,
    edit: TextEditView,
)
    requires
        0 <= k < edits.len(),
        edits[k].range == edit.range,
        forall|j: int| 0 <= j < edits.len() && j != k ==> (#[trigger] edits[j]).range != edit.range,
    ensures
        edit.range != range ==> at_range(edits.update(k, edit), range) == at_range(edits, range),
        edit.range == range ==> at_range(edits.update(k, edit), range) == seq![edit],
        edit.range == range ==> at_range(edits, range) == seq![edits[k]],
    decreases edits.len(),
{
    reveal(Seq::filter);
    let keep = |e: TextEditView| e.range == range;
    let fewer = edits.drop_last();
    let last = edits.len() - 1;
    let after = edits.update(k, edit);
    let none = Seq::<TextEditView>::empty();
    if k < last {
        assert forall|j: int| 0 <= j < fewer.len() && j != k implies (#[trigger] fewer[j]).range
            != edit.range by {
            assert(fewer[j] == edits[j]);
        }
        lemma_at_range_of_update(fewer, range, k, edit);
        assert(after.drop_last() =~= fewer.update(k, edit));
        assert(after.last() == edits[last]);
        assert(edits[last].range != edit.range);
    } else {
        assert(after.drop_last() =~= fewer);
        assert(after.last() == edit);
        if edit.range == range {
            assert forall|j: int| 0 <= j < fewer.len() implies !keep(#[trigger] fewer[j]) by {
                assert(edits[j].range != edit.range);
            }
            lemma_at_range_none(fewer, range);
            assert(none.push(edit) =~= seq![edit]);
            assert(none.push(edits[k]) =~= seq![edits[k]]);
        }
    }
}

proof fn lemma_at_range_none(edits: Seq<TextEditView>, range: Range)
    requires
        forall|j: int| 0 <= j < edits.len() ==> (#[trigger] edits[j]).range != range,
    ensures
        at_range(edits, range) == Seq::<TextEditView>::empty(),
    decreases edits.len(),
{
    reveal(Seq::filter);
    if edits.len() > 0 {
        let fewer = edits.drop_last();
        assert forall|j: int| 0 <= j < fewer.len() implies (#[trigger] fewer[j]).range != range by {
            assert(fewer[j] == edits[j]);
        }
        lemma_at_range_none(fewer, range);
        assert(edits[edits.len() - 1].range != range);
    }
}

/// What is left at one place depends on the edits of that place alone, in their order.
#[verifier::spinoff_prover]
pub proof fn places_are_put_together_apart(edits: Seq<TextEditView>, range: Range)
    ensures
        at_range(coalesced(edits), range) == coalesced(at_range(edits, range)),
    decreases edits.len(),
{
    reveal(Seq::filter);
    if edits.len() > 0 {
        let fewer = edits.drop_last();
        let so_far = coalesced(fewer);
        let edit = edits.last();
        let here = at_range(fewer, range);
        places_are_put_together_apart(fewer, range);
        lemma_range_index_found(so_far, edit.range);
        if edit.range == range {
            lemma_at_range_has(fewer, edit);
            assert(at_range(edits, range) == here.push(edit));
            assert(here.push(edit).drop_last() =~= here);
        } else {
            assert(at_range(edits, range) == here);
        }
        if fewer.contains(edit) {
        } else if is_insertion(edit) && range_index(so_far, edit.range) is Some {
            let k = range_index(so_far, edit.range)->0;
            let merged = TextEditView {
                range: edit.range,
                new_text: so_far[k].new_text + edit.new_text,
            };
            assert forall|j: int| 0 <= j < so_far.len() && j != k implies (
            #[trigger] so_far[j]).range != edit.range by {
                if j < k {
                    coalesced_edits_are_apart(fewer, j, k);
                } else {
                    coalesced_edits_are_apart(fewer, k, j);
                }
            }
            lemma_at_range_of_update(so_far, range, k, merged);
            if edit.range == range {
                assert(coalesced(here) == seq![so_far[k]]);
                lemma_range_index(coalesced(here), range, 0);
                assert(coalesced(here).update(0, merged) =~= seq![merged]);
            }
        } else {
            assert(coalesced(edits) == so_far.push(edit));
            assert(so_far.push(edit).drop_last() =~= so_far);
            if edit.range == range && is_insertion(edit) {
                lemma_at_range_none(so_far, range);
                assert(range_index(coalesced(here), range) is None);
            }
        }
    } else {
        assert(at_range(edits, range) =~= edits);
        assert(coalesced(edits) =~= Seq::<TextEditView>::empty());
        assert(at_range(coalesced(edits), range) =~= Seq::<TextEditView>::empty());
    }
}

}
