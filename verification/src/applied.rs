//! Texts after edits.
use crate::annotation::ImportRequirementView;
use crate::edits::{
    body_imports, has_line, has_name, import_edit, import_edits, import_statement,
    imports_are_whole_lines, imports_name, insert_position, is_import, is_imported, is_insertion,
    no_import_is_added_twice, statement_imports, TextEditView,
};
use crate::position::{
    end_of, index_of_position, lemma_index_in_text, lemma_index_of_line, Position,
};
use crate::syntax::{
    valid_body, ImportedNameView, SourceModuleView, StatementKindView, StatementView,
};
use crate::text::{
    is_ended, is_white, lemma_filter_map_has, lemma_lines_of_both, lemma_lines_of_line, lines,
    starts_with, trim,
};
use vstd::prelude::*;

verus! {

/// The character at which an edit starts.
pub open spec fn start_in(text: Seq<char>, edit: TextEditView) -> int {
    index_of_position(text, edit.range.start)
}

/// The character before which an edit ends.
pub open spec fn end_in(text: Seq<char>, edit: TextEditView) -> int {
    index_of_position(text, edit.range.end)
}

/// What the edits that start at a character write, in order.
pub open spec fn put_at(text: Seq<char>, edits: Seq<TextEditView>, i: int) -> Seq<char>
    decreases edits.len(),
{
    if edits.len() == 0 {
        Seq::empty()
    } else if start_in(text, edits.last()) == i {
        put_at(text, edits.drop_last(), i) + edits.last().new_text
    } else {
        put_at(text, edits.drop_last(), i)
    }
}

/// An edit replaces the character.
pub open spec fn is_cut(text: Seq<char>, edits: Seq<TextEditView>, i: int) -> bool {
    exists|k: int|
        0 <= k < edits.len() && start_in(text, #[trigger] edits[k]) <= i < end_in(text, edits[k])
}

/// What becomes of the first `n` characters of a text.
pub open spec fn applied_first(text: Seq<char>, edits: Seq<TextEditView>, n: int) -> Seq<char>
    decreases n,
{
    if n <= 0 {
        Seq::empty()
    } else {
        let before = applied_first(text, edits, n - 1) + put_at(text, edits, n - 1);
        if is_cut(text, edits, n - 1) {
            before
        } else {
            before.push(text[n - 1])
        }
    }
}

/// The text after the edits, whose ranges are all those of the text before. What several edits
/// write at one place stands there in their order.
pub open spec fn applied(text: Seq<char>, edits: Seq<TextEditView>) -> Seq<char> {
    applied_first(text, edits, text.len() as int) + put_at(text, edits, text.len() as int)
}

/// Where a character of the text stands after the edits; what is put before it comes there.
pub open spec fn moved(text: Seq<char>, edits: Seq<TextEditView>, i: int) -> int {
    applied_first(text, edits, i).len() as int
}

proof fn lemma_put_nothing(text: Seq<char>, edits: Seq<TextEditView>, i: int)
    requires
        forall|k: int| 0 <= k < edits.len() ==> start_in(text, #[trigger] edits[k]) != i,
    ensures
        put_at(text, edits, i) == Seq::<char>::empty(),
    decreases edits.len(),
{
    if edits.len() > 0 {
        let fewer = edits.drop_last();
        assert forall|k: int| 0 <= k < fewer.len() implies start_in(text, #[trigger] fewer[k])
            != i by {
            assert(fewer[k] == edits[k]);
        }
        lemma_put_nothing(text, fewer, i);
        assert(edits.last() == edits[edits.len() - 1]);
    }
}

/// What is put at a place where only one edit starts is what that edit writes.
pub proof fn lemma_put_one(text: Seq<char>, edits: Seq<TextEditView>, i: int, k: int)
    requires
        0 <= k < edits.len(),
        start_in(text, edits[k]) == i,
        forall|j: int|
            0 <= j < edits.len() && j != k ==> start_in(text, #[trigger] edits[j]) != i,
    ensures
        put_at(text, edits, i) == edits[k].new_text,
    decreases edits.len(),
{
    let fewer = edits.drop_last();
    assert forall|j: int| 0 <= j < fewer.len() && j != k implies start_in(
        text,
        #[trigger] fewer[j],
    ) != i by {
        assert(fewer[j] == edits[j]);
    }
    if k < fewer.len() {
        assert(fewer[k] == edits[k]);
        lemma_put_one(text, fewer, i, k);
        assert(edits.last() == edits[edits.len() - 1]);
    } else {
        lemma_put_nothing(text, fewer, i);
        assert(put_at(text, edits, i) =~= edits[k].new_text);
    }
}

/// What becomes of the first characters, and what is put behind them, is what the result starts
/// with.
pub proof fn lemma_applied_starts(text: Seq<char>, edits: Seq<TextEditView>, n: int)
    requires
        0 <= n <= text.len(),
    ensures
        starts_with(
            applied(text, edits),
            applied_first(text, edits, n) + put_at(text, edits, n),
        ),
    decreases text.len() - n,
{
    let after = applied(text, edits);
    let part = applied_first(text, edits, n) + put_at(text, edits, n);
    if n == text.len() {
        assert(after.subrange(0, part.len() as int) =~= part);
    } else {
        lemma_applied_starts(text, edits, n + 1);
        let more = applied_first(text, edits, n + 1) + put_at(text, edits, n + 1);
        assert(after.subrange(0, more.len() as int) == more);
        assert(part =~= more.subrange(0, part.len() as int));
        assert(after.subrange(0, part.len() as int) =~= more.subrange(0, part.len() as int));
    }
}

/// A part of the text that no edit touches stays.
pub proof fn lemma_kept(text: Seq<char>, edits: Seq<TextEditView>, start: int, end: int)
    requires
        0 <= start <= end <= text.len(),
        forall|k: int|
            0 <= k < edits.len() ==> !(start <= start_in(text, #[trigger] edits[k]) < end) && (
            start_in(text, edits[k]) >= end || end_in(text, edits[k]) <= start || start_in(
                text,
                edits[k],
            ) >= end_in(text, edits[k])),
    ensures
        applied_first(text, edits, end) == applied_first(text, edits, start) + text.subrange(
            start,
            end,
        ),
    decreases end - start,
{
    if start == end {
        assert(applied_first(text, edits, start) + text.subrange(start, end) =~= applied_first(
            text,
            edits,
            start,
        ));
    } else {
        lemma_kept(text, edits, start, end - 1);
        assert(!is_cut(text, edits, end - 1));
        lemma_put_nothing(text, edits, end - 1);
        assert(applied_first(text, edits, end) =~= applied_first(text, edits, start)
            + text.subrange(start, end));
    }
}

/// A part of the text that one edit replaces gives way to what is put there.
pub proof fn lemma_replaced_part(
    text: Seq<char>,
    edits: Seq<TextEditView>,
    k: int,
    start: int,
    end: int,
)
    requires
        0 <= k < edits.len(),
        0 <= start < end <= text.len(),
        start_in(text, edits[k]) == start,
        end <= end_in(text, edits[k]),
        forall|j: int|
            0 <= j < edits.len() ==> !(start < start_in(text, #[trigger] edits[j]) < end),
    ensures
        applied_first(text, edits, end) == applied_first(text, edits, start) + put_at(
            text,
            edits,
            start,
        ),
    decreases end - start,
{
    assert(is_cut(text, edits, end - 1)) by {
        assert(start_in(text, edits[k]) <= end - 1 < end_in(text, edits[k]));
    }
    if start + 1 < end {
        lemma_replaced_part(text, edits, k, start, end - 1);
        lemma_put_nothing(text, edits, end - 1);
        assert(applied_first(text, edits, end) =~= applied_first(text, edits, start) + put_at(
            text,
            edits,
            start,
        ));
    }
}

proof fn lemma_put_all(text: Seq<char>, edits: Seq<TextEditView>, i: int)
    requires
        forall|k: int| 0 <= k < edits.len() ==> start_in(text, #[trigger] edits[k]) == i,
    ensures
        put_at(text, edits, i) == written(edits),
    decreases edits.len(),
{
    if edits.len() > 0 {
        let fewer = edits.drop_last();
        assert forall|k: int| 0 <= k < fewer.len() implies start_in(text, #[trigger] fewer[k])
            == i by {
            assert(fewer[k] == edits[k]);
        }
        lemma_put_all(text, fewer, i);
        assert(edits.last() == edits[edits.len() - 1]);
    }
}

/// Insertions at one place put what they write there, in their order, and change nothing else.
pub proof fn insertions_at_one_place(text: Seq<char>, edits: Seq<TextEditView>, at: Position)
    requires
        forall|k: int|
            0 <= k < edits.len() ==> is_insertion(#[trigger] edits[k]) && edits[k].range.start
                == at,
    ensures
        applied(text, edits) == text.take(index_of_position(text, at)) + written(edits)
            + text.skip(index_of_position(text, at)),
{
    let i = index_of_position(text, at);
    let n = text.len() as int;
    lemma_index_in_text(text, at, 0);
    assert forall|k: int| 0 <= k < edits.len() implies start_in(text, #[trigger] edits[k]) == i
        && end_in(text, edits[k]) == i by {
        assert(is_insertion(edits[k]));
    }
    lemma_kept(text, edits, 0, i);
    lemma_put_all(text, edits, i);
    if i < n {
        lemma_put_nothing(text, edits, n);
        assert(!is_cut(text, edits, i));
        lemma_kept(text, edits, i + 1, n);
    }
    assert(applied(text, edits) =~= text.take(i) + written(edits) + text.skip(i));
}

/// What insertions write, in order.
pub open spec fn written(edits: Seq<TextEditView>) -> Seq<char>
    decreases edits.len(),
{
    if edits.len() == 0 {
        Seq::empty()
    } else {
        written(edits.drop_last()) + edits.last().new_text
    }
}

/// A statement that is a line of its own, with no white space behind it.
pub open spec fn is_one_line(statement: Seq<char>) -> bool {
    &&& statement.len() > 0
    &&& !is_white(statement.last())
    &&& forall|i: int| 0 <= i < statement.len() ==> #[trigger] statement[i] != '\n'
}

/// The statement that imports one name.
pub open spec fn import_of_one_name(r: ImportRequirementView) -> StatementKindView {
    StatementKindView::ImportFrom {
        level: 0,
        module: Some(r.module),
        names: seq![ImportedNameView { name: r.name, asname: r.alias }],
    }
}

/// A statement of the body is of the kind.
pub open spec fn has_kind(body: Seq<StatementView>, kind: StatementKindView) -> bool {
    exists|i: int| 0 <= i < body.len() && (#[trigger] body[i]).kind == kind
}

proof fn lemma_written_line(edits: Seq<TextEditView>, i: int, statement: Seq<char>)
    requires
        0 <= i < edits.len(),
        forall|j: int| 0 <= j < edits.len() ==> is_ended((#[trigger] edits[j]).new_text),
        edits[i].new_text == statement.push('\n'),
        is_one_line(statement),
    ensures
        lines(written(edits)).contains(statement),
    decreases edits.len(),
{
    let fewer = edits.drop_last();
    let last = edits.last();
    lemma_written_ended(fewer);
    lemma_lines_of_both(written(fewer), last.new_text);
    let before = lines(written(fewer));
    let behind = lines(last.new_text);
    if i < fewer.len() {
        lemma_written_line(fewer, i, statement);
        let k = before.index_of(statement);
        assert((before + behind)[k] == statement);
    } else {
        lemma_lines_of_line(statement);
        assert((before + behind)[before.len() as int] == statement);
    }
}

proof fn lemma_written_ended(edits: Seq<TextEditView>)
    requires
        forall|j: int| 0 <= j < edits.len() ==> is_ended((#[trigger] edits[j]).new_text),
    ensures
        is_ended(written(edits)),
    decreases edits.len(),
{
    if edits.len() > 0 {
        lemma_written_ended(edits.drop_last());
        assert(is_ended(edits.last().new_text));
        assert(edits.last().new_text.len() == 0 ==> written(edits) =~= written(edits.drop_last()));
    }
}

proof fn lemma_trim_of_statement(r: ImportRequirementView)
    requires
        is_one_line(import_statement(r)),
    ensures
        trim(import_statement(r)) == import_statement(r),
{
    reveal_strlit("import ");
    reveal_strlit("from ");
    assert(!is_white(import_statement(r)[0]));
}

/// After the edits that add imports, each import is a line of the text: one that was missing, and
/// one of a whole module that was there.
pub proof fn inserted_imports_are_lines(
    text: Seq<char>,
    module: Option<SourceModuleView>,
    imports: Seq<ImportRequirementView>,
    i: int,
)
    requires
        is_ended(text) || insert_position(text, module).line <= end_of(text).0,
        0 <= i < imports.len(),
        is_one_line(import_statement(imports[i])),
        imports[i].name.len() == 0 || !is_imported(text, valid_body(module), imports[i]),
    ensures
        has_line(
            applied(text, import_edits(text, module, imports)),
            import_statement(imports[i]),
        ),
{
    let at = insert_position(text, module);
    let edits = import_edits(text, module, imports);
    let after = applied(text, edits);
    let k = index_of_position(text, at);
    lemma_index_of_line(text, at.line);
    let head = text.take(k);
    let tail = text.skip(k);
    assert(text =~= head + tail);
    assert forall|j: int| 0 <= j < edits.len() implies is_ended((#[trigger] edits[j]).new_text)
        && is_insertion(edits[j]) && edits[j].range.start == at by {
        imports_are_whole_lines(text, module, imports, j);
    }
    lemma_written_ended(edits);
    insertions_at_one_place(text, edits, at);
    assert(written(edits).len() == 0 ==> head + written(edits) =~= head);
    lemma_lines_of_both(head, tail);
    lemma_lines_of_both(head, written(edits));
    lemma_lines_of_both(head + written(edits), tail);
    let (first, new, rest) = (lines(head), lines(written(edits)), lines(tail));
    assert(lines(text) == first + rest);
    assert(lines(after) == first + new + rest);
    let r = imports[i];
    let statement = import_statement(r);
    if is_imported(text, valid_body(module), r) {
        let n = choose|n: int|
            0 <= n < lines(text).len() && trim(#[trigger] lines(text)[n]) == statement;
        let m = if n < first.len() {
            n
        } else {
            n + new.len()
        };
        assert(lines(after)[m] == lines(text)[n]);
    } else {
        let f = |r: ImportRequirementView| import_edit(text, module, r);
        let edit = import_edit(text, module, r).unwrap();
        assert(f(r) == Some(edit));
        lemma_filter_map_has(imports, f, i);
        let j = edits.index_of(edit);
        reveal_strlit("\n");
        assert(edit.new_text =~= statement.push('\n'));
        lemma_written_line(edits, j, statement);
        let n = new.index_of(statement);
        lemma_trim_of_statement(r);
        assert(lines(after)[first.len() + n] == statement);
    }
}

/// Imports that are inserted are recognised: they are not added again.
///
/// `parsed` stands for the text after the insertion. It is taken to hold the imports of `module`
/// and the imports of names that were inserted.
pub proof fn inserted_imports_are_recognised(
    text: Seq<char>,
    module: Option<SourceModuleView>,
    parsed: Option<SourceModuleView>,
    imports: Seq<ImportRequirementView>,
)
    requires
        is_ended(text) || insert_position(text, module).line <= end_of(text).0,
        forall|i: int|
            0 <= i < imports.len() && (#[trigger] imports[i]).name.len() == 0 ==> is_one_line(
                import_statement(imports[i]),
            ),
        forall|i: int|
            0 <= i < valid_body(module).len() && is_import(#[trigger] valid_body(module)[i])
                ==> has_kind(valid_body(parsed), valid_body(module)[i].kind),
        forall|i: int|
            0 <= i < imports.len() && (#[trigger] imports[i]).name.len() > 0 && !is_imported(
                text,
                valid_body(module),
                imports[i],
            ) ==> has_kind(valid_body(parsed), import_of_one_name(imports[i])),
    ensures
        import_edits(
            applied(text, import_edits(text, module, imports)),
            parsed,
            imports,
        ) == Seq::<TextEditView>::empty(),
{
    let after = applied(text, import_edits(text, module, imports));
    assert forall|i: int| 0 <= i < imports.len() implies is_imported(
        after,
        valid_body(parsed),
        #[trigger] imports[i],
    ) by {
        if imports[i].name.len() == 0 {
            inserted_imports_are_lines(text, module, imports, i);
        } else {
            lemma_body_keeps_import(text, module, parsed, imports[i]);
        }
    }
    no_import_is_added_twice(after, parsed, imports);
}

proof fn lemma_body_keeps_import(
    text: Seq<char>,
    module: Option<SourceModuleView>,
    parsed: Option<SourceModuleView>,
    r: ImportRequirementView,
)
    requires
        r.name.len() > 0,
        forall|i: int|
            0 <= i < valid_body(module).len() && is_import(#[trigger] valid_body(module)[i])
                ==> has_kind(valid_body(parsed), valid_body(module)[i].kind),
        !is_imported(text, valid_body(module), r) ==> has_kind(
            valid_body(parsed),
            import_of_one_name(r),
        ),
    ensures
        body_imports(valid_body(parsed), r.module, r.name, r.alias),
{
    let old_body = valid_body(module);
    let body = valid_body(parsed);
    let kind = if is_imported(text, old_body, r) {
        let i = choose|i: int|
            0 <= i < old_body.len() && statement_imports(
                #[trigger] old_body[i],
                r.module,
                r.name,
                r.alias,
            );
        old_body[i].kind
    } else {
        import_of_one_name(r)
    };
    let j = choose|j: int| 0 <= j < body.len() && (#[trigger] body[j]).kind == kind;
    if !is_imported(text, old_body, r) {
        let names = seq![ImportedNameView { name: r.name, asname: r.alias }];
        assert(imports_name(names[0], r.name, r.alias));
        assert(has_name(names, r.name, r.alias));
    }
    assert(statement_imports(body[j], r.module, r.name, r.alias));
}

}
