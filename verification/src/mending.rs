//! What the action for a whole file makes of its text.
use crate::annotation::canonical;
use crate::applied::{
    applied, applied_first, end_in, lemma_applied_starts, lemma_kept, lemma_put_one,
    lemma_replaced_part, moved, put_at, start_in,
};
use crate::diagnostics::{
    annotation_diagnostic, annotation_diagnostics_of, annotation_edit, code_actions_of,
    edits_by_name, same_annotation, source_action,
};
use crate::edits::{
    coalesced, coalesced_edits_cover_all, import_edits, imports_are_whole_lines, insert_position,
    is_covered, is_insertion, lemma_coalesced_place, lone_edit_is_kept, TextEditView,
};
use crate::fixture::{value_annotation, FixtureView};
use crate::imports::bindings_in;
use crate::index::{named, other_imports_keep_the_visible, visible_in, FixtureIndexView};
use crate::parameters::{parameter_infos, parameters_stand_in_the_text, ParameterAnnotationInfoView};
use crate::path::PathView;
use crate::position::{index_of_position, reads, text_at, Range};
use crate::protocol::{AnnotationDiagnosticKind, FixtureAnnotationDiagnosticView};
use crate::syntax::{python_body, python_module, SourceModuleView, StatementView};
use crate::text::{
    fits, lemma_filter_map_has, lemma_flat_map_has, lemma_flat_map_source, lemma_squeeze_trim,
    occurs_at, squeeze, trim,
};
use crate::visibility::{adds_no_fixture, imports_in};
use crate::workspace::WorkspaceView;
use vstd::prelude::*;

verus! {

/// The action for the whole file mends every finding: its edits hold all those of each.
pub proof fn whole_file_action_covers_every_finding(
    text: Seq<char>,
    module: Option<SourceModuleView>,
    uri: Seq<char>,
    diagnostics: Seq<FixtureAnnotationDiagnosticView>,
    visible: Seq<FixtureView>,
    i: int,
    j: int,
)
    requires
        0 <= i < diagnostics.len(),
        0 <= j < edits_by_name(text, module, diagnostics[i], visible).len(),
    ensures
        is_covered(
            source_action(text, module, uri, diagnostics, visible).edit.edits,
            edits_by_name(text, module, diagnostics[i], visible)[j],
        ),
{
    let edits = |d: FixtureAnnotationDiagnosticView| edits_by_name(text, module, d, visible);
    let all = diagnostics.flat_map(edits);
    let edit = edits(diagnostics[i])[j];
    lemma_flat_map_has(diagnostics, edits, i, j);
    let n = all.index_of(edit);
    coalesced_edits_cover_all(all, n);
}

/// What is wrong with the annotation of a parameter of a file, if anything.
pub open spec fn finding(
    ws: WorkspaceView,
    file: PathView,
    body: Seq<StatementView>,
    visible: Seq<FixtureView>,
    p: ParameterAnnotationInfoView,
) -> Option<FixtureAnnotationDiagnosticView> {
    annotation_diagnostic(
        p,
        visible,
        |written: Seq<char>, expected: Seq<char>, f: FixtureView|
            same_annotation(ws, file, body, written, expected, f),
    )
}

/// The annotation of a parameter, wherever it stands.
pub open spec fn written_annotation(p: ParameterAnnotationInfoView) -> Option<Seq<char>> {
    match p.annotation {
        Some((written, _)) => Some(written),
        None => None,
    }
}

/// The parameter has the type of a fixture by the imports of its file alone: its annotation is
/// not the fixture's own.
pub open spec fn relies_on_imports(
    p: ParameterAnnotationInfoView,
    visible: Seq<FixtureView>,
) -> bool {
    named(visible, p.name) matches Some(f) && value_annotation(f) matches Some(expected)
        && written_annotation(p) matches Some(written) && squeeze(written) != squeeze(
        expected.text,
    )
}

/// The parameter `q` has the annotation of `p`. Where it relies on imports, it is written out to
/// the same by those of the one file and the other.
pub open spec fn keeps_annotation(
    ws: WorkspaceView,
    file: PathView,
    body: Seq<StatementView>,
    later: Seq<StatementView>,
    visible: Seq<FixtureView>,
    p: ParameterAnnotationInfoView,
    q: ParameterAnnotationInfoView,
) -> bool {
    &&& written_annotation(q) == written_annotation(p)
    &&& relies_on_imports(p, visible) ==> canonical(
        written_annotation(p).unwrap(),
        bindings_in(ws, file, later),
    ) == canonical(written_annotation(p).unwrap(), bindings_in(ws, file, body))
}

/// The parameter `q` is `p` after its file was mended: it has the annotation that the finding
/// asks for, if there was one, and else the annotation that it had. Where that one relies on
/// imports, it is still written out to the same by those of the mended file.
pub open spec fn is_mended(
    ws: WorkspaceView,
    file: PathView,
    body: Seq<StatementView>,
    later: Seq<StatementView>,
    visible: Seq<FixtureView>,
    p: ParameterAnnotationInfoView,
    q: ParameterAnnotationInfoView,
) -> bool {
    &&& q.name == p.name
    &&& match finding(ws, file, body, visible, p) {
        Some(d) => written_annotation(q) matches Some(written) && squeeze(written) == squeeze(
            d.fixture_annotation,
        ),
        None => keeps_annotation(ws, file, body, later, visible, p, q),
    }
}

/// Every parameter is as [`is_mended`] says.
pub open spec fn are_mended(
    ws: WorkspaceView,
    file: PathView,
    body: Seq<StatementView>,
    later: Seq<StatementView>,
    visible: Seq<FixtureView>,
    ps: Seq<ParameterAnnotationInfoView>,
    qs: Seq<ParameterAnnotationInfoView>,
) -> bool {
    &&& ps.len() == qs.len()
    &&& forall|i: int|
        0 <= i < ps.len() ==> #[trigger] is_mended(ws, file, body, later, visible, ps[i], qs[i])
}

proof fn lemma_none_found(
    infos: Seq<ParameterAnnotationInfoView>,
    f: spec_fn(ParameterAnnotationInfoView) -> Option<FixtureAnnotationDiagnosticView>,
)
    requires
        forall|i: int| 0 <= i < infos.len() ==> f(#[trigger] infos[i]) is None,
    ensures
        infos.filter_map(f) == Seq::<FixtureAnnotationDiagnosticView>::empty(),
{
    let found = infos.filter_map(f);
    if found.len() > 0 {
        assert(found.contains(found[0]));
        infos.lemma_filter_map_contains(f, found[0]);
    }
}

/// Where every parameter with a finding has the annotation that the finding asks for, every other
/// parameter the one that it had, and the imports that were added bring no name of a fixture,
/// nothing is found any more.
pub proof fn mended_parameters_are_accepted(
    ws: WorkspaceView,
    index: FixtureIndexView,
    file: PathView,
    text: Seq<char>,
    mended: Seq<char>,
)
    requires
        adds_no_fixture(
            imports_in(ws, index.root, python_body(text)),
            imports_in(ws, index.root, python_body(mended)),
            index.fixtures,
        ),
        are_mended(
            ws,
            file,
            python_body(text),
            python_body(mended),
            visible_in(ws, index, file, python_body(text)),
            parameter_infos(text, python_body(text)),
            parameter_infos(mended, python_body(mended)),
        ),
    ensures
        annotation_diagnostics_of(ws, index, file, mended)
            == Seq::<FixtureAnnotationDiagnosticView>::empty(),
{
    let body = python_body(text);
    let later = python_body(mended);
    let visible = visible_in(ws, index, file, body);
    let ps = parameter_infos(text, body);
    let qs = parameter_infos(mended, later);
    other_imports_keep_the_visible(ws, index, file, body, later);
    let same = |written: Seq<char>, expected: Seq<char>, f: FixtureView|
        same_annotation(ws, file, later, written, expected, f);
    let g = |p: ParameterAnnotationInfoView| annotation_diagnostic(p, visible, same);
    assert forall|i: int| 0 <= i < qs.len() implies g(#[trigger] qs[i]) is None by {
        assert(is_mended(ws, file, body, later, visible, ps[i], qs[i]));
    }
    lemma_none_found(qs, g);
    assert(annotation_diagnostics_of(ws, index, file, mended) == qs.filter_map(g));
}

/// The character at which the edited part of a finding starts.
pub open spec fn finding_start(text: Seq<char>, d: FixtureAnnotationDiagnosticView) -> int {
    index_of_position(text, d.edit_range.start)
}

/// The character at which the edited part of a finding ends.
pub open spec fn finding_end(text: Seq<char>, d: FixtureAnnotationDiagnosticView) -> int {
    index_of_position(text, d.edit_range.end)
}

/// One finding ends before the other starts.
pub open spec fn are_findings_apart(
    text: Seq<char>,
    d: FixtureAnnotationDiagnosticView,
    e: FixtureAnnotationDiagnosticView,
) -> bool {
    finding_end(text, d) < finding_start(text, e) || finding_end(text, e) < finding_start(text, d)
}

/// No two findings overlap or touch, and imports are inserted at none of them.
pub open spec fn places_are_apart(
    text: Seq<char>,
    module: Option<SourceModuleView>,
    diagnostics: Seq<FixtureAnnotationDiagnosticView>,
) -> bool {
    let at = index_of_position(text, insert_position(text, module));
    &&& forall|i: int|
        0 <= i < diagnostics.len() ==> at < finding_start(text, #[trigger] diagnostics[i])
            || finding_end(text, diagnostics[i]) < at
    &&& forall|i: int, j: int|
        0 <= i < diagnostics.len() && 0 <= j < diagnostics.len() && i != j
            ==> #[trigger] are_findings_apart(text, diagnostics[i], diagnostics[j])
}

/// The edited text has the annotation that the finding asks for: behind the name where there was
/// none, and else in place of the one that was there.
pub open spec fn writes_annotation(
    text: Seq<char>,
    edits: Seq<TextEditView>,
    d: FixtureAnnotationDiagnosticView,
) -> bool {
    let at = moved(text, edits, finding_start(text, d));
    match d.kind {
        AnnotationDiagnosticKind::Missing => occurs_at(
            applied(text, edits),
            d.fixture_name + ": "@ + d.fixture_annotation,
            at,
        ),
        AnnotationDiagnosticKind::Mismatched => {
            &&& occurs_at(applied(text, edits), d.fixture_annotation, at)
            &&& finding_start(text, d) < finding_end(text, d) ==> moved(
                text,
                edits,
                finding_end(text, d),
            ) == at + d.fixture_annotation.len()
        },
    }
}

/// The edit lies before the part or behind it.
spec fn lies_elsewhere(text: Seq<char>, edit: TextEditView, start: int, end: int) -> bool {
    &&& start_in(text, edit) <= end_in(text, edit)
    &&& end_in(text, edit) < start || end < start_in(text, edit)
}

proof fn lemma_writes_annotation(
    text: Seq<char>,
    edits: Seq<TextEditView>,
    d: FixtureAnnotationDiagnosticView,
    k: int,
)
    requires
        0 <= k < edits.len(),
        edits[k] == annotation_edit(d),
        forall|m: int|
            0 <= m < edits.len() && m != k ==> lies_elsewhere(
                text,
                #[trigger] edits[m],
                finding_start(text, d),
                finding_end(text, d),
            ),
        0 <= finding_start(text, d) <= finding_end(text, d) <= text.len(),
        d.kind is Missing ==> text.subrange(finding_start(text, d), finding_end(text, d))
            == d.fixture_name,
    ensures
        writes_annotation(text, edits, d),
{
    let start = finding_start(text, d);
    let end = finding_end(text, d);
    let after = applied(text, edits);
    let before = applied_first(text, edits, start);
    match d.kind {
        AnnotationDiagnosticKind::Missing => {
            lemma_put_one(text, edits, end, k);
            lemma_kept(text, edits, start, end);
            lemma_applied_starts(text, edits, end);
            let part = d.fixture_name + ": "@ + d.fixture_annotation;
            let whole = applied_first(text, edits, end) + put_at(text, edits, end);
            assert(whole =~= before + part);
            assert(after.subrange(0, whole.len() as int) == whole);
            assert(after.subrange(before.len() as int, (before.len() + part.len()) as int)
                =~= whole.subrange(before.len() as int, whole.len() as int));
            assert(whole.subrange(before.len() as int, whole.len() as int) =~= part);
        },
        AnnotationDiagnosticKind::Mismatched => {
            lemma_put_one(text, edits, start, k);
            lemma_applied_starts(text, edits, start);
            let part = d.fixture_annotation;
            let whole = before + part;
            assert(after.subrange(0, whole.len() as int) == whole);
            assert(after.subrange(before.len() as int, (before.len() + part.len()) as int)
                =~= whole.subrange(before.len() as int, whole.len() as int));
            assert(whole.subrange(before.len() as int, whole.len() as int) =~= part);
            if start < end {
                lemma_replaced_part(text, edits, k, start, end);
            }
        },
    }
}

/// The finding is about a parameter of the text, whose fixture is visible and has a known type.
spec fn is_founded(
    text: Seq<char>,
    d: FixtureAnnotationDiagnosticView,
    visible: Seq<FixtureView>,
) -> bool {
    &&& named(visible, d.fixture_name) matches Some(f) && value_annotation(f) is Some
    &&& 0 <= finding_start(text, d) <= finding_end(text, d) <= text.len()
    &&& d.kind is Missing ==> text.subrange(finding_start(text, d), finding_end(text, d))
        == d.fixture_name
}

proof fn lemma_founded(
    ws: WorkspaceView,
    index: FixtureIndexView,
    file: PathView,
    text: Seq<char>,
    i: int,
)
    requires
        fits(text),
        0 <= i < annotation_diagnostics_of(ws, index, file, text).len(),
    ensures
        is_founded(
            text,
            annotation_diagnostics_of(ws, index, file, text)[i],
            visible_in(ws, index, file, python_body(text)),
        ),
{
    let body = python_body(text);
    let visible = visible_in(ws, index, file, body);
    let d = annotation_diagnostics_of(ws, index, file, text)[i];
    let same = |written: Seq<char>, expected: Seq<char>, f: FixtureView|
        same_annotation(ws, file, body, written, expected, f);
    let g = |p: ParameterAnnotationInfoView| annotation_diagnostic(p, visible, same);
    let infos = parameter_infos(text, body);
    assert(infos.filter_map(g).contains(d));
    infos.lemma_filter_map_contains(g, d);
    let p = choose|p: ParameterAnnotationInfoView| #[trigger]
        infos.contains(p) && g(p) == Some(d);
    parameters_stand_in_the_text(text, body, infos.index_of(p));
}

/// What the edits for a finding are: insertions of imports, and the edit of the annotation.
proof fn lemma_edit_of_finding(
    text: Seq<char>,
    module: Option<SourceModuleView>,
    d: FixtureAnnotationDiagnosticView,
    visible: Seq<FixtureView>,
    edit: TextEditView,
)
    requires
        edits_by_name(text, module, d, visible).contains(edit),
    ensures
        edit == annotation_edit(d) || (is_insertion(edit) && edit.range.start == insert_position(
            text,
            module,
        )),
{
    let f = named(visible, d.fixture_name)->0;
    let annotation = value_annotation(f)->0;
    let imports = import_edits(text, module, annotation.imports);
    let k = edits_by_name(text, module, d, visible).index_of(edit);
    if k < imports.len() {
        imports_are_whole_lines(text, module, annotation.imports, k);
    }
}

proof fn lemma_source_action_writes(
    text: Seq<char>,
    module: Option<SourceModuleView>,
    uri: Seq<char>,
    diagnostics: Seq<FixtureAnnotationDiagnosticView>,
    visible: Seq<FixtureView>,
    i: int,
)
    requires
        0 <= i < diagnostics.len(),
        places_are_apart(text, module, diagnostics),
        forall|j: int|
            0 <= j < diagnostics.len() ==> is_founded(text, #[trigger] diagnostics[j], visible),
    ensures
        writes_annotation(
            text,
            source_action(text, module, uri, diagnostics, visible).edit.edits,
            diagnostics[i],
        ),
{
    let d = diagnostics[i];
    let start = finding_start(text, d);
    let end = finding_end(text, d);
    let at = insert_position(text, module);
    let f = |d: FixtureAnnotationDiagnosticView| edits_by_name(text, module, d, visible);
    let flat = diagnostics.flat_map(f);
    let edits = coalesced(flat);
    let edit = annotation_edit(d);
    assert(is_founded(text, d, visible));
    let own = f(d).len() - 1;
    assert(f(d)[own] == edit);
    lemma_flat_map_has(diagnostics, f, i, own);
    let n = flat.index_of(edit);
    // An edit is the one of this finding, or lies elsewhere.
    assert forall|m: int| 0 <= m < flat.len() implies #[trigger] flat[m] == edit
        || lies_elsewhere(text, flat[m], start, end) by {
        assert(flat.contains(flat[m]));
        let j = lemma_flat_map_source(diagnostics, f, flat[m]);
        let e = diagnostics[j];
        lemma_edit_of_finding(text, module, e, visible, flat[m]);
        assert(is_founded(text, e, visible));
        if j != i && flat[m] == annotation_edit(e) {
            assert(are_findings_apart(text, diagnostics[i], diagnostics[j]));
        } else if j != i {
            assert(at == flat[m].range.start);
            assert(at == flat[m].range.end);
            assert(finding_start(text, d) == finding_start(text, diagnostics[i]));
        }
    }
    assert(start <= start_in(text, edit) <= end);
    assert forall|m: int| 0 <= m < flat.len() && (#[trigger] flat[m]).range
        == flat[n].range implies flat[m] == flat[n] by {}
    let k = lone_edit_is_kept(flat, n);
    assert forall|m: int| 0 <= m < edits.len() && m != k implies lies_elsewhere(
        text,
        #[trigger] edits[m],
        start,
        end,
    ) by {
        lemma_coalesced_place(flat, m);
        let j = choose|j: int| 0 <= j < flat.len() && (#[trigger] flat[j]).range == edits[m].range;
        assert(flat[j] == edit || lies_elsewhere(text, flat[j], start, end));
    }
    lemma_writes_annotation(text, edits, d, k);
}

/// What the action for the whole file changes in its text.
pub open spec fn whole_file_edits(
    ws: WorkspaceView,
    index: FixtureIndexView,
    file: PathView,
    text: Seq<char>,
    uri: Seq<char>,
    requested: Option<Range>,
) -> Seq<TextEditView> {
    code_actions_of(ws, index, file, text, uri, requested).last().edit.edits
}

/// The action for the whole file writes the annotation of every finding where it belongs.
pub proof fn whole_file_action_writes_every_annotation(
    ws: WorkspaceView,
    index: FixtureIndexView,
    file: PathView,
    text: Seq<char>,
    uri: Seq<char>,
    requested: Option<Range>,
    i: int,
)
    requires
        fits(text),
        0 <= i < annotation_diagnostics_of(ws, index, file, text).len(),
        places_are_apart(
            text,
            python_module(text),
            annotation_diagnostics_of(ws, index, file, text),
        ),
    ensures
        writes_annotation(
            text,
            whole_file_edits(ws, index, file, text, uri, requested),
            annotation_diagnostics_of(ws, index, file, text)[i],
        ),
{
    let diagnostics = annotation_diagnostics_of(ws, index, file, text);
    let visible = visible_in(ws, index, file, python_body(text));
    assert forall|j: int| 0 <= j < diagnostics.len() implies is_founded(
        text,
        #[trigger] diagnostics[j],
        visible,
    ) by {
        lemma_founded(ws, index, file, text, j);
    }
    lemma_source_action_writes(text, python_module(text), uri, diagnostics, visible, i);
}

/// The part of the text at the range overlaps and touches no finding, and no imports are inserted
/// at it.
pub open spec fn stays_apart(
    text: Seq<char>,
    module: Option<SourceModuleView>,
    diagnostics: Seq<FixtureAnnotationDiagnosticView>,
    range: Range,
) -> bool {
    let start = index_of_position(text, range.start);
    let end = index_of_position(text, range.end);
    let at = index_of_position(text, insert_position(text, module));
    &&& at < start || end < at
    &&& forall|i: int|
        0 <= i < diagnostics.len() ==> finding_end(text, #[trigger] diagnostics[i]) < start || end
            < finding_start(text, diagnostics[i])
}

/// The part of the text at the range, as it stands after the edits.
pub open spec fn text_after(text: Seq<char>, edits: Seq<TextEditView>, range: Range) -> Seq<char> {
    applied(text, edits).subrange(
        moved(text, edits, index_of_position(text, range.start)),
        moved(text, edits, index_of_position(text, range.end)),
    )
}

/// The action for the whole file leaves every other part of the text as it is.
pub proof fn whole_file_action_keeps_the_rest(
    ws: WorkspaceView,
    index: FixtureIndexView,
    file: PathView,
    text: Seq<char>,
    uri: Seq<char>,
    requested: Option<Range>,
    range: Range,
)
    requires
        fits(text),
        annotation_diagnostics_of(ws, index, file, text).len() > 0,
        reads(text, range, text_at(text, range)),
        stays_apart(
            text,
            python_module(text),
            annotation_diagnostics_of(ws, index, file, text),
            range,
        ),
    ensures
        text_after(text, whole_file_edits(ws, index, file, text, uri, requested), range)
            == text_at(text, range),
{
    let module = python_module(text);
    let diagnostics = annotation_diagnostics_of(ws, index, file, text);
    let visible = visible_in(ws, index, file, python_body(text));
    let start = index_of_position(text, range.start);
    let end = index_of_position(text, range.end);
    let f = |d: FixtureAnnotationDiagnosticView| edits_by_name(text, module, d, visible);
    let flat = diagnostics.flat_map(f);
    let edits = coalesced(flat);
    assert(edits == whole_file_edits(ws, index, file, text, uri, requested));
    assert forall|m: int| 0 <= m < edits.len() implies lies_elsewhere(
        text,
        #[trigger] edits[m],
        start,
        end,
    ) by {
        lemma_coalesced_place(flat, m);
        let n = choose|n: int| 0 <= n < flat.len() && (#[trigger] flat[n]).range == edits[m].range;
        assert(flat.contains(flat[n]));
        let j = lemma_flat_map_source(diagnostics, f, flat[n]);
        lemma_edit_of_finding(text, module, diagnostics[j], visible, flat[n]);
        lemma_founded(ws, index, file, text, j);
    }
    lemma_kept(text, edits, start, end);
    lemma_applied_starts(text, edits, end);
    let after = applied(text, edits);
    let before = applied_first(text, edits, start);
    let whole = applied_first(text, edits, end) + put_at(text, edits, end);
    assert(after.subrange(0, whole.len() as int) == whole);
    assert(text_after(text, edits, range) =~= whole.subrange(
        before.len() as int,
        (before.len() + end - start) as int,
    ));
    assert(text_after(text, edits, range) =~= text_at(text, range));
}

/// The findings of a file, the annotations of its other parameters, and the place at which imports
/// are inserted are apart from one another.
pub open spec fn parts_are_apart(
    ws: WorkspaceView,
    index: FixtureIndexView,
    file: PathView,
    text: Seq<char>,
) -> bool {
    let body = python_body(text);
    let module = python_module(text);
    let visible = visible_in(ws, index, file, body);
    let infos = parameter_infos(text, body);
    let diagnostics = annotation_diagnostics_of(ws, index, file, text);
    &&& places_are_apart(text, module, diagnostics)
    &&& forall|i: int|
        0 <= i < infos.len() && finding(ws, file, body, visible, #[trigger] infos[i]) is None ==> (
        infos[i].annotation matches Some((_, range)) ==> stays_apart(
            text,
            module,
            diagnostics,
            range,
        ))
}

/// Where the annotation that a finding asks for stands in the edited text.
pub open spec fn annotation_start(
    text: Seq<char>,
    edits: Seq<TextEditView>,
    d: FixtureAnnotationDiagnosticView,
) -> int {
    let at = moved(text, edits, finding_start(text, d));
    match d.kind {
        AnnotationDiagnosticKind::Missing => at + d.fixture_name.len() + 2,
        AnnotationDiagnosticKind::Mismatched => at,
    }
}

/// The parameter `q` is `p` as it is read from the edited text. Its annotation is read where the
/// edits wrote one, if there was a finding, and else where the one that it had stands now. Where
/// that one relies on imports, it is still written out to the same by those of the edited file.
pub open spec fn is_reread(
    ws: WorkspaceView,
    file: PathView,
    text: Seq<char>,
    edits: Seq<TextEditView>,
    visible: Seq<FixtureView>,
    p: ParameterAnnotationInfoView,
    q: ParameterAnnotationInfoView,
) -> bool {
    let after = applied(text, edits);
    let (body, later) = (python_body(text), python_body(after));
    &&& q.name == p.name
    &&& match (finding(ws, file, body, visible, p), p.annotation) {
        (Some(d), _) => {
            let start = annotation_start(text, edits, d);
            written_annotation(q) == Some(
                trim(after.subrange(start, start + d.fixture_annotation.len())),
            )
        },
        (None, Some((written, range))) => {
            &&& written_annotation(q) == Some(trim(text_after(text, edits, range)))
            &&& relies_on_imports(p, visible) ==> canonical(
                written,
                bindings_in(ws, file, later),
            ) == canonical(written, bindings_in(ws, file, body))
        },
        (None, None) => written_annotation(q) is None,
    }
}

/// Every parameter is as [`is_reread`] says.
pub open spec fn are_reread(
    ws: WorkspaceView,
    file: PathView,
    text: Seq<char>,
    edits: Seq<TextEditView>,
    visible: Seq<FixtureView>,
    ps: Seq<ParameterAnnotationInfoView>,
    qs: Seq<ParameterAnnotationInfoView>,
) -> bool {
    &&& ps.len() == qs.len()
    &&& forall|i: int|
        0 <= i < ps.len() ==> #[trigger] is_reread(ws, file, text, edits, visible, ps[i], qs[i])
}

proof fn lemma_annotation_stands(
    text: Seq<char>,
    edits: Seq<TextEditView>,
    d: FixtureAnnotationDiagnosticView,
)
    requires
        writes_annotation(text, edits, d),
    ensures
        occurs_at(applied(text, edits), d.fixture_annotation, annotation_start(text, edits, d)),
{
    reveal_strlit(": ");
    let after = applied(text, edits);
    let at = moved(text, edits, finding_start(text, d));
    let start = annotation_start(text, edits, d);
    let head = d.fixture_name + ": "@;
    if d.kind is Missing {
        let whole = head + d.fixture_annotation;
        assert(after.subrange(at, at + whole.len()) == whole);
        assert(after.subrange(start, start + d.fixture_annotation.len()) =~= whole.subrange(
            head.len() as int,
            whole.len() as int,
        ));
        assert(whole.subrange(head.len() as int, whole.len() as int) =~= d.fixture_annotation);
    }
}

/// The action for the whole file leaves no finding: in the text that its edits give, nothing is
/// found any more.
///
/// What is taken of the edited text is only how it is read again: that it has the parameters of
/// the text, with their annotations where the edits wrote or left them, that annotations which
/// rely on imports are still written out to the same, and that the imports that were added bring
/// no name of a fixture.
pub proof fn whole_file_action_leaves_no_finding(
    ws: WorkspaceView,
    index: FixtureIndexView,
    file: PathView,
    text: Seq<char>,
    uri: Seq<char>,
    requested: Option<Range>,
)
    requires
        fits(text),
        annotation_diagnostics_of(ws, index, file, text).len() > 0,
        parts_are_apart(ws, index, file, text),
        adds_no_fixture(
            imports_in(ws, index.root, python_body(text)),
            imports_in(
                ws,
                index.root,
                python_body(
                    applied(text, whole_file_edits(ws, index, file, text, uri, requested)),
                ),
            ),
            index.fixtures,
        ),
        are_reread(
            ws,
            file,
            text,
            whole_file_edits(ws, index, file, text, uri, requested),
            visible_in(ws, index, file, python_body(text)),
            parameter_infos(text, python_body(text)),
            parameter_infos(
                applied(text, whole_file_edits(ws, index, file, text, uri, requested)),
                python_body(
                    applied(text, whole_file_edits(ws, index, file, text, uri, requested)),
                ),
            ),
        ),
    ensures
        annotation_diagnostics_of(
            ws,
            index,
            file,
            applied(text, whole_file_edits(ws, index, file, text, uri, requested)),
        ) == Seq::<FixtureAnnotationDiagnosticView>::empty(),
{
    let body = python_body(text);
    let visible = visible_in(ws, index, file, body);
    let diagnostics = annotation_diagnostics_of(ws, index, file, text);
    let edits = whole_file_edits(ws, index, file, text, uri, requested);
    let after = applied(text, edits);
    let later = python_body(after);
    let ps = parameter_infos(text, body);
    let qs = parameter_infos(after, later);
    let same = |written: Seq<char>, expected: Seq<char>, f: FixtureView|
        same_annotation(ws, file, body, written, expected, f);
    let g = |p: ParameterAnnotationInfoView| annotation_diagnostic(p, visible, same);
    assert forall|i: int| 0 <= i < ps.len() implies #[trigger] is_mended(
        ws,
        file,
        body,
        later,
        visible,
        ps[i],
        qs[i],
    ) by {
        assert(is_reread(ws, file, text, edits, visible, ps[i], qs[i]));
        if g(ps[i]) is Some {
            let d = g(ps[i])->0;
            lemma_filter_map_has(ps, g, i);
            assert(ps.filter_map(g) == diagnostics);
            let n = diagnostics.index_of(d);
            whole_file_action_writes_every_annotation(ws, index, file, text, uri, requested, n);
            lemma_annotation_stands(text, edits, d);
            lemma_squeeze_trim(d.fixture_annotation);
        } else if ps[i].annotation is Some {
            let (_, range) = ps[i].annotation->0;
            parameters_stand_in_the_text(text, body, i);
            assert(finding(ws, file, body, visible, ps[i]) is None);
            whole_file_action_keeps_the_rest(ws, index, file, text, uri, requested, range);
        }
    }
    mended_parameters_are_accepted(ws, index, file, text, after);
}

}
