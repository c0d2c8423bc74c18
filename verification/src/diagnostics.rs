//! Annotations that do not fit their fixtures, and how they are mended.
use crate::annotation::{
    canonical, has_word, is_ascii, names_that_are_not_imported_stay, symbols, ImportRequirementView,
};
use crate::edits::{
    body_imports, coalesce_text_edits, coalesced, import_edits, import_statement,
    import_text_edits_in, imports_are_whole_lines, insert_position, is_imported,
    missing_imports_are_written, statements_name_what_they_import, TextEdit, TextEditView,
};
use crate::fixture::{
    agree, annotations_equivalent, file_bindings, fixture_of, fixture_value_annotation,
    value_annotation, values_have_the_type_that_is_yielded, Fixture, FixtureView,
};
use crate::imports::{bindings_in, module_name};
use crate::index::{find_named, named, visible_in, FixtureIndex, FixtureIndexView};
use crate::parameters::{
    parameter_annotation_infos_in, parameter_infos, ParameterAnnotationInfo,
    ParameterAnnotationInfoView,
};
use crate::path::{FilePath, PathView};
use crate::position::{ranges_intersect_or_touch_cursor, touches, Range};
use crate::protocol::{
    workspace_edit, AnnotationDiagnosticKind, CodeAction, CodeActionKind, CodeActionView,
    Diagnostic, DiagnosticConfig, DiagnosticSeverity, DiagnosticView, FixtureAnnotationDiagnostic,
    FixtureAnnotationDiagnosticView, WorkspaceEditView,
};
use crate::requirements::local_types_are_imported;
use crate::syntax::{
    body_of, parse_module, python_body, python_module, valid_body, FunctionView, SourceModule,
    SourceModuleView, Statement, StatementView,
};
use crate::text::{
    chars_of, fits, lemma_filter_map_count, lemma_filter_map_has, lemma_filter_map_order,
    lemma_views_push, occurs_at, option_view, squeeze, views,
};
use crate::workspace::{outcome, parseable, UnreadableFile, Workspace, WorkspaceView};
use vstd::prelude::*;

verus! {

/// What is wrong with the annotation of a parameter, if anything: that the parameter of a
/// fixture with a known type has none, or one that means something else.
pub open spec fn annotation_diagnostic(
    p: ParameterAnnotationInfoView,
    visible: Seq<FixtureView>,
    same: spec_fn(Seq<char>, Seq<char>, FixtureView) -> bool,
) -> Option<FixtureAnnotationDiagnosticView> {
    match named(visible, p.name) {
        Some(f) => match value_annotation(f) {
            Some(expected) => match p.annotation {
                None => Some(
                    FixtureAnnotationDiagnosticView {
                        kind: AnnotationDiagnosticKind::Missing,
                        fixture_name: p.name,
                        fixture_annotation: expected.text,
                        range: p.name_range,
                        edit_range: p.name_range,
                    },
                ),
                Some((written, range)) => if same(written, expected.text, f) {
                    None
                } else {
                    Some(
                        FixtureAnnotationDiagnosticView {
                            kind: AnnotationDiagnosticKind::Mismatched,
                            fixture_name: p.name,
                            fixture_annotation: expected.text,
                            range,
                            edit_range: range,
                        },
                    )
                },
            },
            None => None,
        },
        None => None,
    }
}

/// An annotation of a file means the same as one of the file that defines a fixture.
pub open spec fn same_annotation(
    ws: WorkspaceView,
    file: PathView,
    body: Seq<StatementView>,
    written: Seq<char>,
    expected: Seq<char>,
    f: FixtureView,
) -> bool {
    agree(written, expected, bindings_in(ws, file, body), file_bindings(ws, f.path))
}

/// What is wrong with the annotations of a file's parameters, in the order of the text.
pub open spec fn annotation_diagnostics_in(
    ws: WorkspaceView,
    file: PathView,
    text: Seq<char>,
    body: Seq<StatementView>,
    visible: Seq<FixtureView>,
) -> Seq<FixtureAnnotationDiagnosticView> {
    parameter_infos(text, body).filter_map(
        |p: ParameterAnnotationInfoView|
            annotation_diagnostic(
                p,
                visible,
                |written: Seq<char>, expected: Seq<char>, f: FixtureView|
                    same_annotation(ws, file, body, written, expected, f),
            ),
    )
}

/// What is wrong with the annotations of a file's parameters.
pub open spec fn annotation_diagnostics_of(
    ws: WorkspaceView,
    index: FixtureIndexView,
    file: PathView,
    text: Seq<char>,
) -> Seq<FixtureAnnotationDiagnosticView> {
    annotation_diagnostics_in(
        ws,
        file,
        text,
        python_body(text),
        visible_in(ws, index, file, python_body(text)),
    )
}

/// A finding as the editor shows it.
pub open spec fn diagnostic_of(
    d: FixtureAnnotationDiagnosticView,
    config: DiagnosticConfig,
) -> DiagnosticView {
    let what = "Fixture `"@ + d.fixture_name + "` returns `"@ + d.fixture_annotation;
    DiagnosticView {
        range: d.range,
        severity: match d.kind {
            AnnotationDiagnosticKind::Missing => config.missing_annotation,
            AnnotationDiagnosticKind::Mismatched => config.mismatched_annotation,
        },
        source: "pyfixy"@,
        message: match d.kind {
            AnnotationDiagnosticKind::Missing => what
                + "`; parameter is missing an annotation"@,
            AnnotationDiagnosticKind::Mismatched => what
                + "`, but parameter has a different annotation"@,
        },
    }
}

fn annotation_diagnostic_for(
    ws: &Workspace,
    file: &FilePath,
    body: &Vec<Statement>,
    p: &ParameterAnnotationInfo,
    visible: &Vec<&Fixture>,
) -> (r: Option<FixtureAnnotationDiagnostic>)
    requires
        parseable(ws@),
    ensures
        option_view(r) == annotation_diagnostic(
            p@,
            views(visible@),
            |written: Seq<char>, expected: Seq<char>, f: FixtureView|
                same_annotation(ws@, file@, views(body@), written, expected, f),
        ),
{
    match find_named(visible, &p.name) {
        Some(f) => match fixture_value_annotation(f) {
            Some(expected) => match &p.annotation {
                None => Some(
                    FixtureAnnotationDiagnostic {
                        kind: AnnotationDiagnosticKind::Missing,
                        fixture_name: p.name.clone(),
                        fixture_annotation: expected.text,
                        range: p.name_range,
                        edit_range: p.name_range,
                    },
                ),
                Some((written, range)) => {
                    if annotations_equivalent(
                        ws,
                        written.as_str(),
                        expected.text.as_str(),
                        file,
                        body,
                        f,
                    ) {
                        None
                    } else {
                        Some(
                            FixtureAnnotationDiagnostic {
                                kind: AnnotationDiagnosticKind::Mismatched,
                                fixture_name: p.name.clone(),
                                fixture_annotation: expected.text,
                                range: *range,
                                edit_range: *range,
                            },
                        )
                    }
                },
            },
            None => None,
        },
        None => None,
    }
}

/// What is wrong with the annotations of the parameters of a parsed text.
pub fn annotation_diagnostics(
    ws: &Workspace,
    file: &FilePath,
    text: &Vec<char>,
    body: &Vec<Statement>,
    visible: &Vec<&Fixture>,
) -> (r: Vec<FixtureAnnotationDiagnostic>)
    requires
        parseable(ws@),
        fits(text@),
    ensures
        views(r@) == annotation_diagnostics_in(
            ws@,
            file@,
            text@,
            views(body@),
            views(visible@),
        ),
{
    let infos: Vec<ParameterAnnotationInfo> = parameter_annotation_infos_in(text, body);
    let ghost all = views(infos@);
    let ghost same = |written: Seq<char>, expected: Seq<char>, f: FixtureView|
        same_annotation(ws@, file@, views(body@), written, expected, f);
    let ghost g = |p: ParameterAnnotationInfoView|
        annotation_diagnostic(p, views(visible@), same);
    let mut out: Vec<FixtureAnnotationDiagnostic> = Vec::new();
    let mut i: usize = 0;
    assert(views(out@) =~= all.take(0).filter_map(g));
    while i < infos.len()
        invariant
            parseable(ws@),
            i <= infos@.len(),
            all == views(infos@),
            same == (|written: Seq<char>, expected: Seq<char>, f: FixtureView|
                same_annotation(ws@, file@, views(body@), written, expected, f)),
            g == (|p: ParameterAnnotationInfoView|
                annotation_diagnostic(p, views(visible@), same)),
            views(out@) == all.take(i as int).filter_map(g),
        decreases infos@.len() - i,
    {
        proof {
            all.lemma_filter_map_take_succ(g, i as int);
            assert(all[i as int] == infos@[i as int]@);
        }
        match annotation_diagnostic_for(ws, file, body, &infos[i], visible) {
            Some(d) => {
                proof {
                    lemma_views_push(out@, d);
                }
                out.push(d);
            },
            None => {},
        }
        assert(views(out@) =~= all.take(i + 1).filter_map(g));
        i = i + 1;
    }
    assert(all.take(all.len() as int) =~= all);
    out
}

/// A finding as the editor shows it.
pub fn diagnostic_for(d: &FixtureAnnotationDiagnostic, config: DiagnosticConfig) -> (r: Diagnostic)
    ensures
        r@ == diagnostic_of(d@, config),
{
    let mut message: String = "Fixture `".to_owned();
    message.append(d.fixture_name.as_str());
    message.append("` returns `");
    message.append(d.fixture_annotation.as_str());
    let severity: DiagnosticSeverity = match d.kind {
        AnnotationDiagnosticKind::Missing => {
            message.append("`; parameter is missing an annotation");
            config.missing_annotation
        },
        AnnotationDiagnosticKind::Mismatched => {
            message.append("`, but parameter has a different annotation");
            config.mismatched_annotation
        },
    };
    Diagnostic { range: d.range, severity, source: "pyfixy".to_owned(), message }
}

/// The edit that writes the annotation of a finding: behind the name where there is none, and
/// else in place of the one that is there.
pub open spec fn annotation_edit(d: FixtureAnnotationDiagnosticView) -> TextEditView {
    match d.kind {
        AnnotationDiagnosticKind::Missing => TextEditView {
            range: Range { start: d.edit_range.end, end: d.edit_range.end },
            new_text: ": "@ + d.fixture_annotation,
        },
        AnnotationDiagnosticKind::Mismatched => TextEditView {
            range: d.edit_range,
            new_text: d.fixture_annotation,
        },
    }
}

/// The edits that mend a finding: the missing imports, and the annotation itself.
pub open spec fn edits_of(
    text: Seq<char>,
    module: Option<SourceModuleView>,
    d: FixtureAnnotationDiagnosticView,
    f: FixtureView,
) -> Seq<TextEditView> {
    match value_annotation(f) {
        Some(annotation) => import_edits(text, module, annotation.imports).push(
            annotation_edit(d),
        ),
        None => Seq::empty(),
    }
}

/// The edits that mend a finding.
pub fn edits_for_annotation(
    text: &Vec<char>,
    module: &Option<SourceModule>,
    d: &FixtureAnnotationDiagnostic,
    f: &Fixture,
) -> (r: Vec<TextEdit>)
    requires
        fits(text@),
    ensures
        views(r@) == edits_of(text@, option_view(*module), d@, f@),
{
    match fixture_value_annotation(f) {
        Some(annotation) => {
            let mut edits: Vec<TextEdit> = import_text_edits_in(text, module, &annotation);
            let edit: TextEdit = match d.kind {
                AnnotationDiagnosticKind::Missing => {
                    let mut new_text: String = ": ".to_owned();
                    new_text.append(d.fixture_annotation.as_str());
                    TextEdit {
                        range: Range { start: d.edit_range.end, end: d.edit_range.end },
                        new_text,
                    }
                },
                AnnotationDiagnosticKind::Mismatched => TextEdit {
                    range: d.edit_range,
                    new_text: d.fixture_annotation.clone(),
                },
            };
            proof {
                lemma_views_push(edits@, edit);
            }
            edits.push(edit);
            edits
        },
        None => {
            let none: Vec<TextEdit> = Vec::new();
            assert(views(none@) =~= Seq::<TextEditView>::empty());
            none
        },
    }
}

/// The finding lies where an action was asked for.
pub open spec fn is_requested(
    d: FixtureAnnotationDiagnosticView,
    requested: Option<Range>,
) -> bool {
    match requested {
        Some(range) => touches(d.range, range),
        None => true,
    }
}

/// The edits that mend a finding, by the visible fixture of its name.
pub open spec fn edits_by_name(
    text: Seq<char>,
    module: Option<SourceModuleView>,
    d: FixtureAnnotationDiagnosticView,
    visible: Seq<FixtureView>,
) -> Seq<TextEditView> {
    match named(visible, d.fixture_name) {
        Some(f) => edits_of(text, module, d, f),
        None => Seq::empty(),
    }
}

/// The action that mends one finding.
pub open spec fn quick_fix(
    text: Seq<char>,
    module: Option<SourceModuleView>,
    uri: Seq<char>,
    d: FixtureAnnotationDiagnosticView,
    visible: Seq<FixtureView>,
    requested: Option<Range>,
) -> Option<CodeActionView> {
    if is_requested(d, requested) && named(visible, d.fixture_name) is Some {
        Some(
            CodeActionView {
                title: "Add fixture type annotation"@,
                kind: CodeActionKind::QuickFix,
                edit: WorkspaceEditView {
                    uri,
                    edits: coalesced(edits_by_name(text, module, d, visible)),
                },
            },
        )
    } else {
        None
    }
}

/// The action that mends all findings of a file.
pub open spec fn source_action(
    text: Seq<char>,
    module: Option<SourceModuleView>,
    uri: Seq<char>,
    diagnostics: Seq<FixtureAnnotationDiagnosticView>,
    visible: Seq<FixtureView>,
) -> CodeActionView {
    CodeActionView {
        title: "Add fixture type annotations in file"@,
        kind: CodeActionKind::Source,
        edit: WorkspaceEditView {
            uri,
            edits: coalesced(
                diagnostics.flat_map(
                    |d: FixtureAnnotationDiagnosticView| edits_by_name(text, module, d, visible),
                ),
            ),
        },
    }
}

/// The actions for a file: one for each finding where it was asked for, and one for them all.
pub open spec fn code_actions_in(
    text: Seq<char>,
    module: Option<SourceModuleView>,
    uri: Seq<char>,
    diagnostics: Seq<FixtureAnnotationDiagnosticView>,
    visible: Seq<FixtureView>,
    requested: Option<Range>,
) -> Seq<CodeActionView> {
    let fixes = diagnostics.filter_map(
        |d: FixtureAnnotationDiagnosticView|
            quick_fix(text, module, uri, d, visible, requested),
    );
    if diagnostics.len() == 0 {
        fixes
    } else {
        fixes.push(source_action(text, module, uri, diagnostics, visible))
    }
}

/// The actions for a file with the given text.
pub open spec fn code_actions_of(
    ws: WorkspaceView,
    index: FixtureIndexView,
    file: PathView,
    text: Seq<char>,
    uri: Seq<char>,
    requested: Option<Range>,
) -> Seq<CodeActionView> {
    code_actions_in(
        text,
        python_module(text),
        uri,
        annotation_diagnostics_of(ws, index, file, text),
        visible_in(ws, index, file, python_body(text)),
        requested,
    )
}

/// A parameter whose annotation is that of its fixture, white space apart, is in order.
pub proof fn matching_annotation_is_accepted(
    ws: WorkspaceView,
    file: PathView,
    body: Seq<StatementView>,
    p: ParameterAnnotationInfoView,
    visible: Seq<FixtureView>,
)
    requires
        named(visible, p.name) matches Some(f) && value_annotation(f) matches Some(expected)
            && p.annotation matches Some((written, range)) && squeeze(written) == squeeze(
            expected.text,
        ),
    ensures
        annotation_diagnostic(
            p,
            visible,
            |written: Seq<char>, expected: Seq<char>, f: FixtureView|
                same_annotation(ws, file, body, written, expected, f),
        ) is None,
{
}

proof fn lemma_all_mended(
    text: Seq<char>,
    module: Option<SourceModuleView>,
    uri: Seq<char>,
    diagnostics: Seq<FixtureAnnotationDiagnosticView>,
    visible: Seq<FixtureView>,
)
    requires
        forall|i: int|
            0 <= i < diagnostics.len() ==> named(
                visible,
                (#[trigger] diagnostics[i]).fixture_name,
            ) is Some,
    ensures
        diagnostics.filter_map(
            |d: FixtureAnnotationDiagnosticView| quick_fix(text, module, uri, d, visible, None),
        ).len() == diagnostics.len(),
    decreases diagnostics.len(),
{
    if diagnostics.len() > 0 {
        let fewer = diagnostics.drop_last();
        assert forall|i: int| 0 <= i < fewer.len() implies named(
            visible,
            (#[trigger] fewer[i]).fixture_name,
        ) is Some by {
            assert(named(visible, diagnostics[i].fixture_name) is Some);
        }
        lemma_all_mended(text, module, uri, fewer, visible);
        assert(named(visible, diagnostics[diagnostics.len() - 1].fixture_name) is Some);
    }
}

/// Every finding of a file can be mended: where no range is given there is one action for each
/// of them, and one more for them all; a file without findings has no actions.
pub proof fn every_finding_can_be_mended(
    ws: WorkspaceView,
    index: FixtureIndexView,
    file: PathView,
    text: Seq<char>,
    uri: Seq<char>,
)
    ensures
        annotation_diagnostics_of(ws, index, file, text).len() == 0 ==> code_actions_of(
            ws,
            index,
            file,
            text,
            uri,
            None,
        ).len() == 0,
        annotation_diagnostics_of(ws, index, file, text).len() > 0 ==> code_actions_of(
            ws,
            index,
            file,
            text,
            uri,
            None,
        ).len() == annotation_diagnostics_of(ws, index, file, text).len() + 1,
{
    let body = python_body(text);
    let visible = visible_in(ws, index, file, body);
    let diagnostics = annotation_diagnostics_of(ws, index, file, text);
    let same = |written: Seq<char>, expected: Seq<char>, f: FixtureView|
        same_annotation(ws, file, body, written, expected, f);
    let g = |p: ParameterAnnotationInfoView| annotation_diagnostic(p, visible, same);
    let infos = parameter_infos(text, body);
    assert forall|i: int| 0 <= i < diagnostics.len() implies named(
        visible,
        (#[trigger] diagnostics[i]).fixture_name,
    ) is Some by {
        assert(infos.filter_map(g).contains(diagnostics[i]));
        infos.lemma_filter_map_contains(g, diagnostics[i]);
    }
    lemma_all_mended(text, python_module(text), uri, diagnostics, visible);
}

fn edits_for_name(
    text: &Vec<char>,
    module: &Option<SourceModule>,
    d: &FixtureAnnotationDiagnostic,
    visible: &Vec<&Fixture>,
) -> (r: Option<Vec<TextEdit>>)
    requires
        fits(text@),
    ensures
        r.is_some() == named(views(visible@), d@.fixture_name) is Some,
        r matches Some(edits) ==> views(edits@) == edits_by_name(
            text@,
            option_view(*module),
            d@,
            views(visible@),
        ),
{
    match find_named(visible, &d.fixture_name) {
        Some(f) => Some(edits_for_annotation(text, module, d, f)),
        None => None,
    }
}

fn all_edits(
    text: &Vec<char>,
    module: &Option<SourceModule>,
    diagnostics: &Vec<FixtureAnnotationDiagnostic>,
    visible: &Vec<&Fixture>,
) -> (r: Vec<TextEdit>)
    requires
        fits(text@),
    ensures
        views(r@) == views(diagnostics@).flat_map(
            |d: FixtureAnnotationDiagnosticView|
                edits_by_name(text@, option_view(*module), d, views(visible@)),
        ),
{
    let ghost all = views(diagnostics@);
    let ghost g = |d: FixtureAnnotationDiagnosticView|
        edits_by_name(text@, option_view(*module), d, views(visible@));
    let mut out: Vec<TextEdit> = Vec::new();
    let mut i: usize = 0;
    assert(views(out@) =~= all.take(0).flat_map(g));
    while i < diagnostics.len()
        invariant
            fits(text@),
            i <= diagnostics@.len(),
            all == views(diagnostics@),
            g == (|d: FixtureAnnotationDiagnosticView|
                edits_by_name(text@, option_view(*module), d, views(visible@))),
            views(out@) == all.take(i as int).flat_map(g),
        decreases diagnostics@.len() - i,
    {
        proof {
            all.lemma_flat_map_take_append(g, i as int);
            assert(all[i as int] == diagnostics@[i as int]@);
        }
        let ghost so_far = out@;
        match edits_for_name(text, module, &diagnostics[i], visible) {
            Some(edits) => {
                let mut edits: Vec<TextEdit> = edits;
                let ghost more = edits@;
                out.append(&mut edits);
                assert(views(out@) =~= views(so_far) + views(more));
            },
            None => {
                assert(views(out@) =~= views(so_far) + g(all[i as int]));
            },
        }
        i = i + 1;
    }
    assert(all.take(all.len() as int) =~= all);
    out
}

/// The actions for a parsed text with the given findings.
pub fn code_actions(
    text: &Vec<char>,
    module: &Option<SourceModule>,
    uri: &str,
    diagnostics: &Vec<FixtureAnnotationDiagnostic>,
    visible: &Vec<&Fixture>,
    requested: Option<Range>,
) -> (r: Vec<CodeAction>)
    requires
        fits(text@),
    ensures
        views(r@) == code_actions_in(
            text@,
            option_view(*module),
            uri@,
            views(diagnostics@),
            views(visible@),
            requested,
        ),
{
    let ghost all = views(diagnostics@);
    let ghost parse = option_view(*module);
    let ghost seen = views(visible@);
    let ghost g = |d: FixtureAnnotationDiagnosticView|
        quick_fix(text@, parse, uri@, d, seen, requested);
    let mut out: Vec<CodeAction> = Vec::new();
    let mut i: usize = 0;
    assert(views(out@) =~= all.take(0).filter_map(g));
    while i < diagnostics.len()
        invariant
            fits(text@),
            i <= diagnostics@.len(),
            all == views(diagnostics@),
            parse == option_view(*module),
            seen == views(visible@),
            g == (|d: FixtureAnnotationDiagnosticView|
                quick_fix(text@, parse, uri@, d, seen, requested)),
            views(out@) == all.take(i as int).filter_map(g),
        decreases diagnostics@.len() - i,
    {
        let d: &FixtureAnnotationDiagnostic = &diagnostics[i];
        proof {
            all.lemma_filter_map_take_succ(g, i as int);
            assert(all[i as int] == d@);
        }
        let wanted: bool = match requested {
            Some(range) => ranges_intersect_or_touch_cursor(d.range, range),
            None => true,
        };
        if wanted {
            match edits_for_name(text, module, d, visible) {
                Some(edits) => {
                    let action: CodeAction = CodeAction {
                        title: "Add fixture type annotation".to_owned(),
                        kind: CodeActionKind::QuickFix,
                        edit: workspace_edit(uri, coalesce_text_edits(&edits)),
                    };
                    proof {
                        lemma_views_push(out@, action);
                    }
                    out.push(action);
                },
                None => {},
            }
        }
        assert(views(out@) =~= all.take(i + 1).filter_map(g));
        i = i + 1;
    }
    assert(all.take(all.len() as int) =~= all);
    if diagnostics.len() > 0 {
        let edits: Vec<TextEdit> = all_edits(text, module, diagnostics, visible);
        let action: CodeAction = CodeAction {
            title: "Add fixture type annotations in file".to_owned(),
            kind: CodeActionKind::Source,
            edit: workspace_edit(uri, coalesce_text_edits(&edits)),
        };
        proof {
            lemma_views_push(out@, action);
        }
        out.push(action);
    }
    out
}

impl FixtureIndex {
    /// What is wrong with the annotations of a file's parameters.
    pub fn annotation_diagnostics_for_text(&self, ws: &Workspace, file: &FilePath, text: &str) -> (
    r: Result<Vec<FixtureAnnotationDiagnostic>, UnreadableFile>)
        requires
            parseable(ws@),
            fits(text@),
        ensures
            outcome(r) == Ok::<Seq<FixtureAnnotationDiagnosticView>, PathView>(
                annotation_diagnostics_of(ws@, self@, file@, text@),
            ),
    {
        let body: Vec<Statement> = body_of(parse_module(text));
        let visible: Vec<&Fixture> = self.visible_fixtures_for_body(ws, file, &body);
        Ok(annotation_diagnostics(ws, file, &chars_of(text), &body, &visible))
    }

    /// What is wrong with the annotations of a file's parameters, as the editor shows it.
    pub fn diagnostics_for_text(
        &self,
        ws: &Workspace,
        file: &FilePath,
        text: &str,
        config: DiagnosticConfig,
    ) -> (r: Result<Vec<Diagnostic>, UnreadableFile>)
        requires
            parseable(ws@),
            fits(text@),
        ensures
            outcome(r) == Ok::<Seq<DiagnosticView>, PathView>(
                annotation_diagnostics_of(ws@, self@, file@, text@).map_values(
                    |d: FixtureAnnotationDiagnosticView| diagnostic_of(d, config),
                ),
            ),
    {
        let found: Vec<FixtureAnnotationDiagnostic> = match self.annotation_diagnostics_for_text(
            ws,
            file,
            text,
        ) {
            Ok(found) => found,
            Err(e) => {
                return Err(e);
            },
        };
        let ghost all = views(found@);
        let ghost g = |d: FixtureAnnotationDiagnosticView| diagnostic_of(d, config);
        let mut out: Vec<Diagnostic> = Vec::new();
        let mut i: usize = 0;
        assert(views(out@) =~= all.take(0).map_values(g));
        while i < found.len()
            invariant
                i <= found@.len(),
                all == views(found@),
                g == (|d: FixtureAnnotationDiagnosticView| diagnostic_of(d, config)),
                views(out@) == all.take(i as int).map_values(g),
            decreases found@.len() - i,
        {
            assert(all[i as int] == found@[i as int]@);
            let d: Diagnostic = diagnostic_for(&found[i], config);
            proof {
                lemma_views_push(out@, d);
            }
            out.push(d);
            assert(views(out@) =~= all.take(i + 1).map_values(g));
            i = i + 1;
        }
        assert(all.take(all.len() as int) =~= all);
        Ok(out)
    }

    /// The actions for a file with the given text.
    pub fn code_actions_for_text(&self, ws: &Workspace, file: &FilePath, text: &str, uri: &str) -> (
    r: Result<Vec<CodeAction>, UnreadableFile>)
        requires
            parseable(ws@),
            fits(text@),
        ensures
            outcome(r) == Ok::<Seq<CodeActionView>, PathView>(
                code_actions_of(ws@, self@, file@, text@, uri@, None),
            ),
    {
        self.code_actions_for_text_range(ws, file, text, uri, None)
    }

    /// The actions for a file with the given text, where they were asked for.
    pub fn code_actions_for_text_range(
        &self,
        ws: &Workspace,
        file: &FilePath,
        text: &str,
        uri: &str,
        requested_range: Option<Range>,
    ) -> (r: Result<Vec<CodeAction>, UnreadableFile>)
        requires
            parseable(ws@),
            fits(text@),
        ensures
            outcome(r) == Ok::<Seq<CodeActionView>, PathView>(
                code_actions_of(ws@, self@, file@, text@, uri@, requested_range),
            ),
    {
        let chars: Vec<char> = chars_of(text);
        let module: Option<SourceModule> = parse_module(text);
        let visible: Vec<&Fixture> = self.visible_fixtures_for_text(ws, file, text);
        let diagnostics: Vec<FixtureAnnotationDiagnostic> =
            match self.annotation_diagnostics_for_text(ws, file, text) {
            Ok(found) => found,
            Err(e) => {
                return Err(e);
            },
        };
        Ok(code_actions(&chars, &module, uri, &diagnostics, &visible, requested_range))
    }
}

/// The finding is what the parameter calls for: it uses a visible fixture of a known type, and has
/// no annotation, or one that differs from it without white space and written out in full.
pub open spec fn calls_for(
    ws: WorkspaceView,
    file: PathView,
    body: Seq<StatementView>,
    visible: Seq<FixtureView>,
    p: ParameterAnnotationInfoView,
    d: FixtureAnnotationDiagnosticView,
) -> bool {
    exists|f: FixtureView|
        #![trigger value_annotation(f)]
        {
            &&& named(visible, p.name) == Some(f)
            &&& value_annotation(f) is Some
            &&& d.fixture_name == p.name
            &&& d.fixture_annotation == value_annotation(f)->0.text
            &&& d.range == d.edit_range
            &&& match p.annotation {
                None => d.kind is Missing && d.range == p.name_range,
                Some((written, range)) => {
                    &&& d.kind is Mismatched
                    &&& d.range == range
                    &&& squeeze(written) != squeeze(d.fixture_annotation)
                    &&& canonical(written, bindings_in(ws, file, body)) != canonical(
                        d.fixture_annotation,
                        file_bindings(ws, f.path),
                    )
                },
            }
        }
}

/// The findings of a file are exactly what its parameters call for, whichever function they stand
/// in.
pub proof fn parameters_are_checked(
    ws: WorkspaceView,
    index: FixtureIndexView,
    file: PathView,
    text: Seq<char>,
    d: FixtureAnnotationDiagnosticView,
)
    ensures
        annotation_diagnostics_of(ws, index, file, text).contains(d) <==> exists|i: int|
            0 <= i < parameter_infos(text, python_body(text)).len() && calls_for(
                ws,
                file,
                python_body(text),
                visible_in(ws, index, file, python_body(text)),
                #[trigger] parameter_infos(text, python_body(text))[i],
                d,
            ),
{
    let body = python_body(text);
    let visible = visible_in(ws, index, file, body);
    let infos = parameter_infos(text, body);
    let same = |written: Seq<char>, expected: Seq<char>, f: FixtureView|
        same_annotation(ws, file, body, written, expected, f);
    let g = |p: ParameterAnnotationInfoView| annotation_diagnostic(p, visible, same);
    assert(annotation_diagnostics_of(ws, index, file, text) == infos.filter_map(g));
    if infos.filter_map(g).contains(d) {
        infos.lemma_filter_map_contains(g, d);
        let p = choose|p: ParameterAnnotationInfoView| #[trigger]
            infos.contains(p) && g(p) == Some(d);
        let i = infos.index_of(p);
        let f = named(visible, p.name)->0;
        assert(value_annotation(f) is Some);
        assert(calls_for(ws, file, body, visible, infos[i], d));
    }
    assert forall|i: int|
        0 <= i < infos.len() && calls_for(
            ws,
            file,
            body,
            visible,
            #[trigger] infos[i],
            d,
        ) implies infos.filter_map(g).contains(d) by {
        lemma_filter_map_has(infos, g, i);
        assert(g(infos[i]) == Some(d));
    }
}

/// Where neither file imports a name of the annotations, a parameter whose annotation differs from
/// its fixture's in more than white space is reported.
pub proof fn different_annotations_are_reported(
    ws: WorkspaceView,
    index: FixtureIndexView,
    file: PathView,
    text: Seq<char>,
    i: int,
    f: FixtureView,
    written: Seq<char>,
    range: Range,
)
    requires
        0 <= i < parameter_infos(text, python_body(text)).len(),
        parameter_infos(text, python_body(text))[i].annotation == Some((written, range)),
        named(
            visible_in(ws, index, file, python_body(text)),
            parameter_infos(text, python_body(text))[i].name,
        ) == Some(f),
        value_annotation(f) is Some,
        squeeze(written) != squeeze(value_annotation(f)->0.text),
        is_ascii(written),
        is_ascii(value_annotation(f)->0.text),
        forall|k: int|
            0 <= k < bindings_in(ws, file, python_body(text)).len() ==> !has_word(
                squeeze(written),
                (#[trigger] bindings_in(ws, file, python_body(text))[k]).visible,
            ),
        forall|k: int|
            0 <= k < file_bindings(ws, f.path).len() ==> !has_word(
                squeeze(value_annotation(f)->0.text),
                (#[trigger] file_bindings(ws, f.path)[k]).visible,
            ),
    ensures
        annotation_diagnostics_of(ws, index, file, text).contains(
            FixtureAnnotationDiagnosticView {
                kind: AnnotationDiagnosticKind::Mismatched,
                fixture_name: parameter_infos(text, python_body(text))[i].name,
                fixture_annotation: value_annotation(f)->0.text,
                range,
                edit_range: range,
            },
        ),
{
    let body = python_body(text);
    let infos = parameter_infos(text, body);
    let d = FixtureAnnotationDiagnosticView {
        kind: AnnotationDiagnosticKind::Mismatched,
        fixture_name: infos[i].name,
        fixture_annotation: value_annotation(f)->0.text,
        range,
        edit_range: range,
    };
    names_that_are_not_imported_stay(written, bindings_in(ws, file, body));
    names_that_are_not_imported_stay(value_annotation(f)->0.text, file_bindings(ws, f.path));
    assert(calls_for(ws, file, body, visible_in(ws, index, file, body), infos[i], d));
    parameters_are_checked(ws, index, file, text, d);
}

/// The editor is shown each finding at its place, with the severity of its kind, and told the
/// fixture, its type, and whether the annotation is missing or a different one.
pub proof fn findings_are_told(d: FixtureAnnotationDiagnosticView, config: DiagnosticConfig)
    ensures
        diagnostic_of(d, config).range == d.range,
        diagnostic_of(d, config).source == "pyfixy"@,
        d.kind is Missing ==> diagnostic_of(d, config).severity == config.missing_annotation
            && diagnostic_of(d, config).message == "Fixture `"@ + d.fixture_name + "` returns `"@
            + d.fixture_annotation + "`; parameter is missing an annotation"@,
        d.kind is Mismatched ==> diagnostic_of(d, config).severity == config.mismatched_annotation
            && diagnostic_of(d, config).message == "Fixture `"@ + d.fixture_name + "` returns `"@
            + d.fixture_annotation + "`, but parameter has a different annotation"@,
{
}

/// Where a range is given, the actions are one for each finding that it touches and that has its
/// fixture, and one for the whole file behind them.
pub proof fn actions_are_offered_where_asked(
    text: Seq<char>,
    module: Option<SourceModuleView>,
    uri: Seq<char>,
    diagnostics: Seq<FixtureAnnotationDiagnosticView>,
    visible: Seq<FixtureView>,
    requested: Option<Range>,
    action: CodeActionView,
)
    requires
        diagnostics.len() > 0,
    ensures
        code_actions_in(text, module, uri, diagnostics, visible, requested).last() == source_action(
            text,
            module,
            uri,
            diagnostics,
            visible,
        ),
        code_actions_in(text, module, uri, diagnostics, visible, requested).drop_last().contains(
            action,
        ) <==> exists|i: int|
            0 <= i < diagnostics.len() && is_fix_for(
                text,
                module,
                uri,
                #[trigger] diagnostics[i],
                visible,
                action,
            ) && (requested matches Some(range) ==> touches(diagnostics[i].range, range)),
{
    let f = |d: FixtureAnnotationDiagnosticView|
        quick_fix(text, module, uri, d, visible, requested);
    let fixes = diagnostics.filter_map(f);
    let all = code_actions_in(text, module, uri, diagnostics, visible, requested);
    assert(all.drop_last() =~= fixes);
    if fixes.contains(action) {
        diagnostics.lemma_filter_map_contains(f, action);
        let d = choose|d: FixtureAnnotationDiagnosticView| #[trigger]
            diagnostics.contains(d) && f(d) == Some(action);
        let i = diagnostics.index_of(d);
        assert(is_fix_for(text, module, uri, diagnostics[i], visible, action));
    }
    assert forall|i: int|
        0 <= i < diagnostics.len() && is_fix_for(
            text,
            module,
            uri,
            #[trigger] diagnostics[i],
            visible,
            action,
        ) && (requested matches Some(range) ==> touches(
            diagnostics[i].range,
            range,
        )) implies fixes.contains(action) by {
        lemma_filter_map_has(diagnostics, f, i);
        assert(f(diagnostics[i]) == Some(action));
    }
}

/// The action is a quick fix of the file that makes the edits for the finding.
pub open spec fn is_fix_for(
    text: Seq<char>,
    module: Option<SourceModuleView>,
    uri: Seq<char>,
    d: FixtureAnnotationDiagnosticView,
    visible: Seq<FixtureView>,
    action: CodeActionView,
) -> bool {
    &&& named(visible, d.fixture_name) is Some
    &&& action.title == "Add fixture type annotation"@
    &&& action.kind == CodeActionKind::QuickFix
    &&& action.edit.uri == uri
    &&& action.edit.edits == coalesced(
        edits_of(text, module, d, named(visible, d.fixture_name)->0),
    )
}

/// The edits for a finding write the imports that the type needs and that the text lacks, each as
/// a line at the place for imports, and the type itself: behind the name, with a colon, where
/// there is no annotation, and else in its place.
pub proof fn fixes_write_imports_and_annotation(
    text: Seq<char>,
    module: Option<SourceModuleView>,
    d: FixtureAnnotationDiagnosticView,
    f: FixtureView,
    r: ImportRequirementView,
)
    requires
        value_annotation(f) is Some,
    ensures
        value_annotation(f)->0.imports.contains(r) && !is_imported(text, valid_body(module), r)
            ==> edits_of(text, module, d, f).contains(
            TextEditView {
                range: Range {
                    start: insert_position(text, module),
                    end: insert_position(text, module),
                },
                new_text: import_statement(r) + seq!['\n'],
            },
        ),
        d.kind is Missing ==> edits_of(text, module, d, f).last() == (TextEditView {
            range: Range { start: d.edit_range.end, end: d.edit_range.end },
            new_text: seq![':', ' '] + d.fixture_annotation,
        }),
        d.kind is Mismatched ==> edits_of(text, module, d, f).last() == (TextEditView {
            range: d.edit_range,
            new_text: d.fixture_annotation,
        }),
        forall|k: int|
            0 <= k < edits_of(text, module, d, f).len() - 1 ==> (#[trigger] edits_of(
                text,
                module,
                d,
                f,
            )[k]).range.start == insert_position(text, module),
{
    reveal_strlit(": ");
    assert(": "@ =~= seq![':', ' ']);
    let imports = value_annotation(f)->0.imports;
    let edits = edits_of(text, module, d, f);
    let written = import_edits(text, module, imports);
    assert(edits == written.push(annotation_edit(d)));
    if imports.contains(r) && !is_imported(text, valid_body(module), r) {
        let edit = TextEditView {
            range: Range {
                start: insert_position(text, module),
                end: insert_position(text, module),
            },
            new_text: import_statement(r) + seq!['\n'],
        };
        missing_imports_are_written(text, module, imports, edit);
        let k = imports.index_of(r);
        assert(!is_imported(text, valid_body(module), imports[k]));
        assert(written.contains(edit));
        let j = written.index_of(edit);
        assert(edits[j] == edit);
    }
    assert forall|k: int| 0 <= k < edits.len() - 1 implies (#[trigger] edits[k]).range.start
        == insert_position(text, module) by {
        assert(edits[k] == written[k]);
        imports_are_whole_lines(text, module, imports, k);
    }
}

/// A type that the fixture's own file has behind `class` or before an equals sign, and does not
/// import, is imported from the file's module by the edits for a finding.
pub proof fn fixes_import_local_types(
    ws: WorkspaceView,
    path: PathView,
    source: Seq<char>,
    function: FunctionView,
    f: FixtureView,
    symbol: Seq<char>,
    i: int,
    text: Seq<char>,
    module: Option<SourceModuleView>,
    d: FixtureAnnotationDiagnosticView,
)
    requires
        fixture_of(ws, path, source, python_body(source), function) == Some(f),
        f.return_annotation matches Some(annotation) && symbols(annotation.text).contains(symbol),
        occurs_at(source, "class "@ + symbol, i) || occurs_at(source, symbol + " ="@, i),
        forall|k: int|
            0 <= k < bindings_in(ws, path, python_body(source)).len() ==> (#[trigger] bindings_in(
                ws,
                path,
                python_body(source),
            )[k]).visible != symbol,
        module_name(ws, path) is Some,
        symbol.len() > 0,
        has_word(value_annotation(f)->0.text, symbol),
        !body_imports(valid_body(module), module_name(ws, path)->0, symbol, None),
    ensures
        edits_of(text, module, d, f).contains(
            TextEditView {
                range: Range {
                    start: insert_position(text, module),
                    end: insert_position(text, module),
                },
                new_text: "from "@ + module_name(ws, path)->0 + " import "@ + symbol + seq!['\n'],
            },
        ),
{
    let annotation = f.return_annotation->0;
    let own = module_name(ws, path)->0;
    let r = ImportRequirementView { module: own, name: symbol, alias: None };
    local_types_are_imported(ws, path, source, python_body(source), annotation.text, symbol, i);
    values_have_the_type_that_is_yielded(f, r);
    fixes_write_imports_and_annotation(text, module, d, f, r);
    statements_name_what_they_import(own, symbol, symbol);
}

/// The action for the whole file says so, and makes the edits of all findings, in their order.
pub proof fn whole_file_action_makes_all_edits(
    text: Seq<char>,
    module: Option<SourceModuleView>,
    uri: Seq<char>,
    diagnostics: Seq<FixtureAnnotationDiagnosticView>,
    d: FixtureAnnotationDiagnosticView,
    visible: Seq<FixtureView>,
)
    requires
        named(visible, d.fixture_name) is Some,
    ensures
        source_action(text, module, uri, diagnostics, visible).title
            == "Add fixture type annotations in file"@,
        source_action(text, module, uri, diagnostics, visible).kind == CodeActionKind::Source,
        source_action(text, module, uri, diagnostics, visible).edit.uri == uri,
        source_action(text, module, uri, seq![d], visible).edit.edits == coalesced(
            edits_of(text, module, d, named(visible, d.fixture_name)->0),
        ),
        source_action(text, module, uri, diagnostics.push(d), visible).edit.edits == coalesced(
            diagnostics.flat_map(
                |d: FixtureAnnotationDiagnosticView| edits_by_name(text, module, d, visible),
            ) + edits_of(text, module, d, named(visible, d.fixture_name)->0),
        ),
{
    let f = |d: FixtureAnnotationDiagnosticView| edits_by_name(text, module, d, visible);
    let more = diagnostics.push(d);
    let n = diagnostics.len() as int;
    more.lemma_flat_map_take_append(f, n);
    assert(more.take(n) =~= diagnostics);
    assert(more.take(n + 1) =~= more);
    let one = seq![d];
    one.lemma_flat_map_take_append(f, 0);
    assert(one.take(1) =~= one);
    assert(one.take(0) =~= Seq::<FixtureAnnotationDiagnosticView>::empty());
    assert(one.take(0).flat_map(f) =~= Seq::<TextEditView>::empty());
    assert(one.flat_map(f) =~= f(d));
}

/// Findings come in the order of the parameters, and so do the quick fixes for them.
pub proof fn findings_come_in_order(
    ws: WorkspaceView,
    index: FixtureIndexView,
    file: PathView,
    text: Seq<char>,
    a: int,
    b: int,
    d: FixtureAnnotationDiagnosticView,
    e: FixtureAnnotationDiagnosticView,
)
    requires
        0 <= a < b < parameter_infos(text, python_body(text)).len(),
        calls_for(
            ws,
            file,
            python_body(text),
            visible_in(ws, index, file, python_body(text)),
            parameter_infos(text, python_body(text))[a],
            d,
        ),
        calls_for(
            ws,
            file,
            python_body(text),
            visible_in(ws, index, file, python_body(text)),
            parameter_infos(text, python_body(text))[b],
            e,
        ),
    ensures
        exists|i: int, j: int|
            #![trigger
                annotation_diagnostics_of(ws, index, file, text)[i],
                annotation_diagnostics_of(ws, index, file, text)[j]]
            0 <= i < j < annotation_diagnostics_of(ws, index, file, text).len()
                && annotation_diagnostics_of(ws, index, file, text)[i] == d
                && annotation_diagnostics_of(ws, index, file, text)[j] == e,
{
    let body = python_body(text);
    let visible = visible_in(ws, index, file, body);
    let infos = parameter_infos(text, body);
    let same = |written: Seq<char>, expected: Seq<char>, f: FixtureView|
        same_annotation(ws, file, body, written, expected, f);
    let g = |p: ParameterAnnotationInfoView| annotation_diagnostic(p, visible, same);
    assert(annotation_diagnostics_of(ws, index, file, text) == infos.filter_map(g));
    assert(g(infos[a]) == Some(d));
    assert(g(infos[b]) == Some(e));
    let all = annotation_diagnostics_of(ws, index, file, text);
    let (i, j) = lemma_filter_map_order(infos, g, a, b);
    assert(all[i] == d && all[j] == e);
}

/// The quick fixes for two findings come in the order of the findings.
pub proof fn fixes_come_in_order(
    text: Seq<char>,
    module: Option<SourceModuleView>,
    uri: Seq<char>,
    diagnostics: Seq<FixtureAnnotationDiagnosticView>,
    visible: Seq<FixtureView>,
    requested: Option<Range>,
    a: int,
    b: int,
)
    requires
        0 <= a < b < diagnostics.len(),
        quick_fix(text, module, uri, diagnostics[a], visible, requested) is Some,
        quick_fix(text, module, uri, diagnostics[b], visible, requested) is Some,
    ensures
        exists|i: int, j: int|
            #![trigger
                code_actions_in(text, module, uri, diagnostics, visible, requested)[i],
                code_actions_in(text, module, uri, diagnostics, visible, requested)[j]]
            0 <= i < j < code_actions_in(
                text,
                module,
                uri,
                diagnostics,
                visible,
                requested,
            ).len() - 1 && code_actions_in(
                text,
                module,
                uri,
                diagnostics,
                visible,
                requested,
            )[i] == quick_fix(text, module, uri, diagnostics[a], visible, requested)->0
                && code_actions_in(text, module, uri, diagnostics, visible, requested)[j]
                == quick_fix(text, module, uri, diagnostics[b], visible, requested)->0,
{
    let f = |d: FixtureAnnotationDiagnosticView|
        quick_fix(text, module, uri, d, visible, requested);
    let fixes = diagnostics.filter_map(f);
    let all = code_actions_in(text, module, uri, diagnostics, visible, requested);
    let (i, j) = lemma_filter_map_order(diagnostics, f, a, b);
    assert(all[i] == fixes[i] && all[j] == fixes[j]);
}

/// A parameter has one finding at most: findings are as many as parameters that call for one.
pub proof fn parameters_are_reported_once(
    ws: WorkspaceView,
    index: FixtureIndexView,
    file: PathView,
    text: Seq<char>,
)
    ensures
        annotation_diagnostics_of(ws, index, file, text).len() == parameter_infos(
            text,
            python_body(text),
        ).filter(
            |p: ParameterAnnotationInfoView|
                annotation_diagnostic(
                    p,
                    visible_in(ws, index, file, python_body(text)),
                    |written: Seq<char>, expected: Seq<char>, f: FixtureView|
                        same_annotation(ws, file, python_body(text), written, expected, f),
                ) is Some,
        ).len(),
        annotation_diagnostics_of(ws, index, file, text).len() <= parameter_infos(
            text,
            python_body(text),
        ).len(),
{
    let body = python_body(text);
    let visible = visible_in(ws, index, file, body);
    let same = |written: Seq<char>, expected: Seq<char>, f: FixtureView|
        same_annotation(ws, file, body, written, expected, f);
    let g = |p: ParameterAnnotationInfoView| annotation_diagnostic(p, visible, same);
    let infos = parameter_infos(text, body);
    assert(annotation_diagnostics_of(ws, index, file, text) == infos.filter_map(g));
    lemma_filter_map_count(infos, g);
    let found = |p: ParameterAnnotationInfoView| g(p) is Some;
    infos.lemma_filter_len(found);
    assert(found == (|p: ParameterAnnotationInfoView|
        annotation_diagnostic(
            p,
            visible_in(ws, index, file, python_body(text)),
            |written: Seq<char>, expected: Seq<char>, f: FixtureView|
                same_annotation(ws, file, python_body(text), written, expected, f),
        ) is Some));
}

}
