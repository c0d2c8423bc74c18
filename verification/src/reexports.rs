//! Fixtures that a `conftest.py` imports, and so makes visible below itself.
use crate::bytes::are_bytes_of;
use crate::fixture::{Fixture, FixtureView};
use crate::path::{file_name, is_plain, same_path, FilePath, PathView};
use crate::syntax::{
    parse_body, python_body, ImportedName, ImportedNameView, Statement, StatementKind,
    StatementKindView, StatementView,
};
use crate::text::{
    is_text, lemma_filter_map_has, lemma_flat_map_has, lemma_flat_map_source, lemma_views_push,
    option_view, views,
};
use crate::workspace::{
    collect_python_files, files_are_gathered, found_module, gathered, lemma_gathered_error,
    module_to_path, outcome, parseable, project_sources, source_at, FileEntry, FileEntryView,
    UnreadableFile, Workspace, WorkspaceView,
};
use vstd::prelude::*;
use vstd::utf8::encode_utf8;

verus! {

/// What an import takes from a module of the project.
#[derive(Debug)]
pub enum ImportSpec {
    Named { imported: String, visible: String, source: FilePath },
    Star { source: FilePath },
}

/// An import of a `conftest.py`.
#[derive(Debug)]
pub struct Reexport {
    pub conftest: FilePath,
    pub spec: ImportSpec,
}

/// What [`ImportSpec`] stands for.
pub enum ImportSpecView {
    Named { imported: Seq<char>, visible: Seq<char>, source: PathView },
    Star { source: PathView },
}

/// What [`Reexport`] stands for.
pub struct ReexportView {
    pub conftest: PathView,
    pub spec: ImportSpecView,
}

impl View for ImportSpec {
    type V = ImportSpecView;

    open spec fn view(&self) -> ImportSpecView {
        match self {
            ImportSpec::Named { imported, visible, source } => ImportSpecView::Named {
                imported: imported@,
                visible: visible@,
                source: source@,
            },
            ImportSpec::Star { source } => ImportSpecView::Star { source: source@ },
        }
    }
}

impl Clone for ImportSpec {
    fn clone(&self) -> (r: Self)
        ensures
            r@ == self@,
    {
        match self {
            ImportSpec::Named { imported, visible, source } => ImportSpec::Named {
                imported: imported.clone(),
                visible: visible.clone(),
                source: source.clone(),
            },
            ImportSpec::Star { source } => ImportSpec::Star { source: source.clone() },
        }
    }
}

impl View for Reexport {
    type V = ReexportView;

    open spec fn view(&self) -> ReexportView {
        ReexportView { conftest: self.conftest@, spec: self.spec@ }
    }
}

/// What one name of an import takes.
pub open spec fn spec_of_name(n: ImportedNameView, source: PathView) -> ImportSpecView {
    if n.name == "*"@ {
        ImportSpecView::Star { source }
    } else {
        ImportSpecView::Named {
            imported: n.name,
            visible: match n.asname {
                Some(asname) => asname,
                None => n.name,
            },
            source,
        }
    }
}

/// What a statement takes from modules of the project.
pub open spec fn specs_of_statement(ws: WorkspaceView, root: PathView, s: StatementView) -> Seq<
    ImportSpecView,
> {
    match s.kind {
        StatementKindView::ImportFrom { module: Some(module), names, .. } => match found_module(
            ws,
            root,
            module,
        ) {
            Some(source) => names.map_values(|n: ImportedNameView| spec_of_name(n, source)),
            None => Seq::empty(),
        },
        _ => Seq::empty(),
    }
}

/// What a body takes from modules of the project.
pub open spec fn specs_in(ws: WorkspaceView, root: PathView, body: Seq<StatementView>) -> Seq<
    ImportSpecView,
> {
    body.flat_map(|s: StatementView| specs_of_statement(ws, root, s))
}

fn spec_for(n: &ImportedName, source: &FilePath) -> (r: ImportSpec)
    ensures
        r@ == spec_of_name(n@, source@),
{
    if is_text(&n.name, "*") {
        ImportSpec::Star { source: source.clone() }
    } else {
        ImportSpec::Named {
            imported: n.name.clone(),
            visible: match &n.asname {
                Some(asname) => asname.clone(),
                None => n.name.clone(),
            },
            source: source.clone(),
        }
    }
}

fn push_specs(ws: &Workspace, root: &FilePath, s: &Statement, out: &mut Vec<ImportSpec>)
    ensures
        views(final(out)@) == views(old(out)@) + specs_of_statement(ws@, root@, s@),
{
    let ghost start = views(out@);
    match &s.kind {
        StatementKind::ImportFrom { module: Some(module), names, .. } => {
            match module_to_path(ws, root, module.as_str()) {
                Some(source) => {
                    let ghost all = views(names@);
                    let ghost f = |n: ImportedNameView| spec_of_name(n, source@);
                    let mut i: usize = 0;
                    assert(start + all.take(0).map_values(f) =~= start);
                    while i < names.len()
                        invariant
                            i <= names@.len(),
                            all == views(names@),
                            f == (|n: ImportedNameView| spec_of_name(n, source@)),
                            views(out@) == start + all.take(i as int).map_values(f),
                        decreases names@.len() - i,
                    {
                        assert(all[i as int] == names@[i as int]@);
                        let spec: ImportSpec = spec_for(&names[i], &source);
                        proof {
                            lemma_views_push(out@, spec);
                        }
                        out.push(spec);
                        assert(views(out@) =~= start + all.take(i + 1).map_values(f));
                        i = i + 1;
                    }
                    assert(all.take(all.len() as int) =~= all);
                    assert(specs_of_statement(ws@, root@, s@) == all.map_values(f));
                },
                None => {
                    assert(start + specs_of_statement(ws@, root@, s@) =~= start);
                },
            }
        },
        _ => {
            assert(start + specs_of_statement(ws@, root@, s@) =~= start);
        },
    }
}

/// What a body takes from modules of the project.
pub fn import_specs_in(ws: &Workspace, root: &FilePath, body: &Vec<Statement>) -> (r: Vec<
    ImportSpec,
>)
    ensures
        views(r@) == specs_in(ws@, root@, views(body@)),
{
    let ghost all = views(body@);
    let ghost f = |s: StatementView| specs_of_statement(ws@, root@, s);
    let mut out: Vec<ImportSpec> = Vec::new();
    let mut i: usize = 0;
    assert(views(out@) =~= all.take(0).flat_map(f));
    while i < body.len()
        invariant
            i <= body@.len(),
            all == views(body@),
            f == (|s: StatementView| specs_of_statement(ws@, root@, s)),
            views(out@) == all.take(i as int).flat_map(f),
        decreases body@.len() - i,
    {
        proof {
            all.lemma_flat_map_take_append(f, i as int);
            assert(all[i as int] == body@[i as int]@);
        }
        push_specs(ws, root, &body[i], &mut out);
        i = i + 1;
    }
    assert(all.take(all.len() as int) =~= all);
    out
}

/// The imports of a file, each with the file.
pub open spec fn reexports_of_text(
    ws: WorkspaceView,
    root: PathView,
    file: PathView,
    text: Seq<char>,
) -> Seq<ReexportView> {
    specs_in(ws, root, python_body(text)).map_values(
        |spec: ImportSpecView| ReexportView { conftest: file, spec },
    )
}

/// What a file takes from modules of the project, or that the file cannot be read.
pub open spec fn specs_of_file(ws: WorkspaceView, root: PathView, file: PathView) -> Result<
    Seq<ImportSpecView>,
    PathView,
> {
    match source_at(ws, file) {
        Some(text) => Ok(specs_in(ws, root, python_body(text))),
        None => Err(file),
    }
}

/// What a file takes from modules of the project.
pub fn import_specs(ws: &Workspace, file: &FilePath, root: &FilePath) -> (r: Result<
    Vec<ImportSpec>,
    UnreadableFile,
>)
    requires
        parseable(ws@),
    ensures
        outcome(r) == specs_of_file(ws@, root@, file@),
{
    match ws.read(file) {
        Some(text) => {
            let body: Vec<Statement> = parse_body(text.as_str());
            Ok(import_specs_in(ws, root, &body))
        },
        None => Err(UnreadableFile { path: file.clone() }),
    }
}

/// The entry is a `conftest.py`.
pub open spec fn is_conftest(path: PathView) -> bool {
    file_name(path) == Some(encode_utf8("conftest.py"@))
}

/// The path, if it is that of a `conftest.py`.
pub open spec fn conftest_path(entry: FileEntryView) -> Option<PathView> {
    if is_conftest(entry.path) {
        Some(entry.path)
    } else {
        None
    }
}

/// The `conftest.py` files of a project.
pub open spec fn conftests(ws: WorkspaceView, root: PathView) -> Seq<PathView> {
    project_sources(ws, root).filter_map(|entry: FileEntryView| conftest_path(entry))
}

/// The imports of the `conftest.py` files, or the first of them that cannot be read.
pub open spec fn reexports_in(ws: WorkspaceView, root: PathView) -> Result<
    Seq<ReexportView>,
    PathView,
> {
    gathered(
        ws,
        conftests(ws, root),
        |file: PathView, text: Seq<char>| reexports_of_text(ws, root, file, text),
    )
}

/// Whether a path is that of a `conftest.py`.
pub fn is_conftest_file(path: &FilePath) -> (r: bool)
    ensures
        r == is_conftest(path@),
{
    match path.file_name() {
        Some(name) => are_bytes_of(&name, "conftest.py"),
        None => false,
    }
}

fn conftest_files(ws: &Workspace, root: &FilePath) -> (r: Vec<FilePath>)
    ensures
        views(r@) == conftests(ws@, root@),
{
    let files: Vec<&FileEntry> = collect_python_files(ws, root);
    let ghost all = views(files@);
    let ghost f = |entry: FileEntryView| conftest_path(entry);
    let mut out: Vec<FilePath> = Vec::new();
    let mut i: usize = 0;
    assert(views(out@) =~= all.take(0).filter_map(f));
    while i < files.len()
        invariant
            i <= files@.len(),
            all == views(files@),
            f == (|entry: FileEntryView| conftest_path(entry)),
            views(out@) == all.take(i as int).filter_map(f),
        decreases files@.len() - i,
    {
        proof {
            all.lemma_filter_map_take_succ(f, i as int);
            assert(all[i as int] == files@[i as int]@);
        }
        if is_conftest_file(&files[i].path) {
            let path: FilePath = files[i].path.clone();
            proof {
                lemma_views_push(out@, path);
            }
            out.push(path);
        }
        assert(views(out@) =~= all.take(i + 1).filter_map(f));
        i = i + 1;
    }
    assert(all.take(all.len() as int) =~= all);
    out
}

fn push_reexports(ws: &Workspace, root: &FilePath, file: &FilePath, out: &mut Vec<Reexport>) -> (r:
    bool)
    requires
        parseable(ws@),
    ensures
        r == source_at(ws@, file@) is Some,
        source_at(ws@, file@) matches Some(text) ==> views(final(out)@) == views(old(out)@)
            + reexports_of_text(ws@, root@, file@, text),
{
    match import_specs(ws, file, root) {
        Ok(specs) => {
            let ghost start = views(out@);
            let ghost all = views(specs@);
            let ghost f = |spec: ImportSpecView| ReexportView { conftest: file@, spec };
            let mut i: usize = 0;
            assert(start + all.take(0).map_values(f) =~= start);
            while i < specs.len()
                invariant
                    i <= specs@.len(),
                    all == views(specs@),
                    f == (|spec: ImportSpecView| ReexportView { conftest: file@, spec }),
                    views(out@) == start + all.take(i as int).map_values(f),
                decreases specs@.len() - i,
            {
                assert(all[i as int] == specs@[i as int]@);
                let reexport: Reexport = Reexport {
                    conftest: file.clone(),
                    spec: specs[i].clone(),
                };
                proof {
                    lemma_views_push(out@, reexport);
                }
                out.push(reexport);
                assert(views(out@) =~= start + all.take(i + 1).map_values(f));
                i = i + 1;
            }
            assert(all.take(all.len() as int) =~= all);
            true
        },
        Err(_) => false,
    }
}

/// The imports of the `conftest.py` files of a project.
pub fn conftest_reexports(ws: &Workspace, root: &FilePath) -> (r: Result<
    Vec<Reexport>,
    UnreadableFile,
>)
    requires
        parseable(ws@),
    ensures
        outcome(r) == reexports_in(ws@, root@),
{
    let files: Vec<FilePath> = conftest_files(ws, root);
    let ghost all = views(files@);
    let ghost f = |file: PathView, text: Seq<char>| reexports_of_text(ws@, root@, file, text);
    let mut out: Vec<Reexport> = Vec::new();
    let mut i: usize = 0;
    assert(views(out@) =~= Seq::<ReexportView>::empty());
    while i < files.len()
        invariant
            parseable(ws@),
            i <= files@.len(),
            all == views(files@),
            all == conftests(ws@, root@),
            f == (|file: PathView, text: Seq<char>| reexports_of_text(ws@, root@, file, text)),
            gathered(ws@, all.take(i as int), f) == Ok::<Seq<ReexportView>, PathView>(views(out@)),
        decreases files@.len() - i,
    {
        proof {
            assert(all.take(i + 1).drop_last() =~= all.take(i as int));
            assert(all.take(i + 1).last() == files@[i as int]@);
        }
        if !push_reexports(ws, root, &files[i], &mut out) {
            proof {
                lemma_gathered_error(ws@, all, f, i + 1);
            }
            return Err(UnreadableFile { path: files[i].clone() });
        }
        i = i + 1;
    }
    assert(all.take(all.len() as int) =~= all);
    Ok(out)
}

/// The import takes the fixture: it is defined or made visible in the imported module, and has
/// the imported name.
pub open spec fn takes(r: ReexportView, f: FixtureView) -> bool {
    match r.spec {
        ImportSpecView::Named { imported, source, .. } => f.name == imported && (f.path
            == source || f.visibility_path == source),
        ImportSpecView::Star { source } => f.visibility_path == source || f.path == source,
    }
}

/// The name under which the import makes the fixture visible.
pub open spec fn taken_name(r: ReexportView, f: FixtureView) -> Seq<char> {
    match r.spec {
        ImportSpecView::Named { visible, .. } => visible,
        ImportSpecView::Star { .. } => f.name,
    }
}

/// The fixture as the importing `conftest.py` makes it visible.
pub open spec fn exported(r: ReexportView, f: FixtureView) -> Option<FixtureView> {
    if takes(r, f) {
        Some(
            FixtureView {
                name: taken_name(r, f),
                path: f.path,
                visibility_path: r.conftest,
                range: f.range,
                name_range: f.name_range,
                return_annotation: f.return_annotation,
            },
        )
    } else {
        None
    }
}

/// The fixtures that an import makes visible.
pub open spec fn exports(r: ReexportView, fixtures: Seq<FixtureView>) -> Seq<FixtureView> {
    fixtures.filter_map(|f: FixtureView| exported(r, f))
}

/// What tells one fixture from another: its name, where it is defined, and where it is visible.
pub open spec fn key_of(f: FixtureView) -> (Seq<char>, PathView, PathView) {
    (f.name, f.path, f.visibility_path)
}

/// A fixture of the same key is in the list.
pub open spec fn is_known(fixtures: Seq<FixtureView>, f: FixtureView) -> bool {
    exists|i: int| 0 <= i < fixtures.len() && key_of(#[trigger] fixtures[i]) == key_of(f)
}

/// The list with those of the exports that it does not know yet.
pub open spec fn with_new(fixtures: Seq<FixtureView>, exports: Seq<FixtureView>) -> Seq<FixtureView>
    decreases exports.len(),
{
    if exports.len() == 0 {
        fixtures
    } else {
        let so_far = with_new(fixtures, exports.drop_last());
        if is_known(so_far, exports.last()) {
            so_far
        } else {
            so_far.push(exports.last())
        }
    }
}

/// The list with what an import makes visible.
pub open spec fn with_reexport(fixtures: Seq<FixtureView>, r: ReexportView) -> Seq<FixtureView> {
    with_new(fixtures, exports(r, fixtures))
}

/// The list with what the imports, one after the other, make visible.
pub open spec fn round(fixtures: Seq<FixtureView>, reexports: Seq<ReexportView>) -> Seq<FixtureView>
    decreases reexports.len(),
{
    if reexports.len() == 0 {
        fixtures
    } else {
        with_reexport(round(fixtures, reexports.drop_last()), reexports.last())
    }
}

/// The list after so many rounds.
pub open spec fn rounds(
    fixtures: Seq<FixtureView>,
    reexports: Seq<ReexportView>,
    n: nat,
) -> Seq<FixtureView>
    decreases n,
{
    if n == 0 {
        fixtures
    } else {
        round(rounds(fixtures, reexports, (n - 1) as nat), reexports)
    }
}

/// After so many rounds another one adds nothing.
pub open spec fn settles(
    fixtures: Seq<FixtureView>,
    reexports: Seq<ReexportView>,
    n: nat,
) -> bool {
    round(rounds(fixtures, reexports, n), reexports) == rounds(fixtures, reexports, n)
}

/// The list with all that the imports make visible: the rounds until one adds nothing.
pub open spec fn expanded(fixtures: Seq<FixtureView>, reexports: Seq<ReexportView>) -> Seq<
    FixtureView,
> {
    rounds(fixtures, reexports, choose|n: nat| settles(fixtures, reexports, n))
}

/// The fixture at `j` is what an import makes of an earlier one.
pub open spec fn is_derived(
    fixtures: Seq<FixtureView>,
    reexports: Seq<ReexportView>,
    j: int,
) -> bool {
    exists|i: int, k: int|
        #![trigger fixtures[i], reexports[k]]
        0 <= i < j && 0 <= k < reexports.len() && exported(reexports[k], fixtures[i]) == Some(
            fixtures[j],
        )
}

/// One list comes from another by exports that were not known before.
pub open spec fn grows(
    before: Seq<FixtureView>,
    after: Seq<FixtureView>,
    reexports: Seq<ReexportView>,
) -> bool {
    &&& before.len() <= after.len()
    &&& after.take(before.len() as int) == before
    &&& forall|i: int, j: int|
        #![trigger after[i], after[j]]
        0 <= i < j && before.len() <= j < after.len() ==> key_of(after[i]) != key_of(after[j])
    &&& forall|j: int|
        before.len() <= j < after.len() ==> #[trigger] is_derived(after, reexports, j)
}

proof fn lemma_grows_transitive(
    a: Seq<FixtureView>,
    b: Seq<FixtureView>,
    c: Seq<FixtureView>,
    reexports: Seq<ReexportView>,
)
    requires
        grows(a, b, reexports),
        grows(b, c, reexports),
    ensures
        grows(a, c, reexports),
{
    assert forall|i: int| 0 <= i < b.len() implies c[i] == b[i] by {
        assert(c.take(b.len() as int)[i] == b[i]);
    }
    assert(c.take(a.len() as int) =~= a) by {
        assert forall|i: int| 0 <= i < a.len() implies c[i] == a[i] by {
            assert(b.take(a.len() as int)[i] == a[i]);
        }
    }
    assert forall|j: int| a.len() <= j < c.len() implies #[trigger] is_derived(c, reexports, j) by {
        if j < b.len() {
            assert(is_derived(b, reexports, j));
            let (i, k) = choose|i: int, k: int|
                #![trigger b[i], reexports[k]]
                0 <= i < j && 0 <= k < reexports.len() && exported(reexports[k], b[i]) == Some(
                    b[j],
                );
            assert(c[i] == b[i]);
            assert(exported(reexports[k], c[i]) == Some(c[j]));
        }
    }
    assert forall|i: int, j: int|
        #![trigger c[i], c[j]]
        0 <= i < j && a.len() <= j < c.len() implies key_of(c[i]) != key_of(c[j]) by {
        if j < b.len() {
            assert(c[i] == b[i] && c[j] == b[j]);
        }
    }
}

/// The exports come from the list by the imports.
spec fn come_from(
    exports: Seq<FixtureView>,
    fixtures: Seq<FixtureView>,
    reexports: Seq<ReexportView>,
) -> bool {
    forall|e: int| 0 <= e < exports.len() ==> comes_from(#[trigger] exports[e], fixtures, reexports)
}

spec fn comes_from(
    export: FixtureView,
    fixtures: Seq<FixtureView>,
    reexports: Seq<ReexportView>,
) -> bool {
    exists|i: int, k: int|
        #![trigger fixtures[i], reexports[k]]
        0 <= i < fixtures.len() && 0 <= k < reexports.len() && exported(reexports[k], fixtures[i])
            == Some(export)
}

proof fn lemma_with_new_grows(
    fixtures: Seq<FixtureView>,
    exports: Seq<FixtureView>,
    reexports: Seq<ReexportView>,
)
    requires
        come_from(exports, fixtures, reexports),
    ensures
        grows(fixtures, with_new(fixtures, exports), reexports),
    decreases exports.len(),
{
    if exports.len() == 0 {
        assert(fixtures.take(fixtures.len() as int) =~= fixtures);
    } else {
        let shorter = exports.drop_last();
        assert forall|e: int| 0 <= e < shorter.len() implies comes_from(
            #[trigger] shorter[e],
            fixtures,
            reexports,
        ) by {
            assert(comes_from(exports[e], fixtures, reexports));
        }
        lemma_with_new_grows(fixtures, shorter, reexports);
        let so_far = with_new(fixtures, shorter);
        let export = exports.last();
        if !is_known(so_far, export) {
            let after = so_far.push(export);
            assert(comes_from(exports[exports.len() - 1], fixtures, reexports));
            let (i, k) = choose|i: int, k: int|
                #![trigger fixtures[i], reexports[k]]
                0 <= i < fixtures.len() && 0 <= k < reexports.len() && exported(
                    reexports[k],
                    fixtures[i],
                ) == Some(export);
            assert(so_far.take(fixtures.len() as int)[i] == fixtures[i]);
            assert(after[i] == fixtures[i]);
            assert(is_derived(after, reexports, so_far.len() as int));
            assert(after.take(so_far.len() as int) =~= so_far);
            assert(grows(so_far, after, reexports)) by {
                assert forall|i: int, j: int|
                    #![trigger after[i], after[j]]
                    0 <= i < j && so_far.len() <= j < after.len() implies key_of(after[i])
                    != key_of(after[j]) by {
                    assert(after[i] == so_far[i]);
                }
            }
            lemma_grows_transitive(fixtures, so_far, after, reexports);
        }
    }
}

proof fn lemma_with_reexport_grows(
    fixtures: Seq<FixtureView>,
    reexports: Seq<ReexportView>,
    k: int,
)
    requires
        0 <= k < reexports.len(),
    ensures
        grows(fixtures, with_reexport(fixtures, reexports[k]), reexports),
{
    let f = |f: FixtureView| exported(reexports[k], f);
    let all = exports(reexports[k], fixtures);
    assert forall|e: int| 0 <= e < all.len() implies comes_from(
        #[trigger] all[e],
        fixtures,
        reexports,
    ) by {
        assert(fixtures.filter_map(f).contains(all[e]));
        fixtures.lemma_filter_map_contains(f, all[e]);
        let origin = choose|t: FixtureView| #[trigger]
            fixtures.contains(t) && f(t) == Some(all[e]);
        let i = choose|i: int| 0 <= i < fixtures.len() && fixtures[i] == origin;
        assert(exported(reexports[k], fixtures[i]) == Some(all[e]));
    }
    lemma_with_new_grows(fixtures, all, reexports);
}

proof fn lemma_round_grows(
    fixtures: Seq<FixtureView>,
    reexports: Seq<ReexportView>,
    n: int,
)
    requires
        0 <= n <= reexports.len(),
    ensures
        grows(fixtures, round(fixtures, reexports.take(n)), reexports),
    decreases n,
{
    if n == 0 {
        assert(fixtures.take(fixtures.len() as int) =~= fixtures);
    } else {
        lemma_round_grows(fixtures, reexports, n - 1);
        assert(reexports.take(n).drop_last() =~= reexports.take(n - 1));
        let so_far = round(fixtures, reexports.take(n - 1));
        lemma_with_reexport_grows(so_far, reexports, n - 1);
        lemma_grows_transitive(
            fixtures,
            so_far,
            with_reexport(so_far, reexports[n - 1]),
            reexports,
        );
    }
}

proof fn lemma_rounds_grow(fixtures: Seq<FixtureView>, reexports: Seq<ReexportView>, n: nat)
    ensures
        grows(fixtures, rounds(fixtures, reexports, n), reexports),
    decreases n,
{
    if n == 0 {
        assert(fixtures.take(fixtures.len() as int) =~= fixtures);
    } else {
        let so_far = rounds(fixtures, reexports, (n - 1) as nat);
        lemma_rounds_grow(fixtures, reexports, (n - 1) as nat);
        lemma_round_grows(so_far, reexports, reexports.len() as int);
        assert(reexports.take(reexports.len() as int) =~= reexports);
        lemma_grows_transitive(fixtures, so_far, round(so_far, reexports), reexports);
    }
}

/// The keys of a list.
spec fn keys_of(fixtures: Seq<FixtureView>) -> Set<(Seq<char>, PathView, PathView)> {
    fixtures.map_values(|f: FixtureView| key_of(f)).to_set()
}

spec fn names_for(fixtures: Seq<FixtureView>, reexports: Seq<ReexportView>) -> Set<Seq<char>> {
    fixtures.map_values(|f: FixtureView| f.name).to_set() + reexports.map_values(
        |r: ReexportView| taken_name(r, arbitrary()),
    ).to_set()
}

spec fn paths_for(fixtures: Seq<FixtureView>) -> Set<PathView> {
    fixtures.map_values(|f: FixtureView| f.path).to_set()
}

spec fn places_for(fixtures: Seq<FixtureView>, reexports: Seq<ReexportView>) -> Set<PathView> {
    fixtures.map_values(|f: FixtureView| f.visibility_path).to_set() + reexports.map_values(
        |r: ReexportView| r.conftest,
    ).to_set()
}

/// The keys that exports can have.
spec fn reachable(fixtures: Seq<FixtureView>, reexports: Seq<ReexportView>) -> Set<
    (Seq<char>, PathView, PathView),
> {
    Set::new(
        |key: (Seq<char>, PathView, PathView)|
            names_for(fixtures, reexports).contains(key.0) && paths_for(fixtures).contains(key.1)
                && places_for(fixtures, reexports).contains(key.2),
    )
}

proof fn lemma_product_finite<A, B>(a: Set<A>, b: Set<B>)
    requires
        a.finite(),
        b.finite(),
    ensures
        Set::new(|p: (A, B)| a.contains(p.0) && b.contains(p.1)).finite(),
{
    let row = |x: A| b.map(|y: B| (x, y));
    a.lemma_map_finite(row);
    let table = a.map(row);
    assert forall|s: Set<(A, B)>| table.contains(s) implies #[trigger] s.finite() by {
        let x = choose|x: A| a.contains(x) && row(x) == s;
        b.lemma_map_finite(|y: B| (x, y));
    }
    table.lemma_flatten_finite();
    let product = Set::new(|p: (A, B)| a.contains(p.0) && b.contains(p.1));
    assert(product.subset_of(table.flatten())) by {
        assert forall|p: (A, B)| product.contains(p) implies table.flatten().contains(p) by {
            let f = |y: B| (p.0, y);
            assert(f(p.1) == p);
            assert(row(p.0).contains(p));
            assert(table.contains(row(p.0)));
        }
    }
    vstd::set_lib::lemma_set_subset_finite(table.flatten(), product);
}

proof fn lemma_reachable_finite(fixtures: Seq<FixtureView>, reexports: Seq<ReexportView>)
    ensures
        reachable(fixtures, reexports).finite(),
{
    broadcast use vstd::seq_lib::seq_to_set_is_finite;
    broadcast use vstd::set::group_set_axioms;

    let names = names_for(fixtures, reexports);
    let paths = paths_for(fixtures);
    let places = places_for(fixtures, reexports);
    lemma_product_finite(paths, places);
    let pairs = Set::new(|p: (PathView, PathView)| paths.contains(p.0) && places.contains(p.1));
    lemma_product_finite(names, pairs);
    let nested = Set::new(
        |p: (Seq<char>, (PathView, PathView))| names.contains(p.0) && pairs.contains(p.1),
    );
    let flat = |p: (Seq<char>, (PathView, PathView))| (p.0, p.1.0, p.1.1);
    nested.lemma_map_finite(flat);
    assert(reachable(fixtures, reexports).subset_of(nested.map(flat))) by {
        assert forall|key: (Seq<char>, PathView, PathView)|
            reachable(fixtures, reexports).contains(key) implies nested.map(flat).contains(key) by {
            let p = (key.0, (key.1, key.2));
            assert(pairs.contains(p.1));
            assert(nested.contains(p));
            assert(flat(p) == key);
        }
    }
    vstd::set_lib::lemma_set_subset_finite(nested.map(flat), reachable(fixtures, reexports));
}

proof fn lemma_stays_reachable(
    fixtures: Seq<FixtureView>,
    reexports: Seq<ReexportView>,
    after: Seq<FixtureView>,
    j: int,
)
    requires
        grows(fixtures, after, reexports),
        0 <= j < after.len(),
    ensures
        reachable(fixtures, reexports).contains(key_of(after[j])),
    decreases j,
{
    let names = fixtures.map_values(|f: FixtureView| f.name);
    let paths = fixtures.map_values(|f: FixtureView| f.path);
    let places = fixtures.map_values(|f: FixtureView| f.visibility_path);
    let visible = reexports.map_values(|r: ReexportView| taken_name(r, arbitrary()));
    let conftests = reexports.map_values(|r: ReexportView| r.conftest);
    if j < fixtures.len() {
        assert(after.take(fixtures.len() as int)[j] == fixtures[j]);
        assert(names[j] == after[j].name && paths[j] == after[j].path && places[j]
            == after[j].visibility_path);
    } else {
        assert(is_derived(after, reexports, j));
        let (i, k) = choose|i: int, k: int|
            #![trigger after[i], reexports[k]]
            0 <= i < j && 0 <= k < reexports.len() && exported(reexports[k], after[i]) == Some(
                after[j],
            );
        lemma_stays_reachable(fixtures, reexports, after, i);
        assert(conftests[k] == after[j].visibility_path);
        match reexports[k].spec {
            ImportSpecView::Named { .. } => {
                assert(visible[k] == after[j].name);
            },
            ImportSpecView::Star { .. } => {
                assert(after[i].name == after[j].name);
            },
        }
    }
}

proof fn lemma_keys_reachable(
    fixtures: Seq<FixtureView>,
    reexports: Seq<ReexportView>,
    after: Seq<FixtureView>,
)
    requires
        grows(fixtures, after, reexports),
    ensures
        keys_of(after).finite(),
        keys_of(after).len() <= reachable(fixtures, reexports).len(),
{
    broadcast use vstd::seq_lib::seq_to_set_is_finite;

    lemma_reachable_finite(fixtures, reexports);
    let keys = after.map_values(|f: FixtureView| key_of(f));
    assert(keys_of(after).subset_of(reachable(fixtures, reexports))) by {
        assert forall|key: (Seq<char>, PathView, PathView)|
            keys_of(after).contains(key) implies reachable(fixtures, reexports).contains(key) by {
            let j = choose|j: int| 0 <= j < keys.len() && keys[j] == key;
            lemma_stays_reachable(fixtures, reexports, after, j);
        }
    }
    vstd::set_lib::lemma_len_subset(keys_of(after), reachable(fixtures, reexports));
}

proof fn lemma_keys_grow(
    before: Seq<FixtureView>,
    after: Seq<FixtureView>,
    reexports: Seq<ReexportView>,
)
    requires
        grows(before, after, reexports),
        before.len() < after.len(),
    ensures
        keys_of(before).len() < keys_of(after).len(),
{
    broadcast use vstd::seq_lib::seq_to_set_is_finite;

    let old_keys = before.map_values(|f: FixtureView| key_of(f));
    let new_keys = after.map_values(|f: FixtureView| key_of(f));
    let j = before.len() as int;
    assert forall|i: int| 0 <= i < before.len() implies after[i] == before[i] by {
        assert(after.take(j)[i] == before[i]);
    }
    assert(keys_of(before).subset_of(keys_of(after))) by {
        assert forall|key: (Seq<char>, PathView, PathView)|
            keys_of(before).contains(key) implies keys_of(after).contains(key) by {
            let i = choose|i: int| 0 <= i < old_keys.len() && old_keys[i] == key;
            assert(new_keys[i] == key);
        }
    }
    let key = key_of(after[j]);
    assert(new_keys[j] == key);
    assert(!keys_of(before).contains(key)) by {
        if keys_of(before).contains(key) {
            let i = choose|i: int| 0 <= i < old_keys.len() && old_keys[i] == key;
            assert(key_of(after[i]) == key_of(after[j]));
        }
    }
    keys_of(before).lemma_subset_not_in_lt(keys_of(after), key);
}

proof fn lemma_settles_from(fixtures: Seq<FixtureView>, reexports: Seq<ReexportView>, n: nat)
    ensures
        exists|m: nat| settles(fixtures, reexports, m),
    decreases
            reachable(fixtures, reexports).len() - keys_of(rounds(fixtures, reexports, n)).len(),
{
    if !settles(fixtures, reexports, n) {
        let here = rounds(fixtures, reexports, n);
        let next = rounds(fixtures, reexports, n + 1);
        lemma_rounds_grow(fixtures, reexports, n);
        lemma_rounds_grow(fixtures, reexports, n + 1);
        lemma_keys_reachable(fixtures, reexports, here);
        lemma_keys_reachable(fixtures, reexports, next);
        assert(reexports.take(reexports.len() as int) =~= reexports);
        lemma_round_grows(here, reexports, reexports.len() as int);
        assert(next == round(here, reexports));
        if next.len() == here.len() {
            assert(next.take(here.len() as int) =~= next);
        }
        lemma_keys_grow(here, next, reexports);
        lemma_settles_from(fixtures, reexports, n + 1);
    }
}

proof fn lemma_settled_stays(
    fixtures: Seq<FixtureView>,
    reexports: Seq<ReexportView>,
    n: nat,
    m: nat,
)
    requires
        settles(fixtures, reexports, n),
        n <= m,
    ensures
        rounds(fixtures, reexports, m) == rounds(fixtures, reexports, n),
    decreases m - n,
{
    if n < m {
        lemma_settled_stays(fixtures, reexports, n, (m - 1) as nat);
    }
}

proof fn lemma_expanded_is(fixtures: Seq<FixtureView>, reexports: Seq<ReexportView>, n: nat)
    requires
        settles(fixtures, reexports, n),
    ensures
        expanded(fixtures, reexports) == rounds(fixtures, reexports, n),
{
    let m = choose|m: nat| settles(fixtures, reexports, m);
    if m <= n {
        lemma_settled_stays(fixtures, reexports, m, n);
    } else {
        lemma_settled_stays(fixtures, reexports, n, m);
    }
}

proof fn lemma_expanded_settles(fixtures: Seq<FixtureView>, reexports: Seq<ReexportView>)
    ensures
        grows(fixtures, expanded(fixtures, reexports), reexports),
        round(expanded(fixtures, reexports), reexports) == expanded(fixtures, reexports),
{
    lemma_settles_from(fixtures, reexports, 0);
    let m = choose|m: nat| settles(fixtures, reexports, m);
    lemma_rounds_grow(fixtures, reexports, m);
}

/// Following the imports comes to an end, however they refer to each other: after some round no
/// import adds anything.
pub proof fn reexports_settle(fixtures: Seq<FixtureView>, reexports: Seq<ReexportView>)
    ensures
        exists|n: nat| settles(fixtures, reexports, n),
        round(expanded(fixtures, reexports), reexports) == expanded(fixtures, reexports),
{
    lemma_settles_from(fixtures, reexports, 0);
    lemma_expanded_settles(fixtures, reexports);
}

/// The fixtures that are found in the files keep their places at the front of the list.
pub proof fn reexports_keep_fixtures(fixtures: Seq<FixtureView>, reexports: Seq<ReexportView>)
    ensures
        fixtures.len() <= expanded(fixtures, reexports).len(),
        expanded(fixtures, reexports).take(fixtures.len() as int) == fixtures,
{
    lemma_expanded_settles(fixtures, reexports);
}

/// Whatever is added is what an import makes of a fixture that stands before it.
pub proof fn reexports_are_derived(
    fixtures: Seq<FixtureView>,
    reexports: Seq<ReexportView>,
    j: int,
)
    requires
        fixtures.len() <= j < expanded(fixtures, reexports).len(),
    ensures
        is_derived(expanded(fixtures, reexports), reexports, j),
{
    lemma_expanded_settles(fixtures, reexports);
}

/// No fixture is added of which the list has the key already.
pub proof fn reexports_are_new(
    fixtures: Seq<FixtureView>,
    reexports: Seq<ReexportView>,
    i: int,
    j: int,
)
    requires
        0 <= i < j,
        fixtures.len() <= j < expanded(fixtures, reexports).len(),
    ensures
        key_of(expanded(fixtures, reexports)[i]) != key_of(expanded(fixtures, reexports)[j]),
{
    lemma_expanded_settles(fixtures, reexports);
    let e = expanded(fixtures, reexports);
    assert(key_of(e[i]) != key_of(e[j]));
}

proof fn lemma_with_new_complete(
    fixtures: Seq<FixtureView>,
    exports: Seq<FixtureView>,
    e: int,
)
    requires
        0 <= e < exports.len(),
    ensures
        is_known(with_new(fixtures, exports), exports[e]),
    decreases exports.len(),
{
    let so_far = with_new(fixtures, exports.drop_last());
    if e == exports.len() - 1 {
        if !is_known(so_far, exports.last()) {
            let after = so_far.push(exports.last());
            assert(key_of(after[so_far.len() as int]) == key_of(exports[e]));
        }
    } else {
        lemma_with_new_complete(fixtures, exports.drop_last(), e);
        let i = choose|i: int|
            0 <= i < so_far.len() && key_of(#[trigger] so_far[i]) == key_of(exports[e]);
        assert(with_new(fixtures, exports)[i] == so_far[i]);
    }
}

proof fn lemma_round_complete(
    fixtures: Seq<FixtureView>,
    reexports: Seq<ReexportView>,
    n: int,
    k: int,
)
    requires
        round(fixtures, reexports.take(n)) == fixtures,
        0 <= k < n <= reexports.len(),
    ensures
        with_reexport(fixtures, reexports[k]) == fixtures,
    decreases n,
{
    assert(reexports.take(n).drop_last() =~= reexports.take(n - 1));
    let so_far = round(fixtures, reexports.take(n - 1));
    lemma_round_grows(fixtures, reexports, n - 1);
    lemma_with_reexport_grows(so_far, reexports, n - 1);
    assert(so_far.len() == fixtures.len());
    assert(so_far.take(fixtures.len() as int) =~= so_far);
    if k < n - 1 {
        lemma_round_complete(fixtures, reexports, n - 1, k);
    }
}

/// Nothing is missing: what an import makes of a fixture of the list is in the list, also where
/// the fixture is itself there by an import.
pub proof fn reexports_are_complete(
    fixtures: Seq<FixtureView>,
    reexports: Seq<ReexportView>,
    k: int,
    i: int,
)
    requires
        0 <= k < reexports.len(),
        0 <= i < expanded(fixtures, reexports).len(),
        takes(reexports[k], expanded(fixtures, reexports)[i]),
    ensures
        is_known(
            expanded(fixtures, reexports),
            exported(reexports[k], expanded(fixtures, reexports)[i])->0,
        ),
{
    let all = expanded(fixtures, reexports);
    lemma_expanded_settles(fixtures, reexports);
    assert(reexports.take(reexports.len() as int) =~= reexports);
    lemma_round_complete(all, reexports, reexports.len() as int, k);
    let f = |f: FixtureView| exported(reexports[k], f);
    let found = exports(reexports[k], all);
    lemma_filter_map_reaches(all, f, i);
    let e = choose|e: int| 0 <= e < found.len() && Some(found[e]) == f(all[i]);
    lemma_with_new_complete(all, found, e);
}

proof fn lemma_filter_map_reaches<A, B>(s: Seq<A>, f: spec_fn(A) -> Option<B>, i: int)
    requires
        0 <= i < s.len(),
        f(s[i]) is Some,
    ensures
        exists|e: int|
            0 <= e < s.filter_map(f).len() && Some(#[trigger] s.filter_map(f)[e]) == f(s[i]),
    decreases s.len(),
{
    let rest = s.drop_last();
    if i < rest.len() {
        lemma_filter_map_reaches(rest, f, i);
        let e = choose|e: int|
            0 <= e < rest.filter_map(f).len() && Some(#[trigger] rest.filter_map(f)[e]) == f(
                rest[i],
            );
        assert(s.filter_map(f)[e] == rest.filter_map(f)[e]);
    } else {
        let e = rest.filter_map(f).len() as int;
        assert(s.filter_map(f)[e] == f(s.last())->0);
    }
}

fn export_of(r: &Reexport, f: &Fixture) -> (out: Option<Fixture>)
    ensures
        option_view(out) == exported(r@, f@),
{
    match &r.spec {
        ImportSpec::Named { imported, visible, source } => {
            if f.name == *imported && (same_path(&f.path, source) || same_path(
                &f.visibility_path,
                source,
            )) {
                let mut export: Fixture = f.clone();
                export.name = visible.clone();
                export.visibility_path = r.conftest.clone();
                Some(export)
            } else {
                None
            }
        },
        ImportSpec::Star { source } => {
            if same_path(&f.visibility_path, source) || same_path(&f.path, source) {
                let mut export: Fixture = f.clone();
                export.visibility_path = r.conftest.clone();
                Some(export)
            } else {
                None
            }
        },
    }
}

fn exports_of(r: &Reexport, fixtures: &Vec<Fixture>) -> (out: Vec<Fixture>)
    ensures
        views(out@) == exports(r@, views(fixtures@)),
{
    let ghost all = views(fixtures@);
    let ghost f = |f: FixtureView| exported(r@, f);
    let mut out: Vec<Fixture> = Vec::new();
    let mut i: usize = 0;
    assert(views(out@) =~= all.take(0).filter_map(f));
    while i < fixtures.len()
        invariant
            i <= fixtures@.len(),
            all == views(fixtures@),
            f == (|f: FixtureView| exported(r@, f)),
            views(out@) == all.take(i as int).filter_map(f),
        decreases fixtures@.len() - i,
    {
        proof {
            all.lemma_filter_map_take_succ(f, i as int);
            assert(all[i as int] == fixtures@[i as int]@);
        }
        match export_of(r, &fixtures[i]) {
            Some(export) => {
                proof {
                    lemma_views_push(out@, export);
                }
                out.push(export);
            },
            None => {},
        }
        assert(views(out@) =~= all.take(i + 1).filter_map(f));
        i = i + 1;
    }
    assert(all.take(all.len() as int) =~= all);
    out
}

fn knows(fixtures: &Vec<Fixture>, f: &Fixture) -> (r: bool)
    ensures
        r == is_known(views(fixtures@), f@),
{
    let ghost all = views(fixtures@);
    let mut i: usize = 0;
    while i < fixtures.len()
        invariant
            i <= fixtures@.len(),
            all == views(fixtures@),
            forall|j: int| 0 <= j < i ==> key_of(#[trigger] all[j]) != key_of(f@),
        decreases fixtures@.len() - i,
    {
        let known: &Fixture = &fixtures[i];
        assert(all[i as int] == known@);
        if known.name == f.name && same_path(&known.path, &f.path) && same_path(
            &known.visibility_path,
            &f.visibility_path,
        ) {
            assert(key_of(all[i as int]) == key_of(f@));
            return true;
        }
        i = i + 1;
    }
    false
}

fn add_new(fixtures: &mut Vec<Fixture>, exports: &Vec<Fixture>)
    ensures
        views(final(fixtures)@) == with_new(views(old(fixtures)@), views(exports@)),
{
    let ghost start = views(fixtures@);
    let ghost all = views(exports@);
    let mut i: usize = 0;
    assert(with_new(start, all.take(0)) == start);
    while i < exports.len()
        invariant
            i <= exports@.len(),
            all == views(exports@),
            views(fixtures@) == with_new(start, all.take(i as int)),
        decreases exports@.len() - i,
    {
        proof {
            assert(all.take(i + 1).drop_last() =~= all.take(i as int));
            assert(all.take(i + 1).last() == exports@[i as int]@);
        }
        if !knows(fixtures, &exports[i]) {
            let export: Fixture = exports[i].clone();
            proof {
                lemma_views_push(fixtures@, export);
            }
            fixtures.push(export);
        }
        i = i + 1;
    }
    assert(all.take(all.len() as int) =~= all);
}

fn run_round(fixtures: &mut Vec<Fixture>, reexports: &Vec<Reexport>)
    ensures
        views(final(fixtures)@) == round(views(old(fixtures)@), views(reexports@)),
{
    let ghost start = views(fixtures@);
    let ghost all = views(reexports@);
    let mut i: usize = 0;
    assert(round(start, all.take(0)) == start);
    while i < reexports.len()
        invariant
            i <= reexports@.len(),
            all == views(reexports@),
            views(fixtures@) == round(start, all.take(i as int)),
        decreases reexports@.len() - i,
    {
        proof {
            assert(all.take(i + 1).drop_last() =~= all.take(i as int));
            assert(all.take(i + 1).last() == reexports@[i as int]@);
        }
        let exports: Vec<Fixture> = exports_of(&reexports[i], fixtures);
        add_new(fixtures, &exports);
        i = i + 1;
    }
    assert(all.take(all.len() as int) =~= all);
}

/// Adds to a list all that imports make visible.
pub fn expand(fixtures: Vec<Fixture>, reexports: &Vec<Reexport>) -> (r: Vec<Fixture>)
    ensures
        views(r@) == expanded(views(fixtures@), views(reexports@)),
{
    let ghost start = views(fixtures@);
    let ghost all = views(reexports@);
    let mut fixtures: Vec<Fixture> = fixtures;
    let mut changed: bool = true;
    let ghost mut n: nat = 0;
    while changed
        invariant
            all == views(reexports@),
            views(fixtures@) == rounds(start, all, n),
            !changed ==> settles(start, all, n),
        decreases
                reachable(start, all).len() - keys_of(views(fixtures@)).len(),
                (if changed { 1int } else { 0int }),
    {
        let before: usize = fixtures.len();
        let ghost here = views(fixtures@);
        run_round(&mut fixtures, reexports);
        changed = fixtures.len() > before;
        proof {
            let next = views(fixtures@);
            assert(next == rounds(start, all, n + 1));
            assert(all.take(all.len() as int) =~= all);
            lemma_round_grows(here, all, all.len() as int);
            lemma_rounds_grow(start, all, n);
            lemma_rounds_grow(start, all, n + 1);
            lemma_keys_reachable(start, all, here);
            lemma_keys_reachable(start, all, next);
            if changed {
                lemma_keys_grow(here, next, all);
            } else {
                assert(next.take(here.len() as int) =~= next);
                assert(next == here);
                assert(settles(start, all, n));
                assert(settles(start, all, n + 1));
            }
            n = n + 1;
        }
    }
    proof {
        lemma_expanded_is(start, all, n);
    }
    fixtures
}

/// A list with all that the imports of the `conftest.py` files make visible, or the first of
/// those files that cannot be read.
pub open spec fn expanded_for(
    ws: WorkspaceView,
    root: PathView,
    fixtures: Seq<FixtureView>,
) -> Result<Seq<FixtureView>, PathView> {
    match reexports_in(ws, root) {
        Ok(reexports) => Ok(expanded(fixtures, reexports)),
        Err(path) => Err(path),
    }
}

/// Adds to a list all that the `conftest.py` files of a project make visible by importing it.
pub fn expand_conftest_reexports(ws: &Workspace, root: &FilePath, fixtures: Vec<Fixture>) -> (r:
    Result<Vec<Fixture>, UnreadableFile>)
    requires
        parseable(ws@),
    ensures
        outcome(r) == expanded_for(ws@, root@, views(fixtures@)),
{
    match conftest_reexports(ws, root) {
        Ok(reexports) => Ok(expand(fixtures, &reexports)),
        Err(e) => Err(e),
    }
}

/// `from m import a` in a file takes `a` under its own name, `from m import a as b` takes it as
/// `b`, and `from m import *` takes everything, from the file of the module, if there is one.
pub proof fn imports_take_what_they_name(
    ws: WorkspaceView,
    root: PathView,
    body: Seq<StatementView>,
    k: int,
    j: int,
    level: u32,
    module: Seq<char>,
    names: Seq<ImportedNameView>,
)
    requires
        0 <= k < body.len(),
        body[k].kind == (StatementKindView::ImportFrom { level, module: Some(module), names }),
        0 <= j < names.len(),
        found_module(ws, root, module) is Some,
    ensures
        names[j].name == "*"@ ==> specs_in(ws, root, body).contains(
            ImportSpecView::Star { source: found_module(ws, root, module)->0 },
        ),
        names[j].name != "*"@ && names[j].asname is None ==> specs_in(ws, root, body).contains(
            ImportSpecView::Named {
                imported: names[j].name,
                visible: names[j].name,
                source: found_module(ws, root, module)->0,
            },
        ),
        names[j].name != "*"@ && names[j].asname is Some ==> specs_in(ws, root, body).contains(
            ImportSpecView::Named {
                imported: names[j].name,
                visible: names[j].asname->0,
                source: found_module(ws, root, module)->0,
            },
        ),
{
    let f = |s: StatementView| specs_of_statement(ws, root, s);
    lemma_flat_map_has(body, f, k, j);
}

/// Nothing is taken but from the file of a module of the project that a statement names, and by
/// its names.
pub proof fn specs_come_from_imports(
    ws: WorkspaceView,
    root: PathView,
    body: Seq<StatementView>,
    spec: ImportSpecView,
)
    requires
        specs_in(ws, root, body).contains(spec),
    ensures
        exists|k: int| 0 <= k < body.len() && brings(ws, root, #[trigger] body[k], spec),
{
    let f = |s: StatementView| specs_of_statement(ws, root, s);
    let k = lemma_flat_map_source(body, f, spec);
    match body[k].kind {
        StatementKindView::ImportFrom { module: Some(module), names, .. } => {
            let j = specs_of_statement(ws, root, body[k]).index_of(spec);
            assert(specs_of_statement(ws, root, body[k])[j] == spec);
            assert(brings_name(names[j], spec));
        },
        _ => {},
    }
    assert(brings(ws, root, body[k], spec));
}

/// The imported name brings what is taken.
pub open spec fn brings_name(n: ImportedNameView, spec: ImportSpecView) -> bool {
    match spec {
        ImportSpecView::Star { .. } => n.name == "*"@,
        ImportSpecView::Named { imported, visible, .. } => imported == n.name && n.name != "*"@
            && (n.asname == Some(visible) || (n.asname is None && visible == n.name)),
    }
}

/// The statement brings what is taken, from the file of the module that it names.
pub open spec fn brings(
    ws: WorkspaceView,
    root: PathView,
    s: StatementView,
    spec: ImportSpecView,
) -> bool {
    match s.kind {
        StatementKindView::ImportFrom { module: Some(module), names, .. } => {
            &&& found_module(ws, root, module) == Some(
                match spec {
                    ImportSpecView::Star { source } => source,
                    ImportSpecView::Named { source, .. } => source,
                },
            )
            &&& exists|j: int| 0 <= j < names.len() && brings_name(#[trigger] names[j], spec)
        },
        _ => false,
    }
}

/// An import of a name makes visible the fixture of that name that is defined or visible in the
/// imported file, and a star every fixture there. It is then visible from the importing file, and
/// is else what it was: defined where it was, with the same annotation.
pub proof fn imports_export_fixtures(
    conftest: PathView,
    source: PathView,
    imported: Seq<char>,
    visible: Seq<char>,
    f: FixtureView,
)
    ensures
        exported(
            ReexportView { conftest, spec: ImportSpecView::Named { imported, visible, source } },
            f,
        ) is Some <==> f.name == imported && (f.path == source || f.visibility_path == source),
        exported(ReexportView { conftest, spec: ImportSpecView::Star { source } }, f) is Some
            <==> f.path == source || f.visibility_path == source,
        exported(
            ReexportView { conftest, spec: ImportSpecView::Named { imported, visible, source } },
            f,
        ) matches Some(g) ==> g.name == visible && g.path == f.path && g.visibility_path == conftest
            && g.range == f.range && g.name_range == f.name_range && g.return_annotation
            == f.return_annotation,
        exported(ReexportView { conftest, spec: ImportSpecView::Star { source } }, f) matches Some(
            g,
        ) ==> g.name == f.name && g.path == f.path && g.visibility_path == conftest && g.range
            == f.range && g.name_range == f.name_range && g.return_annotation
            == f.return_annotation,
{
}

/// Every `conftest.py` of the project, wherever it lies, and none of its other files, makes visible
/// what it imports.
pub proof fn conftests_are_found(ws: WorkspaceView, root: PathView, path: PathView)
    ensures
        conftests(ws, root).contains(path) <==> path.len() > 0 && path.last() == encode_utf8(
            "conftest.py"@,
        ) && is_plain(path.last()) && exists|i: int|
            0 <= i < project_sources(ws, root).len() && (#[trigger] project_sources(
                ws,
                root,
            )[i]).path == path,
{
    let all = project_sources(ws, root);
    let f = |entry: FileEntryView| conftest_path(entry);
    if conftests(ws, root).contains(path) {
        all.lemma_filter_map_contains(f, path);
        let entry = choose|entry: FileEntryView| #[trigger]
            all.contains(entry) && f(entry) == Some(path);
        let i = all.index_of(entry);
        assert(all[i].path == path);
    }
    assert forall|i: int|
        0 <= i < all.len() && (#[trigger] all[i]).path == path && path.len() > 0 && path.last()
            == encode_utf8("conftest.py"@) && is_plain(path.last()) implies conftests(
        ws,
        root,
    ).contains(path) by {
        lemma_filter_map_has(all, f, i);
    }
}

/// What a `conftest.py` of the project imports is among the imports that are followed, with the
/// file that it makes it visible from.
pub proof fn every_conftest_reexports(
    ws: WorkspaceView,
    root: PathView,
    file: PathView,
    text: Seq<char>,
    spec: ImportSpecView,
)
    requires
        reexports_in(ws, root) is Ok,
        conftests(ws, root).contains(file),
        source_at(ws, file) == Some(text),
        specs_in(ws, root, python_body(text)).contains(spec),
    ensures
        reexports_in(ws, root)->Ok_0.contains(ReexportView { conftest: file, spec }),
{
    let f = |file: PathView, text: Seq<char>| reexports_of_text(ws, root, file, text);
    let files = conftests(ws, root);
    let specs = specs_in(ws, root, python_body(text));
    let k = specs.index_of(spec);
    assert(reexports_of_text(ws, root, file, text)[k] == ReexportView { conftest: file, spec });
    files_are_gathered(ws, files, f, ReexportView { conftest: file, spec });
    let i = files.index_of(file);
    assert(f(files[i], text).contains(ReexportView { conftest: file, spec }));
}

/// What an import of a `conftest.py` takes is in the list: a fixture of the name that it is given,
/// defined where the taken one is, and visible from the `conftest.py`. So it is where the taken
/// one is itself there by an import.
pub proof fn reexported_fixtures_are_in_the_list(
    fixtures: Seq<FixtureView>,
    reexports: Seq<ReexportView>,
    k: int,
    i: int,
)
    requires
        0 <= k < reexports.len(),
        0 <= i < expanded(fixtures, reexports).len(),
        match reexports[k].spec {
            ImportSpecView::Named { imported, source, .. } => {
                &&& expanded(fixtures, reexports)[i].name == imported
                &&& expanded(fixtures, reexports)[i].path == source || expanded(
                    fixtures,
                    reexports,
                )[i].visibility_path == source
            },
            ImportSpecView::Star { source } => expanded(fixtures, reexports)[i].path == source
                || expanded(fixtures, reexports)[i].visibility_path == source,
        },
    ensures
        exists|j: int|
            0 <= j < expanded(fixtures, reexports).len() && (#[trigger] expanded(
                fixtures,
                reexports,
            )[j]).path == expanded(fixtures, reexports)[i].path && expanded(
                fixtures,
                reexports,
            )[j].visibility_path == reexports[k].conftest && expanded(fixtures, reexports)[j].name
                == match reexports[k].spec {
                ImportSpecView::Named { visible, .. } => visible,
                ImportSpecView::Star { .. } => expanded(fixtures, reexports)[i].name,
            },
{
    reexports_are_complete(fixtures, reexports, k, i);
    let all = expanded(fixtures, reexports);
    let wanted = exported(reexports[k], all[i])->0;
    let j = choose|j: int| 0 <= j < all.len() && key_of(#[trigger] all[j]) == key_of(wanted);
    assert(all[j].path == all[i].path);
}

/// Nothing is added twice: of what is added, no two have the same name, place of definition and
/// place from which they are visible, nor does one have them in common with a fixture before it.
pub proof fn reexports_are_added_once(
    fixtures: Seq<FixtureView>,
    reexports: Seq<ReexportView>,
    i: int,
    j: int,
)
    requires
        0 <= i < j,
        fixtures.len() <= j < expanded(fixtures, reexports).len(),
    ensures
        expanded(fixtures, reexports)[i].name != expanded(fixtures, reexports)[j].name || expanded(
            fixtures,
            reexports,
        )[i].path != expanded(fixtures, reexports)[j].path || expanded(
            fixtures,
            reexports,
        )[i].visibility_path != expanded(fixtures, reexports)[j].visibility_path,
{
    reexports_are_new(fixtures, reexports, i, j);
}

/// Only what a `conftest.py` of the project imports is followed.
pub proof fn only_conftests_reexport(ws: WorkspaceView, root: PathView, r: ReexportView)
    requires
        reexports_in(ws, root) is Ok,
        reexports_in(ws, root)->Ok_0.contains(r),
    ensures
        conftests(ws, root).contains(r.conftest),
        source_at(ws, r.conftest) matches Some(text) && specs_in(
            ws,
            root,
            python_body(text),
        ).contains(r.spec),
{
    let f = |file: PathView, text: Seq<char>| reexports_of_text(ws, root, file, text);
    let files = conftests(ws, root);
    files_are_gathered(ws, files, f, r);
    let i = choose|i: int|
        0 <= i < files.len() && source_at(ws, #[trigger] files[i]) is Some && f(
            files[i],
            source_at(ws, files[i])->0,
        ).contains(r);
    let text = source_at(ws, files[i])->0;
    let all = reexports_of_text(ws, root, files[i], text);
    let k = all.index_of(r);
    assert(all[k] == r);
    assert(specs_in(ws, root, python_body(text))[k] == r.spec);
}

/// What a file takes is told where it can be read, and else the file is named.
pub proof fn unreadable_files_take_nothing(ws: WorkspaceView, root: PathView, file: PathView)
    ensures
        source_at(ws, file) matches Some(text) ==> specs_of_file(ws, root, file) == Ok::<
            Seq<ImportSpecView>,
            PathView,
        >(specs_in(ws, root, python_body(text))),
        source_at(ws, file) is None ==> specs_of_file(ws, root, file) == Err::<
            Seq<ImportSpecView>,
            PathView,
        >(file),
{
}

/// What is said of an import is said of all its parts.
pub proof fn reexports_stand_for_their_parts(r: Reexport)
    ensures
        r@.conftest == r.conftest@,
        match r.spec {
            ImportSpec::Named { imported, visible, source } => r@.spec == (ImportSpecView::Named {
                imported: imported@,
                visible: visible@,
                source: source@,
            }),
            ImportSpec::Star { source } => r@.spec == (ImportSpecView::Star { source: source@ }),
        },
{
}

}
