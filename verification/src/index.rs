//! The index of a project's fixtures, and which of them a file sees.
use crate::fixture::{
    file_bindings, fixtures_in_text, fixtures_of, fixtures_stand_in_their_file, Fixture,
    FixtureView,
};
use crate::imports::bindings_in;
use crate::path::{is_absolute, is_under, FilePath, PathView};
use crate::reexports::{
    conftests, conftests_are_found, every_conftest_reexports, expand_conftest_reexports, expanded,
    expanded_for, exported, reexported_fixtures_are_in_the_list, reexports_are_derived,
    reexports_in, reexports_keep_fixtures, reexports_of_text, specs_in, ImportSpecView,
    ReexportView,
};
use crate::syntax::{body_of, parse_module, python_body, Statement, StatementView};
use crate::text::{byte_len, fits, lemma_filter_map_has, option_view, views};
use crate::visibility::{
    adds_no_fixture, has_fixture, imported_fixture_sources, imports_in, is_best, lemma_ranked_alike,
    other_imports_keep_the_scores, plugin_paths, plugin_paths_for, rank_fixtures, ranked,
    ranking_keeps_the_best, stands_for_best, visibility_score, FixtureImport,
};
use crate::workspace::{
    collect_python_files, files_are_gathered, found_module, gathered, is_project_source,
    lemma_gathered_error, names_plugin, outcome, parseable, plugin_config_files,
    plugins_are_named_above, plugins_are_what_is_assigned, plugins_of_files, project_sources,
    source_at, FileEntry, FileEntryView, UnreadableFile, Workspace, WorkspaceView,
};
use vstd::prelude::*;

verus! {

/// The fixtures of a project.
#[derive(Debug)]
pub struct FixtureIndex {
    root: FilePath,
    fixtures: Vec<Fixture>,
}

/// What [`FixtureIndex`] stands for.
pub struct FixtureIndexView {
    pub root: PathView,
    pub fixtures: Seq<FixtureView>,
}

impl View for FixtureIndex {
    type V = FixtureIndexView;

    closed spec fn view(&self) -> FixtureIndexView {
        FixtureIndexView { root: self.root@, fixtures: views(self.fixtures@) }
    }
}

impl Default for FixtureIndex {
    fn default() -> (r: Self)
        ensures
            r@.root == Seq::<Seq<u8>>::empty(),
            r@.fixtures == Seq::<FixtureView>::empty(),
    {
        let r: FixtureIndex = FixtureIndex {
            root: FilePath { components: Vec::new() },
            fixtures: Vec::new(),
        };
        assert(r@.root =~= Seq::<Seq<u8>>::empty());
        assert(r@.fixtures =~= Seq::<FixtureView>::empty());
        r
    }
}

/// The files of a project.
pub open spec fn project_paths(ws: WorkspaceView, root: PathView) -> Seq<PathView> {
    project_sources(ws, root).map_values(|entry: FileEntryView| entry.path)
}

/// The fixtures that the files of a project define, or the first file that cannot be read.
pub open spec fn project_fixtures(ws: WorkspaceView, root: PathView) -> Result<
    Seq<FixtureView>,
    PathView,
> {
    gathered(
        ws,
        project_paths(ws, root),
        |path: PathView, text: Seq<char>| fixtures_of(ws, path, text, python_body(text)),
    )
}

/// The fixtures of a project: those that its files define, and those that its `conftest.py`
/// files make visible by importing them.
pub open spec fn all_fixtures(ws: WorkspaceView, root: PathView) -> Result<
    Seq<FixtureView>,
    PathView,
> {
    match project_fixtures(ws, root) {
        Ok(fixtures) => expanded_for(ws, root, fixtures),
        Err(path) => Err(path),
    }
}

/// What comes of building an index.
pub open spec fn index_outcome(r: Result<FixtureIndex, UnreadableFile>) -> Result<
    FixtureIndexView,
    PathView,
> {
    match r {
        Ok(index) => Ok(index@),
        Err(e) => Err(e.path@),
    }
}

/// Every file that the index can name has a URL.
pub open spec fn is_located(index: FixtureIndexView) -> bool {
    &&& index.fixtures.len() > 0 ==> is_absolute(index.root)
    &&& forall|i: int|
        0 <= i < index.fixtures.len() ==> is_absolute((#[trigger] index.fixtures[i]).path)
}

/// The fixtures that the files of a project define.
pub fn collect_fixtures(ws: &Workspace, root: &FilePath) -> (r: Result<
    Vec<Fixture>,
    UnreadableFile,
>)
    requires
        parseable(ws@),
    ensures
        outcome(r) == project_fixtures(ws@, root@),
{
    let files: Vec<&FileEntry> = collect_python_files(ws, root);
    let ghost all = project_paths(ws@, root@);
    let ghost f = |path: PathView, text: Seq<char>|
        fixtures_of(ws@, path, text, python_body(text));
    let mut out: Vec<Fixture> = Vec::new();
    let mut i: usize = 0;
    assert(views(out@) =~= Seq::<FixtureView>::empty());
    while i < files.len()
        invariant
            parseable(ws@),
            i <= files@.len(),
            all == project_paths(ws@, root@),
            views(files@) == project_sources(ws@, root@),
            f == (|path: PathView, text: Seq<char>|
                fixtures_of(ws@, path, text, python_body(text))),
            gathered(ws@, all.take(i as int), f) == Ok::<Seq<FixtureView>, PathView>(views(out@)),
        decreases files@.len() - i,
    {
        let path: &FilePath = &files[i].path;
        proof {
            assert(views(files@)[i as int] == files@[i as int]@);
            assert(all.take(i + 1).drop_last() =~= all.take(i as int));
            assert(all.take(i + 1).last() == path@);
        }
        match ws.read(path) {
            Some(text) => {
                let mut found: Vec<Fixture> = fixtures_in_text(ws, path, text.as_str());
                let ghost more = found@;
                let ghost so_far = out@;
                out.append(&mut found);
                assert(views(out@) =~= views(so_far) + views(more));
            },
            None => {
                proof {
                    lemma_gathered_error(ws@, all, f, i + 1);
                }
                return Err(UnreadableFile { path: path.clone() });
            },
        }
        i = i + 1;
    }
    assert(all.take(all.len() as int) =~= all);
    Ok(out)
}

/// A path below an absolute root is absolute.
pub proof fn lemma_below_absolute(path: PathView, root: PathView)
    requires
        is_absolute(root),
        is_under(path, root),
    ensures
        is_absolute(path),
{
    assert(path.take(root.len() as int)[0] == path[0]);
}

/// The files of a project lie below its root.
pub proof fn lemma_project_path(ws: WorkspaceView, root: PathView, i: int)
    requires
        0 <= i < project_paths(ws, root).len(),
    ensures
        is_under(project_paths(ws, root)[i], root),
{
    let keep = |entry: FileEntryView| is_project_source(entry, root);
    broadcast use vstd::seq_lib::group_filter_ensures;

    assert(project_sources(ws, root).contains(project_sources(ws, root)[i]));
    assert(keep(ws.filter(keep)[i]));
}

proof fn lemma_fixtures_below(ws: WorkspaceView, root: PathView, n: int, i: int)
    requires
        0 <= n <= project_paths(ws, root).len(),
        gathered(
            ws,
            project_paths(ws, root).take(n),
            |path: PathView, text: Seq<char>| fixtures_of(ws, path, text, python_body(text)),
        ) matches Ok(fixtures) && 0 <= i < fixtures.len(),
    ensures
        is_under(
            gathered(
                ws,
                project_paths(ws, root).take(n),
                |path: PathView, text: Seq<char>| fixtures_of(ws, path, text, python_body(text)),
            )->Ok_0[i].path,
            root,
        ),
    decreases n,
{
    let f = |path: PathView, text: Seq<char>| fixtures_of(ws, path, text, python_body(text));
    let all = project_paths(ws, root);
    if n > 0 {
        assert(all.take(n).drop_last() =~= all.take(n - 1));
        let fewer = gathered(ws, all.take(n - 1), f)->Ok_0;
        if i < fewer.len() {
            lemma_fixtures_below(ws, root, n - 1, i);
        } else {
            let path = all[n - 1];
            let text = source_at(ws, path)->0;
            assert(all.take(n).last() == path);
            fixtures_stand_in_their_file(
                ws,
                path,
                text,
                python_body(text),
                i - fewer.len(),
            );
            lemma_project_path(ws, root, n - 1);
        }
    }
}

proof fn lemma_exports_keep_path(
    fixtures: Seq<FixtureView>,
    reexports: Seq<ReexportView>,
    root: PathView,
    j: int,
)
    requires
        forall|i: int| 0 <= i < fixtures.len() ==> is_under((#[trigger] fixtures[i]).path, root),
        0 <= j < expanded(fixtures, reexports).len(),
    ensures
        is_under(expanded(fixtures, reexports)[j].path, root),
    decreases j,
{
    let all = expanded(fixtures, reexports);
    if j < fixtures.len() {
        reexports_keep_fixtures(fixtures, reexports);
        assert(all.take(fixtures.len() as int)[j] == fixtures[j]);
    } else {
        reexports_are_derived(fixtures, reexports, j);
        let (i, k) = choose|i: int, k: int|
            #![trigger all[i], reexports[k]]
            0 <= i < j && 0 <= k < reexports.len() && exported(reexports[k], all[i]) == Some(
                all[j],
            );
        lemma_exports_keep_path(fixtures, reexports, root, i);
    }
}

/// The fixtures of a project are defined in files below its root.
pub proof fn fixtures_lie_below_root(ws: WorkspaceView, root: PathView, j: int)
    requires
        all_fixtures(ws, root) matches Ok(fixtures) && 0 <= j < fixtures.len(),
    ensures
        is_under(all_fixtures(ws, root)->Ok_0[j].path, root),
{
    let fixtures = project_fixtures(ws, root)->Ok_0;
    let n = project_paths(ws, root).len() as int;
    assert(project_paths(ws, root).take(n) =~= project_paths(ws, root));
    assert forall|i: int| 0 <= i < fixtures.len() implies is_under(
        (#[trigger] fixtures[i]).path,
        root,
    ) by {
        lemma_fixtures_below(ws, root, n, i);
    }
    lemma_exports_keep_path(fixtures, reexports_in(ws, root)->Ok_0, root, j);
}

impl FixtureIndex {
    /// Builds the index of a project.
    pub fn build(ws: &Workspace, root: &FilePath) -> (r: Result<FixtureIndex, UnreadableFile>)
        requires
            parseable(ws@),
        ensures
            index_outcome(r) == (match all_fixtures(ws@, root@) {
                Ok(fixtures) => Ok(FixtureIndexView { root: root@, fixtures }),
                Err(path) => Err(path),
            }),
            is_absolute(root@) ==> (r matches Ok(index) ==> is_located(index@)),
    {
        match collect_fixtures(ws, root) {
            Ok(found) => match expand_conftest_reexports(ws, root, found) {
                Ok(fixtures) => {
                    let index: FixtureIndex = FixtureIndex { root: root.clone(), fixtures };
                    proof {
                        if is_absolute(root@) {
                            assert forall|j: int| 0 <= j < index@.fixtures.len() implies
                            is_absolute((#[trigger] index@.fixtures[j]).path) by {
                                fixtures_lie_below_root(ws@, root@, j);
                                lemma_below_absolute(index@.fixtures[j].path, root@);
                            }
                        }
                    }
                    Ok(index)
                },
                Err(e) => Err(e),
            },
            Err(e) => Err(e),
        }
    }
}

/// The fixtures that a file sees, the best one of each name, in the order of their names.
pub open spec fn visible_in(
    ws: WorkspaceView,
    index: FixtureIndexView,
    file: PathView,
    body: Seq<StatementView>,
) -> Seq<FixtureView> {
    ranked(
        index.fixtures,
        |f: FixtureView|
            visibility_score(
                f,
                file,
                imports_in(ws, index.root, body),
                plugin_paths(ws, index.root, file),
                index.root,
            ),
    )
}

/// A file whose imports change, but for no name of a fixture, sees the same fixtures.
pub proof fn other_imports_keep_the_visible(
    ws: WorkspaceView,
    index: FixtureIndexView,
    file: PathView,
    body: Seq<StatementView>,
    later: Seq<StatementView>,
)
    requires
        adds_no_fixture(
            imports_in(ws, index.root, body),
            imports_in(ws, index.root, later),
            index.fixtures,
        ),
    ensures
        visible_in(ws, index, file, later) == visible_in(ws, index, file, body),
{
    let plugins = plugin_paths(ws, index.root, file);
    let imports = imports_in(ws, index.root, body);
    let more = imports_in(ws, index.root, later);
    let score = |f: FixtureView| visibility_score(f, file, imports, plugins, index.root);
    let other = |f: FixtureView| visibility_score(f, file, more, plugins, index.root);
    assert forall|k: int| 0 <= k < index.fixtures.len() implies score(
        #[trigger] index.fixtures[k],
    ) == other(index.fixtures[k]) by {
        other_imports_keep_the_scores(
            index.fixtures[k],
            file,
            imports,
            more,
            index.fixtures,
            plugins,
            index.root,
        );
    }
    lemma_ranked_alike(index.fixtures, score, other);
    assert(visible_in(ws, index, file, body) == ranked(index.fixtures, score));
    assert(visible_in(ws, index, file, later) == ranked(index.fixtures, other));
}

/// The text of a file; empty if it cannot be read.
pub open spec fn text_or_empty(ws: WorkspaceView, file: PathView) -> Seq<char> {
    match source_at(ws, file) {
        Some(text) => text,
        None => ""@,
    }
}

/// The fixtures that a file sees by its own text.
pub open spec fn visible_to(ws: WorkspaceView, index: FixtureIndexView, file: PathView) -> Seq<
    FixtureView,
> {
    visible_in(ws, index, file, python_body(text_or_empty(ws, file)))
}

/// The first fixture of the name, from `i` on.
pub open spec fn named_from(list: Seq<FixtureView>, name: Seq<char>, i: int) -> Option<FixtureView>
    decreases list.len() - i,
{
    if i < 0 || i >= list.len() {
        None
    } else if list[i].name == name {
        Some(list[i])
    } else {
        named_from(list, name, i + 1)
    }
}

/// The fixture of the name.
pub open spec fn named(list: Seq<FixtureView>, name: Seq<char>) -> Option<FixtureView> {
    named_from(list, name, 0)
}

/// The fixture that is found has the name, and none is found only where none has it.
pub proof fn lemma_named_from(list: Seq<FixtureView>, name: Seq<char>, i: int)
    requires
        0 <= i <= list.len(),
    ensures
        match named_from(list, name, i) {
            Some(f) => f.name == name && exists|k: int| i <= k < list.len() && list[k] == f,
            None => forall|k: int| i <= k < list.len() ==> (#[trigger] list[k]).name != name,
        },
    decreases list.len() - i,
{
    if i < list.len() {
        if list[i].name == name {
            assert(list[i] == named_from(list, name, i)->0);
        } else {
            lemma_named_from(list, name, i + 1);
        }
    }
}

/// A visible fixture is found by its name, and by no other.
pub proof fn visible_fixture_is_found(
    ws: WorkspaceView,
    index: FixtureIndexView,
    file: PathView,
    body: Seq<StatementView>,
    name: Seq<char>,
)
    ensures
        match named(visible_in(ws, index, file, body), name) {
            Some(f) => f.name == name && index.fixtures.contains(f),
            None => forall|i: int|
                0 <= i < index.fixtures.len() && (#[trigger] index.fixtures[i]).name == name
                    ==> visibility_score(
                    index.fixtures[i],
                    file,
                    imports_in(ws, index.root, body),
                    plugin_paths(ws, index.root, file),
                    index.root,
                ) is None,
        },
{
    let score = |f: FixtureView|
        visibility_score(
            f,
            file,
            imports_in(ws, index.root, body),
            plugin_paths(ws, index.root, file),
            index.root,
        );
    let list = visible_in(ws, index, file, body);
    ranking_keeps_the_best(index.fixtures, score);
    lemma_named_from(list, name, 0);
    match named(list, name) {
        Some(f) => {
            let k = choose|k: int| 0 <= k < list.len() && list[k] == f;
            assert(stands_for_best(index.fixtures, score, list[k]));
        },
        None => {
            assert forall|i: int|
                0 <= i < index.fixtures.len() && (#[trigger] index.fixtures[i]).name
                    == name implies score(index.fixtures[i]) is None by {
                if score(index.fixtures[i]) is Some {
                    assert(has_fixture(list, index.fixtures[i].name));
                }
            }
        },
    }
}

/// The fixture of a name.
pub fn find_named<'a>(list: &Vec<&'a Fixture>, name: &String) -> (r: Option<&'a Fixture>)
    ensures
        option_view(r) == named(views(list@), name@),
{
    let ghost all = views(list@);
    let mut i: usize = 0;
    while i < list.len()
        invariant
            i <= list@.len(),
            all == views(list@),
            named(all, name@) == named_from(all, name@, i as int),
        decreases list@.len() - i,
    {
        let f: &'a Fixture = list[i];
        assert(all[i as int] == f@);
        if f.name == *name {
            return Some(f);
        }
        i = i + 1;
    }
    None
}

impl FixtureIndex {
    /// The fixtures that a file sees by the given statements.
    pub fn visible_fixtures_for_body<'a>(
        &'a self,
        ws: &Workspace,
        file: &FilePath,
        body: &Vec<Statement>,
    ) -> (r: Vec<&'a Fixture>)
        requires
            parseable(ws@),
        ensures
            views(r@) == visible_in(ws@, self@, file@, views(body@)),
    {
        let imports: Vec<FixtureImport> = imported_fixture_sources(ws, body, &self.root);
        let plugins: Vec<FilePath> = plugin_paths_for(ws, &self.root, file);
        rank_fixtures(&self.fixtures, file, &imports, &plugins, &self.root)
    }

    /// The fixtures that a file with the given text sees.
    pub fn visible_fixtures_for_text<'a>(&'a self, ws: &Workspace, file: &FilePath, text: &str) -> (
    r: Vec<&'a Fixture>)
        requires
            parseable(ws@),
            fits(text@),
        ensures
            views(r@) == visible_in(ws@, self@, file@, python_body(text@)),
    {
        let body: Vec<Statement> = body_of(parse_module(text));
        self.visible_fixtures_for_body(ws, file, &body)
    }

    /// The fixtures that a file sees.
    pub fn visible_fixtures<'a>(&'a self, ws: &Workspace, file: &FilePath) -> (r: Vec<&'a Fixture>)
        requires
            parseable(ws@),
        ensures
            views(r@) == visible_to(ws@, self@, file@),
    {
        match ws.read(file) {
            Some(text) => self.visible_fixtures_for_text(ws, file, text.as_str()),
            None => {
                proof {
                    reveal_strlit("");
                    assert(""@ =~= Seq::<char>::empty());
                    assert(byte_len(""@) == 0);
                }
                self.visible_fixtures_for_text(ws, file, "")
            },
        }
    }

    /// The root of the project.
    pub fn root(&self) -> (r: &FilePath)
        ensures
            r@ == self@.root,
    {
        &self.root
    }

    /// The fixtures of the project.
    pub fn fixtures(&self) -> (r: &Vec<Fixture>)
        ensures
            views(r@) == self@.fixtures,
    {
        &self.fixtures
    }
}

/// Every fixture that a file of the project defines is a fixture of the project.
pub proof fn project_fixtures_are_found(
    ws: WorkspaceView,
    root: PathView,
    path: PathView,
    text: Seq<char>,
    f: FixtureView,
)
    requires
        all_fixtures(ws, root) is Ok,
        project_paths(ws, root).contains(path),
        source_at(ws, path) == Some(text),
        fixtures_of(ws, path, text, python_body(text)).contains(f),
    ensures
        all_fixtures(ws, root)->Ok_0.contains(f),
{
    let g = |path: PathView, text: Seq<char>| fixtures_of(ws, path, text, python_body(text));
    let files = project_paths(ws, root);
    files_are_gathered(ws, files, g, f);
    let i = files.index_of(path);
    assert(g(files[i], text).contains(f));
    let own = project_fixtures(ws, root)->Ok_0;
    assert(own.contains(f));
    let reexports = reexports_in(ws, root)->Ok_0;
    reexports_keep_fixtures(own, reexports);
    let k = own.index_of(f);
    assert(expanded(own, reexports).take(own.len() as int)[k] == f);
    assert(expanded(own, reexports)[k] == f);
}

/// The fixtures of a project cannot be told exactly if one of its files cannot be read.
pub proof fn unreadable_files_are_named(ws: WorkspaceView, root: PathView)
    ensures
        all_fixtures(ws, root) matches Err(path) ==> project_paths(ws, root).contains(path)
            && source_at(ws, path) is None,
        all_fixtures(ws, root) is Ok <==> forall|i: int|
            0 <= i < project_paths(ws, root).len() ==> source_at(
                ws,
                #[trigger] project_paths(ws, root)[i],
            ) is Some,
{
    let g = |path: PathView, text: Seq<char>| fixtures_of(ws, path, text, python_body(text));
    let h = |file: PathView, text: Seq<char>| reexports_of_text(ws, root, file, text);
    let files = project_paths(ws, root);
    let some: FixtureView = arbitrary();
    let other: ReexportView = arbitrary();
    files_are_gathered(ws, files, g, some);
    files_are_gathered(ws, conftests(ws, root), h, other);
    assert forall|path: PathView| #[trigger] conftests(ws, root).contains(
        path,
    ) implies files.contains(path) by {
        conftests_are_found(ws, root, path);
        let all = project_sources(ws, root);
        let i = choose|i: int| 0 <= i < all.len() && (#[trigger] all[i]).path == path;
        assert(files[i] == path);
    }
    if forall|i: int| 0 <= i < files.len() ==> source_at(ws, #[trigger] files[i]) is Some {
        let confs = conftests(ws, root);
        assert forall|i: int| 0 <= i < confs.len() implies source_at(ws, #[trigger] confs[i])
            is Some by {
            assert(confs.contains(confs[i]));
            let k = files.index_of(confs[i]);
            assert(source_at(ws, files[k]) is Some);
        }
    }
}

/// A fixture that a file sees is visible there, or another of its name that the file sees at least
/// as well; what is visible is a fixture of the index that the file sees, and the best of its
/// name.
pub proof fn seen_fixtures_are_visible(
    ws: WorkspaceView,
    index: FixtureIndexView,
    file: PathView,
    body: Seq<StatementView>,
    f: FixtureView,
)
    requires
        index.fixtures.contains(f),
        visibility_score(
            f,
            file,
            imports_in(ws, index.root, body),
            plugin_paths(ws, index.root, file),
            index.root,
        ) is Some,
    ensures
        named(visible_in(ws, index, file, body), f.name) matches Some(g) && g.name == f.name
            && index.fixtures.contains(g) && visibility_score(
            g,
            file,
            imports_in(ws, index.root, body),
            plugin_paths(ws, index.root, file),
            index.root,
        ) is Some && visibility_score(
            g,
            file,
            imports_in(ws, index.root, body),
            plugin_paths(ws, index.root, file),
            index.root,
        )->0 >= visibility_score(
            f,
            file,
            imports_in(ws, index.root, body),
            plugin_paths(ws, index.root, file),
            index.root,
        )->0,
        has_fixture(visible_in(ws, index, file, body), f.name),
{
    let score = |f: FixtureView|
        visibility_score(
            f,
            file,
            imports_in(ws, index.root, body),
            plugin_paths(ws, index.root, file),
            index.root,
        );
    let list = visible_in(ws, index, file, body);
    ranking_keeps_the_best(index.fixtures, score);
    lemma_named_from(list, f.name, 0);
    let n = index.fixtures.index_of(f);
    assert(score(index.fixtures[n]) is Some);
    assert(has_fixture(list, f.name));
    let g = named(list, f.name)->0;
    let i = choose|i: int| 0 <= i < list.len() && list[i] == g;
    assert(stands_for_best(index.fixtures, score, list[i]));
    let k = choose|k: int| #[trigger]
        is_best(index.fixtures, score, k) && index.fixtures[k] == g;
    assert(index.fixtures[n].name == index.fixtures[k].name);
}

/// The fixtures of every plugin of a file are visible there: of a module that the file, or a
/// `conftest.py` above it, has among the strings that it assigns to `pytest_plugins`.
pub proof fn plugin_fixtures_are_visible(
    ws: WorkspaceView,
    index: FixtureIndexView,
    file: PathView,
    body: Seq<StatementView>,
    config: PathView,
    text: Seq<char>,
    k: int,
    module: Seq<char>,
    f: FixtureView,
)
    requires
        plugins_of_files(ws, plugin_config_files(ws, file)) is Ok,
        plugin_config_files(ws, file).contains(config),
        source_at(ws, config) == Some(text),
        0 <= k < python_body(text).len(),
        names_plugin(python_body(text)[k], module),
        found_module(ws, index.root, module) == Some(f.path),
        index.fixtures.contains(f),
    ensures
        has_fixture(visible_in(ws, index, file, body), f.name),
{
    let files = plugin_config_files(ws, file);
    plugins_are_what_is_assigned(python_body(text), module);
    plugins_are_named_above(ws, file, module);
    let i = files.index_of(config);
    assert(source_at(ws, files[i]) == Some(text));
    let modules = plugins_of_files(ws, files)->Ok_0;
    assert(modules.contains(module));
    let g = |module: Seq<char>| found_module(ws, index.root, module);
    lemma_filter_map_has(modules, g, modules.index_of(module));
    assert(plugin_paths(ws, index.root, file).contains(f.path));
    seen_fixtures_are_visible(ws, index, file, body, f);
}

/// What a file sees is what it sees by the text that it has, and by an empty one where it has
/// none.
pub proof fn files_see_by_their_text(
    ws: WorkspaceView,
    index: FixtureIndexView,
    file: PathView,
    text: Seq<char>,
)
    ensures
        source_at(ws, file) == Some(text) ==> visible_to(ws, index, file) == visible_in(
            ws,
            index,
            file,
            python_body(text),
        ),
        source_at(ws, file) is None ==> visible_to(ws, index, file) == visible_in(
            ws,
            index,
            file,
            python_body(Seq::empty()),
        ),
{
    reveal_strlit("");
    assert(""@ =~= Seq::<char>::empty());
}

/// The names of a file stand for what its own imports give them, and for nothing where it cannot
/// be read.
pub proof fn files_bind_by_their_text(ws: WorkspaceView, path: PathView, text: Seq<char>)
    ensures
        source_at(ws, path) == Some(text) ==> file_bindings(ws, path) == bindings_in(
            ws,
            path,
            python_body(text),
        ),
        source_at(ws, path) is None ==> file_bindings(ws, path).len() == 0,
{
}

/// Of several fixtures of one name that a file sees as well as each other, the first is visible.
pub proof fn first_of_equals_is_visible(
    ws: WorkspaceView,
    index: FixtureIndexView,
    file: PathView,
    body: Seq<StatementView>,
    k: int,
)
    requires
        0 <= k < index.fixtures.len(),
        visibility_score(
            index.fixtures[k],
            file,
            imports_in(ws, index.root, body),
            plugin_paths(ws, index.root, file),
            index.root,
        ) is Some,
        forall|j: int|
            0 <= j < index.fixtures.len() && j != k && (#[trigger] index.fixtures[j]).name
                == index.fixtures[k].name ==> {
                let score = visibility_score(
                    index.fixtures[j],
                    file,
                    imports_in(ws, index.root, body),
                    plugin_paths(ws, index.root, file),
                    index.root,
                );
                let own = visibility_score(
                    index.fixtures[k],
                    file,
                    imports_in(ws, index.root, body),
                    plugin_paths(ws, index.root, file),
                    index.root,
                );
                score is None || score->0 < own->0 || (score->0 == own->0 && k < j)
            },
    ensures
        named(visible_in(ws, index, file, body), index.fixtures[k].name) == Some(
            index.fixtures[k],
        ),
{
    let score = |f: FixtureView|
        visibility_score(
            f,
            file,
            imports_in(ws, index.root, body),
            plugin_paths(ws, index.root, file),
            index.root,
        );
    let f = index.fixtures[k];
    let list = visible_in(ws, index, file, body);
    ranking_keeps_the_best(index.fixtures, score);
    lemma_named_from(list, f.name, 0);
    assert(score(index.fixtures[k]) is Some);
    assert(has_fixture(list, f.name));
    let g = named(list, f.name)->0;
    let i = choose|i: int| 0 <= i < list.len() && list[i] == g;
    assert(stands_for_best(index.fixtures, score, list[i]));
    let m = choose|m: int| #[trigger]
        is_best(index.fixtures, score, m) && index.fixtures[m] == g;
    assert(index.fixtures[m].name == index.fixtures[k].name);
    assert(m == k);
}

/// What a `conftest.py` of the project imports from a file of the project is a fixture of the
/// project under the name that it is given there, visible from the `conftest.py`.
pub proof fn reexported_fixtures_are_of_the_project(
    ws: WorkspaceView,
    root: PathView,
    conftest: PathView,
    text: Seq<char>,
    imported: Seq<char>,
    visible: Seq<char>,
    source: PathView,
    f: FixtureView,
)
    requires
        all_fixtures(ws, root) is Ok,
        conftests(ws, root).contains(conftest),
        source_at(ws, conftest) == Some(text),
        specs_in(ws, root, python_body(text)).contains(
            ImportSpecView::Named { imported, visible, source },
        ) || (specs_in(ws, root, python_body(text)).contains(ImportSpecView::Star { source })
            && visible == f.name),
        all_fixtures(ws, root)->Ok_0.contains(f),
        f.path == source || f.visibility_path == source,
        f.name == imported || (specs_in(ws, root, python_body(text)).contains(
            ImportSpecView::Star { source },
        ) && visible == f.name),
    ensures
        exists|j: int|
            0 <= j < all_fixtures(ws, root)->Ok_0.len() && (#[trigger] all_fixtures(
                ws,
                root,
            )->Ok_0[j]).name == visible && all_fixtures(ws, root)->Ok_0[j].path == f.path
                && all_fixtures(ws, root)->Ok_0[j].visibility_path == conftest,
{
    let own = project_fixtures(ws, root)->Ok_0;
    let reexports = reexports_in(ws, root)->Ok_0;
    let all = expanded(own, reexports);
    assert(all_fixtures(ws, root)->Ok_0 == all);
    let star = ImportSpecView::Star { source };
    let specs = specs_in(ws, root, python_body(text));
    let spec = if specs.contains(star) && visible == f.name {
        star
    } else {
        ImportSpecView::Named { imported, visible, source }
    };
    every_conftest_reexports(ws, root, conftest, text, spec);
    let r = ReexportView { conftest, spec };
    let k = reexports.index_of(r);
    let i = all.index_of(f);
    assert(reexports[k] == r);
    assert(all[i] == f);
    reexported_fixtures_are_in_the_list(own, reexports, k, i);
    let j = choose|j: int|
        0 <= j < all.len() && (#[trigger] all[j]).path == all[i].path && all[j].visibility_path
            == reexports[k].conftest && all[j].name == match reexports[k].spec {
            ImportSpecView::Named { visible, .. } => visible,
            ImportSpecView::Star { .. } => all[i].name,
        };
    assert(all[j].name == visible);
}

/// What comes of building an index is the index, or the file that could not be read.
pub proof fn indexes_hold_what_was_found(index: FixtureIndex, e: UnreadableFile)
    ensures
        index_outcome(Ok(index)) == Ok::<FixtureIndexView, PathView>(index@),
        index_outcome(Err(e)) == Err::<FixtureIndexView, PathView>(e.path@),
{
}

}
