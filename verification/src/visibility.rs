//! Which fixtures a file sees, and which of several of one name.
use crate::fixture::{Fixture, FixtureView};
use crate::path::{
    is_plain, is_under, names_lie_in_their_directory, parent, same_path, FilePath, PathView,
};
use crate::reexports::{is_conftest, is_conftest_file};
use crate::syntax::{
    parse_body, python_body, ImportedName, ImportedNameView, Statement, StatementKind,
    StatementKindView, StatementView,
};
use crate::text::{
    before, fits, is_before, lemma_before_total, lemma_before_transitive, lemma_filter_map_has,
    lemma_flat_map_has, lemma_flat_map_source, lemma_views_push, option_view, views,
};
use crate::workspace::{
    found_module, module_to_path, parseable, plugin_config_files, plugins_of_files,
    pytest_plugin_modules, Workspace, WorkspaceView,
};
use vstd::prelude::*;
use vstd::utf8::encode_utf8;

verus! {

/// A name that a file imports from a module, with the path of the module where it is one of the
/// project.
#[derive(Debug)]
pub struct FixtureImport {
    pub visible: String,
    pub source: Option<FilePath>,
}

/// What [`FixtureImport`] stands for.
pub struct FixtureImportView {
    pub visible: Seq<char>,
    pub source: Option<PathView>,
}

impl View for FixtureImport {
    type V = FixtureImportView;

    open spec fn view(&self) -> FixtureImportView {
        FixtureImportView { visible: self.visible@, source: option_view(self.source) }
    }
}

/// The path of the module that a statement names.
pub open spec fn source_of_module(
    ws: WorkspaceView,
    root: PathView,
    module: Option<Seq<char>>,
) -> Option<PathView> {
    match module {
        Some(m) => found_module(ws, root, m),
        None => None,
    }
}

/// One name of an import, as it is visible.
pub open spec fn import_of_name(
    n: ImportedNameView,
    source: Option<PathView>,
) -> FixtureImportView {
    FixtureImportView {
        visible: match n.asname {
            Some(asname) => asname,
            None => n.name,
        },
        source,
    }
}

/// The names that a statement imports from a module.
pub open spec fn imports_of_statement(ws: WorkspaceView, root: PathView, s: StatementView) -> Seq<
    FixtureImportView,
> {
    match s.kind {
        StatementKindView::ImportFrom { module, names, .. } => names.map_values(
            |n: ImportedNameView| import_of_name(n, source_of_module(ws, root, module)),
        ),
        _ => Seq::empty(),
    }
}

/// The names that a body imports from modules.
pub open spec fn imports_in(ws: WorkspaceView, root: PathView, body: Seq<StatementView>) -> Seq<
    FixtureImportView,
> {
    body.flat_map(|s: StatementView| imports_of_statement(ws, root, s))
}

fn import_for(n: &ImportedName, source: &Option<FilePath>) -> (r: FixtureImport)
    ensures
        r@ == import_of_name(n@, option_view(*source)),
{
    FixtureImport {
        visible: match &n.asname {
            Some(asname) => asname.clone(),
            None => n.name.clone(),
        },
        source: match source {
            Some(path) => Some(path.clone()),
            None => None,
        },
    }
}

fn push_imports(ws: &Workspace, root: &FilePath, s: &Statement, out: &mut Vec<FixtureImport>)
    ensures
        views(final(out)@) == views(old(out)@) + imports_of_statement(ws@, root@, s@),
{
    let ghost start = views(out@);
    match &s.kind {
        StatementKind::ImportFrom { module, names, .. } => {
            let source: Option<FilePath> = match module {
                Some(m) => module_to_path(ws, root, m.as_str()),
                None => None,
            };
            let ghost all = views(names@);
            let ghost from = source_of_module(ws@, root@, option_view(*module));
            let ghost f = |n: ImportedNameView| import_of_name(n, from);
            let mut i: usize = 0;
            assert(start + all.take(0).map_values(f) =~= start);
            while i < names.len()
                invariant
                    i <= names@.len(),
                    all == views(names@),
                    from == option_view(source),
                    f == (|n: ImportedNameView| import_of_name(n, from)),
                    views(out@) == start + all.take(i as int).map_values(f),
                decreases names@.len() - i,
            {
                assert(all[i as int] == names@[i as int]@);
                let import: FixtureImport = import_for(&names[i], &source);
                proof {
                    lemma_views_push(out@, import);
                }
                out.push(import);
                assert(views(out@) =~= start + all.take(i + 1).map_values(f));
                i = i + 1;
            }
            assert(all.take(all.len() as int) =~= all);
            assert(imports_of_statement(ws@, root@, s@) =~= all.map_values(f));
        },
        _ => {
            assert(start + imports_of_statement(ws@, root@, s@) =~= start);
        },
    }
}

/// The names that a body imports from modules.
pub fn imported_fixture_sources(ws: &Workspace, body: &Vec<Statement>, root: &FilePath) -> (r: Vec<
    FixtureImport,
>)
    ensures
        views(r@) == imports_in(ws@, root@, views(body@)),
{
    let ghost all = views(body@);
    let ghost f = |s: StatementView| imports_of_statement(ws@, root@, s);
    let mut out: Vec<FixtureImport> = Vec::new();
    let mut i: usize = 0;
    assert(views(out@) =~= all.take(0).flat_map(f));
    while i < body.len()
        invariant
            i <= body@.len(),
            all == views(body@),
            f == (|s: StatementView| imports_of_statement(ws@, root@, s)),
            views(out@) == all.take(i as int).flat_map(f),
        decreases body@.len() - i,
    {
        proof {
            all.lemma_flat_map_take_append(f, i as int);
            assert(all[i as int] == body@[i as int]@);
        }
        push_imports(ws, root, &body[i], &mut out);
        i = i + 1;
    }
    assert(all.take(all.len() as int) =~= all);
    out
}

/// The names that a text imports from modules; none if it is no valid module.
pub fn imported_fixture_sources_from_text(ws: &Workspace, text: &str, root: &FilePath) -> (r: Vec<
    FixtureImport,
>)
    requires
        fits(text@),
    ensures
        views(r@) == imports_in(ws@, root@, python_body(text@)),
{
    let body: Vec<Statement> = parse_body(text);
    imported_fixture_sources(ws, &body, root)
}

/// The file imports the name.
pub open spec fn is_imported_name(imports: Seq<FixtureImportView>, name: Seq<char>) -> bool {
    exists|i: int| 0 <= i < imports.len() && (#[trigger] imports[i]).visible == name
}

/// The file imports the name from the path.
pub open spec fn imports_from(
    imports: Seq<FixtureImportView>,
    name: Seq<char>,
    path: PathView,
) -> bool {
    exists|i: int|
        0 <= i < imports.len() && (#[trigger] imports[i]).visible == name && imports[i].source
            == Some(path)
}

/// The file imports the name from some module of the project.
pub open spec fn has_source(imports: Seq<FixtureImportView>, name: Seq<char>) -> bool {
    exists|i: int|
        0 <= i < imports.len() && (#[trigger] imports[i]).visible == name && imports[i].source
            is Some
}

/// The fixture is one that the file imports: the file imports its name, and either from the
/// fixture's file or from nowhere in the project.
pub open spec fn import_allows(imports: Seq<FixtureImportView>, f: FixtureView) -> bool {
    is_imported_name(imports, f.name) && (imports_from(imports, f.name, f.path) || !has_source(
        imports,
        f.name,
    ))
}

fn is_allowed_import(imports: &Vec<FixtureImport>, f: &Fixture) -> (r: bool)
    ensures
        r == import_allows(views(imports@), f@),
{
    let ghost all = views(imports@);
    let mut named: bool = false;
    let mut sourced: bool = false;
    let mut i: usize = 0;
    while i < imports.len()
        invariant
            i <= imports@.len(),
            all == views(imports@),
            named ==> is_imported_name(all, f@.name),
            sourced ==> has_source(all, f@.name),
            forall|j: int|
                0 <= j < i && (#[trigger] all[j]).visible == f@.name ==> named && (
                all[j].source is Some ==> sourced) && all[j].source != Some(f@.path),
        decreases imports@.len() - i,
    {
        let import: &FixtureImport = &imports[i];
        assert(all[i as int] == import@);
        if import.visible == f.name {
            named = true;
            match &import.source {
                Some(source) => {
                    sourced = true;
                    if same_path(source, &f.path) {
                        assert(all[i as int].source == Some(f@.path));
                        return true;
                    }
                },
                None => {},
            }
        }
        i = i + 1;
    }
    named && !sourced
}

/// The directory of a file.
pub open spec fn directory_of(file: PathView) -> PathView {
    match parent(file) {
        Some(dir) => dir,
        None => Seq::empty(),
    }
}

/// How deep below the root a directory lies; elsewhere it counts as not deep.
pub open spec fn depth_below(dir: PathView, root: PathView) -> nat {
    if is_under(dir, root) {
        (dir.len() - root.len()) as nat
    } else {
        0
    }
}

/// The score of a fixture, for files of a directory, by the `conftest.py` that makes it visible.
pub open spec fn conftest_score(f: FixtureView, file_dir: PathView, root: PathView) -> Option<nat> {
    if is_conftest(f.visibility_path) {
        match parent(f.visibility_path) {
            Some(dir) => if is_under(file_dir, dir) {
                Some(1000 + depth_below(dir, root))
            } else {
                None
            },
            None => None,
        }
    } else {
        None
    }
}

/// How strongly a fixture is visible to a file: as one of the file itself, as an imported one,
/// as one of a plugin, or by a `conftest.py`, the stronger the deeper that lies. `None` if the
/// file does not see it.
pub open spec fn visibility_score(
    f: FixtureView,
    file: PathView,
    imports: Seq<FixtureImportView>,
    plugins: Seq<PathView>,
    root: PathView,
) -> Option<nat> {
    if f.visibility_path == file {
        Some(10000)
    } else if import_allows(imports, f) {
        Some(9000)
    } else if plugins.contains(f.path) {
        Some(8000)
    } else {
        conftest_score(f, directory_of(file), root)
    }
}

fn is_among_paths(paths: &Vec<FilePath>, path: &FilePath) -> (r: bool)
    ensures
        r == views(paths@).contains(path@),
{
    let ghost all = views(paths@);
    let mut i: usize = 0;
    while i < paths.len()
        invariant
            i <= paths@.len(),
            all == views(paths@),
            forall|j: int| 0 <= j < i ==> (#[trigger] all[j]) != path@,
        decreases paths@.len() - i,
    {
        assert(all[i as int] == paths@[i as int]@);
        if same_path(&paths[i], path) {
            return true;
        }
        i = i + 1;
    }
    false
}

fn conftest_score_of(f: &Fixture, file_dir: &FilePath, root: &FilePath) -> (r: Option<u128>)
    ensures
        (match r {
            Some(score) => Some(score as nat),
            None => None,
        }) == conftest_score(f@, file_dir@, root@),
{
    if !is_conftest_file(&f.visibility_path) {
        return None;
    }
    match f.visibility_path.parent() {
        Some(dir) => {
            if !file_dir.starts_with(&dir) {
                return None;
            }
            let depth: usize = if dir.starts_with(root) {
                dir.components.len() - root.components.len()
            } else {
                0
            };
            Some(1000 + depth as u128)
        },
        None => None,
    }
}

/// How strongly a fixture is visible to a file.
pub fn fixture_visibility_score(
    f: &Fixture,
    file: &FilePath,
    imports: &Vec<FixtureImport>,
    plugins: &Vec<FilePath>,
    root: &FilePath,
) -> (r: Option<u128>)
    ensures
        (match r {
            Some(score) => Some(score as nat),
            None => None,
        }) == visibility_score(f@, file@, views(imports@), views(plugins@), root@),
{
    if same_path(&f.visibility_path, file) {
        return Some(10000);
    }
    if is_allowed_import(imports, f) {
        return Some(9000);
    }
    if is_among_paths(plugins, &f.path) {
        return Some(8000);
    }
    let file_dir: FilePath = match file.parent() {
        Some(dir) => dir,
        None => {
            let none: FilePath = FilePath { components: Vec::new() };
            assert(none@ =~= Seq::<Seq<u8>>::empty());
            none
        },
    };
    conftest_score_of(f, &file_dir, root)
}

/// The paths of the plugin modules that apply to a file; none if one of the files that name
/// them cannot be read.
pub open spec fn plugin_paths(ws: WorkspaceView, root: PathView, file: PathView) -> Seq<PathView> {
    match plugins_of_files(ws, plugin_config_files(ws, file)) {
        Ok(modules) => modules.filter_map(|module: Seq<char>| found_module(ws, root, module)),
        Err(_) => Seq::empty(),
    }
}

/// The paths of the plugin modules that apply to a file.
pub fn plugin_paths_for(ws: &Workspace, root: &FilePath, file: &FilePath) -> (r: Vec<FilePath>)
    requires
        parseable(ws@),
    ensures
        views(r@) == plugin_paths(ws@, root@, file@),
{
    let mut out: Vec<FilePath> = Vec::new();
    let modules: Vec<String> = match pytest_plugin_modules(ws, file) {
        Ok(modules) => modules,
        Err(_) => {
            assert(views(out@) =~= Seq::<PathView>::empty());
            return out;
        },
    };
    let ghost all = views(modules@);
    let ghost f = |module: Seq<char>| found_module(ws@, root@, module);
    let mut i: usize = 0;
    assert(views(out@) =~= all.take(0).filter_map(f));
    while i < modules.len()
        invariant
            i <= modules@.len(),
            all == views(modules@),
            f == (|module: Seq<char>| found_module(ws@, root@, module)),
            views(out@) == all.take(i as int).filter_map(f),
        decreases modules@.len() - i,
    {
        proof {
            all.lemma_filter_map_take_succ(f, i as int);
            assert(all[i as int] == modules@[i as int]@);
        }
        match module_to_path(ws, root, modules[i].as_str()) {
            Some(path) => {
                proof {
                    lemma_views_push(out@, path);
                }
                out.push(path);
            },
            None => {},
        }
        assert(views(out@) =~= all.take(i + 1).filter_map(f));
        i = i + 1;
    }
    assert(all.take(all.len() as int) =~= all);
    out
}

/// The place of a name in a list in the order of names, looked for from `i` on.
pub open spec fn place_from(list: Seq<FixtureView>, name: Seq<char>, i: int) -> int
    decreases list.len() - i,
{
    if 0 <= i < list.len() && before(list[i].name, name) {
        place_from(list, name, i + 1)
    } else {
        i
    }
}

/// The list with one more fixture in its place; of two of one name the one with the higher score
/// stays, and the earlier one of two with the same score.
pub open spec fn with_candidate(
    list: Seq<FixtureView>,
    f: FixtureView,
    score: spec_fn(FixtureView) -> Option<nat>,
) -> Seq<FixtureView> {
    if score(f) is None {
        list
    } else {
        let i = place_from(list, f.name, 0);
        if i < list.len() && list[i].name == f.name {
            if score(list[i])->0 >= score(f)->0 {
                list
            } else {
                list.update(i, f)
            }
        } else {
            list.insert(i, f)
        }
    }
}

/// The fixtures that have a score, the best one of each name, in the order of names.
pub open spec fn ranked(
    fixtures: Seq<FixtureView>,
    score: spec_fn(FixtureView) -> Option<nat>,
) -> Seq<FixtureView>
    decreases fixtures.len(),
{
    if fixtures.len() == 0 {
        Seq::empty()
    } else {
        with_candidate(ranked(fixtures.drop_last(), score), fixtures.last(), score)
    }
}

/// The fixtures are in the order of their names, and no name stands twice.
pub open spec fn is_by_name(list: Seq<FixtureView>) -> bool {
    forall|i: int, j: int|
        #![trigger list[i], list[j]]
        0 <= i < j < list.len() ==> before(list[i].name, list[j].name)
}

/// The fixture has a score, no fixture of its name has a higher one, and none before it the
/// same.
pub open spec fn is_best(
    fixtures: Seq<FixtureView>,
    score: spec_fn(FixtureView) -> Option<nat>,
    k: int,
) -> bool {
    &&& 0 <= k < fixtures.len()
    &&& score(fixtures[k]) is Some
    &&& forall|j: int|
        0 <= j < fixtures.len() && (#[trigger] fixtures[j]).name == fixtures[k].name && score(
            fixtures[j],
        ) is Some ==> score(fixtures[j])->0 < score(fixtures[k])->0 || (score(fixtures[j])->0
            == score(fixtures[k])->0 && k <= j)
}

/// The fixture in the list is the best one of its name.
pub open spec fn stands_for_best(
    fixtures: Seq<FixtureView>,
    score: spec_fn(FixtureView) -> Option<nat>,
    f: FixtureView,
) -> bool {
    exists|k: int| #[trigger] is_best(fixtures, score, k) && fixtures[k] == f
}

/// The list has a fixture of the name.
pub open spec fn has_fixture(list: Seq<FixtureView>, name: Seq<char>) -> bool {
    exists|i: int| 0 <= i < list.len() && (#[trigger] list[i]).name == name
}

proof fn lemma_place(list: Seq<FixtureView>, name: Seq<char>, from: int)
    requires
        0 <= from <= list.len(),
        is_by_name(list),
        forall|k: int| 0 <= k < from ==> before((#[trigger] list[k]).name, name),
    ensures
        from <= place_from(list, name, from) <= list.len(),
        forall|k: int|
            0 <= k < place_from(list, name, from) ==> before((#[trigger] list[k]).name, name),
        forall|k: int|
            place_from(list, name, from) <= k < list.len() ==> !before(
                (#[trigger] list[k]).name,
                name,
            ),
    decreases list.len() - from,
{
    if from < list.len() {
        if before(list[from].name, name) {
            lemma_place(list, name, from + 1);
        } else {
            assert forall|k: int| from <= k < list.len() implies !before(
                (#[trigger] list[k]).name,
                name,
            ) by {
                if before(list[k].name, name) && from < k {
                    lemma_before_transitive(list[from].name, list[k].name, name);
                }
            }
        }
    }
}

proof fn lemma_best_of_more(
    fixtures: Seq<FixtureView>,
    score: spec_fn(FixtureView) -> Option<nat>,
    k: int,
)
    requires
        fixtures.len() > 0,
        is_best(fixtures.drop_last(), score, k),
        score(fixtures.last()) is None || fixtures.last().name != fixtures[k].name || score(
            fixtures.last(),
        )->0 <= score(fixtures[k])->0,
    ensures
        is_best(fixtures, score, k),
{
    assert forall|j: int|
        0 <= j < fixtures.len() && (#[trigger] fixtures[j]).name == fixtures[k].name && score(
            fixtures[j],
        ) is Some implies score(fixtures[j])->0 < score(fixtures[k])->0 || (score(fixtures[j])->0
        == score(fixtures[k])->0 && k <= j) by {
        if j < fixtures.len() - 1 {
            assert(fixtures.drop_last()[j] == fixtures[j]);
        }
    }
}

/// Of the fixtures that have a score, the best one of each name is in the ranking, and nothing
/// else; they are in the order of their names, and no name stands twice.
pub proof fn ranking_keeps_the_best(
    fixtures: Seq<FixtureView>,
    score: spec_fn(FixtureView) -> Option<nat>,
)
    ensures
        is_by_name(ranked(fixtures, score)),
        forall|i: int|
            0 <= i < ranked(fixtures, score).len() ==> stands_for_best(
                fixtures,
                score,
                #[trigger] ranked(fixtures, score)[i],
            ),
        forall|k: int|
            0 <= k < fixtures.len() && score(#[trigger] fixtures[k]) is Some ==> has_fixture(
                ranked(fixtures, score),
                fixtures[k].name,
            ),
    decreases fixtures.len(),
{
    if fixtures.len() > 0 {
        let fewer = fixtures.drop_last();
        let f = fixtures.last();
        let n = fixtures.len() - 1;
        let list = ranked(fewer, score);
        let after = ranked(fixtures, score);
        ranking_keeps_the_best(fewer, score);
        lemma_place(list, f.name, 0);
        let at = place_from(list, f.name, 0);
        let clash = at < list.len() && list[at].name == f.name;
        assert forall|i: int| 0 <= i < list.len() && list[i].name == f.name implies i == at by {
            lemma_before_total(list[i].name, f.name);
            if i < at {
                assert(before(list[i].name, f.name));
            } else if at < i {
                assert(before(list[at].name, list[i].name));
                assert(!before(list[at].name, f.name));
            }
        }
        // What stays in the list stays the best of its name.
        assert forall|i: int|
            0 <= i < list.len() && (score(f) is None || list[i].name != f.name || score(f)->0
                <= score(list[i])->0) implies stands_for_best(
            fixtures,
            score,
            #[trigger] list[i],
        ) by {
            assert(stands_for_best(fewer, score, list[i]));
            let k = choose|k: int| #[trigger] is_best(fewer, score, k) && fewer[k] == list[i];
            assert(fixtures[k] == list[i]);
            lemma_best_of_more(fixtures, score, k);
        }
        if score(f) is Some {
            if clash && score(list[at])->0 >= score(f)->0 {
                assert(has_fixture(after, f.name));
            } else {
                // The new one is the best of its name.
                assert(is_best(fixtures, score, n)) by {
                    assert forall|j: int|
                        0 <= j < fixtures.len() && (#[trigger] fixtures[j]).name
                            == fixtures[n].name && score(fixtures[j]) is Some implies score(
                        fixtures[j],
                    )->0 < score(fixtures[n])->0 || (score(fixtures[j])->0 == score(fixtures[n])->0
                        && n <= j) by {
                        if j < n {
                            assert(fewer[j] == fixtures[j]);
                            assert(has_fixture(list, fewer[j].name));
                            let i = choose|i: int|
                                0 <= i < list.len() && (#[trigger] list[i]).name == fewer[j].name;
                            assert(i == at);
                            assert(stands_for_best(fewer, score, list[i]));
                            let k = choose|k: int| #[trigger]
                                is_best(fewer, score, k) && fewer[k] == list[i];
                            assert(score(fewer[j])->0 <= score(list[at])->0);
                        }
                    }
                }
                assert(stands_for_best(fixtures, score, f));
                if clash {
                    assert(after == list.update(at, f));
                    assert(after[at] == f);
                } else {
                    assert(after == list.insert(at, f));
                    assert(after[at] == f);
                    assert forall|k: int| at <= k < list.len() implies before(
                        f.name,
                        (#[trigger] list[k]).name,
                    ) by {
                        lemma_before_total(list[k].name, f.name);
                    }
                }
                assert(has_fixture(after, f.name));
            }
        }
        assert forall|i: int| 0 <= i < after.len() implies stands_for_best(
            fixtures,
            score,
            #[trigger] after[i],
        ) by {
            if after == list {
                assert(after[i] == list[i]);
            } else if clash {
                if i != at {
                    assert(after[i] == list[i]);
                }
            } else if i < at {
                assert(after[i] == list[i]);
            } else if i > at {
                assert(after[i] == list[i - 1]);
            }
        }
        assert forall|k: int| 0 <= k < fixtures.len() && score(#[trigger] fixtures[k]) is Some
            implies has_fixture(after, fixtures[k].name) by {
            if k < n {
                assert(fewer[k] == fixtures[k]);
                assert(has_fixture(list, fewer[k].name));
                let i = choose|i: int|
                    0 <= i < list.len() && (#[trigger] list[i]).name == fewer[k].name;
                if after == list {
                } else if clash {
                    assert(after[i].name == list[i].name);
                } else if i < at {
                    assert(after[i] == list[i]);
                } else {
                    assert(after[i + 1] == list[i]);
                }
            }
        }
    }
}

/// Puts the fixtures that a file sees in the order of their names, the best one of each name.
pub fn rank_fixtures<'a>(
    fixtures: &'a Vec<Fixture>,
    file: &FilePath,
    imports: &Vec<FixtureImport>,
    plugins: &Vec<FilePath>,
    root: &FilePath,
) -> (r: Vec<&'a Fixture>)
    ensures
        views(r@) == ranked(
            views(fixtures@),
            |f: FixtureView|
                visibility_score(f, file@, views(imports@), views(plugins@), root@),
        ),
{
    let ghost all = views(fixtures@);
    let ghost score = |f: FixtureView|
        visibility_score(f, file@, views(imports@), views(plugins@), root@);
    let mut list: Vec<&'a Fixture> = Vec::new();
    let mut n: usize = 0;
    assert(views(list@) =~= ranked(all.take(0), score));
    while n < fixtures.len()
        invariant
            n <= fixtures@.len(),
            all == views(fixtures@),
            score == (|f: FixtureView|
                visibility_score(f, file@, views(imports@), views(plugins@), root@)),
            views(list@) == ranked(all.take(n as int), score),
        decreases fixtures@.len() - n,
    {
        let f: &'a Fixture = &fixtures[n];
        proof {
            assert(all.take(n + 1).drop_last() =~= all.take(n as int));
            assert(all.take(n + 1).last() == f@);
            ranking_keeps_the_best(all.take(n as int), score);
        }
        match fixture_visibility_score(f, file, imports, plugins, root) {
            Some(new_score) => {
                place_candidate(&mut list, f, new_score, file, imports, plugins, root);
            },
            None => {},
        }
        n = n + 1;
    }
    assert(all.take(all.len() as int) =~= all);
    list
}

fn place_candidate<'a>(
    list: &mut Vec<&'a Fixture>,
    f: &'a Fixture,
    new_score: u128,
    file: &FilePath,
    imports: &Vec<FixtureImport>,
    plugins: &Vec<FilePath>,
    root: &FilePath,
)
    requires
        visibility_score(f@, file@, views(imports@), views(plugins@), root@) == Some(
            new_score as nat,
        ),
        forall|i: int|
            0 <= i < old(list)@.len() ==> visibility_score(
                #[trigger] views(old(list)@)[i],
                file@,
                views(imports@),
                views(plugins@),
                root@,
            ) is Some,
    ensures
        views(final(list)@) == with_candidate(
            views(old(list)@),
            f@,
            |f: FixtureView|
                visibility_score(f, file@, views(imports@), views(plugins@), root@),
        ),
{
    let ghost all = views(list@);
    let mut i: usize = 0;
    while i < list.len() && is_before(list[i].name.as_str(), f.name.as_str())
        invariant
            i <= list@.len(),
            all == views(list@),
            place_from(all, f@.name, 0) == place_from(all, f@.name, i as int),
        decreases list@.len() - i,
    {
        assert(all[i as int] == list@[i as int]@);
        i = i + 1;
    }
    if i < list.len() {
        assert(all[i as int] == list@[i as int]@);
    }
    if i < list.len() && list[i].name == f.name {
        match fixture_visibility_score(list[i], file, imports, plugins, root) {
            Some(score) => {
                if score < new_score {
                    list.set(i, f);
                    assert(views(list@) =~= all.update(i as int, f@));
                }
            },
            None => {},
        }
    } else {
        list.insert(i, f);
        assert(views(list@) =~= all.insert(i as int, f@));
    }
}

/// Of two `conftest.py` files above a file, the nearer one wins: its fixtures have the higher
/// score.
pub proof fn nearer_conftest_wins(
    near: FixtureView,
    far: FixtureView,
    file: PathView,
    imports: Seq<FixtureImportView>,
    plugins: Seq<PathView>,
    root: PathView,
)
    requires
        is_conftest(near.visibility_path),
        is_conftest(far.visibility_path),
        near.visibility_path != file,
        far.visibility_path != file,
        !import_allows(imports, near),
        !import_allows(imports, far),
        !plugins.contains(near.path),
        !plugins.contains(far.path),
        is_under(directory_of(file), directory_of(near.visibility_path)),
        is_under(directory_of(near.visibility_path), directory_of(far.visibility_path)),
        directory_of(near.visibility_path) != directory_of(far.visibility_path),
        is_under(directory_of(far.visibility_path), root),
    ensures
        visibility_score(near, file, imports, plugins, root) is Some,
        visibility_score(far, file, imports, plugins, root) is Some,
        visibility_score(far, file, imports, plugins, root)->0 < visibility_score(
            near,
            file,
            imports,
            plugins,
            root,
        )->0,
{
    let dir = directory_of(file);
    let n = directory_of(near.visibility_path);
    let f = directory_of(far.visibility_path);
    assert(is_under(dir, f)) by {
        assert(dir.take(f.len() as int) =~= dir.take(n.len() as int).take(f.len() as int));
    }
    assert(is_under(n, root)) by {
        assert(n.take(root.len() as int) =~= n.take(f.len() as int).take(root.len() as int));
    }
    if n.len() == f.len() {
        assert(n.take(f.len() as int) =~= n);
    }
}

/// A file's own fixtures go before imported ones, those before the ones of plugins, and those
/// before the ones of a `conftest.py` that lies no more than so deep below the root.
pub proof fn sources_have_precedence(
    f: FixtureView,
    file: PathView,
    imports: Seq<FixtureImportView>,
    plugins: Seq<PathView>,
    root: PathView,
)
    requires
        depth_below(directory_of(f.visibility_path), root) < 7000,
    ensures
        f.visibility_path == file <==> visibility_score(f, file, imports, plugins, root) == Some(
            10000nat,
        ),
        f.visibility_path != file && import_allows(imports, f) <==> visibility_score(
            f,
            file,
            imports,
            plugins,
            root,
        ) == Some(9000nat),
        f.visibility_path != file && !import_allows(imports, f) && plugins.contains(f.path)
            <==> visibility_score(f, file, imports, plugins, root) == Some(8000nat),
        visibility_score(f, file, imports, plugins, root) matches Some(score) ==> score <= 10000
            && (score < 8000 ==> is_conftest(f.visibility_path)),
{
}

/// A fixture that a file neither defines nor imports, and that no plugin brings, is seen only
/// below the `conftest.py` that has it.
pub proof fn conftest_reaches_only_below(
    f: FixtureView,
    file: PathView,
    imports: Seq<FixtureImportView>,
    plugins: Seq<PathView>,
    root: PathView,
)
    requires
        f.visibility_path != file,
        !import_allows(imports, f),
        !plugins.contains(f.path),
    ensures
        visibility_score(f, file, imports, plugins, root) is Some <==> is_conftest(
            f.visibility_path,
        ) && is_under(directory_of(file), directory_of(f.visibility_path)),
{
}

/// Fixtures with the same scores are ranked alike.
pub proof fn lemma_ranked_alike(
    fixtures: Seq<FixtureView>,
    score: spec_fn(FixtureView) -> Option<nat>,
    other: spec_fn(FixtureView) -> Option<nat>,
)
    requires
        forall|k: int|
            0 <= k < fixtures.len() ==> score(#[trigger] fixtures[k]) == other(fixtures[k]),
    ensures
        ranked(fixtures, score) == ranked(fixtures, other),
    decreases fixtures.len(),
{
    if fixtures.len() > 0 {
        let fewer = fixtures.drop_last();
        let f = fixtures.last();
        assert forall|k: int| 0 <= k < fewer.len() implies score(#[trigger] fewer[k]) == other(
            fewer[k],
        ) by {
            assert(fewer[k] == fixtures[k]);
        }
        lemma_ranked_alike(fewer, score, other);
        ranking_keeps_the_best(fewer, score);
        let list = ranked(fewer, score);
        assert(score(f) == other(f)) by {
            assert(f == fixtures[fixtures.len() - 1]);
        }
        let i = place_from(list, f.name, 0);
        if 0 <= i < list.len() {
            assert(stands_for_best(fewer, score, list[i]));
            let k = choose|k: int| #[trigger] is_best(fewer, score, k) && fewer[k] == list[i];
            assert(score(fewer[k]) == other(fewer[k]));
        }
        assert(0 <= i) by {
            lemma_place(list, f.name, 0);
        }
    }
}

/// The later imports are the earlier ones and others, and the others bring no name of a fixture.
pub open spec fn adds_no_fixture(
    earlier: Seq<FixtureImportView>,
    later: Seq<FixtureImportView>,
    fixtures: Seq<FixtureView>,
) -> bool {
    &&& forall|i: int| 0 <= i < earlier.len() ==> later.contains(#[trigger] earlier[i])
    &&& forall|i: int|
        0 <= i < later.len() ==> earlier.contains(#[trigger] later[i]) || !has_fixture(
            fixtures,
            later[i].visible,
        )
}

proof fn lemma_allows_alike(
    earlier: Seq<FixtureImportView>,
    later: Seq<FixtureImportView>,
    fixtures: Seq<FixtureView>,
    k: int,
)
    requires
        0 <= k < fixtures.len(),
        adds_no_fixture(earlier, later, fixtures),
    ensures
        import_allows(earlier, fixtures[k]) == import_allows(later, fixtures[k]),
{
    let f = fixtures[k];
    assert(has_fixture(fixtures, f.name));
    assert forall|i: int| 0 <= i < earlier.len() && (#[trigger] earlier[i]).visible
        == f.name implies exists|j: int|
        0 <= j < later.len() && #[trigger] later[j] == earlier[i] by {
        let j = later.index_of(earlier[i]);
        assert(later[j] == earlier[i]);
    }
    assert forall|i: int| 0 <= i < later.len() && (#[trigger] later[i]).visible
        == f.name implies exists|j: int|
        0 <= j < earlier.len() && #[trigger] earlier[j] == later[i] by {
        let j = earlier.index_of(later[i]);
        assert(earlier[j] == later[i]);
    }
}

/// Imports that bring no name of a fixture change nothing in how strongly fixtures are visible.
pub proof fn other_imports_keep_the_scores(
    f: FixtureView,
    file: PathView,
    earlier: Seq<FixtureImportView>,
    later: Seq<FixtureImportView>,
    fixtures: Seq<FixtureView>,
    plugins: Seq<PathView>,
    root: PathView,
)
    requires
        fixtures.contains(f),
        adds_no_fixture(earlier, later, fixtures),
    ensures
        visibility_score(f, file, later, plugins, root) == visibility_score(
            f,
            file,
            earlier,
            plugins,
            root,
        ),
{
    lemma_allows_alike(earlier, later, fixtures, fixtures.index_of(f));
}

/// The names that a body imports from modules are those of its statements with `from`, each under
/// its alias where it has one, and with the file of the module where the project has one.
pub proof fn imports_are_those_of_the_statements(
    ws: WorkspaceView,
    root: PathView,
    body: Seq<StatementView>,
    import: FixtureImportView,
)
    ensures
        imports_in(ws, root, body).contains(import) <==> exists|k: int|
            0 <= k < body.len() && imports_as(ws, root, #[trigger] body[k], import),
{
    let f = |s: StatementView| imports_of_statement(ws, root, s);
    if imports_in(ws, root, body).contains(import) {
        let k = lemma_flat_map_source(body, f, import);
        match body[k].kind {
            StatementKindView::ImportFrom { module, names, .. } => {
                let j = f(body[k]).index_of(import);
                assert(f(body[k])[j] == import);
                assert(is_visible_as(names[j], import.visible));
            },
            _ => {},
        }
        assert(imports_as(ws, root, body[k], import));
    }
    assert forall|k: int| 0 <= k < body.len() && imports_as(
        ws,
        root,
        #[trigger] body[k],
        import,
    ) implies imports_in(ws, root, body).contains(import) by {
        match body[k].kind {
            StatementKindView::ImportFrom { module, names, .. } => {
                let j = choose|j: int|
                    0 <= j < names.len() && is_visible_as(#[trigger] names[j], import.visible);
                assert(f(body[k])[j] == import);
                lemma_flat_map_has(body, f, k, j);
            },
            _ => {},
        }
    }
}

/// The imported name is visible under the given one.
pub open spec fn is_visible_as(n: ImportedNameView, visible: Seq<char>) -> bool {
    n.asname == Some(visible) || (n.asname is None && n.name == visible)
}

/// The statement imports the name from the file.
pub open spec fn imports_as(
    ws: WorkspaceView,
    root: PathView,
    s: StatementView,
    import: FixtureImportView,
) -> bool {
    match s.kind {
        StatementKindView::ImportFrom { module, names, .. } => {
            &&& exists|j: int|
                0 <= j < names.len() && is_visible_as(#[trigger] names[j], import.visible)
            &&& import.source == (match module {
                Some(m) => found_module(ws, root, m),
                None => None,
            })
        },
        _ => false,
    }
}

/// A fixture that the file imports, by its name and from its file, is visible; so is one that is
/// imported by its name where no import of the name leads to a file of the project. One whose name
/// is imported from other files of the project alone is not visible by that, nor one whose name is
/// not imported.
pub proof fn imported_fixtures_are_visible(imports: Seq<FixtureImportView>, f: FixtureView)
    ensures
        imports.contains(FixtureImportView { visible: f.name, source: Some(f.path) })
            ==> import_allows(imports, f),
        imports.contains(FixtureImportView { visible: f.name, source: None }) && (forall|i: int|
            0 <= i < imports.len() && (#[trigger] imports[i]).visible == f.name
                ==> imports[i].source is None) ==> import_allows(imports, f),
        (forall|i: int| 0 <= i < imports.len() ==> (#[trigger] imports[i]).visible != f.name)
            ==> !import_allows(imports, f),
        (forall|i: int|
            0 <= i < imports.len() && (#[trigger] imports[i]).visible == f.name
                ==> imports[i].source != Some(f.path)) && (exists|i: int|
            0 <= i < imports.len() && (#[trigger] imports[i]).visible == f.name
                && imports[i].source is Some) ==> !import_allows(imports, f),
{
    let own = FixtureImportView { visible: f.name, source: Some(f.path) };
    let other = FixtureImportView { visible: f.name, source: None };
    if imports.contains(own) {
        let i = imports.index_of(own);
        assert(imports[i].visible == f.name && imports[i].source == Some(f.path));
    }
    if imports.contains(other) {
        let i = imports.index_of(other);
        assert(imports[i].visible == f.name);
    }
}

/// A file sees a fixture exactly if it is the one that makes it visible, imports it, has its file
/// as a plugin, or lies in or below the directory of the `conftest.py` that makes it visible.
pub proof fn fixtures_are_seen(
    f: FixtureView,
    file: PathView,
    imports: Seq<FixtureImportView>,
    plugins: Seq<PathView>,
    root: PathView,
)
    requires
        parent(file) is Some,
    ensures
        visibility_score(f, file, imports, plugins, root) is Some <==> {
            ||| f.visibility_path == file
            ||| import_allows(imports, f)
            ||| plugins.contains(f.path)
            ||| {
                &&& f.visibility_path.len() > 0
                &&& f.visibility_path.last() == encode_utf8("conftest.py"@)
                &&& is_plain(f.visibility_path.last())
                &&& is_under(file.drop_last(), f.visibility_path.drop_last())
            }
        },
{
}

/// The nearest of several that make a fixture visible decides: the file itself, then an import,
/// then a plugin, then the `conftest.py` files, a deeper one before one above it.
pub proof fn nearer_fixtures_score_higher(
    f: FixtureView,
    g: FixtureView,
    file: PathView,
    imports: Seq<FixtureImportView>,
    plugins: Seq<PathView>,
    root: PathView,
)
    requires
        visibility_score(f, file, imports, plugins, root) is Some,
        visibility_score(g, file, imports, plugins, root) is Some,
        file.len() < 7000,
    ensures
        f.visibility_path == file && g.visibility_path != file ==> visibility_score(
            f,
            file,
            imports,
            plugins,
            root,
        )->0 > visibility_score(g, file, imports, plugins, root)->0,
        import_allows(imports, f) && g.visibility_path != file && !import_allows(imports, g)
            ==> visibility_score(f, file, imports, plugins, root)->0 > visibility_score(
            g,
            file,
            imports,
            plugins,
            root,
        )->0,
        plugins.contains(f.path) && g.visibility_path != file && !import_allows(imports, g)
            && !plugins.contains(g.path) ==> visibility_score(f, file, imports, plugins, root)->0
            > visibility_score(g, file, imports, plugins, root)->0,
{
    assert(directory_of(file).len() <= file.len());
}

/// The plugins of a file are the files of the modules that its configuration names, where the
/// project has them, and nothing else; it has none where a file that could name them cannot be
/// read.
pub proof fn plugins_are_the_files_of_their_modules(
    ws: WorkspaceView,
    root: PathView,
    file: PathView,
    path: PathView,
)
    ensures
        plugins_of_files(ws, plugin_config_files(ws, file)) matches Ok(modules) ==> (plugin_paths(
            ws,
            root,
            file,
        ).contains(path) <==> exists|i: int|
            0 <= i < modules.len() && found_module(ws, root, #[trigger] modules[i]) == Some(path)),
        plugins_of_files(ws, plugin_config_files(ws, file)) is Err ==> plugin_paths(
            ws,
            root,
            file,
        ).len() == 0,
{
    match plugins_of_files(ws, plugin_config_files(ws, file)) {
        Ok(modules) => {
            let f = |module: Seq<char>| found_module(ws, root, module);
            if plugin_paths(ws, root, file).contains(path) {
                modules.lemma_filter_map_contains(f, path);
                let m = choose|m: Seq<char>| #[trigger] modules.contains(m) && f(m) == Some(path);
                let i = modules.index_of(m);
                assert(found_module(ws, root, modules[i]) == Some(path));
            }
            assert forall|i: int|
                0 <= i < modules.len() && found_module(ws, root, #[trigger] modules[i]) == Some(
                    path,
                ) implies plugin_paths(ws, root, file).contains(path) by {
                lemma_filter_map_has(modules, f, i);
            }
        },
        Err(_) => {},
    }
}

/// A `conftest.py` counts by how many directories it lies below the root, and outside the root as
/// if it lay in it.
pub proof fn conftests_count_by_their_depth(
    f: FixtureView,
    file_dir: PathView,
    root: PathView,
    dir: PathView,
)
    requires
        f.visibility_path == dir.push(encode_utf8("conftest.py"@)),
        is_plain(encode_utf8("conftest.py"@)),
    ensures
        !is_under(file_dir, dir) ==> conftest_score(f, file_dir, root) is None,
        is_under(file_dir, dir) && is_under(dir, root) ==> conftest_score(f, file_dir, root)
            == Some((1000 + dir.len() - root.len()) as nat),
        is_under(file_dir, dir) && !is_under(dir, root) ==> conftest_score(f, file_dir, root)
            == Some(1000nat),
{
    names_lie_in_their_directory(dir, encode_utf8("conftest.py"@), root);
}

/// What is said of an import is said of its name and of the file that it leads to.
pub proof fn fixture_imports_stand_for_their_parts(import: FixtureImport)
    ensures
        import@.visible == import.visible@,
        import@.source == (match import.source {
            Some(source) => Some(source@),
            None => None,
        }),
{
}

}
