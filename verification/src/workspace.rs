//! What the library knows of the file system: the files that were read, and their texts.
use crate::bytes::{are_bytes_of, bytes_of};
use crate::path::{
    appended, bytes_name_paths, extension, file_name, is_named, is_plain, is_skipped,
    is_skipped_directory, is_under, parent, python_files_get_their_extension, root_component,
    same_path, with_py, DOT, FilePath, PathView,
};
use crate::syntax::{
    parse_body, python_body, Expression, ExpressionView, Statement, StatementKind,
    StatementKindView, StatementView,
};
use crate::text::{
    can_be_parsed, chars_of, fits, is_text, lemma_flat_map_has, lemma_flat_map_source,
    lemma_views_push, option_view, pieces, split_on, views,
};
use vstd::prelude::*;
use vstd::utf8::encode_utf8;

verus! {

/// What stands at a path.
#[derive(Debug)]
pub enum FileContent {
    Directory,
    /// A file whose text could not be read.
    Unreadable,
    Source(String),
}

/// A path at which something stands.
#[derive(Debug)]
pub struct FileEntry {
    pub path: FilePath,
    pub content: FileContent,
}

/// The entries that were found, in the order in which they were found. A path at which none of
/// them stands does not exist.
#[derive(Debug)]
pub struct Workspace {
    pub entries: Vec<FileEntry>,
}

/// What [`FileContent`] stands for.
pub enum FileContentView {
    Directory,
    Unreadable,
    Source(Seq<char>),
}

/// What [`FileEntry`] stands for.
pub struct FileEntryView {
    pub path: PathView,
    pub content: FileContentView,
}

/// What [`Workspace`] stands for.
pub type WorkspaceView = Seq<FileEntryView>;

impl View for FileContent {
    type V = FileContentView;

    open spec fn view(&self) -> FileContentView {
        match self {
            FileContent::Directory => FileContentView::Directory,
            FileContent::Unreadable => FileContentView::Unreadable,
            FileContent::Source(text) => FileContentView::Source(text@),
        }
    }
}

impl View for FileEntry {
    type V = FileEntryView;

    open spec fn view(&self) -> FileEntryView {
        FileEntryView { path: self.path@, content: self.content@ }
    }
}

impl View for Workspace {
    type V = WorkspaceView;

    open spec fn view(&self) -> WorkspaceView {
        views(self.entries@)
    }
}

/// A file had to be read and has no readable text.
#[derive(Debug, PartialEq, Eq)]
pub struct UnreadableFile {
    pub path: FilePath,
}

/// The view of a list, or the path of the file that could not be read.
pub open spec fn outcome<T: View>(r: Result<Vec<T>, UnreadableFile>) -> Result<
    Seq<T::V>,
    PathView,
> {
    match r {
        Ok(items) => Ok(views(items@)),
        Err(e) => Err(e.path@),
    }
}

/// The texts can be parsed.
pub open spec fn parseable(ws: WorkspaceView) -> bool {
    forall|i: int|
        0 <= i < ws.len() ==> (#[trigger] ws[i].content matches FileContentView::Source(text)
            ==> fits(text))
}

/// Something stands at the path.
pub open spec fn exists_at(ws: WorkspaceView, path: PathView) -> bool {
    exists|i: int| 0 <= i < ws.len() && #[trigger] ws[i].path == path
}

/// What stands at the path: the first entry counts.
pub open spec fn content_at(ws: WorkspaceView, path: PathView) -> Option<FileContentView>
    decreases ws.len(),
{
    if ws.len() == 0 {
        None
    } else if ws[0].path == path {
        Some(ws[0].content)
    } else {
        content_at(ws.drop_first(), path)
    }
}

/// The text of the file at the path.
pub open spec fn source_at(ws: WorkspaceView, path: PathView) -> Option<Seq<char>> {
    match content_at(ws, path) {
        Some(FileContentView::Source(text)) => Some(text),
        _ => None,
    }
}

/// The entry is a Python file of the project: it lies below the root, in no directory that is
/// skipped, and its name ends in `.py`.
pub open spec fn is_project_source(entry: FileEntryView, root: PathView) -> bool {
    &&& entry.content !is Directory
    &&& is_under(entry.path, root)
    &&& entry.path.len() > root.len()
    &&& forall|k: int|
        root.len() <= k < entry.path.len() - 1 ==> !is_skipped(#[trigger] entry.path[k])
    &&& file_name(entry.path) matches Some(name) && extension(name) == Some(encode_utf8("py"@))
}

/// The Python files of the project, in the order in which they were found.
pub open spec fn project_sources(ws: WorkspaceView, root: PathView) -> Seq<FileEntryView> {
    ws.filter(|entry: FileEntryView| is_project_source(entry, root))
}

/// The path at which a module of the project would stand.
pub open spec fn path_of_module(root: PathView, module: Seq<char>) -> PathView {
    with_py(
        split_on(module, '.').fold_left(
            root,
            |p: PathView, part: Seq<char>| appended(p, encode_utf8(part)),
        ),
    )
}

/// The path of a module of the project.
pub open spec fn found_module(ws: WorkspaceView, root: PathView, module: Seq<char>) -> Option<
    PathView,
> {
    if exists_at(ws, path_of_module(root, module)) {
        Some(path_of_module(root, module))
    } else {
        None
    }
}

impl Workspace {
    /// Whether all texts can be parsed.
    pub fn can_be_parsed(&self) -> (r: bool)
        ensures
            r == parseable(self@),
    {
        let mut i: usize = 0;
        while i < self.entries.len()
            invariant
                i <= self.entries@.len(),
                forall|j: int|
                    0 <= j < i ==> (#[trigger] self@[j].content matches FileContentView::Source(
                        text,
                    ) ==> fits(text)),
            decreases self.entries@.len() - i,
        {
            assert(self@[i as int].content == self.entries@[i as int].content@);
            match &self.entries[i].content {
                FileContent::Source(text) => {
                    if !can_be_parsed(text.as_str()) {
                        return false;
                    }
                },
                _ => {},
            }
            i = i + 1;
        }
        true
    }

    /// Whether something stands at a path.
    pub fn has(&self, path: &FilePath) -> (r: bool)
        ensures
            r == exists_at(self@, path@),
    {
        let mut i: usize = 0;
        while i < self.entries.len()
            invariant
                i <= self.entries@.len(),
                forall|j: int| 0 <= j < i ==> #[trigger] self@[j].path != path@,
            decreases self.entries@.len() - i,
        {
            if same_path(&self.entries[i].path, path) {
                assert(self@[i as int].path == path@);
                return true;
            }
            i = i + 1;
        }
        false
    }

    /// The text of the file at a path.
    pub fn read(&self, path: &FilePath) -> (r: Option<&String>)
        ensures
            option_view(r) == source_at(self@, path@),
            parseable(self@) ==> (r matches Some(text) ==> fits(text@)),
    {
        let mut i: usize = 0;
        assert(self@.skip(0) =~= self@);
        while i < self.entries.len()
            invariant
                i <= self.entries@.len(),
                content_at(self@, path@) == content_at(self@.skip(i as int), path@),
            decreases self.entries@.len() - i,
        {
            assert(self@.skip(i as int)[0] == self.entries@[i as int]@);
            if same_path(&self.entries[i].path, path) {
                assert(self@[i as int].content == self.entries@[i as int].content@);
                return match &self.entries[i].content {
                    FileContent::Source(text) => Some(text),
                    _ => None,
                };
            }
            assert(self@.skip(i as int).drop_first() =~= self@.skip(i + 1));
            i = i + 1;
        }
        None
    }
}

fn is_project_file(entry: &FileEntry, root: &FilePath) -> (r: bool)
    ensures
        r == is_project_source(entry@, root@),
{
    match entry.content {
        FileContent::Directory => {
            return false;
        },
        _ => {},
    }
    let path: &FilePath = &entry.path;
    if !path.starts_with(root) || path.components.len() <= root.components.len() {
        return false;
    }
    let mut k: usize = root.components.len();
    while k < path.components.len() - 1
        invariant
            root.components@.len() <= k < path.components@.len(),
            path@ == entry@.path,
            forall|j: int| root@.len() <= j < k ==> !is_skipped(#[trigger] path@[j]),
        decreases path.components@.len() - k,
    {
        if is_skipped_directory(&path.components[k]) {
            assert(is_skipped(entry@.path[k as int]));
            return false;
        }
        k = k + 1;
    }
    match path.extension() {
        Some(extension) => are_bytes_of(&extension, "py"),
        None => false,
    }
}

/// The Python files of a project.
pub fn collect_python_files<'a>(ws: &'a Workspace, root: &FilePath) -> (r: Vec<&'a FileEntry>)
    ensures
        views(r@) == project_sources(ws@, root@),
{
    let mut out: Vec<&'a FileEntry> = Vec::new();
    let mut i: usize = 0;
    let ghost keep = |entry: FileEntryView| is_project_source(entry, root@);
    proof {
        reveal(Seq::filter);
        assert(views(out@) =~= ws@.take(0).filter(keep));
    }
    while i < ws.entries.len()
        invariant
            i <= ws.entries@.len(),
            keep == (|entry: FileEntryView| is_project_source(entry, root@)),
            views(out@) == ws@.take(i as int).filter(keep),
        decreases ws.entries@.len() - i,
    {
        let entry: &'a FileEntry = &ws.entries[i];
        proof {
            reveal(Seq::filter);
            assert(ws@.take(i + 1).drop_last() =~= ws@.take(i as int));
            assert(ws@.take(i + 1).last() == entry@);
            lemma_views_push(out@, entry);
        }
        if is_project_file(entry, root) {
            out.push(entry);
        }
        i = i + 1;
    }
    assert(ws@.take(ws@.len() as int) =~= ws@);
    out
}

/// The path of a module of the project, if a file stands there.
pub fn module_to_path(ws: &Workspace, root: &FilePath, module: &str) -> (r: Option<FilePath>)
    ensures
        option_view(r) == found_module(ws@, root@, module@),
{
    let parts: Vec<String> = pieces(&chars_of(module), '.');
    let mut path: FilePath = root.clone();
    let ghost all = split_on(module@, '.');
    let ghost step = |p: PathView, part: Seq<char>| appended(p, encode_utf8(part));
    let mut i: usize = 0;
    while i < parts.len()
        invariant
            i <= parts@.len(),
            all == views(parts@),
            step == (|p: PathView, part: Seq<char>| appended(p, encode_utf8(part))),
            path@ == all.take(i as int).fold_left(root@, step),
        decreases parts@.len() - i,
    {
        assert(all.take(i + 1).drop_last() =~= all.take(i as int));
        assert(all.take(i + 1).last() == parts@[i as int]@);
        path.append(&bytes_of(parts[i].as_str()));
        i = i + 1;
    }
    assert(all.take(all.len() as int) =~= all);
    path.set_py_extension();
    if ws.has(&path) {
        Some(path)
    } else {
        None
    }
}

/// The `conftest.py` files of a directory and of those above it, from the nearest on.
pub open spec fn conftests_from(ws: WorkspaceView, dir: PathView) -> Seq<PathView>
    decreases dir.len(),
{
    let here = dir.push(encode_utf8("conftest.py"@));
    let first = if exists_at(ws, here) {
        seq![here]
    } else {
        Seq::empty()
    };
    match parent(dir) {
        Some(above) => first + conftests_from(ws, above),
        None => first,
    }
}

/// The files that can name plugins for a file: itself, and the `conftest.py` files above it.
pub open spec fn plugin_config_files(ws: WorkspaceView, file: PathView) -> Seq<PathView> {
    match parent(file) {
        Some(dir) => seq![file] + conftests_from(ws, dir),
        None => seq![file],
    }
}

/// The files that can name plugins for a file.
pub fn pytest_plugin_config_files(ws: &Workspace, file: &FilePath) -> (r: Vec<FilePath>)
    ensures
        views(r@) == plugin_config_files(ws@, file@),
{
    let mut out: Vec<FilePath> = Vec::new();
    out.push(file.clone());
    let mut dir: Option<FilePath> = file.parent();
    let ghost whole = plugin_config_files(ws@, file@);
    proof {
        assert(views(out@) =~= seq![file@]);
        assert(seq![file@] + Seq::<PathView>::empty() =~= seq![file@]);
    }
    while dir.is_some()
        invariant
            whole == (match dir {
                Some(d) => views(out@) + conftests_from(ws@, d@),
                None => views(out@),
            }),
        decreases
                (match dir {
                    Some(d) => d@.len() + 1,
                    None => 0,
                }),
    {
        match dir {
            Some(current) => {
                let conftest: FilePath = current.child("conftest.py");
                let ghost so_far = views(out@);
                proof {
                    lemma_views_push(out@, conftest);
                }
                let found: bool = ws.has(&conftest);
                if found {
                    out.push(conftest);
                }
                dir = current.parent();
                assert(whole =~= (match dir {
                    Some(d) => views(out@) + conftests_from(ws@, d@),
                    None => views(out@),
                }));
            },
            None => {},
        }
    }
    out
}

/// The string literals of an expression, through lists and tuples.
pub open spec fn strings_in(e: ExpressionView) -> Seq<Seq<char>>
    decreases e, 0int,
{
    match e {
        ExpressionView::StringLiteral(value) => seq![value],
        ExpressionView::List(elts) => strings_first(elts, elts.len() as int),
        ExpressionView::Tuple(elts) => strings_first(elts, elts.len() as int),
        _ => Seq::empty(),
    }
}

/// The strings of the first `n` expressions.
pub open spec fn strings_first(elts: Seq<ExpressionView>, n: int) -> Seq<Seq<char>>
    decreases elts, n,
{
    if n <= 0 || n > elts.len() {
        Seq::empty()
    } else {
        strings_first(elts, n - 1) + strings_in(elts[n - 1])
    }
}

/// Whether an assignment target is `pytest_plugins`.
pub open spec fn is_plugins_name(e: ExpressionView) -> bool {
    e == ExpressionView::Name("pytest_plugins"@)
}

/// One of the assignment targets is `pytest_plugins`.
pub open spec fn assigns_plugins(targets: Seq<ExpressionView>) -> bool {
    exists|i: int| 0 <= i < targets.len() && is_plugins_name(#[trigger] targets[i])
}

/// The plugin modules that a statement names.
pub open spec fn plugins_of(s: StatementView) -> Seq<Seq<char>> {
    match s.kind {
        StatementKindView::Assign { targets, value } => if assigns_plugins(targets) {
            strings_in(value)
        } else {
            Seq::empty()
        },
        _ => Seq::empty(),
    }
}

/// The plugin modules that a body names.
pub open spec fn plugins_in(body: Seq<StatementView>) -> Seq<Seq<char>> {
    body.flat_map(|s: StatementView| plugins_of(s))
}

fn is_pytest_plugins_target(e: &Expression) -> (r: bool)
    ensures
        r == is_plugins_name(e@),
{
    match e {
        Expression::Name(id) => is_text(id, "pytest_plugins"),
        _ => false,
    }
}

fn push_all_strings(elts: &Vec<Expression>, modules: &mut Vec<String>)
    ensures
        views(final(modules)@) == views(old(modules)@) + strings_first(
            views(elts@),
            elts@.len() as int,
        ),
    decreases elts,
{
    let ghost start = views(modules@);
    let ghost all = views(elts@);
    let mut i: usize = 0;
    assert(start =~= start + strings_first(all, 0));
    while i < elts.len()
        invariant
            i <= elts@.len(),
            all == views(elts@),
            views(modules@) == start + strings_first(all, i as int),
        decreases elts@.len() - i,
    {
        collect_pytest_plugin_module_exprs(&elts[i], modules);
        i = i + 1;
        assert(views(modules@) =~= start + strings_first(all, i as int));
    }
}

/// Appends the string literals of an expression.
pub fn collect_pytest_plugin_module_exprs(e: &Expression, modules: &mut Vec<String>)
    ensures
        views(final(modules)@) == views(old(modules)@) + strings_in(e@),
    decreases e,
{
    let ghost start = views(modules@);
    match e {
        Expression::StringLiteral(value) => {
            let copy: String = value.clone();
            proof {
                lemma_views_push(modules@, copy);
            }
            modules.push(copy);
            assert(views(modules@) =~= start + strings_in(e@));
        },
        Expression::List(elts) => {
            push_all_strings(elts, modules);
            assert(e@->List_0 =~= views(elts@));
        },
        Expression::Tuple(elts) => {
            push_all_strings(elts, modules);
            assert(e@->Tuple_0 =~= views(elts@));
        },
        _ => {
            assert(views(modules@) =~= start + strings_in(e@));
        },
    }
}

fn names_plugins(targets: &Vec<Expression>) -> (r: bool)
    ensures
        r == assigns_plugins(views(targets@)),
{
    let mut i: usize = 0;
    while i < targets.len()
        invariant
            i <= targets@.len(),
            forall|j: int| 0 <= j < i ==> !is_plugins_name(#[trigger] views(targets@)[j]),
        decreases targets@.len() - i,
    {
        if is_pytest_plugins_target(&targets[i]) {
            assert(is_plugins_name(views(targets@)[i as int]));
            return true;
        }
        i = i + 1;
    }
    false
}

/// Appends the plugin modules that a body names.
pub fn collect_plugins(body: &Vec<Statement>, modules: &mut Vec<String>)
    ensures
        views(final(modules)@) == views(old(modules)@) + plugins_in(views(body@)),
{
    let ghost start = views(modules@);
    let ghost all = views(body@);
    let ghost f = |s: StatementView| plugins_of(s);
    let mut i: usize = 0;
    proof {
        assert(all.take(0).flat_map(f) =~= Seq::<Seq<char>>::empty());
        assert(start =~= start + all.take(0).flat_map(f));
    }
    while i < body.len()
        invariant
            i <= body@.len(),
            all == views(body@),
            f == (|s: StatementView| plugins_of(s)),
            views(modules@) == start + all.take(i as int).flat_map(f),
        decreases body@.len() - i,
    {
        let ghost so_far = views(modules@);
        match &body[i].kind {
            StatementKind::Assign { targets, value } => {
                assert(all[i as int] == body@[i as int]@);
                assert(all[i as int].kind == StatementKindView::Assign {
                    targets: views(targets@),
                    value: value@,
                });
                if names_plugins(targets) {
                    collect_pytest_plugin_module_exprs(value, modules);
                }
                assert(views(modules@) =~= so_far + plugins_of(all[i as int]));
            },
            _ => {
                assert(all[i as int] == body@[i as int]@);
                assert(views(modules@) =~= so_far + plugins_of(all[i as int]));
            },
        }
        proof {
            all.lemma_flat_map_take_append(f, i as int);
            assert(views(modules@) =~= start + all.take(i + 1).flat_map(f));
        }
        i = i + 1;
    }
    assert(all.take(all.len() as int) =~= all);
}

/// What `f` makes of the texts of the files, one after the other, or the first file that cannot
/// be read.
pub open spec fn gathered<T>(
    ws: WorkspaceView,
    files: Seq<PathView>,
    f: spec_fn(PathView, Seq<char>) -> Seq<T>,
) -> Result<Seq<T>, PathView>
    decreases files.len(),
{
    if files.len() == 0 {
        Ok(Seq::empty())
    } else {
        match gathered(ws, files.drop_last(), f) {
            Ok(items) => match source_at(ws, files.last()) {
                Some(text) => Ok(items + f(files.last(), text)),
                None => Err(files.last()),
            },
            Err(path) => Err(path),
        }
    }
}

/// The first file that cannot be read decides, whatever follows.
pub proof fn lemma_gathered_error<T>(
    ws: WorkspaceView,
    files: Seq<PathView>,
    f: spec_fn(PathView, Seq<char>) -> Seq<T>,
    n: int,
)
    requires
        0 <= n <= files.len(),
        gathered(ws, files.take(n), f) is Err,
    ensures
        gathered(ws, files, f) == gathered(ws, files.take(n), f),
    decreases files.len(),
{
    if n < files.len() {
        assert(files.drop_last().take(n) =~= files.take(n));
        lemma_gathered_error(ws, files.drop_last(), f, n);
    } else {
        assert(files.take(n) =~= files);
    }
}

/// The plugin modules that the files name, or the first file that cannot be read.
pub open spec fn plugins_of_files(ws: WorkspaceView, files: Seq<PathView>) -> Result<
    Seq<Seq<char>>,
    PathView,
> {
    gathered(ws, files, |_path: PathView, text: Seq<char>| plugins_in(python_body(text)))
}

/// The plugin modules that apply to a file.
pub fn pytest_plugin_modules(ws: &Workspace, file: &FilePath) -> (r: Result<
    Vec<String>,
    UnreadableFile,
>)
    requires
        parseable(ws@),
    ensures
        outcome(r) == plugins_of_files(ws@, plugin_config_files(ws@, file@)),
{
    let files: Vec<FilePath> = pytest_plugin_config_files(ws, file);
    let ghost all = views(files@);
    let ghost f = |_path: PathView, text: Seq<char>| plugins_in(python_body(text));
    let mut modules: Vec<String> = Vec::new();
    let mut i: usize = 0;
    assert(views(modules@) =~= Seq::<Seq<char>>::empty());
    while i < files.len()
        invariant
            parseable(ws@),
            i <= files@.len(),
            all == views(files@),
            all == plugin_config_files(ws@, file@),
            f == (|_path: PathView, text: Seq<char>| plugins_in(python_body(text))),
            gathered(ws@, all.take(i as int), f) == Ok::<Seq<Seq<char>>, PathView>(
                views(modules@),
            ),
        decreases files@.len() - i,
    {
        proof {
            assert(all.take(i + 1).drop_last() =~= all.take(i as int));
            assert(all.take(i + 1).last() == files@[i as int]@);
        }
        match ws.read(&files[i]) {
            Some(text) => {
                let body: Vec<Statement> = parse_body(text.as_str());
                collect_plugins(&body, &mut modules);
            },
            None => {
                proof {
                    lemma_gathered_error(ws@, all, f, i + 1);
                }
                return Err(UnreadableFile { path: files[i].clone() });
            },
        }
        i = i + 1;
    }
    assert(all.take(all.len() as int) =~= all);
    Ok(modules)
}

proof fn lemma_strings_of_element(elts: Seq<ExpressionView>, i: int, n: int, m: Seq<char>)
    requires
        0 <= i < n <= elts.len(),
        strings_in(elts[i]).contains(m),
    ensures
        strings_first(elts, n).contains(m),
    decreases n,
{
    let before = strings_first(elts, n - 1);
    let here = strings_in(elts[n - 1]);
    if i < n - 1 {
        lemma_strings_of_element(elts, i, n - 1, m);
        let k = before.index_of(m);
        assert((before + here)[k] == m);
    } else {
        let k = here.index_of(m);
        assert((before + here)[before.len() + k] == m);
    }
}

proof fn lemma_strings_come_from(elts: Seq<ExpressionView>, n: int, m: Seq<char>) -> (i: int)
    requires
        0 <= n <= elts.len(),
        strings_first(elts, n).contains(m),
    ensures
        0 <= i < n,
        strings_in(elts[i]).contains(m),
    decreases n,
{
    if n == 0 {
        0
    } else {
        let before = strings_first(elts, n - 1);
        let here = strings_in(elts[n - 1]);
        let k = strings_first(elts, n).index_of(m);
        if k < before.len() {
            assert(before[k] == m);
            lemma_strings_come_from(elts, n - 1, m)
        } else {
            assert(here[k - before.len()] == m);
            n - 1
        }
    }
}

/// The elements of a list or a tuple.
pub open spec fn elements(e: ExpressionView) -> Seq<ExpressionView> {
    match e {
        ExpressionView::List(elts) => elts,
        ExpressionView::Tuple(elts) => elts,
        _ => Seq::empty(),
    }
}

/// A string literal gives its text and nothing else.
pub proof fn literal_gives_its_text(value: Seq<char>)
    ensures
        strings_in(ExpressionView::StringLiteral(value)) == seq![value],
{
}

/// A text is among the strings of a list or a tuple exactly if it is among those of one of its
/// elements, whichever that is. Nothing but a literal, a list or a tuple has strings.
pub proof fn every_element_gives_its_strings(e: ExpressionView, m: Seq<char>)
    requires
        !(e is StringLiteral),
    ensures
        strings_in(e).contains(m) <==> exists|i: int|
            0 <= i < elements(e).len() && strings_in(#[trigger] elements(e)[i]).contains(m),
        forall|i: int|
            0 <= i < elements(e).len() && #[trigger] elements(e)[i]
                == ExpressionView::StringLiteral(m) ==> strings_in(e).contains(m),
{
    let elts = elements(e);
    let n = elts.len() as int;
    if strings_in(e).contains(m) {
        assert(strings_first(elts, n).contains(m));
        let i = lemma_strings_come_from(elts, n, m);
        assert(strings_in(elts[i]).contains(m));
    }
    assert forall|i: int| 0 <= i < n && strings_in(#[trigger] elts[i]).contains(
        m,
    ) implies strings_in(e).contains(m) by {
        lemma_strings_of_element(elts, i, n, m);
    }
    assert forall|i: int| 0 <= i < n && #[trigger] elts[i] == ExpressionView::StringLiteral(
        m,
    ) implies strings_in(e).contains(m) by {
        assert(strings_in(elts[i])[0] == m);
        assert(strings_in(elts[i]).contains(m));
    }
}

/// The statement assigns to `pytest_plugins`, alone or among other targets, a value that has the
/// string.
pub open spec fn names_plugin(s: StatementView, m: Seq<char>) -> bool {
    match s.kind {
        StatementKindView::Assign { targets, value } => targets.contains(
            ExpressionView::Name("pytest_plugins"@),
        ) && strings_in(value).contains(m),
        _ => false,
    }
}

/// The plugin modules of a body are the strings that its statements assign to `pytest_plugins`,
/// whichever statement that is and whatever else it assigns to.
pub proof fn plugins_are_what_is_assigned(body: Seq<StatementView>, m: Seq<char>)
    ensures
        plugins_in(body).contains(m) <==> exists|k: int|
            0 <= k < body.len() && names_plugin(#[trigger] body[k], m),
{
    let f = |s: StatementView| plugins_of(s);
    if plugins_in(body).contains(m) {
        let k = lemma_flat_map_source(body, f, m);
        match body[k].kind {
            StatementKindView::Assign { targets, value } => {
                let i = choose|i: int|
                    0 <= i < targets.len() && is_plugins_name(#[trigger] targets[i]);
                assert(targets[i] == ExpressionView::Name("pytest_plugins"@));
            },
            _ => {},
        }
        assert(names_plugin(body[k], m));
    }
    assert forall|k: int| 0 <= k < body.len() && names_plugin(
        #[trigger] body[k],
        m,
    ) implies plugins_in(body).contains(m) by {
        match body[k].kind {
            StatementKindView::Assign { targets, value } => {
                let i = targets.index_of(ExpressionView::Name("pytest_plugins"@));
                assert(is_plugins_name(targets[i]));
                let j = strings_in(value).index_of(m);
                lemma_flat_map_has(body, f, k, j);
            },
            _ => {},
        }
    }
}

/// What is gathered from files is what their texts give, each file that is listed and no other.
/// It is gathered exactly if all of them can be read.
pub proof fn files_are_gathered<T>(
    ws: WorkspaceView,
    files: Seq<PathView>,
    f: spec_fn(PathView, Seq<char>) -> Seq<T>,
    item: T,
)
    ensures
        gathered(ws, files, f) is Ok <==> forall|i: int|
            0 <= i < files.len() ==> source_at(ws, #[trigger] files[i]) is Some,
        gathered(ws, files, f) matches Ok(items) ==> (items.contains(item) <==> exists|i: int|
            0 <= i < files.len() && source_at(ws, #[trigger] files[i]) is Some && f(
                files[i],
                source_at(ws, files[i])->0,
            ).contains(item)),
        gathered(ws, files, f) matches Err(path) ==> files.contains(path) && source_at(ws, path)
            is None,
    decreases files.len(),
{
    if files.len() > 0 {
        let fewer = files.drop_last();
        let last = files.len() - 1;
        files_are_gathered(ws, fewer, f, item);
        assert forall|i: int| 0 <= i < last implies #[trigger] files[i] == fewer[i] by {}
        match gathered(ws, fewer, f) {
            Ok(items) => {
                match source_at(ws, files.last()) {
                    Some(text) => {
                        let more = f(files.last(), text);
                        let all = items + more;
                        assert forall|i: int|
                            0 <= i < files.len() implies source_at(ws, #[trigger] files[i])
                            is Some by {
                            if i < last {
                                assert(source_at(ws, fewer[i]) is Some);
                            }
                        }
                        if all.contains(item) {
                            let k = all.index_of(item);
                            if k < items.len() {
                                assert(items[k] == item);
                                let i = choose|i: int|
                                    0 <= i < fewer.len() && source_at(ws, #[trigger] fewer[i])
                                        is Some && f(
                                        fewer[i],
                                        source_at(ws, fewer[i])->0,
                                    ).contains(item);
                                assert(files[i] == fewer[i]);
                            } else {
                                assert(more[k - items.len()] == item);
                                assert(files[last] == files.last());
                            }
                        }
                        assert forall|i: int|
                            0 <= i < files.len() && f(
                                #[trigger] files[i],
                                source_at(ws, files[i])->0,
                            ).contains(item) implies all.contains(item) by {
                            if i < last {
                                assert(fewer[i] == files[i]);
                                assert(source_at(ws, fewer[i]) is Some);
                                let k = items.index_of(item);
                                assert(all[k] == item);
                            } else {
                                let k = more.index_of(item);
                                assert(all[items.len() + k] == item);
                            }
                        }
                    },
                    None => {
                        assert(files[last] == files.last());
                    },
                }
            },
            Err(path) => {
                let k = fewer.index_of(path);
                assert(files[k] == path);
            },
        }
    } else {
        match gathered(ws, files, f) {
            Ok(items) => {
                assert(!items.contains(item));
            },
            Err(_) => {},
        }
    }
}

/// The text of a file is that of the first entry of its path, if that has one.
pub proof fn first_entry_counts(ws: WorkspaceView, path: PathView, i: int)
    requires
        0 <= i < ws.len(),
        ws[i].path == path,
        forall|j: int| 0 <= j < i ==> (#[trigger] ws[j]).path != path,
    ensures
        exists_at(ws, path),
        match ws[i].content {
            FileContentView::Source(text) => source_at(ws, path) == Some(text),
            _ => source_at(ws, path) is None,
        },
    decreases i,
{
    if i > 0 {
        let rest = ws.drop_first();
        assert(rest[i - 1] == ws[i]);
        assert(ws[0].path != path);
        assert forall|j: int| 0 <= j < i - 1 implies (#[trigger] rest[j]).path != path by {
            assert(rest[j] == ws[j + 1]);
        }
        first_entry_counts(rest, path, i - 1);
    }
}

/// Where nothing stands at a path, nothing is read.
pub proof fn nothing_is_read_from_nowhere(ws: WorkspaceView, path: PathView)
    requires
        forall|j: int| 0 <= j < ws.len() ==> (#[trigger] ws[j]).path != path,
    ensures
        !exists_at(ws, path),
        source_at(ws, path) is None,
    decreases ws.len(),
{
    if ws.len() > 0 {
        let rest = ws.drop_first();
        assert(ws[0].path != path);
        assert forall|j: int| 0 <= j < rest.len() implies (#[trigger] rest[j]).path != path by {
            assert(rest[j] == ws[j + 1]);
        }
        nothing_is_read_from_nowhere(rest, path);
    }
}

/// Names of directories whose files are none of the project's.
pub open spec fn left_out() -> Set<Seq<u8>> {
    set![
        encode_utf8(".git"@),
        encode_utf8(".venv"@),
        encode_utf8("__pycache__"@),
        encode_utf8("venv"@),
    ]
}

/// The files of a project are all the files below its root whose names end in `.py`, but those in
/// a directory that is left out, at whatever depth.
pub proof fn project_files_are_found(ws: WorkspaceView, root: PathView, i: int)
    requires
        0 <= i < ws.len(),
    ensures
        project_sources(ws, root).contains(ws[i]) <==> {
            &&& !(ws[i].content is Directory)
            &&& ws[i].path.len() > root.len()
            &&& forall|k: int| 0 <= k < root.len() ==> #[trigger] ws[i].path[k] == root[k]
            &&& forall|k: int|
                root.len() <= k < ws[i].path.len() - 1 ==> !left_out().contains(
                    #[trigger] ws[i].path[k],
                )
            &&& is_plain(ws[i].path.last())
            &&& extension(ws[i].path.last()) == Some(encode_utf8("py"@))
        },
{
    let keep = |entry: FileEntryView| is_project_source(entry, root);
    let entry = ws[i];
    if entry.path.len() >= root.len() {
        let head = entry.path.take(root.len() as int);
        if forall|k: int| 0 <= k < root.len() ==> #[trigger] entry.path[k] == root[k] {
            assert(head =~= root);
        }
        if head == root {
            assert forall|k: int| 0 <= k < root.len() implies #[trigger] entry.path[k]
                == root[k] by {
                assert(head[k] == entry.path[k]);
            }
        }
    }
    assert forall|name: Seq<u8>| is_skipped(name) <==> left_out().contains(name) by {}
    if project_sources(ws, root).contains(entry) {
        ws.lemma_filter_pred(keep, project_sources(ws, root).index_of(entry));
    }
    if keep(entry) {
        ws.lemma_filter_contains(keep, i);
    }
}

/// Nothing is a file of a project that is not in the workspace.
pub proof fn project_files_stand_in_the_workspace(
    ws: WorkspaceView,
    root: PathView,
    entry: FileEntryView,
)
    requires
        project_sources(ws, root).contains(entry),
    ensures
        ws.contains(entry),
{
    let keep = |entry: FileEntryView| is_project_source(entry, root);
    ws.lemma_filter_contains_rev(keep, entry);
}

/// The `conftest.py` of every directory from the one that is given up to the root is found, where
/// there is one, and nothing else.
pub proof fn conftests_above_are_found(ws: WorkspaceView, dir: PathView, path: PathView)
    ensures
        conftests_from(ws, dir).contains(path) <==> exists|n: int|
            #[trigger] is_directory_above(dir, n) && path == dir.take(n).push(
                encode_utf8("conftest.py"@),
            ) && exists_at(ws, path),
    decreases dir.len(),
{
    let name = encode_utf8("conftest.py"@);
    let here = dir.push(name);
    let all = conftests_from(ws, dir);
    let whole = dir.len() as int;
    assert(dir.take(whole) =~= dir);
    assert(is_directory_above(dir, whole));
    let first: Seq<PathView> = if exists_at(ws, here) {
        seq![here]
    } else {
        Seq::empty()
    };
    match parent(dir) {
        Some(above) => {
            conftests_above_are_found(ws, above, path);
            let rest = conftests_from(ws, above);
            assert(all == first + rest);
            assert forall|n: int| 0 <= n < whole implies above.take(n) == dir.take(n) by {
                assert(above.take(n) =~= dir.take(n));
            }
            assert forall|n: int| 0 <= n < whole implies is_directory_above(above, n)
                == is_directory_above(dir, n) by {
                assert forall|m: int| n <= m < above.len() implies #[trigger] above[m]
                    == dir[m] by {}
                if is_directory_above(above, n) {
                    assert forall|m: int| n <= m < dir.len() implies #[trigger] dir[m]
                        != root_component() by {
                        if m < above.len() {
                            assert(above[m] != root_component());
                        }
                    }
                }
                if is_directory_above(dir, n) {
                    assert forall|m: int| n <= m < above.len() implies #[trigger] above[m]
                        != root_component() by {
                        assert(dir[m] != root_component());
                    }
                }
            }
            if all.contains(path) {
                let k = all.index_of(path);
                if k < first.len() {
                    assert(path == here);
                } else {
                    assert(rest[k - first.len()] == path);
                    let n = choose|n: int| #[trigger]
                        is_directory_above(above, n) && path == above.take(n).push(name)
                            && exists_at(ws, path);
                    assert(is_directory_above(dir, n));
                }
            }
            if exists|n: int|
                #[trigger] is_directory_above(dir, n) && path == dir.take(n).push(name)
                    && exists_at(ws, path) {
                let n = choose|n: int| #[trigger]
                    is_directory_above(dir, n) && path == dir.take(n).push(name) && exists_at(
                        ws,
                        path,
                    );
                if n == whole {
                    assert(all[0] == path);
                } else {
                    assert(is_directory_above(above, n));
                    let k = rest.index_of(path);
                    assert(all[first.len() + k] == path);
                }
            }
        },
        None => {
            assert(all == first);
            if all.contains(path) {
                assert(path == here);
            }
            if exists|n: int|
                #[trigger] is_directory_above(dir, n) && path == dir.take(n).push(name)
                    && exists_at(ws, path) {
                let n = choose|n: int| #[trigger]
                    is_directory_above(dir, n) && path == dir.take(n).push(name) && exists_at(
                        ws,
                        path,
                    );
                if n < whole {
                    assert(dir[whole - 1] != root_component());
                }
                assert(all[0] == path);
            }
        },
    }
}

/// The first `n` components are the directory itself or one above it, up to the root.
pub open spec fn is_directory_above(dir: PathView, n: int) -> bool {
    0 <= n <= dir.len() && forall|m: int| n <= m < dir.len() ==> #[trigger] dir[m]
        != root_component()
}

/// The plugins of a file are named by the file itself and by the `conftest.py` files above it, by
/// each of them and by no other file.
pub proof fn plugins_are_named_above(ws: WorkspaceView, file: PathView, m: Seq<char>)
    ensures
        plugin_config_files(ws, file).contains(file),
        parent(file) matches Some(dir) ==> forall|path: PathView|
            #[trigger] plugin_config_files(ws, file).contains(path) <==> path == file
                || conftests_from(ws, dir).contains(path),
        plugins_of_files(ws, plugin_config_files(ws, file)) matches Ok(modules) ==> (
        modules.contains(m) <==> exists|k: int|
            0 <= k < plugin_config_files(ws, file).len() && source_at(
                ws,
                #[trigger] plugin_config_files(ws, file)[k],
            ) is Some && plugins_in(
                python_body(source_at(ws, plugin_config_files(ws, file)[k])->0),
            ).contains(m)),
{
    let all = plugin_config_files(ws, file);
    assert(all[0] == file);
    match parent(file) {
        Some(dir) => {
            let rest = conftests_from(ws, dir);
            assert(all == seq![file] + rest);
            assert forall|path: PathView| #[trigger] all.contains(path) <==> path == file
                || rest.contains(path) by {
                if all.contains(path) && path != file {
                    let k = all.index_of(path);
                    assert(rest[k - 1] == path);
                }
                if rest.contains(path) {
                    let k = rest.index_of(path);
                    assert(all[k + 1] == path);
                }
            }
        },
        None => {},
    }
    let f = |_path: PathView, text: Seq<char>| plugins_in(python_body(text));
    files_are_gathered(ws, all, f, m);
}

proof fn lemma_module_directories(root: PathView, parts: Seq<Seq<char>>)
    requires
        forall|i: int| 0 <= i < parts.len() ==> is_named(encode_utf8(#[trigger] parts[i])),
    ensures
        parts.fold_left(
            root,
            |p: PathView, part: Seq<char>| appended(p, encode_utf8(part)),
        ) == root + parts.map_values(|part: Seq<char>| encode_utf8(part)),
    decreases parts.len(),
{
    let step = |p: PathView, part: Seq<char>| appended(p, encode_utf8(part));
    let f = |part: Seq<char>| encode_utf8(part);
    if parts.len() > 0 {
        let fewer = parts.drop_last();
        assert forall|i: int| 0 <= i < fewer.len() implies is_named(
            encode_utf8(#[trigger] fewer[i]),
        ) by {
            assert(fewer[i] == parts[i]);
        }
        lemma_module_directories(root, fewer);
        let last = encode_utf8(parts[parts.len() - 1]);
        let so_far = root + fewer.map_values(f);
        bytes_name_paths(so_far, last);
        assert(so_far.push(last) =~= root + parts.map_values(f));
    } else {
        assert(root =~= root + parts.map_values(f));
    }
}

/// The module `a.b.c` is looked for at `a/b/c.py` below the root, and is found where something
/// stands there.
pub proof fn modules_stand_at_their_paths(
    ws: WorkspaceView,
    root: PathView,
    module: Seq<char>,
    outer: Seq<Seq<char>>,
    own: Seq<char>,
)
    requires
        split_on(module, '.') == outer.push(own),
        forall|i: int| 0 <= i < outer.len() ==> is_named(encode_utf8(#[trigger] outer[i])),
        is_named(encode_utf8(own)),
        is_plain(encode_utf8(own)),
        !encode_utf8(own).contains(DOT),
    ensures
        path_of_module(root, module) == (root + outer.map_values(
            |part: Seq<char>| encode_utf8(part),
        )).push(encode_utf8(own) + encode_utf8(".py"@)),
        found_module(ws, root, module) == (if exists_at(ws, path_of_module(root, module)) {
            Some(path_of_module(root, module))
        } else {
            None
        }),
{
    let f = |part: Seq<char>| encode_utf8(part);
    let parts = outer.push(own);
    assert forall|i: int| 0 <= i < parts.len() implies is_named(
        encode_utf8(#[trigger] parts[i]),
    ) by {
        if i < outer.len() {
            assert(parts[i] == outer[i]);
        }
    }
    lemma_module_directories(root, parts);
    let dir = root + outer.map_values(f);
    assert(root + parts.map_values(f) =~= dir.push(encode_utf8(own)));
    python_files_get_their_extension(dir, encode_utf8(own), Seq::empty());
}

/// Files are gathered from in the order in which they are listed.
pub proof fn files_are_gathered_in_order<T>(
    ws: WorkspaceView,
    files: Seq<PathView>,
    path: PathView,
    f: spec_fn(PathView, Seq<char>) -> Seq<T>,
)
    ensures
        gathered(ws, files, f) is Ok && source_at(ws, path) is Some ==> gathered(
            ws,
            files.push(path),
            f,
        ) == Ok::<Seq<T>, PathView>(gathered(ws, files, f)->Ok_0 + f(path, source_at(ws, path)->0)),
        gathered(ws, files, f) is Err ==> gathered(ws, files.push(path), f) == gathered(
            ws,
            files,
            f,
        ),
        gathered(ws, files, f) is Ok && source_at(ws, path) is None ==> gathered(
            ws,
            files.push(path),
            f,
        ) == Err::<Seq<T>, PathView>(path),
{
    assert(files.push(path).drop_last() =~= files);
}

/// The files of a project are found in the order in which they stand in the workspace.
pub proof fn project_files_come_in_order(
    ws: WorkspaceView,
    more: WorkspaceView,
    root: PathView,
)
    ensures
        project_sources(ws + more, root) == project_sources(ws, root) + project_sources(
            more,
            root,
        ),
{
    let keep = |entry: FileEntryView| is_project_source(entry, root);
    Seq::filter_distributes_over_add(ws, more, keep);
}

/// A workspace stands for each of its entries: the path, and whether a directory, a text or
/// something that cannot be read stands there.
pub proof fn workspaces_stand_for_their_entries(ws: Workspace, i: int)
    requires
        0 <= i < ws.entries@.len(),
    ensures
        ws@.len() == ws.entries@.len(),
        ws@[i].path == views(ws.entries@[i].path.components@),
        match ws.entries@[i].content {
            FileContent::Directory => ws@[i].content is Directory,
            FileContent::Unreadable => ws@[i].content is Unreadable,
            FileContent::Source(text) => ws@[i].content == FileContentView::Source(text@),
        },
{
}

/// What comes of reading files is what was found, item by item, or the file that could not be
/// read.
pub proof fn outcomes_hold_what_was_found<T: View>(items: Vec<T>, e: UnreadableFile, i: int)
    ensures
        outcome(Ok::<Vec<T>, UnreadableFile>(items)) is Ok,
        outcome(Ok::<Vec<T>, UnreadableFile>(items))->Ok_0.len() == items@.len(),
        0 <= i < items@.len() ==> outcome(Ok::<Vec<T>, UnreadableFile>(items))->Ok_0[i]
            == items@[i]@,
        outcome(Err::<Vec<T>, UnreadableFile>(e)) == Err::<Seq<T::V>, PathView>(e.path@),
{
}

}
