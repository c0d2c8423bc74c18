//! The imports of a module: what its names stand for, and which ones an annotation needs.
use crate::annotation::{ImportBinding, ImportBindingView, ImportRequirement, ImportRequirementView};
use crate::bytes::{from_utf8, text_in};
use crate::path::{file_name, is_plain, parent, stem, FilePath, PathView};
use crate::syntax::{
    parse_body, python_body, ImportedName, ImportedNameView, Statement, StatementKind,
    StatementKindView, StatementView,
};
use crate::text::{
    chars_of, fits, is_text, join, joined, lemma_filter_map_has, lemma_flat_map_has,
    lemma_flat_map_source, lemma_views_push, lists_are_joined_in_order, option_view, pieces,
    pieces_come_in_order, pieces_join_back, separator, split_first, split_on, views,
};
use crate::workspace::{exists_at, Workspace, WorkspaceView};
use vstd::prelude::*;
use vstd::utf8::encode_utf8;

verus! {

/// The name that a path ends in, if it has one and it is text.
pub open spec fn name_text(p: PathView) -> Option<Seq<char>> {
    match file_name(p) {
        Some(name) => text_in(name),
        None => None,
    }
}

/// The packages that a directory lies in, the outermost first: those with an `__init__.py`.
/// `None` if such a directory has no name, or one that is no text.
pub open spec fn packages(ws: WorkspaceView, dir: PathView) -> Option<Seq<Seq<char>>>
    decreases dir.len(),
{
    if !exists_at(ws, dir.push(encode_utf8("__init__.py"@))) {
        Some(Seq::empty())
    } else {
        match name_text(dir) {
            Some(name) => match parent(dir) {
                Some(above) => match packages(ws, above) {
                    Some(outer) => Some(outer.push(name)),
                    None => None,
                },
                None => Some(seq![name]),
            },
            None => None,
        }
    }
}

/// The name of the file at a path without its extension, if it has one and it is text.
pub open spec fn stem_text(p: PathView) -> Option<Seq<char>> {
    match file_name(p) {
        Some(name) => text_in(stem(name)),
        None => None,
    }
}

/// The dotted name under which the module at a path is imported.
pub open spec fn module_name(ws: WorkspaceView, path: PathView) -> Option<Seq<char>> {
    match (stem_text(path), parent(path)) {
        (Some(own), Some(dir)) => match packages(ws, dir) {
            Some(outer) => {
                let parts = if own == "__init__"@ {
                    outer
                } else {
                    outer.push(own)
                };
                if parts.len() == 0 {
                    name_text(dir)
                } else {
                    Some(join(parts, "."@))
                }
            },
            None => None,
        },
        _ => None,
    }
}

fn name_text_of(path: &FilePath) -> (r: Option<String>)
    ensures
        option_view(r) == name_text(path@),
{
    match path.file_name() {
        Some(name) => from_utf8(&name),
        None => None,
    }
}

fn stem_text_of(path: &FilePath) -> (r: Option<String>)
    ensures
        option_view(r) == stem_text(path@),
{
    match path.file_stem() {
        Some(stem) => from_utf8(&stem),
        None => None,
    }
}

fn packages_of(ws: &Workspace, dir: &FilePath) -> (r: Option<Vec<String>>)
    ensures
        packages(ws@, dir@) == (match r {
            Some(names) => Some(views(names@)),
            None => None,
        }),
    decreases dir@.len(),
{
    let marker: FilePath = dir.child("__init__.py");
    if !ws.has(&marker) {
        let none: Vec<String> = Vec::new();
        assert(views(none@) =~= Seq::<Seq<char>>::empty());
        return Some(none);
    }
    let name: String = match name_text_of(dir) {
        Some(name) => name,
        None => {
            return None;
        },
    };
    match dir.parent() {
        Some(above) => match packages_of(ws, &above) {
            Some(outer) => {
                let mut names: Vec<String> = outer;
                proof {
                    lemma_views_push(names@, name);
                }
                names.push(name);
                Some(names)
            },
            None => None,
        },
        None => {
            let mut names: Vec<String> = Vec::new();
            names.push(name);
            assert(views(names@) =~= seq![name@]);
            Some(names)
        },
    }
}

/// The dotted name under which the module at a path is imported.
pub fn module_name_for_path(ws: &Workspace, path: &FilePath) -> (r: Option<String>)
    ensures
        option_view(r) == module_name(ws@, path@),
{
    let stem: String = match stem_text_of(path) {
        Some(stem) => stem,
        None => {
            return None;
        },
    };
    let dir: FilePath = match path.parent() {
        Some(dir) => dir,
        None => {
            return None;
        },
    };
    let mut parts: Vec<String> = match packages_of(ws, &dir) {
        Some(parts) => parts,
        None => {
            return None;
        },
    };
    if !is_text(&stem, "__init__") {
        proof {
            lemma_views_push(parts@, stem);
        }
        parts.push(stem);
    }
    if parts.len() == 0 {
        name_text_of(&dir)
    } else {
        Some(joined(&parts, "."))
    }
}

/// The module that `from` names. A relative one is seen from the name of the importing module,
/// less its last part for each dot. The name of an `__init__.py` is that of its package, so there
/// the first dot drops the package itself: `from .models` in `tests/__init__.py` names `models`.
pub open spec fn resolved_module(
    ws: WorkspaceView,
    path: PathView,
    level: u32,
    module: Option<Seq<char>>,
) -> Option<Seq<char>> {
    if level == 0 {
        module
    } else {
        match module_name(ws, path) {
            Some(current) => {
                let parts = split_on(current, '.');
                let kept = if level >= parts.len() {
                    Seq::empty()
                } else {
                    parts.take(parts.len() - level)
                };
                let all = match module {
                    Some(m) => if m.len() > 0 {
                        kept + split_on(m, '.')
                    } else {
                        kept
                    },
                    None => kept,
                };
                if all.len() == 0 {
                    None
                } else {
                    Some(join(all, "."@))
                }
            },
            None => None,
        }
    }
}

/// The module that an import statement with `from` names.
pub fn resolve_import_from_module(
    ws: &Workspace,
    path: &FilePath,
    level: u32,
    module: Option<&str>,
) -> (r: Option<String>)
    ensures
        option_view(r) == resolved_module(ws@, path@, level, option_view(module)),
{
    if level == 0 {
        return match module {
            Some(m) => Some(m.to_owned()),
            None => None,
        };
    }
    let current: String = match module_name_for_path(ws, path) {
        Some(current) => current,
        None => {
            return None;
        },
    };
    let mut parts: Vec<String> = pieces(&chars_of(current.as_str()), '.');
    let ghost all = views(parts@);
    if level as usize >= parts.len() {
        parts = Vec::new();
        assert(views(parts@) =~= Seq::<Seq<char>>::empty());
    } else {
        let kept: usize = parts.len() - level as usize;
        parts.truncate(kept);
        assert(views(parts@) =~= all.take(kept as int));
    }
    match module {
        Some(m) => {
            if !m.is_empty() {
                let ghost kept = views(parts@);
                let mut more: Vec<String> = pieces(&chars_of(m), '.');
                let ghost added = views(more@);
                parts.append(&mut more);
                assert(views(parts@) =~= kept + added);
            }
        },
        None => {},
    }
    if parts.len() == 0 {
        None
    } else {
        Some(joined(&parts, "."))
    }
}

/// The place of a name among the bindings.
pub open spec fn binding_index(bindings: Seq<ImportBindingView>, name: Seq<char>) -> Option<int>
    decreases bindings.len(),
{
    if bindings.len() == 0 {
        None
    } else {
        match binding_index(bindings.drop_last(), name) {
            Some(i) => Some(i),
            None => if bindings.last().visible == name {
                Some(bindings.len() - 1)
            } else {
                None
            },
        }
    }
}

/// The bindings after one more: a later binding of a name takes the place of the earlier one.
pub open spec fn bind(
    bindings: Seq<ImportBindingView>,
    binding: ImportBindingView,
) -> Seq<ImportBindingView> {
    match binding_index(bindings, binding.visible) {
        Some(i) => bindings.update(i, binding),
        None => bindings.push(binding),
    }
}

/// All the bindings, one after the other.
pub open spec fn bind_all(bindings: Seq<ImportBindingView>) -> Seq<ImportBindingView> {
    bindings.fold_left(
        Seq::empty(),
        |bound: Seq<ImportBindingView>, binding: ImportBindingView| bind(bound, binding),
    )
}

/// The name that an imported name is bound to.
pub open spec fn bound_name(name: ImportedNameView) -> Seq<char> {
    match name.asname {
        Some(asname) => asname,
        None => name.name,
    }
}

/// What `import name` binds: the first part of the name, unless `as` gives another.
pub open spec fn import_binding(name: ImportedNameView) -> ImportBindingView {
    ImportBindingView {
        visible: match name.asname {
            Some(asname) => asname,
            None => split_on(name.name, '.')[0],
        },
        requirement: ImportRequirementView {
            module: name.name,
            name: Seq::empty(),
            alias: name.asname,
        },
    }
}

/// What `from module import name` binds; a star binds nothing that could be known here.
pub open spec fn from_binding(module: Seq<char>, name: ImportedNameView) -> Option<
    ImportBindingView,
> {
    if name.name == "*"@ {
        None
    } else {
        Some(
            ImportBindingView {
                visible: bound_name(name),
                requirement: ImportRequirementView {
                    module,
                    name: name.name,
                    alias: name.asname,
                },
            },
        )
    }
}

/// What a statement binds, in its order.
pub open spec fn bindings_of(ws: WorkspaceView, path: PathView, s: StatementView) -> Seq<
    ImportBindingView,
> {
    match s.kind {
        StatementKindView::Import(names) => names.map_values(
            |name: ImportedNameView| import_binding(name),
        ),
        StatementKindView::ImportFrom { level, module, names } => match resolved_module(
            ws,
            path,
            level,
            module,
        ) {
            Some(m) => names.filter_map(|name: ImportedNameView| from_binding(m, name)),
            None => Seq::empty(),
        },
        _ => Seq::empty(),
    }
}

/// What the imports of a body bind, each name once.
pub open spec fn bindings_in(
    ws: WorkspaceView,
    path: PathView,
    body: Seq<StatementView>,
) -> Seq<ImportBindingView> {
    bind_all(body.flat_map(|s: StatementView| bindings_of(ws, path, s)))
}

proof fn lemma_binding_index(bindings: Seq<ImportBindingView>, name: Seq<char>, i: int)
    requires
        0 <= i < bindings.len(),
        bindings[i].visible == name,
        forall|j: int| 0 <= j < i ==> (#[trigger] bindings[j]).visible != name,
    ensures
        binding_index(bindings, name) == Some(i),
    decreases bindings.len(),
{
    if i < bindings.len() - 1 {
        lemma_binding_index(bindings.drop_last(), name, i);
    } else {
        lemma_no_binding(bindings.drop_last(), name);
    }
}

proof fn lemma_no_binding(bindings: Seq<ImportBindingView>, name: Seq<char>)
    requires
        forall|j: int| 0 <= j < bindings.len() ==> (#[trigger] bindings[j]).visible != name,
    ensures
        binding_index(bindings, name) is None,
    decreases bindings.len(),
{
    if bindings.len() > 0 {
        lemma_no_binding(bindings.drop_last(), name);
    }
}

/// The first binding of a name is the one that is found.
pub proof fn lemma_binding_index_found(bindings: Seq<ImportBindingView>, name: Seq<char>)
    ensures
        match binding_index(bindings, name) {
            Some(i) => 0 <= i < bindings.len() && bindings[i].visible == name,
            None => forall|j: int|
                0 <= j < bindings.len() ==> (#[trigger] bindings[j]).visible != name,
        },
    decreases bindings.len(),
{
    if bindings.len() > 0 {
        lemma_binding_index_found(bindings.drop_last(), name);
        assert forall|j: int|
            0 <= j < bindings.len() && binding_index(bindings, name) is None implies (
        #[trigger] bindings[j]).visible != name by {
            if j < bindings.len() - 1 {
                assert(bindings.drop_last()[j].visible != name);
            }
        }
    }
}

/// The place of a name among the bindings.
pub fn find_binding(bindings: &Vec<ImportBinding>, name: &str) -> (r: Option<usize>)
    ensures
        binding_index(views(bindings@), name@) == (match r {
            Some(i) => Some(i as int),
            None => None,
        }),
        r matches Some(i) ==> i < bindings@.len(),
{
    let wanted: String = name.to_owned();
    let ghost all = views(bindings@);
    let mut i: usize = 0;
    while i < bindings.len()
        invariant
            i <= bindings@.len(),
            all == views(bindings@),
            wanted@ == name@,
            forall|j: int| 0 <= j < i ==> (#[trigger] all[j]).visible != name@,
        decreases bindings@.len() - i,
    {
        if bindings[i].visible == wanted {
            proof {
                lemma_binding_index(all, name@, i as int);
            }
            return Some(i);
        }
        i = i + 1;
    }
    proof {
        lemma_no_binding(all, name@);
    }
    None
}

fn clone_name(name: &Option<String>) -> (r: Option<String>)
    ensures
        option_view(r) == option_view(*name),
{
    match name {
        Some(text) => Some(text.clone()),
        None => None,
    }
}

fn push_import(names: &Vec<ImportedName>, out: &mut Vec<ImportBinding>)
    ensures
        views(final(out)@) == views(old(out)@) + views(names@).map_values(
            |name: ImportedNameView| import_binding(name),
        ),
{
    let ghost start = views(out@);
    let ghost all = views(names@);
    let ghost f = |name: ImportedNameView| import_binding(name);
    let mut i: usize = 0;
    assert(start =~= start + all.take(0).map_values(f));
    while i < names.len()
        invariant
            i <= names@.len(),
            all == views(names@),
            f == (|name: ImportedNameView| import_binding(name)),
            views(out@) == start + all.take(i as int).map_values(f),
        decreases names@.len() - i,
    {
        let name: &ImportedName = &names[i];
        let visible: String = match &name.asname {
            Some(asname) => asname.clone(),
            None => {
                let parts: Vec<String> = pieces(&chars_of(name.name.as_str()), '.');
                assert(parts@[0]@ == split_on(name.name@, '.')[0]);
                parts[0].clone()
            },
        };
        let binding: ImportBinding = ImportBinding {
            visible,
            requirement: ImportRequirement {
                module: name.name.clone(),
                name: String::new(),
                alias: clone_name(&name.asname),
            },
        };
        proof {
            assert(binding@.requirement.name =~= Seq::<char>::empty());
            assert(binding@ == import_binding(all[i as int]));
            lemma_views_push(out@, binding);
        }
        out.push(binding);
        i = i + 1;
        assert(views(out@) =~= start + all.take(i as int).map_values(f));
    }
    assert(all.take(all.len() as int) =~= all);
}

fn push_from(module: &String, names: &Vec<ImportedName>, out: &mut Vec<ImportBinding>)
    ensures
        views(final(out)@) == views(old(out)@) + views(names@).filter_map(
            |name: ImportedNameView| from_binding(module@, name),
        ),
{
    let ghost start = views(out@);
    let ghost all = views(names@);
    let ghost f = |name: ImportedNameView| from_binding(module@, name);
    let mut i: usize = 0;
    assert(start =~= start + all.take(0).filter_map(f));
    while i < names.len()
        invariant
            i <= names@.len(),
            all == views(names@),
            f == (|name: ImportedNameView| from_binding(module@, name)),
            views(out@) == start + all.take(i as int).filter_map(f),
        decreases names@.len() - i,
    {
        let name: &ImportedName = &names[i];
        let ghost so_far = views(out@);
        proof {
            all.lemma_filter_map_take_succ(f, i as int);
            assert(all[i as int] == name@);
        }
        if !is_text(&name.name, "*") {
            let visible: String = match &name.asname {
                Some(asname) => asname.clone(),
                None => name.name.clone(),
            };
            let binding: ImportBinding = ImportBinding {
                visible,
                requirement: ImportRequirement {
                    module: module.clone(),
                    name: name.name.clone(),
                    alias: clone_name(&name.asname),
                },
            };
            proof {
                assert(Some(binding@) == from_binding(module@, all[i as int]));
                lemma_views_push(out@, binding);
            }
            out.push(binding);
        }
        i = i + 1;
        assert(views(out@) =~= start + all.take(i as int).filter_map(f));
    }
    assert(all.take(all.len() as int) =~= all);
}

fn push_bindings(ws: &Workspace, path: &FilePath, s: &Statement, out: &mut Vec<ImportBinding>)
    ensures
        views(final(out)@) == views(old(out)@) + bindings_of(ws@, path@, s@),
{
    let ghost start = views(out@);
    match &s.kind {
        StatementKind::Import(names) => {
            push_import(names, out);
        },
        StatementKind::ImportFrom { level, module, names } => {
            let from: Option<&str> = match module {
                Some(m) => Some(m.as_str()),
                None => None,
            };
            match resolve_import_from_module(ws, path, *level, from) {
                Some(m) => {
                    push_from(&m, names, out);
                },
                None => {
                    assert(start =~= start + bindings_of(ws@, path@, s@));
                },
            }
        },
        _ => {
            assert(start =~= start + bindings_of(ws@, path@, s@));
        },
    }
}

/// What the imports of a body bind, each name once, in the order in which they are first bound.
pub fn import_bindings(ws: &Workspace, path: &FilePath, body: &Vec<Statement>) -> (r: Vec<
    ImportBinding,
>)
    ensures
        views(r@) == bindings_in(ws@, path@, views(body@)),
{
    let mut raw: Vec<ImportBinding> = Vec::new();
    let ghost all = views(body@);
    let ghost f = |s: StatementView| bindings_of(ws@, path@, s);
    let mut i: usize = 0;
    assert(views(raw@) =~= all.take(0).flat_map(f));
    while i < body.len()
        invariant
            i <= body@.len(),
            all == views(body@),
            f == (|s: StatementView| bindings_of(ws@, path@, s)),
            views(raw@) == all.take(i as int).flat_map(f),
        decreases body@.len() - i,
    {
        proof {
            all.lemma_flat_map_take_append(f, i as int);
        }
        push_bindings(ws, path, &body[i], &mut raw);
        i = i + 1;
    }
    assert(all.take(all.len() as int) =~= all);
    let ghost given = views(raw@);
    let ghost step = |bound: Seq<ImportBindingView>, binding: ImportBindingView|
        bind(bound, binding);
    let mut bound: Vec<ImportBinding> = Vec::new();
    assert(views(bound@) =~= Seq::<ImportBindingView>::empty());
    assert(given.take(0).fold_left(Seq::empty(), step) =~= Seq::<ImportBindingView>::empty());
    let mut k: usize = 0;
    while k < raw.len()
        invariant
            k <= raw@.len(),
            views(raw@) == given,
            step == (|bound: Seq<ImportBindingView>, binding: ImportBindingView|
                bind(bound, binding)),
            views(bound@) == given.take(k as int).fold_left(Seq::empty(), step),
        decreases raw@.len() - k,
    {
        let binding: ImportBinding = ImportBinding {
            visible: raw[k].visible.clone(),
            requirement: raw[k].requirement.clone(),
        };
        proof {
            assert(binding@ == given[k as int]);
            assert(given.take(k + 1).drop_last() =~= given.take(k as int));
            lemma_views_push(bound@, binding);
        }
        let ghost bound_before = views(bound@);
        match find_binding(&bound, binding.visible.as_str()) {
            Some(at) => {
                bound.set(at, binding);
                assert(views(bound@) =~= bound_before.update(at as int, binding@));
            },
            None => {
                bound.push(binding);
            },
        }
        k = k + 1;
    }
    assert(given.take(given.len() as int) =~= given);
    bound
}

/// What the imports of a text bind; nothing where the text is no valid module.
pub fn import_resolution_map(ws: &Workspace, path: &FilePath, text: &str) -> (r: Vec<
    ImportBinding,
>)
    requires
        fits(text@),
    ensures
        views(r@) == bindings_in(ws@, path@, python_body(text@)),
{
    let body: Vec<Statement> = parse_body(text);
    import_bindings(ws, path, &body)
}

proof fn lemma_bind_unique(bindings: Seq<ImportBindingView>, binding: ImportBindingView)
    requires
        is_keyed(bindings),
    ensures
        is_keyed(bind(bindings, binding)),
{
    lemma_binding_index_found(bindings, binding.visible);
    let after = bind(bindings, binding);
    assert forall|i: int, j: int|
        #![trigger after[i], after[j]]
        0 <= i < j < after.len() implies after[i].visible != after[j].visible by {
        match binding_index(bindings, binding.visible) {
            Some(k) => {
                assert(after[i].visible == bindings[i].visible);
                assert(after[j].visible == bindings[j].visible);
            },
            None => {
                if j < bindings.len() {
                    assert(after[j] == bindings[j]);
                }
                assert(after[i] == bindings[i]);
            },
        }
    }
}

/// No name is bound twice.
pub open spec fn is_keyed(bindings: Seq<ImportBindingView>) -> bool {
    forall|i: int, j: int|
        #![trigger bindings[i], bindings[j]]
        0 <= i < j < bindings.len() ==> bindings[i].visible != bindings[j].visible
}

/// However often a name is imported, it is bound once.
pub proof fn names_are_bound_once(bindings: Seq<ImportBindingView>)
    ensures
        is_keyed(bind_all(bindings)),
    decreases bindings.len(),
{
    if bindings.len() > 0 {
        names_are_bound_once(bindings.drop_last());
        lemma_bind_unique(bind_all(bindings.drop_last()), bindings.last());
    }
}

/// The last import of a name is the one that counts.
pub proof fn last_import_counts(bindings: Seq<ImportBindingView>, i: int)
    requires
        0 <= i < bindings.len(),
        forall|j: int| i < j < bindings.len() ==> (#[trigger] bindings[j]).visible
            != bindings[i].visible,
    ensures
        exists|k: int|
            0 <= k < bind_all(bindings).len() && #[trigger] bind_all(bindings)[k] == bindings[i],
        binding_index(bind_all(bindings), bindings[i].visible) matches Some(k) && bind_all(
            bindings,
        )[k] == bindings[i],
    decreases bindings.len(),
{
    let fewer = bindings.drop_last();
    let so_far = bind_all(fewer);
    let all = bind_all(bindings);
    let last = bindings.last();
    lemma_binding_index_found(so_far, last.visible);
    names_are_bound_once(bindings);
    let k = if i == bindings.len() - 1 {
        match binding_index(so_far, last.visible) {
            Some(k) => k,
            None => so_far.len() as int,
        }
    } else {
        assert forall|j: int| i < j < fewer.len() implies (#[trigger] fewer[j]).visible
            != fewer[i].visible by {
            assert(bindings[j].visible != bindings[i].visible);
        }
        last_import_counts(fewer, i);
        assert(bindings[bindings.len() - 1].visible != bindings[i].visible);
        choose|k: int| 0 <= k < so_far.len() && #[trigger] so_far[k] == fewer[i]
    };
    assert(0 <= k < all.len() && all[k] == bindings[i]);
    assert forall|j: int| 0 <= j < k implies (#[trigger] all[j]).visible != bindings[i].visible by {
        assert(all[k].visible == bindings[i].visible);
    }
    lemma_binding_index(all, bindings[i].visible, k);
}

/// `import a.b` binds `a`, and `import a.b as c` binds `c`, each to the module.
pub proof fn modules_are_bound(
    ws: WorkspaceView,
    path: PathView,
    body: Seq<StatementView>,
    k: int,
    j: int,
)
    requires
        0 <= k < body.len(),
        body[k].kind matches StatementKindView::Import(names) && 0 <= j < names.len(),
    ensures
        body[k].kind matches StatementKindView::Import(names) ==> all_bindings(
            ws,
            path,
            body,
        ).contains(
            ImportBindingView {
                visible: match names[j].asname {
                    Some(asname) => asname,
                    None => split_on(names[j].name, '.')[0],
                },
                requirement: ImportRequirementView {
                    module: names[j].name,
                    name: Seq::empty(),
                    alias: names[j].asname,
                },
            },
        ),
{
    let f = |s: StatementView| bindings_of(ws, path, s);
    lemma_flat_map_has(body, f, k, j);
}

/// `from m import a` binds `a`, and `from m import a as b` binds `b`, each to the name of the
/// module that is meant; a star binds nothing.
pub proof fn names_are_bound(
    ws: WorkspaceView,
    path: PathView,
    body: Seq<StatementView>,
    k: int,
    j: int,
)
    requires
        0 <= k < body.len(),
        body[k].kind matches StatementKindView::ImportFrom { level, module, names } && 0 <= j
            < names.len() && names[j].name != "*"@ && resolved_module(ws, path, level, module)
            is Some,
    ensures
        body[k].kind matches StatementKindView::ImportFrom { level, module, names }
            ==> all_bindings(ws, path, body).contains(
            ImportBindingView {
                visible: match names[j].asname {
                    Some(asname) => asname,
                    None => names[j].name,
                },
                requirement: ImportRequirementView {
                    module: resolved_module(ws, path, level, module)->0,
                    name: names[j].name,
                    alias: names[j].asname,
                },
            },
        ),
{
    match body[k].kind {
        StatementKindView::ImportFrom { level, module, names } => {
            let m = resolved_module(ws, path, level, module)->0;
            let g = |name: ImportedNameView| from_binding(m, name);
            lemma_filter_map_has(names, g, j);
            let f = |s: StatementView| bindings_of(ws, path, s);
            let i = bindings_of(ws, path, body[k]).index_of(g(names[j])->0);
            assert(f(body[k])[i] == g(names[j])->0);
            lemma_flat_map_has(body, f, k, i);
        },
        _ => {},
    }
}

/// What the imports of a body bind, in their order, a name as often as it is imported.
pub open spec fn all_bindings(
    ws: WorkspaceView,
    path: PathView,
    body: Seq<StatementView>,
) -> Seq<ImportBindingView> {
    body.flat_map(|s: StatementView| bindings_of(ws, path, s))
}

/// The statement is an import that binds the name to the requirement.
pub open spec fn binds(
    ws: WorkspaceView,
    path: PathView,
    s: StatementView,
    b: ImportBindingView,
) -> bool {
    match s.kind {
        StatementKindView::Import(names) => exists|j: int|
            0 <= j < names.len() && b.requirement.module == (#[trigger] names[j]).name
                && b.requirement.name.len() == 0 && b.requirement.alias == names[j].asname
                && b.visible == match names[j].asname {
                Some(asname) => asname,
                None => split_on(names[j].name, '.')[0],
            },
        StatementKindView::ImportFrom { level, module, names } => exists|j: int|
            0 <= j < names.len() && Some(b.requirement.module) == resolved_module(
                ws,
                path,
                level,
                module,
            ) && b.requirement.name == (#[trigger] names[j]).name && names[j].name != "*"@
                && b.requirement.alias == names[j].asname && b.visible == match names[j].asname {
                Some(asname) => asname,
                None => names[j].name,
            },
        _ => false,
    }
}

/// Nothing is bound but what an import binds.
pub proof fn bindings_come_from_imports(
    ws: WorkspaceView,
    path: PathView,
    body: Seq<StatementView>,
    b: ImportBindingView,
)
    requires
        all_bindings(ws, path, body).contains(b),
    ensures
        exists|k: int| 0 <= k < body.len() && binds(ws, path, #[trigger] body[k], b),
{
    let f = |s: StatementView| bindings_of(ws, path, s);
    let k = lemma_flat_map_source(body, f, b);
    match body[k].kind {
        StatementKindView::Import(names) => {
            let j = bindings_of(ws, path, body[k]).index_of(b);
            assert(b.requirement.module == names[j].name);
        },
        StatementKindView::ImportFrom { level, module, names } => {
            let m = resolved_module(ws, path, level, module)->0;
            let g = |name: ImportedNameView| from_binding(m, name);
            names.lemma_filter_map_contains(g, b);
            let name = choose|name: ImportedNameView| #[trigger]
                names.contains(name) && g(name) == Some(b);
            let j = names.index_of(name);
            assert(b.requirement.name == names[j].name);
        },
        _ => {},
    }
    assert(binds(ws, path, body[k], b));
}

/// A name stands for what its last import gave it, and for nothing else.
pub proof fn names_stand_for_their_last_import(
    ws: WorkspaceView,
    path: PathView,
    body: Seq<StatementView>,
    b: ImportBindingView,
)
    ensures
        bindings_in(ws, path, body).contains(b) <==> exists|i: int|
            0 <= i < all_bindings(ws, path, body).len() && #[trigger] all_bindings(
                ws,
                path,
                body,
            )[i] == b && forall|j: int|
                i < j < all_bindings(ws, path, body).len() ==> (#[trigger] all_bindings(
                    ws,
                    path,
                    body,
                )[j]).visible != b.visible,
{
    lemma_bound(all_bindings(ws, path, body), b);
}

proof fn lemma_bound(list: Seq<ImportBindingView>, b: ImportBindingView)
    ensures
        bind_all(list).contains(b) <==> exists|i: int|
            0 <= i < list.len() && #[trigger] list[i] == b && forall|j: int|
                i < j < list.len() ==> (#[trigger] list[j]).visible != b.visible,
    decreases list.len(),
{
    let all = bind_all(list);
    if exists|i: int|
        0 <= i < list.len() && #[trigger] list[i] == b && forall|j: int|
            i < j < list.len() ==> (#[trigger] list[j]).visible != b.visible {
        let i = choose|i: int|
            0 <= i < list.len() && #[trigger] list[i] == b && forall|j: int|
                i < j < list.len() ==> (#[trigger] list[j]).visible != b.visible;
        last_import_counts(list, i);
    }
    if all.contains(b) {
        assert(list.len() > 0);
        let fewer = list.drop_last();
        let so_far = bind_all(fewer);
        let last = list.last();
        lemma_bound(fewer, b);
        names_are_bound_once(list);
        lemma_binding_index_found(so_far, last.visible);
        if b == last {
            assert(list[list.len() - 1] == b);
        } else {
            let k = all.index_of(b);
            match binding_index(so_far, last.visible) {
                Some(i) => {
                    assert(all == so_far.update(i, last));
                    assert(all[i] == last);
                    assert(so_far[k] == b);
                },
                None => {
                    assert(all == so_far.push(last));
                    assert(all[so_far.len() as int] == last);
                    assert(so_far[k] == b);
                },
            }
            assert(so_far.contains(b));
            let i = choose|i: int|
                0 <= i < fewer.len() && #[trigger] fewer[i] == b && forall|j: int|
                    i < j < fewer.len() ==> (#[trigger] fewer[j]).visible != b.visible;
            assert(list[i] == b);
            assert(last.visible != b.visible) by {
                let m = all.index_of(last);
                match binding_index(so_far, last.visible) {
                    Some(i) => {
                        assert(all[i] == last);
                        assert(all[k] == b);
                        assert(i != k);
                    },
                    None => {
                        assert(all[so_far.len() as int] == last);
                        assert(all[k] == b);
                    },
                }
            }
            assert forall|j: int| i < j < list.len() implies (#[trigger] list[j]).visible
                != b.visible by {
                if j < fewer.len() {
                    assert(fewer[j].visible != b.visible);
                }
            }
        }
    }
}

/// How many dots a text has.
pub open spec fn dots(s: Seq<char>) -> nat {
    s.filter(|c: char| c == '.').len()
}

proof fn lemma_parts(s: Seq<char>, n: int)
    requires
        0 <= n <= s.len(),
    ensures
        split_first(s, separator(s, '.'), n).len() == dots(s.take(n)) + 1,
    decreases n,
{
    reveal(Seq::filter);
    if n > 0 {
        lemma_parts(s, n - 1);
        assert(s.take(n).drop_last() =~= s.take(n - 1));
        assert(s.take(n).last() == s[n - 1]);
    } else {
        assert(s.take(0) =~= Seq::<char>::empty());
    }
}

proof fn lemma_joined_parts(s: Seq<char>)
    ensures
        join(split_on(s, '.'), "."@) == s,
        split_on(s, '.').len() == dots(s) + 1,
{
    reveal_strlit(".");
    assert("."@ =~= seq!['.']);
    pieces_join_back(s, '.');
    lemma_parts(s, s.len() as int);
    assert(s.take(s.len() as int) =~= s);
}

/// A module that is named without dots before it is the one that is meant. One with dots is looked
/// for from the importing module's name, less as many of its parts as there are dots: `from ..c`
/// in `a.b.d` means `a.c`, and `from .. import c` there means `a`.
pub proof fn relative_imports_drop_parts(
    ws: WorkspaceView,
    path: PathView,
    level: u32,
    module: Seq<char>,
    kept: Seq<char>,
    dropped: Seq<char>,
)
    requires
        module.len() > 0,
    ensures
        resolved_module(ws, path, 0, Some(module)) == Some(module),
        resolved_module(ws, path, 0, None) is None,
        level > 0 && module_name(ws, path) is None ==> resolved_module(
            ws,
            path,
            level,
            Some(module),
        ) is None,
        level > 0 && module_name(ws, path) == Some(kept + seq!['.'] + dropped) && dots(dropped) + 1
            == level ==> resolved_module(ws, path, level, Some(module)) == Some(
            kept + seq!['.'] + module,
        ) && resolved_module(ws, path, level, None) == Some(kept),
        level > 0 && module_name(ws, path) is Some && dots(module_name(ws, path)->0) < level
            ==> resolved_module(ws, path, level, Some(module)) == Some(module)
            && resolved_module(ws, path, level, None) is None,
{
    reveal_strlit(".");
    assert("."@ =~= seq!['.']);
    lemma_joined_parts(module);
    if level > 0 && module_name(ws, path) is Some {
        let current = module_name(ws, path)->0;
        let parts = split_on(current, '.');
        lemma_joined_parts(current);
        if current == kept + seq!['.'] + dropped && dots(dropped) + 1 == level {
            pieces_come_in_order(kept, dropped, '.');
            lemma_joined_parts(kept);
            lemma_joined_parts(dropped);
            let head = split_on(kept, '.');
            assert(parts.take(parts.len() - level) =~= head);
            lists_are_joined_in_order(head, split_on(module, '.'), "."@);
        }
        if dots(current) < level {
            let none = Seq::<Seq<char>>::empty();
            assert(none + split_on(module, '.') =~= split_on(module, '.'));
        }
    }
}

/// A module in no package is named by its file. In a package its name is that of the package, a
/// dot, and that of its file; the name of a package is that of its directory, behind the names of
/// the packages around it. An `__init__.py` has the name of its package.
pub proof fn modules_are_named_by_their_packages(
    ws: WorkspaceView,
    dir: PathView,
    own: Seq<u8>,
    outer: Seq<char>,
)
    requires
        file_name(dir.push(own)) == Some(own),
        text_in(stem(own)) is Some,
        text_in(stem(own))->0 != "__init__"@,
    ensures
        !exists_at(ws, dir.push(encode_utf8("__init__.py"@))) ==> module_name(ws, dir.push(own))
            == Some(text_in(stem(own))->0),
        exists_at(ws, dir.push(encode_utf8("__init__.py"@))) && module_name(
            ws,
            dir.push(encode_utf8("__init__.py"@)),
        ) == Some(outer) && text_in(stem(encode_utf8("__init__.py"@))) == Some("__init__"@)
            && file_name(dir.push(encode_utf8("__init__.py"@))) is Some ==> module_name(
            ws,
            dir.push(own),
        ) == Some(outer + seq!['.'] + text_in(stem(own))->0),
{
    reveal_strlit(".");
    assert("."@ =~= seq!['.']);
    let init = encode_utf8("__init__.py"@);
    let path = dir.push(own);
    assert(path.drop_last() =~= dir);
    assert(path.last() == own);
    let name = text_in(stem(own))->0;
    if !exists_at(ws, dir.push(init)) {
        assert(Seq::<Seq<char>>::empty().push(name) =~= seq![name]);
    } else if module_name(ws, dir.push(init)) == Some(outer) && text_in(stem(init)) == Some(
        "__init__"@,
    ) && file_name(dir.push(init)) is Some {
        assert(dir.push(init).drop_last() =~= dir);
        assert(dir.push(init).last() == init);
        let names = packages(ws, dir)->0;
        assert(names.len() > 0);
        lists_are_joined_in_order(names, seq![name], "."@);
        assert(names.push(name) =~= names + seq![name]);
    }
}

/// The packages of a directory with an `__init__.py` are those of the one around it, and itself.
pub proof fn packages_are_nested(ws: WorkspaceView, dir: PathView, name: Seq<u8>)
    requires
        is_plain(name),
        text_in(name) is Some,
        exists_at(ws, dir.push(name).push(encode_utf8("__init__.py"@))),
    ensures
        packages(ws, dir) is Some ==> packages(ws, dir.push(name)) == Some(
            packages(ws, dir)->0.push(text_in(name)->0),
        ),
        packages(ws, dir) is None ==> packages(ws, dir.push(name)) is None,
{
    let inner = dir.push(name);
    assert(inner.last() == name);
    assert(inner.drop_last() =~= dir);
}

/// An `__init__.py` has the name of its package, which is that of its directory behind those of
/// the packages around it.
pub proof fn packages_name_their_init(ws: WorkspaceView, dir: PathView, own: Seq<u8>)
    requires
        file_name(dir.push(own)) == Some(own),
        text_in(stem(own)) == Some("__init__"@),
        packages(ws, dir) is Some,
    ensures
        packages(ws, dir)->0.len() > 0 ==> module_name(ws, dir.push(own)) == Some(
            join(packages(ws, dir)->0, seq!['.']),
        ),
        packages(ws, dir)->0.len() == 0 && file_name(dir) is Some ==> module_name(
            ws,
            dir.push(own),
        ) == text_in(file_name(dir)->0),
        packages(ws, dir)->0.len() == 0 && file_name(dir) is None ==> module_name(
            ws,
            dir.push(own),
        ) is None,
{
    reveal_strlit(".");
    assert("."@ =~= seq!['.']);
    let path = dir.push(own);
    assert(path.drop_last() =~= dir);
    assert(path.last() == own);
}

/// A directory without an `__init__.py` is in no package; one that has it but no name that is text
/// has modules without names.
pub proof fn packages_have_an_init(ws: WorkspaceView, dir: PathView)
    ensures
        !exists_at(ws, dir.push(encode_utf8("__init__.py"@))) ==> packages(ws, dir) == Some(
            Seq::<Seq<char>>::empty(),
        ),
        exists_at(ws, dir.push(encode_utf8("__init__.py"@))) && (file_name(dir) is None || text_in(
            file_name(dir)->0,
        ) is None) ==> packages(ws, dir) is None,
{
}

}
