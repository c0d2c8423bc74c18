//! The imports that an annotation needs.
use crate::annotation::{
    annotation_symbols, symbols, ImportBinding, ImportBindingView, ImportRequirement,
    ImportRequirementView,
};
use crate::imports::{
    binding_index, bindings_in, bindings_of, find_binding, import_bindings,
    lemma_binding_index_found, module_name, module_name_for_path, names_are_bound_once,
};
use crate::path::{FilePath, PathView};
use crate::syntax::{parse_body, python_body, Statement, StatementView};
use crate::text::{
    before, chars_of, contains, contains_in, fits, is_before, lemma_before_total,
    lemma_before_transitive, lemma_filter_map_has, occurs_at, option_view, views,
};
use crate::workspace::{Workspace, WorkspaceView};
use vstd::prelude::*;

verus! {

/// No alias goes before every alias.
pub open spec fn alias_before(a: Option<Seq<char>>, b: Option<Seq<char>>) -> bool {
    match (a, b) {
        (None, Some(_)) => true,
        (Some(x), Some(y)) => before(x, y),
        _ => false,
    }
}

/// The order of requirements: by module, then by name, then by alias.
pub open spec fn requirement_before(a: ImportRequirementView, b: ImportRequirementView) -> bool {
    if a.module != b.module {
        before(a.module, b.module)
    } else if a.name != b.name {
        before(a.name, b.name)
    } else {
        alias_before(a.alias, b.alias)
    }
}

/// Of two requirements one goes before the other, unless they are the same.
pub proof fn lemma_requirement_order_total(a: ImportRequirementView, b: ImportRequirementView)
    ensures
        requirement_before(a, b) || requirement_before(b, a) || a == b,
        !(requirement_before(a, b) && requirement_before(b, a)),
        a == b ==> !requirement_before(a, b),
{
    lemma_before_total(a.module, b.module);
    lemma_before_total(a.name, b.name);
    match (a.alias, b.alias) {
        (Some(x), Some(y)) => {
            lemma_before_total(x, y);
        },
        _ => {},
    }
}

/// The order of requirements goes on from one to the next.
pub proof fn lemma_requirement_order_transitive(
    a: ImportRequirementView,
    b: ImportRequirementView,
    c: ImportRequirementView,
)
    requires
        requirement_before(a, b),
        requirement_before(b, c),
    ensures
        requirement_before(a, c),
{
    lemma_before_total(a.module, b.module);
    lemma_before_total(b.module, c.module);
    lemma_before_total(a.name, b.name);
    lemma_before_total(b.name, c.name);
    if a.module != b.module && b.module != c.module {
        lemma_before_transitive(a.module, b.module, c.module);
        lemma_before_total(a.module, c.module);
    } else if a.module == b.module && b.module == c.module {
        if a.name != b.name && b.name != c.name {
            lemma_before_transitive(a.name, b.name, c.name);
            lemma_before_total(a.name, c.name);
        } else if a.name == b.name && b.name == c.name {
            match (a.alias, b.alias, c.alias) {
                (Some(x), Some(y), Some(z)) => {
                    lemma_before_transitive(x, y, z);
                },
                _ => {},
            }
        }
    }
}

/// A requirement put at its place among ordered ones, unless it is there already.
pub open spec fn insert_requirement(
    list: Seq<ImportRequirementView>,
    r: ImportRequirementView,
) -> Seq<ImportRequirementView>
    decreases list.len(),
{
    if list.len() == 0 {
        seq![r]
    } else if list.last() == r {
        list
    } else if requirement_before(list.last(), r) {
        list.push(r)
    } else {
        insert_requirement(list.drop_last(), r).push(list.last())
    }
}

/// The requirements in order, each once.
pub open spec fn in_order(list: Seq<ImportRequirementView>) -> Seq<ImportRequirementView>
    decreases list.len(),
{
    if list.len() == 0 {
        Seq::empty()
    } else {
        insert_requirement(in_order(list.drop_last()), list.last())
    }
}

/// Each requirement goes before the later ones.
pub open spec fn is_strictly_ordered(list: Seq<ImportRequirementView>) -> bool {
    forall|i: int, j: int|
        0 <= i < j < list.len() ==> requirement_before(#[trigger] list[i], #[trigger] list[j])
}

proof fn lemma_insert_requirement(list: Seq<ImportRequirementView>, r: ImportRequirementView)
    requires
        is_strictly_ordered(list),
    ensures
        is_strictly_ordered(insert_requirement(list, r)),
        forall|x: ImportRequirementView|
            #[trigger] insert_requirement(list, r).contains(x) <==> (list.contains(x) || x == r),
    decreases list.len(),
{
    let result = insert_requirement(list, r);
    if list.len() == 0 {
        assert(result[0] == r);
    } else {
        let last = list.last();
        let front = list.drop_last();
        lemma_requirement_order_total(last, r);
        assert(list =~= front.push(last));
        if last == r {
            assert(list[list.len() - 1] == r);
        } else if requirement_before(last, r) {
            assert forall|i: int, j: int| 0 <= i < j < result.len() implies requirement_before(
                #[trigger] result[i],
                #[trigger] result[j],
            ) by {
                if j == result.len() - 1 && i < list.len() - 1 {
                    lemma_requirement_order_transitive(list[i], last, r);
                }
            }
            assert forall|x: ImportRequirementView| #[trigger] result.contains(x) <==> (
            list.contains(x) || x == r) by {
                if list.contains(x) {
                    let k = choose|k: int| 0 <= k < list.len() && list[k] == x;
                    assert(result[k] == x);
                }
                if x == r {
                    assert(result[list.len() as int] == x);
                }
            }
        } else {
            lemma_insert_requirement(front, r);
            let inner = insert_requirement(front, r);
            assert forall|i: int, j: int| 0 <= i < j < result.len() implies requirement_before(
                #[trigger] result[i],
                #[trigger] result[j],
            ) by {
                if j == result.len() - 1 {
                    assert(inner.contains(inner[i]));
                    if inner[i] != r {
                        let k = choose|k: int| 0 <= k < front.len() && front[k] == inner[i];
                        assert(requirement_before(list[k], list[list.len() - 1]));
                    }
                }
            }
            assert forall|x: ImportRequirementView| #[trigger] result.contains(x) <==> (
            list.contains(x) || x == r) by {
                if result.contains(x) {
                    let k = choose|k: int| 0 <= k < result.len() && result[k] == x;
                    if k < inner.len() {
                        assert(inner.contains(inner[k]));
                        if x != r {
                            let m = choose|m: int| 0 <= m < front.len() && front[m] == x;
                            assert(list[m] == x);
                        }
                    } else {
                        assert(list[list.len() - 1] == x);
                    }
                }
                if list.contains(x) {
                    let k = choose|k: int| 0 <= k < list.len() && list[k] == x;
                    if k < front.len() {
                        assert(front[k] == x);
                        assert(front.contains(x));
                        assert(inner.contains(x));
                        let m = choose|m: int| 0 <= m < inner.len() && inner[m] == x;
                        assert(result[m] == x);
                    } else {
                        assert(result[inner.len() as int] == x);
                    }
                }
                if x == r {
                    assert(inner.contains(r));
                    let m = choose|m: int| 0 <= m < inner.len() && inner[m] == r;
                    assert(result[m] == r);
                }
            }
        }
    }
}

/// Putting requirements in order keeps exactly the given ones, each once, and in order.
pub proof fn ordering_keeps_requirements(list: Seq<ImportRequirementView>)
    ensures
        is_strictly_ordered(in_order(list)),
        forall|x: ImportRequirementView|
            #[trigger] in_order(list).contains(x) <==> list.contains(x),
    decreases list.len(),
{
    if list.len() > 0 {
        ordering_keeps_requirements(list.drop_last());
        lemma_insert_requirement(in_order(list.drop_last()), list.last());
        assert forall|x: ImportRequirementView| #[trigger] in_order(list).contains(x)
            <==> list.contains(x) by {
            if list.contains(x) {
                let k = choose|k: int| 0 <= k < list.len() && list[k] == x;
                if k < list.len() - 1 {
                    assert(list.drop_last()[k] == x);
                    assert(in_order(list.drop_last()).contains(x));
                }
            }
            if in_order(list).contains(x) && x != list.last() {
                assert(in_order(list.drop_last()).contains(x));
                assert(list.drop_last().contains(x));
                let k = choose|k: int| 0 <= k < list.len() - 1 && list.drop_last()[k] == x;
                assert(list[k] == x);
            }
        }
    }
}

fn same_requirement(a: &ImportRequirement, b: &ImportRequirement) -> (r: bool)
    ensures
        r == (a@ == b@),
{
    a.module == b.module && a.name == b.name && match (&a.alias, &b.alias) {
        (Some(x), Some(y)) => *x == *y,
        (None, None) => true,
        _ => false,
    }
}

fn goes_before(a: &ImportRequirement, b: &ImportRequirement) -> (r: bool)
    ensures
        r == requirement_before(a@, b@),
{
    if a.module != b.module {
        return is_before(a.module.as_str(), b.module.as_str());
    }
    if a.name != b.name {
        return is_before(a.name.as_str(), b.name.as_str());
    }
    match (&a.alias, &b.alias) {
        (None, Some(_)) => true,
        (Some(x), Some(y)) => is_before(x.as_str(), y.as_str()),
        _ => false,
    }
}

#[verifier::spinoff_prover]
fn put_in_order(list: &mut Vec<ImportRequirement>, r: ImportRequirement)
    ensures
        views(final(list)@) == insert_requirement(views(old(list)@), r@),
{
    let ghost all = views(list@);
    let mut i: usize = list.len();
    proof {
        assert(all.take(i as int) =~= all);
        assert(all.skip(i as int) =~= Seq::<ImportRequirementView>::empty());
        assert(insert_requirement(all, r@) =~= insert_requirement(all.take(i as int), r@)
            + all.skip(i as int));
    }
    while i > 0 && goes_before(&r, &list[i - 1])
        invariant
            i <= list@.len(),
            all == views(list@),
            insert_requirement(all, r@) == insert_requirement(all.take(i as int), r@) + all.skip(
                i as int,
            ),
        decreases i,
    {
        proof {
            let n = i as int;
            assert(all.take(n).drop_last() =~= all.take(n - 1));
            lemma_requirement_order_total(r@, all[n - 1]);
            assert(insert_requirement(all.take(n), r@) + all.skip(n) =~= insert_requirement(
                all.take(n - 1),
                r@,
            ) + all.skip(n - 1));
        }
        i = i - 1;
    }
    proof {
        if i > 0 {
            lemma_requirement_order_total(r@, all[i - 1]);
            assert(all.take(i as int).last() == all[i - 1]);
        }
        assert(all.take(i as int) + all.skip(i as int) =~= all);
    }
    if i > 0 && same_requirement(&list[i - 1], &r) {
        return;
    }
    list.insert(i, r);
    proof {
        assert(views(list@) =~= insert_requirement(all.take(i as int), r@) + all.skip(i as int));
    }
}

/// The text seems to define the name: it holds `class name` or `name =`.
pub open spec fn likely_local(symbol: Seq<char>, text: Seq<char>) -> bool {
    contains(text, "class "@ + symbol) || contains(text, symbol + " ="@)
}

/// Whether a text seems to define a name.
pub fn is_likely_local_type(symbol: &str, text: &str) -> (r: bool)
    ensures
        r == likely_local(symbol@, text@),
{
    let s: Vec<char> = chars_of(text);
    let mut class: String = "class ".to_owned();
    class.append(symbol);
    let mut assignment: String = symbol.to_owned();
    assignment.append(" =");
    contains_in(&s, &chars_of(class.as_str())) || contains_in(&s, &chars_of(assignment.as_str()))
}

/// What has to be imported for a name that a text uses: what the text itself imports for it,
/// or the name from the text's own module, if the text seems to define it.
pub open spec fn requirement_of(
    ws: WorkspaceView,
    path: PathView,
    text: Seq<char>,
    bindings: Seq<ImportBindingView>,
    symbol: Seq<char>,
) -> Option<ImportRequirementView> {
    match binding_index(bindings, symbol) {
        Some(i) => Some(bindings[i].requirement),
        None => if likely_local(symbol, text) {
            match module_name(ws, path) {
                Some(module) => Some(
                    ImportRequirementView { module, name: symbol, alias: None },
                ),
                None => None,
            }
        } else {
            None
        },
    }
}

/// The imports that an annotation of a text needs elsewhere, in order.
pub open spec fn requirements(
    ws: WorkspaceView,
    path: PathView,
    text: Seq<char>,
    body: Seq<StatementView>,
    annotation: Seq<char>,
) -> Seq<ImportRequirementView> {
    in_order(
        symbols(annotation).filter_map(
            |symbol: Seq<char>|
                requirement_of(ws, path, text, bindings_in(ws, path, body), symbol),
        ),
    )
}

fn requirement_for(
    ws: &Workspace,
    path: &FilePath,
    text: &str,
    bindings: &Vec<ImportBinding>,
    symbol: &String,
) -> (r: Option<ImportRequirement>)
    ensures
        option_view(r) == requirement_of(ws@, path@, text@, views(bindings@), symbol@),
{
    match find_binding(bindings, symbol.as_str()) {
        Some(i) => Some(bindings[i].requirement.clone()),
        None => if is_likely_local_type(symbol.as_str(), text) {
            match module_name_for_path(ws, path) {
                Some(module) => Some(
                    ImportRequirement { module, name: symbol.clone(), alias: None },
                ),
                None => None,
            }
        } else {
            None
        },
    }
}

/// The imports that an annotation of a parsed text needs elsewhere.
pub fn imports_for_annotation_in(
    ws: &Workspace,
    path: &FilePath,
    text: &str,
    body: &Vec<Statement>,
    annotation: &str,
) -> (r: Vec<ImportRequirement>)
    ensures
        views(r@) == requirements(ws@, path@, text@, views(body@), annotation@),
{
    let bindings: Vec<ImportBinding> = import_bindings(ws, path, body);
    let names: Vec<String> = annotation_symbols(annotation);
    let ghost all = symbols(annotation@);
    let ghost f = |symbol: Seq<char>|
        requirement_of(ws@, path@, text@, bindings_in(ws@, path@, views(body@)), symbol);
    let mut out: Vec<ImportRequirement> = Vec::new();
    let mut i: usize = 0;
    proof {
        assert(all.take(0).filter_map(f) =~= Seq::<ImportRequirementView>::empty());
        assert(views(out@) =~= in_order(all.take(0).filter_map(f)));
    }
    while i < names.len()
        invariant
            i <= names@.len(),
            all == views(names@),
            views(bindings@) == bindings_in(ws@, path@, views(body@)),
            f == (|symbol: Seq<char>|
                requirement_of(ws@, path@, text@, bindings_in(ws@, path@, views(body@)), symbol)),
            views(out@) == in_order(all.take(i as int).filter_map(f)),
        decreases names@.len() - i,
    {
        proof {
            all.lemma_filter_map_take_succ(f, i as int);
            assert(all[i as int] == names@[i as int]@);
        }
        let ghost so_far = all.take(i as int).filter_map(f);
        match requirement_for(ws, path, text, &bindings, &names[i]) {
            Some(requirement) => {
                proof {
                    assert(all.take(i + 1).filter_map(f) =~= so_far.push(requirement@));
                    assert(so_far.push(requirement@).drop_last() =~= so_far);
                }
                put_in_order(&mut out, requirement);
            },
            None => {
                assert(all.take(i + 1).filter_map(f) =~= so_far);
            },
        }
        i = i + 1;
    }
    assert(all.take(all.len() as int) =~= all);
    out
}

/// The imports that an annotation of a text needs elsewhere: each once, by module, name and
/// alias.
pub fn imports_for_annotation(ws: &Workspace, path: &FilePath, text: &str, annotation: &str) -> (r:
    Vec<ImportRequirement>)
    requires
        fits(text@),
    ensures
        views(r@) == requirements(ws@, path@, text@, python_body(text@), annotation@),
{
    let body: Vec<Statement> = parse_body(text);
    imports_for_annotation_in(ws, path, text, &body, annotation)
}

proof fn lemma_required(
    ws: WorkspaceView,
    path: PathView,
    text: Seq<char>,
    body: Seq<StatementView>,
    annotation: Seq<char>,
    symbol: Seq<char>,
)
    requires
        symbols(annotation).contains(symbol),
        requirement_of(ws, path, text, bindings_in(ws, path, body), symbol) is Some,
    ensures
        requirements(ws, path, text, body, annotation).contains(
            requirement_of(ws, path, text, bindings_in(ws, path, body), symbol)->0,
        ),
{
    let f = |symbol: Seq<char>|
        requirement_of(ws, path, text, bindings_in(ws, path, body), symbol);
    let all = symbols(annotation);
    lemma_filter_map_has(all, f, all.index_of(symbol));
    ordering_keeps_requirements(all.filter_map(f));
}

/// A name of an annotation that its file does not import is imported from the file's own module
/// wherever the text has `class` and the name, or the name and an equals sign, whatever stands
/// around them.
pub proof fn local_types_are_imported(
    ws: WorkspaceView,
    path: PathView,
    text: Seq<char>,
    body: Seq<StatementView>,
    annotation: Seq<char>,
    symbol: Seq<char>,
    i: int,
)
    requires
        symbols(annotation).contains(symbol),
        forall|k: int|
            0 <= k < bindings_in(ws, path, body).len() ==> (#[trigger] bindings_in(
                ws,
                path,
                body,
            )[k]).visible != symbol,
        occurs_at(text, "class "@ + symbol, i) || occurs_at(text, symbol + " ="@, i),
        module_name(ws, path) is Some,
    ensures
        requirements(ws, path, text, body, annotation).contains(
            ImportRequirementView {
                module: module_name(ws, path)->0,
                name: symbol,
                alias: None,
            },
        ),
{
    lemma_binding_index_found(bindings_in(ws, path, body), symbol);
    lemma_required(ws, path, text, body, annotation, symbol);
}

/// A name of an annotation that its file imports is imported elsewhere as the file imports it.
pub proof fn imported_types_are_imported_alike(
    ws: WorkspaceView,
    path: PathView,
    text: Seq<char>,
    body: Seq<StatementView>,
    annotation: Seq<char>,
    k: int,
)
    requires
        0 <= k < bindings_in(ws, path, body).len(),
        symbols(annotation).contains(bindings_in(ws, path, body)[k].visible),
    ensures
        requirements(ws, path, text, body, annotation).contains(
            bindings_in(ws, path, body)[k].requirement,
        ),
{
    let bindings = bindings_in(ws, path, body);
    let symbol = bindings[k].visible;
    names_are_bound_once(body.flat_map(|s: StatementView| bindings_of(ws, path, s)));
    lemma_binding_index_found(bindings, symbol);
    let i = binding_index(bindings, symbol)->0;
    assert(bindings[i].visible == bindings[k].visible);
    assert(i == k);
    lemma_required(ws, path, text, body, annotation, symbol);
}

/// The requirement comes from a name of the annotation: it is what the file imports under the
/// name, or the name from the file's own module, where the file does not import it and has it
/// behind `class` or before an equals sign.
pub open spec fn is_called_for(
    ws: WorkspaceView,
    path: PathView,
    text: Seq<char>,
    bindings: Seq<ImportBindingView>,
    symbol: Seq<char>,
    r: ImportRequirementView,
) -> bool {
    ||| exists|k: int|
        0 <= k < bindings.len() && (#[trigger] bindings[k]).visible == symbol
            && bindings[k].requirement == r
    ||| {
        &&& forall|k: int| 0 <= k < bindings.len() ==> (#[trigger] bindings[k]).visible != symbol
        &&& (exists|i: int| #[trigger] occurs_at(text, "class "@ + symbol, i)) || (exists|i: int|
            #[trigger] occurs_at(text, symbol + " ="@, i))
        &&& module_name(ws, path) == Some(r.module)
        &&& r.name == symbol
        &&& r.alias is None
    }
}

/// Nothing is imported for an annotation but what its names call for.
pub proof fn nothing_else_is_imported(
    ws: WorkspaceView,
    path: PathView,
    text: Seq<char>,
    body: Seq<StatementView>,
    annotation: Seq<char>,
    r: ImportRequirementView,
)
    requires
        requirements(ws, path, text, body, annotation).contains(r),
    ensures
        exists|symbol: Seq<char>|
            symbols(annotation).contains(symbol) && #[trigger] is_called_for(
                ws,
                path,
                text,
                bindings_in(ws, path, body),
                symbol,
                r,
            ),
{
    let bindings = bindings_in(ws, path, body);
    let f = |symbol: Seq<char>| requirement_of(ws, path, text, bindings, symbol);
    let all = symbols(annotation);
    ordering_keeps_requirements(all.filter_map(f));
    assert(all.filter_map(f).contains(r));
    all.lemma_filter_map_contains(f, r);
    let symbol = choose|symbol: Seq<char>| #[trigger]
        all.contains(symbol) && f(symbol) == Some(r);
    lemma_binding_index_found(bindings, symbol);
    match binding_index(bindings, symbol) {
        Some(k) => {
            assert(bindings[k].visible == symbol && bindings[k].requirement == r);
        },
        None => {},
    }
    assert(is_called_for(ws, path, text, bindings, symbol, r));
}

/// Imports come by their modules, those of one module by their names, and those of one name by
/// their aliases, one without before those with.
pub proof fn imports_come_by_module_and_name(a: ImportRequirementView, b: ImportRequirementView)
    ensures
        a.module != b.module ==> (requirement_before(a, b) <==> before(a.module, b.module)),
        a.module == b.module && a.name != b.name ==> (requirement_before(a, b) <==> before(
            a.name,
            b.name,
        )),
        a.module == b.module && a.name == b.name && a.alias is None && b.alias is Some
            ==> requirement_before(a, b),
        a.module == b.module && a.name == b.name && a.alias is Some && b.alias is Some ==> (
        requirement_before(a, b) <==> before(a.alias->0, b.alias->0)),
{
}

}
