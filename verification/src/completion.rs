//! What can be written at a position.
use crate::annotation::ImportRequirementView;
use crate::edits::{
    import_edits, import_statement, import_text_edits_in, insert_position, is_imported,
    missing_imports_are_written, no_import_is_added_twice, TextEdit, TextEditView,
};
use crate::fixture::{Fixture, FixtureView};
use crate::index::{visible_in, FixtureIndex, FixtureIndexView};
use crate::parameters::{
    in_annotation, in_parameters, is_in_function_params_of, is_in_parameter_annotation_context,
};
use crate::path::{path_text, FilePath, PathView};
use crate::position::{Position, Range};
use crate::protocol::{CompletionItem, CompletionItemKind, CompletionItemView};
use crate::syntax::{
    parse_module, python_body, python_module, valid_body, SourceModule, SourceModuleView,
};
use crate::text::{chars_of, fits, option_view, views};
use crate::visibility::has_fixture;
use crate::workspace::{outcome, parseable, source_at, UnreadableFile, Workspace, WorkspaceView};
use vstd::prelude::*;

verus! {

/// What completing a fixture writes: its name, with its annotation where a parameter has none
/// yet, and the imports that the annotation needs.
pub open spec fn completion_item(
    text: Seq<char>,
    module: Option<SourceModuleView>,
    position: Position,
    f: FixtureView,
) -> CompletionItemView {
    let edits = match f.return_annotation {
        Some(annotation) => import_edits(text, module, annotation.imports),
        None => Seq::empty(),
    };
    CompletionItemView {
        label: f.name,
        kind: CompletionItemKind::Function,
        detail: "pytest fixture ("@ + path_text(f.path) + ")"@,
        insert_text: match f.return_annotation {
            Some(annotation) => if in_annotation(text, position) {
                Some(f.name)
            } else {
                Some(f.name + ": "@ + annotation.text)
            },
            None => None,
        },
        additional_text_edits: if in_annotation(text, position) || edits.len() == 0 {
            None
        } else {
            Some(edits)
        },
    }
}

/// The completions at a position of a text: the visible fixtures, among the parameters of a
/// function.
pub open spec fn completions_in(
    text: Seq<char>,
    module: Option<SourceModuleView>,
    position: Position,
    visible: Seq<FixtureView>,
) -> Seq<CompletionItemView> {
    if in_parameters(text, module, position) {
        visible.map_values(|f: FixtureView| completion_item(text, module, position, f))
    } else {
        Seq::empty()
    }
}

/// The completions at a position of a file with the given text.
pub open spec fn completions_of(
    ws: WorkspaceView,
    index: FixtureIndexView,
    file: PathView,
    text: Seq<char>,
    position: Position,
) -> Seq<CompletionItemView> {
    completions_in(
        text,
        python_module(text),
        position,
        visible_in(ws, index, file, python_body(text)),
    )
}

/// Among the parameters of a function every visible fixture is offered once, in the order of
/// their names; elsewhere nothing is.
pub proof fn completions_offer_what_is_visible(
    text: Seq<char>,
    module: Option<SourceModuleView>,
    position: Position,
    visible: Seq<FixtureView>,
)
    ensures
        in_parameters(text, module, position) ==> {
            &&& completions_in(text, module, position, visible).len() == visible.len()
            &&& forall|i: int|
                0 <= i < visible.len() ==> (#[trigger] completions_in(
                    text,
                    module,
                    position,
                    visible,
                )[i]).label == visible[i].name
        },
        !in_parameters(text, module, position) ==> completions_in(text, module, position, visible)
            == Seq::<CompletionItemView>::empty(),
{
}

fn completion_item_for(
    text: &Vec<char>,
    module: &Option<SourceModule>,
    position: Position,
    f: &Fixture,
) -> (r: CompletionItem)
    requires
        fits(text@),
    ensures
        r@ == completion_item(text@, option_view(*module), position, f@),
{
    let mut detail: String = "pytest fixture (".to_owned();
    detail.append(f.path.display().as_str());
    detail.append(")");
    let label: String = f.name.clone();
    let kind: CompletionItemKind = CompletionItemKind::Function;
    match &f.return_annotation {
        Some(annotation) => {
            if is_in_parameter_annotation_context(text, position) {
                CompletionItem {
                    label,
                    kind,
                    detail,
                    insert_text: Some(f.name.clone()),
                    additional_text_edits: None,
                }
            } else {
                let mut insert: String = f.name.clone();
                insert.append(": ");
                insert.append(annotation.text.as_str());
                let edits: Vec<TextEdit> = import_text_edits_in(text, module, annotation);
                let additional_text_edits: Option<Vec<TextEdit>> = if edits.len() > 0 {
                    Some(edits)
                } else {
                    None
                };
                CompletionItem {
                    label,
                    kind,
                    detail,
                    insert_text: Some(insert),
                    additional_text_edits,
                }
            }
        },
        None => CompletionItem {
            label,
            kind,
            detail,
            insert_text: None,
            additional_text_edits: None,
        },
    }
}

/// The completions at a position of a parsed text.
pub fn completion_items(
    text: &Vec<char>,
    module: &Option<SourceModule>,
    position: Position,
    visible: &Vec<&Fixture>,
) -> (r: Vec<CompletionItem>)
    requires
        fits(text@),
    ensures
        views(r@) == completions_in(text@, option_view(*module), position, views(visible@)),
{
    let mut out: Vec<CompletionItem> = Vec::new();
    if !is_in_function_params_of(text, module, position) {
        assert(views(out@) =~= Seq::<CompletionItemView>::empty());
        return out;
    }
    let ghost all = views(visible@);
    let ghost parse = option_view(*module);
    let mut i: usize = 0;
    while i < visible.len()
        invariant
            fits(text@),
            i <= visible@.len(),
            all == views(visible@),
            parse == option_view(*module),
            out@.len() == i,
            forall|j: int|
                0 <= j < i ==> (#[trigger] out@[j])@ == completion_item(
                    text@,
                    parse,
                    position,
                    all[j],
                ),
        decreases visible@.len() - i,
    {
        assert(all[i as int] == visible@[i as int]@);
        out.push(completion_item_for(text, module, position, visible[i]));
        i = i + 1;
    }
    assert(views(out@) =~= completions_in(text@, parse, position, all));
    out
}

impl FixtureIndex {
    /// The completions at a position of a file with the given text.
    pub fn completions_for_text(
        &self,
        ws: &Workspace,
        file: &FilePath,
        text: &str,
        position: Position,
    ) -> (r: Result<Vec<CompletionItem>, UnreadableFile>)
        requires
            parseable(ws@),
            fits(text@),
        ensures
            outcome(r) == Ok::<Seq<CompletionItemView>, PathView>(
                completions_of(ws@, self@, file@, text@, position),
            ),
    {
        let chars: Vec<char> = chars_of(text);
        let module: Option<SourceModule> = parse_module(text);
        let visible: Vec<&Fixture> = self.visible_fixtures_for_text(ws, file, text);
        Ok(completion_items(&chars, &module, position, &visible))
    }

    /// The completions at a position of a file.
    pub fn completions(&self, ws: &Workspace, file: &FilePath, position: Position) -> (r: Result<
        Vec<CompletionItem>,
        UnreadableFile,
    >)
        requires
            parseable(ws@),
        ensures
            outcome(r) == (match source_at(ws@, file@) {
                Some(text) => Ok(completions_of(ws@, self@, file@, text, position)),
                None => Err(file@),
            }),
    {
        match ws.read(file) {
            Some(text) => self.completions_for_text(ws, file, text.as_str(), position),
            None => Err(UnreadableFile { path: file.clone() }),
        }
    }
}

/// Behind no colon, completing a fixture of a known type writes its name, a colon and the type,
/// and adds each import that the type needs and the text lacks, as a line at the place for
/// imports. Behind a colon it writes the name alone, and a fixture of no known type writes what
/// its label says.
pub proof fn completions_write_annotations(
    text: Seq<char>,
    module: Option<SourceModuleView>,
    position: Position,
    visible: Seq<FixtureView>,
    i: int,
    r: ImportRequirementView,
)
    requires
        in_parameters(text, module, position),
        0 <= i < visible.len(),
    ensures
        visible[i].return_annotation is None ==> completions_in(
            text,
            module,
            position,
            visible,
        )[i].insert_text is None && completions_in(
            text,
            module,
            position,
            visible,
        )[i].additional_text_edits is None,
        visible[i].return_annotation matches Some(annotation) ==> {
            let item = completions_in(text, module, position, visible)[i];
            &&& in_annotation(text, position) ==> item.insert_text == Some(visible[i].name)
                && item.additional_text_edits is None
            &&& !in_annotation(text, position) ==> item.insert_text == Some(
                visible[i].name + seq![':', ' '] + annotation.text,
            )
            &&& !in_annotation(text, position) && annotation.imports.contains(r) && !is_imported(
                text,
                valid_body(module),
                r,
            ) ==> item.additional_text_edits is Some && item.additional_text_edits->0.contains(
                TextEditView {
                    range: Range {
                        start: insert_position(text, module),
                        end: insert_position(text, module),
                    },
                    new_text: import_statement(r) + seq!['\n'],
                },
            )
            &&& (forall|k: int|
                0 <= k < annotation.imports.len() ==> is_imported(
                    text,
                    valid_body(module),
                    #[trigger] annotation.imports[k],
                )) ==> item.additional_text_edits is None
            &&& item.additional_text_edits matches Some(edits) ==> edits == import_edits(
                text,
                module,
                annotation.imports,
            )
        },
        completions_in(text, module, position, visible)[i].label == visible[i].name,
        completions_in(text, module, position, visible)[i].detail == "pytest fixture ("@
            + path_text(visible[i].path) + ")"@,
{
    reveal_strlit(": ");
    assert(": "@ =~= seq![':', ' ']);
    match visible[i].return_annotation {
        Some(annotation) => {
            let imports = annotation.imports;
            let edits = import_edits(text, module, imports);
            if imports.contains(r) && !is_imported(text, valid_body(module), r) {
                let edit = TextEditView {
                    range: Range {
                        start: insert_position(text, module),
                        end: insert_position(text, module),
                    },
                    new_text: import_statement(r) + seq!['\n'],
                };
                missing_imports_are_written(text, module, imports, edit);
                let k = imports.index_of(r);
                assert(!is_imported(text, valid_body(module), imports[k]));
                assert(edits.contains(edit));
            }
            if forall|k: int|
                0 <= k < imports.len() ==> is_imported(
                    text,
                    valid_body(module),
                    #[trigger] imports[k],
                ) {
                no_import_is_added_twice(text, module, imports);
            }
        },
        None => {},
    }
}

/// A fixture is offered in a file exactly if the file sees it, by its name.
pub proof fn completions_are_the_visible_fixtures(
    ws: WorkspaceView,
    index: FixtureIndexView,
    file: PathView,
    text: Seq<char>,
    position: Position,
    name: Seq<char>,
)
    requires
        in_parameters(text, python_module(text), position),
    ensures
        has_fixture(visible_in(ws, index, file, python_body(text)), name) <==> exists|i: int|
            0 <= i < completions_of(ws, index, file, text, position).len()
                && (#[trigger] completions_of(ws, index, file, text, position)[i]).label == name,
{
    let visible = visible_in(ws, index, file, python_body(text));
    let all = completions_of(ws, index, file, text, position);
    if has_fixture(visible, name) {
        let i = choose|i: int| 0 <= i < visible.len() && (#[trigger] visible[i]).name == name;
        assert(all[i].label == name);
    }
    if exists|i: int| 0 <= i < all.len() && (#[trigger] all[i]).label == name {
        let i = choose|i: int| 0 <= i < all.len() && (#[trigger] all[i]).label == name;
        assert(visible[i].name == name);
    }
}

}
