//! Where a name leads, and where a fixture is used.
use crate::annotation::{is_part, lemma_word_end_runs};
use crate::fixture::{Fixture, FixtureView};
use crate::index::{
    find_named, is_located, lemma_below_absolute, lemma_named_from, lemma_project_path, named,
    project_paths, seen_fixtures_are_visible, text_or_empty, visible_fixture_is_found, visible_in,
    visible_to, FixtureIndex, FixtureIndexView,
};
use crate::parameters::{
    identifier_at, identifier_at_position, in_parameters, is_in_function_params_of,
    lemma_word_start_runs, parameter_name_ranges_in, parameter_ranges,
    parameters_of_the_name_are_found,
};
use crate::path::{is_absolute, same_path, FilePath, PathView};
use crate::position::{
    index_of_position, lemma_index_in_text, not_after, position_in_range, position_of_offset,
    within, Position, Range,
};
use crate::protocol::{Location, LocationView};
use crate::syntax::{
    body_of, functions_in, parse_module, python_body, python_module, FunctionView, SourceModule,
    SourceModuleView, Statement,
};
use crate::text::{
    before, chars_of, fits, is_before, lemma_before_total, lemma_before_transitive,
    lemma_views_push, option_view, views,
};
use crate::uri::{uri_for, uri_of};
use crate::visibility::{has_fixture, imports_in, plugin_paths, visibility_score};
use crate::workspace::{
    collect_python_files, outcome, parseable, project_sources, source_at, FileEntry, UnreadableFile,
    Workspace, WorkspaceView,
};
use vstd::prelude::*;

verus! {

/// What comes of a request for a place.
pub open spec fn place_outcome(r: Result<Option<Location>, UnreadableFile>) -> Result<
    Option<LocationView>,
    PathView,
> {
    match r {
        Ok(location) => Ok(option_view(location)),
        Err(e) => Err(e.path@),
    }
}

/// The fixture that the name at a position of a text leads to: the visible fixture of the name,
/// if the position lies among the parameters of a function.
pub open spec fn target_in(
    text: Seq<char>,
    module: Option<SourceModuleView>,
    position: Position,
    visible: Seq<FixtureView>,
) -> Option<FixtureView> {
    match identifier_at(text, position) {
        Some(name) => if in_parameters(text, module, position) {
            named(visible, name)
        } else {
            None
        },
        None => None,
    }
}

/// Where a fixture is defined.
pub open spec fn place_of(fixture: Option<FixtureView>) -> Option<LocationView> {
    match fixture {
        Some(f) => Some(LocationView { uri: uri_of(f.path), range: f.range }),
        None => None,
    }
}

/// Where the name at a position of a file leads, or that the file cannot be read.
pub open spec fn definition_at(
    ws: WorkspaceView,
    index: FixtureIndexView,
    file: PathView,
    position: Position,
) -> Result<Option<LocationView>, PathView> {
    match source_at(ws, file) {
        Some(text) => Ok(
            place_of(target_in(text, python_module(text), position, visible_to(ws, index, file))),
        ),
        None => Err(file),
    }
}

/// Among the parameters of a function a name leads to the visible fixture of the name, if there
/// is one, and nowhere else; elsewhere no name leads anywhere.
pub proof fn definition_finds_what_is_visible(
    text: Seq<char>,
    module: Option<SourceModuleView>,
    position: Position,
    visible: Seq<FixtureView>,
)
    ensures
        target_in(text, module, position, visible) is Some <==> in_parameters(
            text,
            module,
            position,
        ) && identifier_at(text, position) is Some && has_fixture(
            visible,
            identifier_at(text, position)->0,
        ),
        target_in(text, module, position, visible) matches Some(f) ==> visible.contains(f)
            && identifier_at(text, position) == Some(f.name),
{
    if identifier_at(text, position) is Some {
        lemma_named_from(visible, identifier_at(text, position)->0, 0);
    }
}

/// The fixture that a position of a text means: among the parameters of a function the visible
/// one of the name, elsewhere the one that the file defines with its name there.
pub open spec fn name_in(
    file: PathView,
    text: Seq<char>,
    module: Option<SourceModuleView>,
    position: Position,
    fixtures: Seq<FixtureView>,
    visible: Seq<FixtureView>,
) -> Option<Seq<char>> {
    if in_parameters(text, module, position) {
        match identifier_at(text, position) {
            Some(name) => if has_fixture(visible, name) {
                Some(name)
            } else {
                None
            },
            None => None,
        }
    } else {
        defined_name_from(fixtures, file, position, 0)
    }
}

/// The first fixture, from `i` on, that the file defines with its name at the position.
pub open spec fn defined_name_from(
    fixtures: Seq<FixtureView>,
    file: PathView,
    position: Position,
    i: int,
) -> Option<Seq<char>>
    decreases fixtures.len() - i,
{
    if i < 0 || i >= fixtures.len() {
        None
    } else if is_defined_at(fixtures[i], file, position) {
        Some(fixtures[i].name)
    } else {
        defined_name_from(fixtures, file, position, i + 1)
    }
}

/// The name that a fixture of the file is defined with stands at the position.
pub open spec fn is_defined_at(f: FixtureView, file: PathView, position: Position) -> bool {
    f.path == file && within(position, f.name_range)
}

proof fn lemma_defined_name(
    fixtures: Seq<FixtureView>,
    file: PathView,
    position: Position,
    from: int,
    i: int,
)
    requires
        0 <= from <= i < fixtures.len(),
        is_defined_at(fixtures[i], file, position),
    ensures
        exists|k: int|
            0 <= k <= i && is_defined_at(#[trigger] fixtures[k], file, position)
                && defined_name_from(fixtures, file, position, from) == Some(fixtures[k].name),
    decreases i - from,
{
    if is_defined_at(fixtures[from], file, position) {
        assert(defined_name_from(fixtures, file, position, from) == Some(fixtures[from].name));
    } else {
        lemma_defined_name(fixtures, file, position, from + 1, i);
    }
}

/// Outside parameters, the name that a fixture is defined with means a fixture that is defined
/// there.
pub proof fn definition_means_its_fixture(
    file: PathView,
    text: Seq<char>,
    module: Option<SourceModuleView>,
    position: Position,
    fixtures: Seq<FixtureView>,
    visible: Seq<FixtureView>,
    i: int,
)
    requires
        !in_parameters(text, module, position),
        0 <= i < fixtures.len(),
        is_defined_at(fixtures[i], file, position),
    ensures
        exists|k: int|
            0 <= k <= i && is_defined_at(#[trigger] fixtures[k], file, position) && name_in(
                file,
                text,
                module,
                position,
                fixtures,
                visible,
            ) == Some(fixtures[k].name),
{
    lemma_defined_name(fixtures, file, position, 0, i);
}

/// Places are in the order of their files, and in a file in the order in which they start.
pub open spec fn location_before(a: LocationView, b: LocationView) -> bool {
    if a.uri != b.uri {
        before(a.uri, b.uri)
    } else if a.range.start.line != b.range.start.line {
        a.range.start.line < b.range.start.line
    } else {
        a.range.start.character < b.range.start.character
    }
}

/// Where a place goes into an ordered list, looked for from `i` down: behind all that do not
/// come after it.
pub open spec fn slot_below(list: Seq<LocationView>, l: LocationView, i: int) -> int
    decreases i,
{
    if 0 < i <= list.len() && location_before(l, list[i - 1]) {
        slot_below(list, l, i - 1)
    } else {
        i
    }
}

/// The places in order; places that the order does not tell apart keep theirs.
pub open spec fn sorted(list: Seq<LocationView>) -> Seq<LocationView>
    decreases list.len(),
{
    if list.len() == 0 {
        Seq::empty()
    } else {
        let rest = sorted(list.drop_last());
        rest.insert(slot_below(rest, list.last(), rest.len() as int), list.last())
    }
}

/// The parameters of the name in a file.
pub open spec fn uses_in(path: PathView, text: Seq<char>, name: Seq<char>) -> Seq<LocationView> {
    parameter_ranges(text, python_body(text), name).map_values(
        |range: Range| LocationView { uri: uri_of(path), range },
    )
}

/// The parameters of the name in those of the files that see such a fixture, or the first of
/// these that cannot be read.
pub open spec fn uses_in_files(
    ws: WorkspaceView,
    index: FixtureIndexView,
    files: Seq<PathView>,
    name: Seq<char>,
) -> Result<Seq<LocationView>, PathView>
    decreases files.len(),
{
    if files.len() == 0 {
        Ok(Seq::empty())
    } else {
        match uses_in_files(ws, index, files.drop_last(), name) {
            Ok(found) => if has_fixture(visible_to(ws, index, files.last()), name) {
                match source_at(ws, files.last()) {
                    Some(text) => Ok(found + uses_in(files.last(), text, name)),
                    None => Err(files.last()),
                }
            } else {
                Ok(found)
            },
            Err(path) => Err(path),
        }
    }
}

/// The uses of the fixture that a position means, in order, or the first file that cannot be
/// read.
pub open spec fn references_at(
    ws: WorkspaceView,
    index: FixtureIndexView,
    file: PathView,
    position: Position,
) -> Result<Seq<LocationView>, PathView> {
    match source_at(ws, file) {
        Some(text) => match name_in(
            file,
            text,
            python_module(text),
            position,
            index.fixtures,
            visible_to(ws, index, file),
        ) {
            Some(name) => match uses_in_files(ws, index, project_paths(ws, index.root), name) {
                Ok(found) => Ok(sorted(found)),
                Err(path) => Err(path),
            },
            None => Ok(Seq::empty()),
        },
        None => Err(file),
    }
}

proof fn lemma_uses_error(
    ws: WorkspaceView,
    index: FixtureIndexView,
    files: Seq<PathView>,
    name: Seq<char>,
    n: int,
)
    requires
        0 <= n <= files.len(),
        uses_in_files(ws, index, files.take(n), name) is Err,
    ensures
        uses_in_files(ws, index, files, name) == uses_in_files(ws, index, files.take(n), name),
    decreases files.len(),
{
    if n < files.len() {
        assert(files.drop_last().take(n) =~= files.take(n));
        lemma_uses_error(ws, index, files.drop_last(), name, n);
    } else {
        assert(files.take(n) =~= files);
    }
}

/// The place is a parameter of the name in the file, and the file sees a fixture of the name.
pub open spec fn is_use(
    ws: WorkspaceView,
    index: FixtureIndexView,
    file: PathView,
    name: Seq<char>,
    l: LocationView,
) -> bool {
    &&& has_fixture(visible_to(ws, index, file), name)
    &&& source_at(ws, file) matches Some(text) && uses_in(file, text, name).contains(l)
}

/// The uses that are found are those of the files that see a fixture of the name, and all of
/// them.
pub proof fn uses_are_found(
    ws: WorkspaceView,
    index: FixtureIndexView,
    files: Seq<PathView>,
    name: Seq<char>,
    l: LocationView,
)
    requires
        uses_in_files(ws, index, files, name) is Ok,
    ensures
        uses_in_files(ws, index, files, name)->Ok_0.contains(l) <==> exists|k: int|
            0 <= k < files.len() && is_use(ws, index, #[trigger] files[k], name, l),
    decreases files.len(),
{
    if files.len() > 0 {
        let fewer = files.drop_last();
        let last = files.len() - 1;
        uses_are_found(ws, index, fewer, name, l);
        let found = uses_in_files(ws, index, fewer, name)->Ok_0;
        let all = uses_in_files(ws, index, files, name)->Ok_0;
        if found.contains(l) {
            let k = choose|k: int|
                0 <= k < fewer.len() && is_use(ws, index, #[trigger] fewer[k], name, l);
            assert(files[k] == fewer[k]);
            let i = choose|i: int| 0 <= i < found.len() && found[i] == l;
            assert(all[i] == l);
        }
        if is_use(ws, index, files[last], name, l) {
            let more = uses_in(files[last], source_at(ws, files[last])->0, name);
            let i = choose|i: int| 0 <= i < more.len() && more[i] == l;
            assert(all[found.len() + i] == l);
        }
        if all.contains(l) && !found.contains(l) {
            let i = choose|i: int| 0 <= i < all.len() && all[i] == l;
            assert(i >= found.len()) by {
                if i < found.len() {
                    assert(found[i] == l);
                }
            }
            let more = uses_in(files[last], source_at(ws, files[last])->0, name);
            assert(more[i - found.len()] == l);
            assert(is_use(ws, index, files[last], name, l));
        }
        if exists|k: int| 0 <= k < files.len() && is_use(ws, index, #[trigger] files[k], name, l) {
            let k = choose|k: int|
                0 <= k < files.len() && is_use(ws, index, #[trigger] files[k], name, l);
            if k < last {
                assert(fewer[k] == files[k]);
            }
        }
    }
}

fn is_location_before(a: &Location, b: &Location) -> (r: bool)
    ensures
        r == location_before(a@, b@),
{
    if a.uri != b.uri {
        is_before(a.uri.as_str(), b.uri.as_str())
    } else if a.range.start.line != b.range.start.line {
        a.range.start.line < b.range.start.line
    } else {
        a.range.start.character < b.range.start.character
    }
}

/// Puts places in order.
pub fn sort_locations(list: Vec<Location>) -> (r: Vec<Location>)
    ensures
        views(r@) == sorted(views(list@)),
{
    let mut out: Vec<Location> = Vec::new();
    let ghost all = views(list@);
    let mut i: usize = 0;
    assert(views(out@) =~= sorted(all.take(0)));
    while i < list.len()
        invariant
            i <= list@.len(),
            all == views(list@),
            views(out@) == sorted(all.take(i as int)),
        decreases list@.len() - i,
    {
        let ghost rest = views(out@);
        let l: Location = Location { uri: list[i].uri.clone(), range: list[i].range };
        proof {
            assert(all.take(i + 1).drop_last() =~= all.take(i as int));
            assert(all.take(i + 1).last() == l@);
        }
        let mut slot: usize = out.len();
        while slot > 0 && is_location_before(&l, &out[slot - 1])
            invariant
                slot <= out@.len(),
                rest == views(out@),
                slot_below(rest, l@, rest.len() as int) == slot_below(rest, l@, slot as int),
            decreases slot,
        {
            assert(rest[slot - 1] == out@[slot - 1]@);
            slot = slot - 1;
        }
        if slot > 0 {
            assert(rest[slot - 1] == out@[slot - 1]@);
        }
        out.insert(slot, l);
        assert(views(out@) =~= rest.insert(slot as int, l@));
        i = i + 1;
    }
    assert(all.take(all.len() as int) =~= all);
    out
}

proof fn lemma_location_order(a: LocationView, b: LocationView, c: LocationView)
    ensures
        !(location_before(a, b) && location_before(b, a)),
        location_before(a, b) && !location_before(c, b) ==> location_before(a, c),
        !location_before(b, a) && !location_before(c, b) ==> !location_before(c, a),
{
    lemma_before_total(a.uri, b.uri);
    lemma_before_total(b.uri, c.uri);
    lemma_before_total(a.uri, c.uri);
    if before(a.uri, b.uri) && before(b.uri, c.uri) {
        lemma_before_transitive(a.uri, b.uri, c.uri);
    }
    if before(b.uri, c.uri) && before(c.uri, a.uri) {
        lemma_before_transitive(b.uri, c.uri, a.uri);
    }
    if before(c.uri, a.uri) && before(a.uri, b.uri) {
        lemma_before_transitive(c.uri, a.uri, b.uri);
    }
}

/// The places are in order.
pub open spec fn is_ordered(list: Seq<LocationView>) -> bool {
    forall|i: int, j: int|
        #![trigger list[i], list[j]]
        0 <= i < j < list.len() ==> !location_before(list[j], list[i])
}

proof fn lemma_slot(list: Seq<LocationView>, l: LocationView, i: int)
    requires
        0 <= i <= list.len(),
        is_ordered(list),
        forall|k: int| i <= k < list.len() ==> location_before(l, #[trigger] list[k]),
    ensures
        0 <= slot_below(list, l, i) <= i,
        forall|k: int|
            slot_below(list, l, i) <= k < list.len() ==> location_before(l, #[trigger] list[k]),
        forall|k: int|
            0 <= k < slot_below(list, l, i) ==> !location_before(l, #[trigger] list[k]),
    decreases i,
{
    if i > 0 {
        if location_before(l, list[i - 1]) {
            lemma_slot(list, l, i - 1);
        } else {
            assert forall|k: int| 0 <= k < i implies !location_before(l, #[trigger] list[k]) by {
                if k < i - 1 {
                    lemma_location_order(list[k], list[i - 1], l);
                    lemma_location_order(l, list[k], list[i - 1]);
                }
            }
        }
    }
}

/// Sorting puts places in order, and neither adds nor drops one.
pub proof fn sorting_orders_places(list: Seq<LocationView>)
    ensures
        is_ordered(sorted(list)),
        sorted(list).to_multiset() == list.to_multiset(),
    decreases list.len(),
{
    broadcast use vstd::seq_lib::group_to_multiset_ensures;

    if list.len() > 0 {
        let rest = sorted(list.drop_last());
        let l = list.last();
        sorting_orders_places(list.drop_last());
        lemma_slot(rest, l, rest.len() as int);
        let slot = slot_below(rest, l, rest.len() as int);
        let all = sorted(list);
        assert forall|i: int, j: int|
            #![trigger all[i], all[j]]
            0 <= i < j < all.len() implies !location_before(all[j], all[i]) by {
            let a = if i < slot {
                rest[i]
            } else {
                rest[i - 1]
            };
            let b = if j < slot {
                rest[j]
            } else {
                rest[j - 1]
            };
            lemma_location_order(all[i], all[j], all[i]);
        }
        assert(list =~= list.drop_last().push(l));
        assert(list.to_multiset() =~= list.drop_last().to_multiset().insert(l));
        assert(all.to_multiset() =~= rest.to_multiset().insert(l)) by {
            assert(all.remove(slot) =~= rest);
            assert(all[slot] == l);
            assert(all.contains(l));
            assert(all.to_multiset().count(l) > 0);
        }
    } else {
        assert(sorted(list) =~= list);
    }
}

fn push_uses(path: &FilePath, text: &str, name: &String, out: &mut Vec<Location>)
    requires
        fits(text@),
        is_absolute(path@),
    ensures
        views(final(out)@) == views(old(out)@) + uses_in(path@, text@, name@),
{
    let body: Vec<Statement> = body_of(parse_module(text));
    let ranges: Vec<Range> = parameter_name_ranges_in(&chars_of(text), &body, name);
    let ghost start = views(out@);
    let ghost f = |range: Range| LocationView { uri: uri_of(path@), range };
    let mut i: usize = 0;
    assert(start + ranges@.take(0).map_values(f) =~= start);
    while i < ranges.len()
        invariant
            is_absolute(path@),
            i <= ranges@.len(),
            f == (|range: Range| LocationView { uri: uri_of(path@), range }),
            views(out@) == start + ranges@.take(i as int).map_values(f),
        decreases ranges@.len() - i,
    {
        let location: Location = Location { uri: uri_for(path), range: ranges[i] };
        proof {
            lemma_views_push(out@, location);
        }
        out.push(location);
        assert(views(out@) =~= start + ranges@.take(i + 1).map_values(f));
        i = i + 1;
    }
    assert(ranges@.take(ranges@.len() as int) =~= ranges@);
}

/// The fixture that the name at a position of a parsed text leads to.
pub fn find_target<'a>(
    text: &Vec<char>,
    module: &Option<SourceModule>,
    position: Position,
    visible: &Vec<&'a Fixture>,
) -> (r: Option<&'a Fixture>)
    requires
        fits(text@),
    ensures
        option_view(r) == target_in(text@, option_view(*module), position, views(visible@)),
{
    match identifier_at_position(text, position) {
        Some(name) => if is_in_function_params_of(text, module, position) {
            find_named(visible, &name)
        } else {
            None
        },
        None => None,
    }
}

fn defined_name(fixtures: &Vec<Fixture>, file: &FilePath, position: Position) -> (r: Option<String>)
    ensures
        option_view(r) == defined_name_from(views(fixtures@), file@, position, 0),
{
    let ghost all = views(fixtures@);
    let mut i: usize = 0;
    while i < fixtures.len()
        invariant
            i <= fixtures@.len(),
            all == views(fixtures@),
            defined_name_from(all, file@, position, 0) == defined_name_from(
                all,
                file@,
                position,
                i as int,
            ),
        decreases fixtures@.len() - i,
    {
        let f: &Fixture = &fixtures[i];
        assert(all[i as int] == f@);
        if same_path(&f.path, file) && position_in_range(position, f.name_range) {
            return Some(f.name.clone());
        }
        i = i + 1;
    }
    None
}

/// The name of the fixture that a position of a parsed text means.
pub fn meant_name(
    file: &FilePath,
    text: &Vec<char>,
    module: &Option<SourceModule>,
    position: Position,
    fixtures: &Vec<Fixture>,
    visible: &Vec<&Fixture>,
) -> (r: Option<String>)
    requires
        fits(text@),
    ensures
        option_view(r) == name_in(
            file@,
            text@,
            option_view(*module),
            position,
            views(fixtures@),
            views(visible@),
        ),
{
    if !is_in_function_params_of(text, module, position) {
        return defined_name(fixtures, file, position);
    }
    match identifier_at_position(text, position) {
        Some(name) => {
            proof {
                lemma_named_from(views(visible@), name@, 0);
            }
            if find_named(visible, &name).is_some() {
                Some(name)
            } else {
                None
            }
        },
        None => None,
    }
}

/// A position means a fixture only where the index has one.
proof fn lemma_meant_name(
    ws: WorkspaceView,
    index: FixtureIndexView,
    file: PathView,
    position: Position,
)
    requires
        source_at(ws, file) matches Some(text) && name_in(
            file,
            text,
            python_module(text),
            position,
            index.fixtures,
            visible_to(ws, index, file),
        ) is Some,
    ensures
        index.fixtures.len() > 0,
{
    let text = source_at(ws, file)->0;
    if in_parameters(text, python_module(text), position) {
        let name = identifier_at(text, position)->0;
        visible_fixture_is_found(ws, index, file, python_body(text), name);
        lemma_named_from(visible_to(ws, index, file), name, 0);
    }
}

impl FixtureIndex {
    /// Where the name at a position of a file leads.
    pub fn definition(&self, ws: &Workspace, file: &FilePath, position: Position) -> (r: Result<
        Option<Location>,
        UnreadableFile,
    >)
        requires
            parseable(ws@),
            is_located(self@),
        ensures
            place_outcome(r) == definition_at(ws@, self@, file@, position),
    {
        match ws.read(file) {
            Some(text) => {
                let chars: Vec<char> = chars_of(text.as_str());
                let module: Option<SourceModule> = parse_module(text.as_str());
                let visible: Vec<&Fixture> = self.visible_fixtures(ws, file);
                match find_target(&chars, &module, position, &visible) {
                    Some(f) => {
                        proof {
                            visible_fixture_is_found(
                                ws@,
                                self@,
                                file@,
                                python_body(text_or_empty(ws@, file@)),
                                identifier_at(chars@, position)->0,
                            );
                        }
                        Ok(Some(Location { uri: uri_for(&f.path), range: f.range }))
                    },
                    None => Ok(None),
                }
            },
            None => Err(UnreadableFile { path: file.clone() }),
        }
    }

    /// The name of the fixture that a position of a file means.
    pub fn fixture_name_at(&self, ws: &Workspace, file: &FilePath, position: Position) -> (r:
        Result<Option<String>, UnreadableFile>)
        requires
            parseable(ws@),
        ensures
            match r {
                Ok(name) => source_at(ws@, file@) matches Some(text) && option_view(name)
                    == name_in(
                    file@,
                    text,
                    python_module(text),
                    position,
                    self@.fixtures,
                    visible_to(ws@, self@, file@),
                ),
                Err(e) => source_at(ws@, file@) is None && e.path@ == file@,
            },
    {
        match ws.read(file) {
            Some(text) => {
                let chars: Vec<char> = chars_of(text.as_str());
                let module: Option<SourceModule> = parse_module(text.as_str());
                let visible: Vec<&Fixture> = self.visible_fixtures(ws, file);
                Ok(meant_name(file, &chars, &module, position, self.fixtures(), &visible))
            },
            None => Err(UnreadableFile { path: file.clone() }),
        }
    }

    /// The uses of the fixture that a position of a file means, in order.
    pub fn references(&self, ws: &Workspace, file: &FilePath, position: Position) -> (r: Result<
        Vec<Location>,
        UnreadableFile,
    >)
        requires
            parseable(ws@),
            is_located(self@),
        ensures
            outcome(r) == references_at(ws@, self@, file@, position),
    {
        let name: String = match self.fixture_name_at(ws, file, position) {
            Ok(Some(name)) => name,
            Ok(None) => {
                let none: Vec<Location> = Vec::new();
                assert(views(none@) =~= Seq::<LocationView>::empty());
                return Ok(none);
            },
            Err(e) => {
                return Err(e);
            },
        };
        proof {
            lemma_meant_name(ws@, self@, file@, position);
        }
        let files: Vec<&FileEntry> = collect_python_files(ws, self.root());
        let ghost all = project_paths(ws@, self@.root);
        let mut out: Vec<Location> = Vec::new();
        let mut i: usize = 0;
        assert(views(out@) =~= Seq::<LocationView>::empty());
        while i < files.len()
            invariant
                parseable(ws@),
                is_absolute(self@.root),
                i <= files@.len(),
                all == project_paths(ws@, self@.root),
                views(files@) == project_sources(ws@, self@.root),
                uses_in_files(ws@, self@, all.take(i as int), name@) == Ok::<
                    Seq<LocationView>,
                    PathView,
                >(views(out@)),
                source_at(ws@, file@) matches Some(text) && name_in(
                    file@,
                    text,
                    python_module(text),
                    position,
                    self@.fixtures,
                    visible_to(ws@, self@, file@),
                ) == Some(name@),
            decreases files@.len() - i,
        {
            let path: &FilePath = &files[i].path;
            proof {
                assert(views(files@)[i as int] == files@[i as int]@);
                assert(all.take(i + 1).drop_last() =~= all.take(i as int));
                assert(all.take(i + 1).last() == path@);
                assert(all[i as int] == path@);
                lemma_project_path(ws@, self@.root, i as int);
                lemma_below_absolute(path@, self@.root);
            }
            let visible: Vec<&Fixture> = self.visible_fixtures(ws, path);
            proof {
                lemma_named_from(views(visible@), name@, 0);
            }
            if find_named(&visible, &name).is_some() {
                match ws.read(path) {
                    Some(text) => {
                        push_uses(path, text.as_str(), &name, &mut out);
                    },
                    None => {
                        proof {
                            lemma_uses_error(ws@, self@, all, name@, i + 1);
                        }
                        return Err(UnreadableFile { path: path.clone() });
                    },
                }
            }
            i = i + 1;
        }
        assert(all.take(all.len() as int) =~= all);
        Ok(sort_locations(out))
    }
}

/// The parameter is one of the name, of a function in the text of the file, nested ones and methods
/// included, and stands at the place.
pub open spec fn is_parameter_at(
    path: PathView,
    text: Seq<char>,
    name: Seq<char>,
    l: LocationView,
    f: FunctionView,
    k: int,
) -> bool {
    &&& functions_in(python_body(text), true).contains(f)
    &&& 0 <= k < f.parameters.len()
    &&& f.parameters[k].name == name
    &&& l.uri == uri_of(path)
    &&& l.range.start == position_of_offset(text, f.parameters[k].full_range.start as int)
    &&& l.range.end == position_of_offset(text, f.parameters[k].full_range.end as int)
}

proof fn lemma_uses_in(path: PathView, text: Seq<char>, name: Seq<char>, l: LocationView)
    ensures
        uses_in(path, text, name).contains(l) <==> exists|f: FunctionView, k: int|
            #[trigger] is_parameter_at(path, text, name, l, f, k),
{
    let body = python_body(text);
    let ranges = parameter_ranges(text, body, name);
    let place = |range: Range| LocationView { uri: uri_of(path), range };
    let all = uses_in(path, text, name);
    assert(all == ranges.map_values(place));
    parameters_of_the_name_are_found(text, body, name, l.range);
    if all.contains(l) {
        let i = all.index_of(l);
        assert(ranges[i] == l.range);
        assert(ranges.contains(l.range));
        let (f, k) = choose|f: FunctionView, k: int|
            functions_in(body, true).contains(f) && 0 <= k < f.parameters.len() && (
            #[trigger] f.parameters[k]).name == name && l.range == (Range {
                start: position_of_offset(text, f.parameters[k].full_range.start as int),
                end: position_of_offset(text, f.parameters[k].full_range.end as int),
            });
        assert(is_parameter_at(path, text, name, l, f, k));
    }
    if exists|f: FunctionView, k: int| #[trigger] is_parameter_at(path, text, name, l, f, k) {
        let (f, k) = choose|f: FunctionView, k: int| #[trigger]
            is_parameter_at(path, text, name, l, f, k);
        assert(f.parameters[k].name == name);
        assert(ranges.contains(l.range));
        let i = ranges.index_of(l.range);
        assert(all[i] == l);
    }
}

/// The place is a parameter of the name in a readable file of the project that sees a fixture of
/// the name.
pub open spec fn is_reference(
    ws: WorkspaceView,
    index: FixtureIndexView,
    name: Seq<char>,
    path: PathView,
    l: LocationView,
) -> bool {
    &&& project_paths(ws, index.root).contains(path)
    &&& has_fixture(visible_to(ws, index, path), name)
    &&& source_at(ws, path) matches Some(text) && exists|f: FunctionView, k: int|
        #[trigger] is_parameter_at(path, text, name, l, f, k)
}

/// The references of a fixture are exactly the parameters of its name in the files of the project
/// that see it, whichever function or method they stand in.
pub proof fn references_are_the_parameters(
    ws: WorkspaceView,
    index: FixtureIndexView,
    file: PathView,
    text: Seq<char>,
    position: Position,
    name: Seq<char>,
    l: LocationView,
)
    requires
        source_at(ws, file) == Some(text),
        name_in(
            file,
            text,
            python_module(text),
            position,
            index.fixtures,
            visible_to(ws, index, file),
        ) == Some(name),
        references_at(ws, index, file, position) is Ok,
    ensures
        references_at(ws, index, file, position)->Ok_0.contains(l) <==> exists|path: PathView|
            #[trigger] is_reference(ws, index, name, path, l),
        is_ordered(references_at(ws, index, file, position)->Ok_0),
{
    broadcast use vstd::seq_lib::group_to_multiset_ensures;

    let files = project_paths(ws, index.root);
    let found = uses_in_files(ws, index, files, name)->Ok_0;
    uses_are_found(ws, index, files, name, l);
    sorting_orders_places(found);
    assert(sorted(found).contains(l) <==> sorted(found).to_multiset().count(l) > 0);
    assert(found.contains(l) <==> found.to_multiset().count(l) > 0);
    if found.contains(l) {
        let k = choose|k: int|
            0 <= k < files.len() && is_use(ws, index, #[trigger] files[k], name, l);
        lemma_uses_in(files[k], source_at(ws, files[k])->0, name, l);
        assert(is_reference(ws, index, name, files[k], l));
    }
    if exists|path: PathView| #[trigger] is_reference(ws, index, name, path, l) {
        let path = choose|path: PathView| #[trigger] is_reference(ws, index, name, path, l);
        lemma_uses_in(path, source_at(ws, path)->0, name, l);
        let k = files.index_of(path);
        assert(is_use(ws, index, files[k], name, l));
    }
}

/// Where a position means no fixture, there are no references; a file that cannot be read has
/// none, and says so.
pub proof fn nothing_meant_has_no_references(
    ws: WorkspaceView,
    index: FixtureIndexView,
    file: PathView,
    position: Position,
)
    ensures
        source_at(ws, file) is None ==> references_at(ws, index, file, position) == Err::<
            Seq<LocationView>,
            PathView,
        >(file) && definition_at(ws, index, file, position) == Err::<
            Option<LocationView>,
            PathView,
        >(file),
        source_at(ws, file) matches Some(text) && name_in(
            file,
            text,
            python_module(text),
            position,
            index.fixtures,
            visible_to(ws, index, file),
        ) is None ==> references_at(ws, index, file, position) == Ok::<
            Seq<LocationView>,
            PathView,
        >(Seq::empty()),
{
}

/// Among the parameters of a function a position means the name that stands there, if the file
/// sees a fixture of it; elsewhere it means nothing but the fixtures that are defined there.
pub proof fn positions_mean_visible_names(
    file: PathView,
    text: Seq<char>,
    module: Option<SourceModuleView>,
    position: Position,
    fixtures: Seq<FixtureView>,
    visible: Seq<FixtureView>,
    name: Seq<char>,
)
    ensures
        in_parameters(text, module, position) ==> (name_in(
            file,
            text,
            module,
            position,
            fixtures,
            visible,
        ) == Some(name) <==> identifier_at(text, position) == Some(name) && has_fixture(
            visible,
            name,
        )),
        !in_parameters(text, module, position) && name_in(
            file,
            text,
            module,
            position,
            fixtures,
            visible,
        ) is Some ==> exists|i: int|
            0 <= i < fixtures.len() && is_defined_at(#[trigger] fixtures[i], file, position)
                && name_in(file, text, module, position, fixtures, visible) == Some(
                fixtures[i].name,
            ),
{
    if !in_parameters(text, module, position) {
        lemma_defined_somewhere(fixtures, file, position, 0);
    }
}

proof fn lemma_defined_somewhere(
    fixtures: Seq<FixtureView>,
    file: PathView,
    position: Position,
    from: int,
)
    requires
        0 <= from <= fixtures.len(),
    ensures
        defined_name_from(fixtures, file, position, from) is Some ==> exists|i: int|
            0 <= i < fixtures.len() && is_defined_at(#[trigger] fixtures[i], file, position)
                && defined_name_from(fixtures, file, position, from) == Some(fixtures[i].name),
    decreases fixtures.len() - from,
{
    if from < fixtures.len() {
        if is_defined_at(fixtures[from], file, position) {
            assert(is_defined_at(fixtures[from], file, position));
        } else {
            lemma_defined_somewhere(fixtures, file, position, from + 1);
        }
    }
}

/// From a parameter the way leads to where a fixture of its name is defined, the one that the file
/// sees best.
pub proof fn definitions_lead_to_the_fixture(
    ws: WorkspaceView,
    index: FixtureIndexView,
    file: PathView,
    text: Seq<char>,
    position: Position,
    f: FixtureView,
)
    requires
        source_at(ws, file) == Some(text),
        in_parameters(text, python_module(text), position),
        identifier_at(text, position) == Some(f.name),
        index.fixtures.contains(f),
        visibility_score(
            f,
            file,
            imports_in(ws, index.root, python_body(text)),
            plugin_paths(ws, index.root, file),
            index.root,
        ) is Some,
    ensures
        exists|g: FixtureView|
            {
                &&& #[trigger] index.fixtures.contains(g)
                &&& g.name == f.name
                &&& visibility_score(
                    g,
                    file,
                    imports_in(ws, index.root, python_body(text)),
                    plugin_paths(ws, index.root, file),
                    index.root,
                ) is Some
                &&& visibility_score(
                    g,
                    file,
                    imports_in(ws, index.root, python_body(text)),
                    plugin_paths(ws, index.root, file),
                    index.root,
                )->0 >= visibility_score(
                    f,
                    file,
                    imports_in(ws, index.root, python_body(text)),
                    plugin_paths(ws, index.root, file),
                    index.root,
                )->0
                &&& definition_at(ws, index, file, position) == Ok::<
                    Option<LocationView>,
                    PathView,
                >(Some(LocationView { uri: uri_of(g.path), range: g.range }))
            },
{
    seen_fixtures_are_visible(ws, index, file, python_body(text), f);
    let g = named(visible_in(ws, index, file, python_body(text)), f.name)->0;
    assert(index.fixtures.contains(g));
}

/// Places of one file are in the order of their lines, and on a line in the order in which they
/// start; files are in the order of their URLs.
pub proof fn places_are_ordered_by_file_and_line(a: LocationView, b: LocationView)
    ensures
        a.uri == b.uri ==> (location_before(a, b) <==> a.range.start != b.range.start && not_after(
            a.range.start,
            b.range.start,
        )),
        a.uri != b.uri ==> (location_before(a, b) <==> before(a.uri, b.uri)),
{
}

/// There is a name at a position exactly if a name character stands directly before it or at it.
pub proof fn names_stand_at_positions(text: Seq<char>, position: Position)
    ensures
        identifier_at(text, position) is Some <==> (index_of_position(text, position) < text.len()
            && is_part(text[index_of_position(text, position)])) || (index_of_position(
            text,
            position,
        ) > 0 && is_part(text[index_of_position(text, position) - 1])),
{
    let at = index_of_position(text, position);
    lemma_index_in_text(text, position, 0);
    lemma_word_end_runs(text, at);
    lemma_word_start_runs(text, at);
}

/// References fail exactly if a file of the project that sees the fixture cannot be read, and then
/// name such a file.
pub proof fn references_fail_where_users_cannot_be_read(
    ws: WorkspaceView,
    index: FixtureIndexView,
    files: Seq<PathView>,
    name: Seq<char>,
)
    ensures
        uses_in_files(ws, index, files, name) is Err <==> exists|k: int|
            0 <= k < files.len() && has_fixture(visible_to(ws, index, #[trigger] files[k]), name)
                && source_at(ws, files[k]) is None,
        uses_in_files(ws, index, files, name) matches Err(path) ==> files.contains(path)
            && has_fixture(visible_to(ws, index, path), name) && source_at(ws, path) is None,
    decreases files.len(),
{
    if files.len() > 0 {
        let fewer = files.drop_last();
        let last = files.len() - 1;
        references_fail_where_users_cannot_be_read(ws, index, fewer, name);
        match uses_in_files(ws, index, fewer, name) {
            Ok(_) => {
                if has_fixture(visible_to(ws, index, files.last()), name) && source_at(
                    ws,
                    files.last(),
                ) is None {
                    assert(files[last] == files.last());
                }
                assert forall|k: int|
                    0 <= k < files.len() && has_fixture(
                        visible_to(ws, index, #[trigger] files[k]),
                        name,
                    ) && source_at(ws, files[k]) is None implies k == last by {
                    if k < last {
                        assert(fewer[k] == files[k]);
                    }
                }
            },
            Err(path) => {
                let k = fewer.index_of(path);
                assert(files[k] == path);
            },
        }
    }
}

/// The place starts where the other does, in the same file.
pub open spec fn starts_alike(a: LocationView, b: LocationView) -> bool {
    a.uri == b.uri && a.range.start == b.range.start
}

proof fn lemma_filter_of_three(
    head: Seq<LocationView>,
    one: LocationView,
    tail: Seq<LocationView>,
    keep: spec_fn(LocationView) -> bool,
)
    ensures
        (head + seq![one] + tail).filter(keep) == head.filter(keep) + (if keep(one) {
            seq![one]
        } else {
            Seq::empty()
        }) + tail.filter(keep),
{
    let single = seq![one];
    Seq::filter_distributes_over_add(head, single, keep);
    Seq::filter_distributes_over_add(head + single, tail, keep);
    reveal(Seq::filter);
    assert(single.drop_last() =~= Seq::<LocationView>::empty());
    assert(single.drop_last().filter(keep) =~= Seq::<LocationView>::empty());
    assert(single.last() == one);
    assert(single.filter(keep) =~= (if keep(one) {
        seq![one]
    } else {
        Seq::empty()
    }));
}

proof fn lemma_filter_nothing(list: Seq<LocationView>, keep: spec_fn(LocationView) -> bool)
    requires
        forall|i: int| 0 <= i < list.len() ==> !keep(#[trigger] list[i]),
    ensures
        list.filter(keep) == Seq::<LocationView>::empty(),
    decreases list.len(),
{
    reveal(Seq::filter);
    if list.len() > 0 {
        let fewer = list.drop_last();
        assert forall|i: int| 0 <= i < fewer.len() implies !keep(#[trigger] fewer[i]) by {
            assert(fewer[i] == list[i]);
        }
        lemma_filter_nothing(fewer, keep);
        assert(!keep(list[list.len() - 1]));
    }
}

/// The places that start as the given one does.
pub open spec fn alike_to(l: LocationView) -> spec_fn(LocationView) -> bool {
    |m: LocationView| starts_alike(m, l)
}

/// Places that start alike keep the order in which they were found.
#[verifier::spinoff_prover]
pub proof fn sorting_keeps_the_order_of_equals(list: Seq<LocationView>, l: LocationView)
    ensures
        sorted(list).filter(alike_to(l)) == list.filter(alike_to(l)),
    decreases list.len(),
{
    let alike = alike_to(l);
    if list.len() > 0 {
        let fewer = list.drop_last();
        let rest = sorted(fewer);
        let last = list.last();
        let none = Seq::<LocationView>::empty();
        sorting_keeps_the_order_of_equals(fewer, l);
        sorting_orders_places(fewer);
        lemma_slot(rest, last, rest.len() as int);
        let slot = slot_below(rest, last, rest.len() as int);
        let (head, tail) = (rest.take(slot), rest.skip(slot));
        assert(rest =~= head + tail);
        assert(sorted(list) =~= head + seq![last] + tail);
        assert(list =~= fewer + seq![last] + none);
        lemma_filter_of_three(head, last, tail, alike);
        lemma_filter_of_three(fewer, last, none, alike);
        lemma_filter_nothing(none, alike);
        Seq::filter_distributes_over_add(head, tail, alike);
        if alike(last) {
            assert forall|k: int| 0 <= k < tail.len() implies !alike(#[trigger] tail[k]) by {
                assert(tail[k] == rest[slot + k]);
                assert(location_before(last, rest[slot + k]));
            }
            lemma_filter_nothing(tail, alike);
        }
        let middle: Seq<LocationView> = if alike(last) {
            seq![last]
        } else {
            none
        };
        assert(sorted(list).filter(alike) == head.filter(alike) + middle + tail.filter(alike));
        assert(list.filter(alike) == fewer.filter(alike) + middle + none);
        assert(fewer.filter(alike) == head.filter(alike) + tail.filter(alike));
        assert(sorted(list).filter(alike) =~= list.filter(alike));
    } else {
        assert(sorted(list) =~= list);
    }
}

/// A position on the name of a definition, from its first character to behind its last one, means
/// a fixture that the file defines there, where it lies in no parameter list.
pub proof fn positions_on_definitions_mean_them(
    file: PathView,
    text: Seq<char>,
    module: Option<SourceModuleView>,
    position: Position,
    fixtures: Seq<FixtureView>,
    visible: Seq<FixtureView>,
    i: int,
)
    requires
        !in_parameters(text, module, position),
        0 <= i < fixtures.len(),
        fixtures[i].path == file,
        not_after(fixtures[i].name_range.start, position),
        not_after(position, fixtures[i].name_range.end),
        forall|k: int|
            0 <= k < i ==> (#[trigger] fixtures[k]).path != file || !not_after(
                fixtures[k].name_range.start,
                position,
            ) || !not_after(position, fixtures[k].name_range.end),
    ensures
        name_in(file, text, module, position, fixtures, visible) == Some(fixtures[i].name),
{
    definition_means_its_fixture(file, text, module, position, fixtures, visible, i);
    let k = choose|k: int|
        0 <= k <= i && is_defined_at(#[trigger] fixtures[k], file, position) && name_in(
            file,
            text,
            module,
            position,
            fixtures,
            visible,
        ) == Some(fixtures[k].name);
    if k < i {
        assert(fixtures[k].path == file);
    }
}

/// Off every name that the file defines, and outside parameter lists, a position means nothing.
pub proof fn positions_off_definitions_mean_nothing(
    file: PathView,
    text: Seq<char>,
    module: Option<SourceModuleView>,
    position: Position,
    fixtures: Seq<FixtureView>,
    visible: Seq<FixtureView>,
)
    requires
        !in_parameters(text, module, position),
        forall|k: int|
            0 <= k < fixtures.len() ==> (#[trigger] fixtures[k]).path != file || !not_after(
                fixtures[k].name_range.start,
                position,
            ) || !not_after(position, fixtures[k].name_range.end),
    ensures
        name_in(file, text, module, position, fixtures, visible) is None,
{
    positions_mean_visible_names(
        file,
        text,
        module,
        position,
        fixtures,
        visible,
        Seq::empty(),
    );
}

/// What comes of a request for a place is the place that was found, if there is one, or the file
/// that could not be read.
pub proof fn places_hold_what_was_found(l: Location, e: UnreadableFile)
    ensures
        place_outcome(Ok(Some(l))) == Ok::<Option<LocationView>, PathView>(
            Some(LocationView { uri: l.uri@, range: l.range }),
        ),
        place_outcome(Ok(None)) == Ok::<Option<LocationView>, PathView>(None),
        place_outcome(Err(e)) == Err::<Option<LocationView>, PathView>(e.path@),
{
}

/// Uses are found file by file, each as often as it stands there.
pub proof fn uses_are_found_file_by_file(
    ws: WorkspaceView,
    index: FixtureIndexView,
    files: Seq<PathView>,
    path: PathView,
    name: Seq<char>,
)
    requires
        uses_in_files(ws, index, files, name) is Ok,
    ensures
        has_fixture(visible_to(ws, index, path), name) && source_at(ws, path) is Some
            ==> uses_in_files(ws, index, files.push(path), name) == Ok::<
            Seq<LocationView>,
            PathView,
        >(
            uses_in_files(ws, index, files, name)->Ok_0 + uses_in(
                path,
                source_at(ws, path)->0,
                name,
            ),
        ),
        !has_fixture(visible_to(ws, index, path), name) ==> uses_in_files(
            ws,
            index,
            files.push(path),
            name,
        ) == uses_in_files(ws, index, files, name),
        source_at(ws, path) is Some ==> uses_in(path, source_at(ws, path)->0, name).len()
            == parameter_ranges(
            source_at(ws, path)->0,
            python_body(source_at(ws, path)->0),
            name,
        ).len(),
{
    assert(files.push(path).drop_last() =~= files);
}

/// References are as many as the uses that are found.
pub proof fn references_are_as_many_as_the_uses(
    ws: WorkspaceView,
    index: FixtureIndexView,
    file: PathView,
    text: Seq<char>,
    position: Position,
    name: Seq<char>,
)
    requires
        source_at(ws, file) == Some(text),
        name_in(
            file,
            text,
            python_module(text),
            position,
            index.fixtures,
            visible_to(ws, index, file),
        ) == Some(name),
    ensures
        match uses_in_files(ws, index, project_paths(ws, index.root), name) {
            Ok(found) => references_at(ws, index, file, position) is Ok && references_at(
                ws,
                index,
                file,
                position,
            )->Ok_0.to_multiset() == found.to_multiset(),
            Err(path) => references_at(ws, index, file, position) == Err::<
                Seq<LocationView>,
                PathView,
            >(path),
        },
{
    match uses_in_files(ws, index, project_paths(ws, index.root), name) {
        Ok(found) => {
            sorting_orders_places(found);
        },
        Err(_) => {},
    }
}

}
