//! Function parameters: where they stand, how they are annotated, and whether a position lies
//! among them.
use crate::annotation::{is_ident_char, is_part, lemma_word_end_runs, word_end};
use crate::position::{
    byte_to_position, character_survives_round_trip, index_of_position, lemma_index_in_text,
    offset_of_position, position_of_offset, position_to_byte, position_to_index,
    range_for_text_range, range_of_offsets, reads, text_at, Position, Range,
};
use crate::syntax::{
    collect_functions, functions_follow_the_text, functions_in, functions_of_one_statement,
    parse_body, parse_module, python_body, python_module, ByteRange, FunctionDefinition,
    FunctionParameter, FunctionParameterView, FunctionView, SourceModule, SourceModuleView,
    Statement, StatementKindView, StatementView,
};
use crate::text::{
    byte_len, byte_len_of, byte_slice, byte_slice_of, char_index, chars_of, contains, contains_in,
    find, find_in, fits, is_index_of, last_occurrence_is_found, lemma_byte_len_add,
    lemma_byte_len_monotonic, lemma_byte_slice_some, lemma_filter_map_count, lemma_filter_map_has,
    lemma_filter_map_order, lemma_find, lemma_flat_map_has, lemma_flat_map_source, lemma_occurs_one,
    lemma_views_push, occurs_at, option_view, rfind, rfind_in, starts_with, string_of, substring,
    subvec, trim, trimmed, views,
};
use vstd::prelude::*;

verus! {

/// A parameter: where its name stands, and its annotation with the place of that.
#[derive(Debug)]
pub struct ParameterAnnotationInfo {
    pub name: String,
    pub name_range: Range,
    pub annotation: Option<(String, Range)>,
}

/// What [`ParameterAnnotationInfo`] stands for.
pub struct ParameterAnnotationInfoView {
    pub name: Seq<char>,
    pub name_range: Range,
    pub annotation: Option<(Seq<char>, Range)>,
}

impl View for ParameterAnnotationInfo {
    type V = ParameterAnnotationInfoView;

    open spec fn view(&self) -> ParameterAnnotationInfoView {
        ParameterAnnotationInfoView {
            name: self.name@,
            name_range: self.name_range,
            annotation: match self.annotation {
                Some((text, range)) => Some((text@, range)),
                None => None,
            },
        }
    }
}

/// Where the parameter stands, if it has the name.
pub open spec fn named_range(text: Seq<char>, p: FunctionParameterView, name: Seq<char>) -> Option<
    Range,
> {
    if p.name == name {
        Some(range_of_offsets(text, p.full_range.start as int, p.full_range.end as int))
    } else {
        None
    }
}

/// Where the parameters of a function stand that have the name.
pub open spec fn named_ranges(text: Seq<char>, f: FunctionView, name: Seq<char>) -> Seq<Range> {
    f.parameters.filter_map(|p: FunctionParameterView| named_range(text, p, name))
}

/// Where the parameters of a body stand that have the name, those of nested functions included.
pub open spec fn parameter_ranges(
    text: Seq<char>,
    body: Seq<StatementView>,
    name: Seq<char>,
) -> Seq<Range> {
    functions_in(body, true).flat_map(|f: FunctionView| named_ranges(text, f, name))
}

fn push_named_ranges(
    text: &Vec<char>,
    f: &FunctionDefinition,
    name: &String,
    out: &mut Vec<Range>,
)
    requires
        fits(text@),
    ensures
        final(out)@ == old(out)@ + named_ranges(text@, f@, name@),
{
    let ghost start = out@;
    let ghost all = f@.parameters;
    let ghost g = |p: FunctionParameterView| named_range(text@, p, name@);
    let mut i: usize = 0;
    assert(start + all.take(0).filter_map(g) =~= start);
    while i < f.parameters.len()
        invariant
            fits(text@),
            i <= f.parameters@.len(),
            all == views(f.parameters@),
            g == (|p: FunctionParameterView| named_range(text@, p, name@)),
            out@ == start + all.take(i as int).filter_map(g),
        decreases f.parameters@.len() - i,
    {
        let p: &FunctionParameter = &f.parameters[i];
        proof {
            all.lemma_filter_map_take_succ(g, i as int);
            assert(all[i as int] == p@);
        }
        if p.name == *name {
            out.push(range_for_text_range(text, p.full_range));
        }
        assert(out@ =~= start + all.take(i + 1).filter_map(g));
        i = i + 1;
    }
    assert(all.take(all.len() as int) =~= all);
}

/// Where the parameters of a parsed text stand that have a name.
pub fn parameter_name_ranges_in(text: &Vec<char>, body: &Vec<Statement>, name: &String) -> (r: Vec<
    Range,
>)
    requires
        fits(text@),
    ensures
        r@ == parameter_ranges(text@, views(body@), name@),
{
    let mut functions: Vec<&FunctionDefinition> = Vec::new();
    collect_functions(body, true, &mut functions);
    let ghost all = functions_in(views(body@), true);
    assert(views(functions@) =~= all);
    let ghost g = |f: FunctionView| named_ranges(text@, f, name@);
    let mut out: Vec<Range> = Vec::new();
    let mut i: usize = 0;
    assert(out@ =~= all.take(0).flat_map(g));
    while i < functions.len()
        invariant
            fits(text@),
            i <= functions@.len(),
            all == views(functions@),
            g == (|f: FunctionView| named_ranges(text@, f, name@)),
            out@ == all.take(i as int).flat_map(g),
        decreases functions@.len() - i,
    {
        proof {
            all.lemma_flat_map_take_append(g, i as int);
            assert(all[i as int] == functions@[i as int]@);
        }
        push_named_ranges(text, functions[i], name, &mut out);
        i = i + 1;
    }
    assert(all.take(all.len() as int) =~= all);
    out
}

/// Where the parameters of a text stand that have a name; nowhere if it is no valid module.
pub fn parameter_name_ranges(text: &str, name: &String) -> (r: Vec<Range>)
    requires
        fits(text@),
    ensures
        r@ == parameter_ranges(text@, python_body(text@), name@),
{
    let body: Vec<Statement> = parse_body(text);
    parameter_name_ranges_in(&chars_of(text), &body, name)
}

/// The text of an annotation and where it stands.
pub open spec fn annotation_in(text: Seq<char>, range: ByteRange) -> Option<(Seq<char>, Range)> {
    match byte_slice(text, range.start as int, range.end as int) {
        Some(source) => Some(
            (trim(source), range_of_offsets(text, range.start as int, range.end as int)),
        ),
        None => None,
    }
}

/// Where a name first stands in a part of a text.
pub open spec fn name_range_in(text: Seq<char>, part: ByteRange, name: Seq<char>) -> Option<Range> {
    match byte_slice(text, part.start as int, part.end as int) {
        Some(source) => match find(source, name) {
            Some(i) => {
                let at = part.start + byte_len(source.take(i));
                Some(range_of_offsets(text, at, at + byte_len(name)))
            },
            None => None,
        },
        None => None,
    }
}

/// Where a name first stands in a part of a text.
pub fn find_name_range(text: &Vec<char>, part: ByteRange, name: &String) -> (r: Option<Range>)
    requires
        fits(text@),
    ensures
        r == name_range_in(text@, part, name@),
{
    match byte_slice_of(text, part.start as usize, part.end as usize) {
        Some(source) => {
            let wanted: Vec<char> = chars_of(name.as_str());
            proof {
                lemma_byte_slice_some(text@, part.start as int, part.end as int);
                lemma_find(source@, wanted@);
            }
            match find_in(&source, &wanted) {
                Some(i) => {
                    proof {
                        let end = i + wanted@.len();
                        lemma_byte_len_monotonic(source@, i as int, end);
                        assert(source@.take(end) =~= source@.take(i as int) + wanted@);
                        lemma_byte_len_add(source@.take(i as int), wanted@);
                        assert(wanted@.take(wanted@.len() as int) =~= wanted@);
                    }
                    let start: usize = part.start as usize + byte_len_of(&source, i);
                    let end: usize = start + byte_len_of(&wanted, wanted.len());
                    Some(
                        Range {
                            start: byte_to_position(text, start),
                            end: byte_to_position(text, end),
                        },
                    )
                },
                None => None,
            }
        },
        None => None,
    }
}

/// What stands at the range of a name is the name.
pub proof fn names_stand_at_their_ranges(text: Seq<char>, part: ByteRange, name: Seq<char>)
    requires
        fits(text),
    ensures
        name_range_in(text, part, name) matches Some(range) ==> reads(text, range, name),
{
    if name_range_in(text, part, name) is Some {
        let source = byte_slice(text, part.start as int, part.end as int)->0;
        let i = char_index(text, part.start as int)->0;
        let j = char_index(text, part.end as int)->0;
        lemma_byte_slice_some(text, part.start as int, part.end as int);
        assert(is_index_of(text, part.start as int, i));
        assert(is_index_of(text, part.end as int, j));
        lemma_find(source, name);
        let k = find(source, name)->0;
        let end = k + name.len();
        assert(source == text.subrange(i, j));
        assert(source.subrange(k, end) == name);
        assert(text.take(i + k) =~= text.take(i) + source.take(k));
        lemma_byte_len_add(text.take(i), source.take(k));
        assert(text.take(i + end) =~= text.take(i + k) + source.subrange(k, end));
        lemma_byte_len_add(text.take(i + k), name);
        character_survives_round_trip(text, i + k);
        character_survives_round_trip(text, i + end);
        assert(text.subrange(i + k, i + end) =~= source.subrange(k, end));
    }
}

/// What stands at the range of an annotation is the annotation, white space at its ends apart.
pub proof fn annotations_stand_at_their_ranges(text: Seq<char>, part: ByteRange)
    requires
        fits(text),
    ensures
        annotation_in(text, part) matches Some((written, range)) ==> written == trim(
            text_at(text, range),
        ) && reads(text, range, text_at(text, range)),
{
    if annotation_in(text, part) is Some {
        let i = char_index(text, part.start as int)->0;
        let j = char_index(text, part.end as int)->0;
        lemma_byte_slice_some(text, part.start as int, part.end as int);
        assert(is_index_of(text, part.start as int, i));
        assert(is_index_of(text, part.end as int, j));
        character_survives_round_trip(text, i);
        character_survives_round_trip(text, j);
    }
}

/// What a text says of a parameter.
pub open spec fn parameter_info(text: Seq<char>, p: FunctionParameterView) -> Option<
    ParameterAnnotationInfoView,
> {
    match name_range_in(text, p.range, p.name) {
        Some(name_range) => Some(
            ParameterAnnotationInfoView {
                name: p.name,
                name_range,
                annotation: match p.annotation {
                    Some(range) => annotation_in(text, range),
                    None => None,
                },
            },
        ),
        None => None,
    }
}

/// What a text says of the parameters of a function.
pub open spec fn function_infos(text: Seq<char>, f: FunctionView) -> Seq<
    ParameterAnnotationInfoView,
> {
    f.parameters.filter_map(|p: FunctionParameterView| parameter_info(text, p))
}

/// What a text says of its parameters, those of nested functions included.
pub open spec fn parameter_infos(text: Seq<char>, body: Seq<StatementView>) -> Seq<
    ParameterAnnotationInfoView,
> {
    functions_in(body, true).flat_map(|f: FunctionView| function_infos(text, f))
}

/// What is said of a parameter stands in the text: its name at the range of the name, and its
/// annotation, white space at the ends apart, at the range of the annotation.
pub proof fn parameters_stand_in_the_text(text: Seq<char>, body: Seq<StatementView>, i: int)
    requires
        fits(text),
        0 <= i < parameter_infos(text, body).len(),
    ensures
        reads(
            text,
            parameter_infos(text, body)[i].name_range,
            parameter_infos(text, body)[i].name,
        ),
        parameter_infos(text, body)[i].annotation matches Some((written, range)) ==> written
            == trim(text_at(text, range)) && reads(text, range, text_at(text, range)),
{
    let f = |f: FunctionView| function_infos(text, f);
    let all = functions_in(body, true);
    let info = parameter_infos(text, body)[i];
    assert(all.flat_map(f).contains(info));
    let k = lemma_flat_map_source(all, f, info);
    let g = |p: FunctionParameterView| parameter_info(text, p);
    let parameters = all[k].parameters;
    parameters.lemma_filter_map_contains(g, info);
    let p = choose|p: FunctionParameterView| #[trigger]
        parameters.contains(p) && g(p) == Some(info);
    names_stand_at_their_ranges(text, p.range, p.name);
    match p.annotation {
        Some(range) => {
            annotations_stand_at_their_ranges(text, range);
        },
        None => {},
    }
}

fn parameter_annotation_info(text: &Vec<char>, p: &FunctionParameter) -> (r: Option<
    ParameterAnnotationInfo,
>)
    requires
        fits(text@),
    ensures
        option_view(r) == parameter_info(text@, p@),
{
    match find_name_range(text, p.range, &p.name) {
        Some(name_range) => {
            let annotation: Option<(String, Range)> = match p.annotation {
                Some(range) => match byte_slice_of(text, range.start as usize, range.end as usize) {
                    Some(source) => Some(
                        (string_of(&trimmed(&source)), range_for_text_range(text, range)),
                    ),
                    None => None,
                },
                None => None,
            };
            Some(ParameterAnnotationInfo { name: p.name.clone(), name_range, annotation })
        },
        None => None,
    }
}

fn push_infos(text: &Vec<char>, f: &FunctionDefinition, out: &mut Vec<ParameterAnnotationInfo>)
    requires
        fits(text@),
    ensures
        views(final(out)@) == views(old(out)@) + function_infos(text@, f@),
{
    let ghost start = views(out@);
    let ghost all = f@.parameters;
    let ghost g = |p: FunctionParameterView| parameter_info(text@, p);
    let mut i: usize = 0;
    assert(start + all.take(0).filter_map(g) =~= start);
    while i < f.parameters.len()
        invariant
            fits(text@),
            i <= f.parameters@.len(),
            all == views(f.parameters@),
            g == (|p: FunctionParameterView| parameter_info(text@, p)),
            views(out@) == start + all.take(i as int).filter_map(g),
        decreases f.parameters@.len() - i,
    {
        proof {
            all.lemma_filter_map_take_succ(g, i as int);
            assert(all[i as int] == f.parameters@[i as int]@);
        }
        match parameter_annotation_info(text, &f.parameters[i]) {
            Some(info) => {
                proof {
                    lemma_views_push(out@, info);
                }
                out.push(info);
            },
            None => {},
        }
        assert(views(out@) =~= start + all.take(i + 1).filter_map(g));
        i = i + 1;
    }
    assert(all.take(all.len() as int) =~= all);
}

/// What a parsed text says of its parameters.
pub fn parameter_annotation_infos_in(text: &Vec<char>, body: &Vec<Statement>) -> (r: Vec<
    ParameterAnnotationInfo,
>)
    requires
        fits(text@),
    ensures
        views(r@) == parameter_infos(text@, views(body@)),
{
    let mut functions: Vec<&FunctionDefinition> = Vec::new();
    collect_functions(body, true, &mut functions);
    let ghost all = functions_in(views(body@), true);
    assert(views(functions@) =~= all);
    let ghost g = |f: FunctionView| function_infos(text@, f);
    let mut out: Vec<ParameterAnnotationInfo> = Vec::new();
    let mut i: usize = 0;
    assert(views(out@) =~= all.take(0).flat_map(g));
    while i < functions.len()
        invariant
            fits(text@),
            i <= functions@.len(),
            all == views(functions@),
            g == (|f: FunctionView| function_infos(text@, f)),
            views(out@) == all.take(i as int).flat_map(g),
        decreases functions@.len() - i,
    {
        proof {
            all.lemma_flat_map_take_append(g, i as int);
            assert(all[i as int] == functions@[i as int]@);
        }
        push_infos(text, functions[i], &mut out);
        i = i + 1;
    }
    assert(all.take(all.len() as int) =~= all);
    out
}

/// What a text says of its parameters; nothing if it is no valid module.
pub fn parameter_annotation_infos(text: &str) -> (r: Vec<ParameterAnnotationInfo>)
    requires
        fits(text@),
    ensures
        views(r@) == parameter_infos(text@, python_body(text@)),
{
    let body: Vec<Statement> = parse_body(text);
    parameter_annotation_infos_in(&chars_of(text), &body)
}

/// The offset lies in the range or at one of its ends.
pub open spec fn spans(range: ByteRange, offset: int) -> bool {
    range.start <= offset <= range.end
}

/// The first function, from `i` on, in which the offset lies.
pub open spec fn function_from(functions: Seq<FunctionView>, offset: int, i: int) -> Option<
    FunctionView,
>
    decreases functions.len() - i,
{
    if i < 0 || i >= functions.len() {
        None
    } else if spans(functions[i].range, offset) {
        Some(functions[i])
    } else {
        function_from(functions, offset, i + 1)
    }
}

/// The first function of a body, methods included, in which the offset lies.
pub open spec fn function_at(body: Seq<StatementView>, offset: int) -> Option<FunctionView> {
    function_from(functions_in(body, false), offset, 0)
}

/// The text from the last `def ` before a position up to the position.
pub open spec fn open_header(text: Seq<char>, position: Position) -> Option<Seq<char>> {
    let before = text.take(index_of_position(text, position));
    match rfind(before, "def "@) {
        Some(at) => Some(before.skip(at)),
        None => None,
    }
}

/// What follows the first opening bracket of a header.
pub open spec fn after_bracket(header: Seq<char>) -> Option<Seq<char>> {
    match find(header, "("@) {
        Some(open) => Some(header.skip(open + 1)),
        None => None,
    }
}

/// The text before the position looks like the start of a parameter list: a `def` without a
/// colon after it, and an opening bracket without a closing one.
pub open spec fn looks_like_parameters(text: Seq<char>, position: Position) -> bool {
    match open_header(text, position) {
        Some(header) => match after_bracket(header) {
            Some(params) => !contains(header, ":"@) && !contains(params, ")"@),
            None => false,
        },
        None => false,
    }
}

/// The position lies in the parameter list of a function of the parsed text.
pub open spec fn in_parameters(
    text: Seq<char>,
    module: Option<SourceModuleView>,
    position: Position,
) -> bool {
    match module {
        Some(m) => if m.invalid_syntax {
            looks_like_parameters(text, position)
        } else {
            let offset = offset_of_position(text, position) as int;
            match function_at(m.body, offset) {
                Some(f) => spans(f.parameters_range, offset),
                None => false,
            }
        },
        None => false,
    }
}

/// The first function of a body in which an offset lies.
pub fn function_at_offset<'a>(body: &'a Vec<Statement>, offset: usize) -> (r: Option<
    &'a FunctionDefinition,
>)
    ensures
        option_view(r) == function_at(views(body@), offset as int),
{
    let mut functions: Vec<&'a FunctionDefinition> = Vec::new();
    collect_functions(body, false, &mut functions);
    let ghost all = functions_in(views(body@), false);
    assert(views(functions@) =~= all);
    let mut i: usize = 0;
    while i < functions.len()
        invariant
            i <= functions@.len(),
            all == views(functions@),
            all == functions_in(views(body@), false),
            function_from(all, offset as int, 0) == function_from(all, offset as int, i as int),
        decreases functions@.len() - i,
    {
        let f: &'a FunctionDefinition = functions[i];
        assert(all[i as int] == f@);
        if f.range.start as usize <= offset && offset <= f.range.end as usize {
            return Some(f);
        }
        i = i + 1;
    }
    None
}

fn header_before(text: &Vec<char>, position: Position) -> (r: Option<Vec<char>>)
    requires
        fits(text@),
    ensures
        option_view(r) == open_header(text@, position),
{
    let end: usize = position_to_index(text, position);
    let before: Vec<char> = subvec(text, 0, end);
    assert(before@ =~= text@.take(end as int));
    match rfind_in(&before, &chars_of("def ")) {
        Some(at) => {
            let header: Vec<char> = subvec(&before, at, before.len());
            assert(header@ =~= before@.skip(at as int));
            Some(header)
        },
        None => None,
    }
}

fn params_of(header: &Vec<char>) -> (r: Option<Vec<char>>)
    ensures
        option_view(r) == after_bracket(header@),
{
    let bracket: Vec<char> = chars_of("(");
    proof {
        reveal_strlit("(");
    }
    match find_in(header, &bracket) {
        Some(open) => {
            let end: usize = header.len();
            assert(open + 1 <= end);
            let params: Vec<char> = subvec(header, open + 1, end);
            assert(params@ =~= header@.skip(open + 1));
            Some(params)
        },
        None => None,
    }
}

/// Whether the text before a position looks like the start of a parameter list.
pub fn fallback_is_in_function_params(text: &Vec<char>, position: Position) -> (r: bool)
    requires
        fits(text@),
    ensures
        r == looks_like_parameters(text@, position),
{
    match header_before(text, position) {
        Some(header) => match params_of(&header) {
            Some(params) => !contains_in(&header, &chars_of(":")) && !contains_in(
                &params,
                &chars_of(")"),
            ),
            None => false,
        },
        None => false,
    }
}

/// Whether a position lies in the parameter list of a function of a parsed text.
pub fn is_in_function_params_of(
    text: &Vec<char>,
    module: &Option<SourceModule>,
    position: Position,
) -> (r: bool)
    requires
        fits(text@),
    ensures
        r == in_parameters(text@, option_view(*module), position),
{
    match module {
        Some(m) => if m.invalid_syntax {
            fallback_is_in_function_params(text, position)
        } else {
            let offset: usize = position_to_byte(text, position);
            match function_at_offset(&m.body, offset) {
                Some(f) => f.parameters_range.start as usize <= offset && offset
                    <= f.parameters_range.end as usize,
                None => false,
            }
        },
        None => false,
    }
}

/// Whether a position lies in the parameter list of a function of a text.
pub fn is_in_function_params(text: &str, position: Position) -> (r: bool)
    requires
        fits(text@),
    ensures
        r == in_parameters(text@, python_module(text@), position),
{
    let module: Option<SourceModule> = parse_module(text);
    is_in_function_params_of(&chars_of(text), &module, position)
}

/// The position follows the colon of the parameter that it stands in.
pub open spec fn in_annotation(text: Seq<char>, position: Position) -> bool {
    match open_header(text, position) {
        Some(header) => match after_bracket(header) {
            Some(params) => match (rfind(params, ":"@), rfind(params, ","@)) {
                (Some(colon), Some(comma)) => colon > comma,
                (Some(_), None) => true,
                _ => false,
            },
            None => false,
        },
        None => false,
    }
}

/// Whether a position lies in the annotation of a parameter.
pub fn is_in_parameter_annotation_context(text: &Vec<char>, position: Position) -> (r: bool)
    requires
        fits(text@),
    ensures
        r == in_annotation(text@, position),
{
    match header_before(text, position) {
        Some(header) => match params_of(&header) {
            Some(params) => match (
                rfind_in(&params, &chars_of(":")),
                rfind_in(&params, &chars_of(",")),
            ) {
                (Some(colon), Some(comma)) => colon > comma,
                (Some(_), None) => true,
                _ => false,
            },
            None => false,
        },
        None => false,
    }
}

/// The start of the run of name characters that ends at `i`.
pub open spec fn word_start(s: Seq<char>, i: int) -> int
    decreases i,
{
    if 0 < i <= s.len() && is_part(s[i - 1]) {
        word_start(s, i - 1)
    } else {
        i
    }
}

/// The name at a position, if there is one.
pub open spec fn identifier_at(text: Seq<char>, position: Position) -> Option<Seq<char>> {
    let at = index_of_position(text, position);
    let start = word_start(text, at);
    let end = word_end(text, at);
    if start < end {
        Some(text.subrange(start, end))
    } else {
        None
    }
}

/// The name at a position.
pub fn identifier_at_position(text: &Vec<char>, position: Position) -> (r: Option<String>)
    requires
        fits(text@),
    ensures
        option_view(r) == identifier_at(text@, position),
{
    let at: usize = position_to_index(text, position);
    let mut start: usize = at;
    while start > 0 && is_ident_char(text[start - 1])
        invariant
            start <= at <= text@.len(),
            word_start(text@, at as int) == word_start(text@, start as int),
        decreases start,
    {
        start = start - 1;
    }
    let mut end: usize = at;
    while end < text.len() && is_ident_char(text[end])
        invariant
            at <= end <= text@.len(),
            word_end(text@, at as int) == word_end(text@, end as int),
        decreases text@.len() - end,
    {
        end = end + 1;
    }
    if start < end {
        Some(substring(text, start, end))
    } else {
        None
    }
}

/// A name at a position is made of name characters alone, and goes on on neither side.
pub proof fn identifiers_are_whole_words(text: Seq<char>, position: Position)
    requires
        identifier_at(text, position) is Some,
    ensures
        exists|start: int, end: int|
            #![trigger text.subrange(start, end)]
            {
                &&& 0 <= start <= index_of_position(text, position) <= end <= text.len()
                &&& identifier_at(text, position) == Some(text.subrange(start, end))
                &&& forall|i: int| start <= i < end ==> is_part(#[trigger] text[i])
                &&& start == 0 || !is_part(text[start - 1])
                &&& end == text.len() || !is_part(text[end])
            },
{
    let at = index_of_position(text, position);
    lemma_index_in_text(text, position, 0);
    lemma_word_start_runs(text, at);
    lemma_word_end_runs(text, at);
    let start = word_start(text, at);
    let end = word_end(text, at);
    assert(identifier_at(text, position) == Some(text.subrange(start, end)));
}

/// A run of name characters goes back as far as it can.
pub proof fn lemma_word_start_runs(s: Seq<char>, i: int)
    requires
        0 <= i <= s.len(),
    ensures
        0 <= word_start(s, i) <= i,
        forall|k: int| word_start(s, i) <= k < i ==> is_part(#[trigger] s[k]),
        word_start(s, i) == 0 || !is_part(s[word_start(s, i) - 1]),
    decreases i,
{
    if 0 < i && is_part(s[i - 1]) {
        lemma_word_start_runs(s, i - 1);
    }
}

/// The last `def ` before the place `k` stands at `d`.
pub open spec fn is_last_def(text: Seq<char>, k: int, d: int) -> bool {
    &&& occurs_at(text.take(k), "def "@, d)
    &&& forall|e: int| d < e ==> !#[trigger] occurs_at(text.take(k), "def "@, e)
}

/// The first opening bracket behind the last `def ` before the place `k` stands at `b`.
pub open spec fn is_open_bracket(text: Seq<char>, k: int, d: int, b: int) -> bool {
    &&& is_last_def(text, k, d)
    &&& d <= b < k
    &&& text[b] == '('
    &&& forall|j: int| d <= j < b ==> #[trigger] text[j] != '('
}

proof fn lemma_params(text: Seq<char>, position: Position, d: int, b: int)
    requires
        is_open_bracket(text, index_of_position(text, position), d, b),
    ensures
        open_header(text, position) == Some(
            text.subrange(d, index_of_position(text, position)),
        ),
        after_bracket(text.subrange(d, index_of_position(text, position))) == Some(
            text.subrange(b + 1, index_of_position(text, position)),
        ),
{
    let k = index_of_position(text, position);
    lemma_index_in_text(text, position, 0);
    let before = text.take(k);
    last_occurrence_is_found(before, "def "@);
    let at = rfind(before, "def "@)->0;
    assert(occurs_at(before, "def "@, d));
    if at < d {
        assert(!occurs_at(before, "def "@, d));
    } else if d < at {
        assert(!occurs_at(before, "def "@, at));
    }
    let header = text.subrange(d, k);
    assert(before.skip(d) =~= header);
    reveal_strlit("(");
    assert("("@ =~= seq!['(']);
    lemma_find(header, "("@);
    lemma_occurs_one(header, '(', b - d);
    assert(occurs_at(header, "("@, b - d));
    let open = find(header, "("@)->0;
    lemma_occurs_one(header, '(', open);
    if open < b - d {
        assert(text[d + open] != '(');
    }
    assert(header.skip(open + 1) =~= text.subrange(b + 1, k));
}

proof fn lemma_no_params(text: Seq<char>, position: Position)
    requires
        forall|d: int, b: int|
            !#[trigger] is_open_bracket(text, index_of_position(text, position), d, b),
    ensures
        open_header(text, position) matches Some(header) ==> after_bracket(header) is None,
{
    let k = index_of_position(text, position);
    lemma_index_in_text(text, position, 0);
    let before = text.take(k);
    last_occurrence_is_found(before, "def "@);
    if open_header(text, position) is Some {
        let d = rfind(before, "def "@)->0;
        let header = before.skip(d);
        reveal_strlit("(");
        assert("("@ =~= seq!['(']);
        lemma_find(header, "("@);
        if after_bracket(header) is Some {
            let open = find(header, "("@)->0;
            lemma_occurs_one(header, '(', open);
            assert forall|j: int| d <= j < d + open implies #[trigger] text[j] != '(' by {
                lemma_occurs_one(header, '(', j - d);
                assert(!occurs_at(header, "("@, j - d));
            }
            assert(is_open_bracket(text, k, d, d + open));
        }
    }
}

/// A position lies in an annotation exactly if, behind the opening bracket of the last `def `
/// before it, there is a colon with no comma between it and the position. So none does directly
/// behind a comma.
pub proof fn annotations_follow_a_colon(text: Seq<char>, position: Position, d: int, b: int)
    requires
        is_open_bracket(text, index_of_position(text, position), d, b),
    ensures
        in_annotation(text, position) <==> exists|c: int|
            b < c < index_of_position(text, position) && #[trigger] text[c] == ':' && forall|j: int|
                c < j < index_of_position(text, position) ==> #[trigger] text[j] != ',',
{
    let k = index_of_position(text, position);
    lemma_index_in_text(text, position, 0);
    lemma_params(text, position, d, b);
    let params = text.subrange(b + 1, k);
    reveal_strlit(":");
    reveal_strlit(",");
    assert(":"@ =~= seq![':']);
    assert(","@ =~= seq![',']);
    last_occurrence_is_found(params, ":"@);
    last_occurrence_is_found(params, ","@);
    let colon = rfind(params, ":"@);
    let comma = rfind(params, ","@);
    if colon is Some {
        lemma_occurs_one(params, ':', colon->0);
        assert(text[b + 1 + colon->0] == ':');
    }
    if comma is Some {
        lemma_occurs_one(params, ',', comma->0);
        assert(text[b + 1 + comma->0] == ',');
    }
    if in_annotation(text, position) {
        let c = b + 1 + colon->0;
        assert forall|j: int| c < j < k implies #[trigger] text[j] != ',' by {
            lemma_occurs_one(params, ',', j - b - 1);
            if text[j] == ',' {
                assert(occurs_at(params, ","@, j - b - 1));
            }
        }
        assert(text[c] == ':');
    }
    if exists|c: int|
        b < c < k && #[trigger] text[c] == ':' && forall|j: int|
            c < j < k ==> #[trigger] text[j] != ',' {
        let c = choose|c: int|
            b < c < k && #[trigger] text[c] == ':' && forall|j: int|
                c < j < k ==> #[trigger] text[j] != ',';
        lemma_occurs_one(params, ':', c - b - 1);
        assert(occurs_at(params, ":"@, c - b - 1));
        if comma is Some && comma->0 >= colon->0 {
            assert(c - b - 1 <= colon->0);
            assert(text[b + 1 + comma->0] != ',' || comma->0 == c - b - 1);
        }
    }
}

/// Without a `def ` and a bracket behind it before the position, no position lies in an
/// annotation, nor looks like one among parameters.
pub proof fn annotations_need_a_bracket(text: Seq<char>, position: Position)
    requires
        forall|d: int, b: int|
            !#[trigger] is_open_bracket(text, index_of_position(text, position), d, b),
    ensures
        !in_annotation(text, position),
        !looks_like_parameters(text, position),
{
    lemma_no_params(text, position);
}

/// In a text that is no valid module a position counts as one among parameters exactly if there
/// is no colon between the last `def ` and it, and no closing bracket behind the opening one.
pub proof fn open_parameters_have_no_end(text: Seq<char>, position: Position, d: int, b: int)
    requires
        is_open_bracket(text, index_of_position(text, position), d, b),
    ensures
        looks_like_parameters(text, position) <==> (forall|j: int|
            d <= j < index_of_position(text, position) ==> #[trigger] text[j] != ':') && (forall|
            j: int,
        |
            b < j < index_of_position(text, position) ==> #[trigger] text[j] != ')'),
{
    let k = index_of_position(text, position);
    lemma_index_in_text(text, position, 0);
    lemma_params(text, position, d, b);
    let header = text.subrange(d, k);
    let params = text.subrange(b + 1, k);
    reveal_strlit(":");
    reveal_strlit(")");
    assert(":"@ =~= seq![':']);
    assert(")"@ =~= seq![')']);
    if contains(header, ":"@) {
        let i = choose|i: int| occurs_at(header, ":"@, i);
        lemma_occurs_one(header, ':', i);
        assert(text[d + i] == ':');
    }
    if contains(params, ")"@) {
        let i = choose|i: int| occurs_at(params, ")"@, i);
        lemma_occurs_one(params, ')', i);
        assert(text[b + 1 + i] == ')');
    }
    assert forall|j: int| d <= j < k && !contains(header, ":"@) implies #[trigger] text[j]
        != ':' by {
        lemma_occurs_one(header, ':', j - d);
        assert(!occurs_at(header, ":"@, j - d));
    }
    assert forall|j: int| b < j < k && !contains(params, ")"@) implies #[trigger] text[j]
        != ')' by {
        lemma_occurs_one(params, ')', j - b - 1);
        assert(!occurs_at(params, ")"@, j - b - 1));
    }
}

/// The offset lies in the function, and in no function before it.
pub open spec fn is_first_around(functions: Seq<FunctionView>, offset: int, i: int) -> bool {
    &&& 0 <= i < functions.len()
    &&& functions[i].range.start <= offset <= functions[i].range.end
    &&& forall|j: int|
        0 <= j < i ==> !((#[trigger] functions[j]).range.start <= offset
            <= functions[j].range.end)
}

proof fn lemma_function_from(functions: Seq<FunctionView>, offset: int, from: int)
    requires
        0 <= from <= functions.len(),
        forall|j: int|
            0 <= j < from ==> !((#[trigger] functions[j]).range.start <= offset
                <= functions[j].range.end),
    ensures
        match function_from(functions, offset, from) {
            Some(f) => exists|i: int|
                #[trigger] is_first_around(functions, offset, i) && functions[i] == f,
            None => forall|i: int| !#[trigger] is_first_around(functions, offset, i),
        },
    decreases functions.len() - from,
{
    if from < functions.len() {
        if spans(functions[from].range, offset) {
            assert(is_first_around(functions, offset, from));
        } else {
            lemma_function_from(functions, offset, from + 1);
        }
    }
}

/// In a valid module a position lies among parameters exactly if, of the functions and methods in
/// the order of the text, the first one around the position has its parameter list around it too.
pub proof fn parameters_are_those_of_the_function_around(
    text: Seq<char>,
    module: SourceModuleView,
    position: Position,
)
    requires
        !module.invalid_syntax,
    ensures
        in_parameters(text, Some(module), position) <==> exists|i: int|
            #[trigger] is_first_around(
                functions_in(module.body, false),
                offset_of_position(text, position) as int,
                i,
            ) && functions_in(module.body, false)[i].parameters_range.start <= offset_of_position(
                text,
                position,
            ) <= functions_in(module.body, false)[i].parameters_range.end,
        !in_parameters(text, None, position),
{
    let functions = functions_in(module.body, false);
    let offset = offset_of_position(text, position) as int;
    lemma_function_from(functions, offset, 0);
    assert forall|i: int, j: int| #[trigger]
        is_first_around(functions, offset, i) && #[trigger] is_first_around(
            functions,
            offset,
            j,
        ) implies i == j by {}
}

/// In a text that is no valid module, what looks like a parameter list counts as one.
pub proof fn broken_text_goes_by_its_looks(
    text: Seq<char>,
    module: SourceModuleView,
    position: Position,
)
    requires
        module.invalid_syntax,
    ensures
        in_parameters(text, Some(module), position) == looks_like_parameters(text, position),
{
}

/// Every parameter of the name is found at its full range, in whichever function of the body it
/// stands, and nothing else is.
pub proof fn parameters_of_the_name_are_found(
    text: Seq<char>,
    body: Seq<StatementView>,
    name: Seq<char>,
    range: Range,
)
    ensures
        parameter_ranges(text, body, name).contains(range) <==> exists|f: FunctionView, k: int|
            functions_in(body, true).contains(f) && 0 <= k < f.parameters.len() && (
            #[trigger] f.parameters[k]).name == name && range == (Range {
                start: position_of_offset(text, f.parameters[k].full_range.start as int),
                end: position_of_offset(text, f.parameters[k].full_range.end as int),
            }),
{
    let all = functions_in(body, true);
    let g = |f: FunctionView| named_ranges(text, f, name);
    let h = |p: FunctionParameterView| named_range(text, p, name);
    if parameter_ranges(text, body, name).contains(range) {
        let i = lemma_flat_map_source(all, g, range);
        let f = all[i];
        f.parameters.lemma_filter_map_contains(h, range);
        let p = choose|p: FunctionParameterView| #[trigger]
            f.parameters.contains(p) && h(p) == Some(range);
        let k = f.parameters.index_of(p);
        assert(f.parameters[k].name == name);
    }
    assert forall|f: FunctionView, k: int|
        functions_in(body, true).contains(f) && 0 <= k < f.parameters.len() && (
        #[trigger] f.parameters[k]).name == name && range == (Range {
            start: position_of_offset(text, f.parameters[k].full_range.start as int),
            end: position_of_offset(text, f.parameters[k].full_range.end as int),
        }) implies parameter_ranges(text, body, name).contains(range) by {
        lemma_filter_map_has(f.parameters, h, k);
        let j = named_ranges(text, f, name).index_of(range);
        let i = all.index_of(f);
        assert(g(all[i])[j] == range);
        lemma_flat_map_has(all, g, i, j);
    }
}

/// Every parameter whose name stands in its part of the text is described, in whichever function
/// of the body it stands: by its name and where that first stands, and by its annotation, if it
/// has one.
pub proof fn parameters_are_described(
    text: Seq<char>,
    body: Seq<StatementView>,
    f: FunctionView,
    k: int,
)
    requires
        functions_in(body, true).contains(f),
        0 <= k < f.parameters.len(),
        name_range_in(text, f.parameters[k].range, f.parameters[k].name) is Some,
    ensures
        parameter_infos(text, body).contains(
            ParameterAnnotationInfoView {
                name: f.parameters[k].name,
                name_range: name_range_in(text, f.parameters[k].range, f.parameters[k].name)->0,
                annotation: match f.parameters[k].annotation {
                    Some(range) => annotation_in(text, range),
                    None => None,
                },
            },
        ),
{
    let all = functions_in(body, true);
    let g = |f: FunctionView| function_infos(text, f);
    let h = |p: FunctionParameterView| parameter_info(text, p);
    let info = h(f.parameters[k])->0;
    lemma_filter_map_has(f.parameters, h, k);
    let j = function_infos(text, f).index_of(info);
    let i = all.index_of(f);
    assert(g(all[i])[j] == info);
    lemma_flat_map_has(all, g, i, j);
}

/// A parameter whose part of the text starts with its name has its name there.
pub proof fn names_start_their_parameters(text: Seq<char>, part: ByteRange, name: Seq<char>)
    requires
        byte_slice(text, part.start as int, part.end as int) matches Some(source) && starts_with(
            source,
            name,
        ),
    ensures
        name_range_in(text, part, name) == Some(
            Range {
                start: position_of_offset(text, part.start as int),
                end: position_of_offset(text, part.start + byte_len(name)),
            },
        ),
{
    let source = byte_slice(text, part.start as int, part.end as int)->0;
    lemma_find(source, name);
    assert(find(source, name) == Some(0int)) by {
        let i = find(source, name)->0;
        assert(occurs_at(source, name, 0));
        assert(i >= 0);
    }
    assert(source.take(0) =~= Seq::<char>::empty());
}

/// Parameters are described in the order of the text: those of one body, then those of the next.
pub proof fn parameters_follow_the_text(
    text: Seq<char>,
    first: Seq<StatementView>,
    second: Seq<StatementView>,
)
    ensures
        parameter_infos(text, first + second) == parameter_infos(text, first) + parameter_infos(
            text,
            second,
        ),
{
    let g = |f: FunctionView| function_infos(text, f);
    functions_follow_the_text(first, second, true);
    lemma_flat_map_parts(functions_in(first, true), functions_in(second, true), g);
}

proof fn lemma_flat_map_parts<A, B>(a: Seq<A>, b: Seq<A>, f: spec_fn(A) -> Seq<B>)
    ensures
        (a + b).flat_map(f) == a.flat_map(f) + b.flat_map(f),
    decreases b.len(),
{
    let whole = a + b;
    if b.len() == 0 {
        assert(whole =~= a);
        assert(b.flat_map(f) =~= Seq::<B>::empty());
        assert(whole.flat_map(f) =~= a.flat_map(f) + b.flat_map(f));
    } else {
        let n = b.len() - 1;
        lemma_flat_map_parts(a, b.drop_last(), f);
        whole.lemma_flat_map_take_append(f, whole.len() - 1);
        b.lemma_flat_map_take_append(f, n);
        assert(whole.take(whole.len() - 1) =~= a + b.drop_last());
        assert(whole.take(whole.len() as int) =~= whole);
        assert(b.take(n) =~= b.drop_last());
        assert(b.take(n + 1) =~= b);
        assert(whole[whole.len() - 1] == b[n]);
        assert(whole.flat_map(f) =~= a.flat_map(f) + b.flat_map(f));
    }
}

/// The parameters of a function are described in their order.
pub proof fn parameters_of_a_function_follow_the_text(
    text: Seq<char>,
    f: FunctionView,
    a: int,
    b: int,
)
    requires
        0 <= a < b < f.parameters.len(),
        parameter_info(text, f.parameters[a]) is Some,
        parameter_info(text, f.parameters[b]) is Some,
    ensures
        exists|i: int, j: int|
            #![trigger function_infos(text, f)[i], function_infos(text, f)[j]]
            0 <= i < j < function_infos(text, f).len() && function_infos(text, f)[i]
                == parameter_info(text, f.parameters[a])->0 && function_infos(text, f)[j]
                == parameter_info(text, f.parameters[b])->0,
{
    let h = |p: FunctionParameterView| parameter_info(text, p);
    let all = function_infos(text, f);
    let (i, j) = lemma_filter_map_order(f.parameters, h, a, b);
    assert(all[i] == h(f.parameters[a])->0);
    assert(all[j] == h(f.parameters[b])->0);
}

/// Nothing is described but a parameter of a function in the body, with what the text says of it.
pub proof fn only_parameters_are_described(
    text: Seq<char>,
    body: Seq<StatementView>,
    info: ParameterAnnotationInfoView,
)
    requires
        parameter_infos(text, body).contains(info),
    ensures
        exists|f: FunctionView, k: int|
            functions_in(body, true).contains(f) && 0 <= k < f.parameters.len() && (
            #[trigger] f.parameters[k]).name == info.name && name_range_in(
                text,
                f.parameters[k].range,
                f.parameters[k].name,
            ) == Some(info.name_range) && info.annotation == match f.parameters[k].annotation {
                Some(range) => annotation_in(text, range),
                None => None,
            },
{
    let g = |f: FunctionView| function_infos(text, f);
    let h = |p: FunctionParameterView| parameter_info(text, p);
    let all = functions_in(body, true);
    let i = lemma_flat_map_source(all, g, info);
    let f = all[i];
    f.parameters.lemma_filter_map_contains(h, info);
    let p = choose|p: FunctionParameterView| #[trigger]
        f.parameters.contains(p) && h(p) == Some(info);
    let k = f.parameters.index_of(p);
    assert(f.parameters[k].name == info.name);
}

/// What is said of a parameter is said of its name, its place and its annotation.
pub proof fn descriptions_stand_for_their_parts(info: ParameterAnnotationInfo)
    ensures
        info@.name == info.name@,
        info@.name_range == info.name_range,
        match info.annotation {
            Some((text, range)) => info@.annotation == Some((text@, range)),
            None => info@.annotation is None,
        },
{
}

/// Parameters of the name are found body by body, and in a function as often as they stand there.
pub proof fn parameters_of_the_name_are_counted(
    text: Seq<char>,
    first: Seq<StatementView>,
    second: Seq<StatementView>,
    s: StatementView,
    f: FunctionView,
    name: Seq<char>,
)
    requires
        s.kind == StatementKindView::Function(f),
    ensures
        parameter_ranges(text, first + second, name) == parameter_ranges(text, first, name)
            + parameter_ranges(text, second, name),
        parameter_ranges(text, seq![s], name).len() == f.parameters.filter(
            |p: FunctionParameterView| p.name == name,
        ).len() + parameter_ranges(text, f.body, name).len(),
{
    let g = |f: FunctionView| named_ranges(text, f, name);
    let h = |p: FunctionParameterView| named_range(text, p, name);
    functions_follow_the_text(first, second, true);
    lemma_flat_map_parts(functions_in(first, true), functions_in(second, true), g);
    functions_of_one_statement(s, true);
    let own = seq![f];
    lemma_flat_map_parts(own, functions_in(f.body, true), g);
    own.lemma_flat_map_take_append(g, 0);
    assert(own.take(1) =~= own);
    assert(own.take(0) =~= Seq::<FunctionView>::empty());
    assert(own.take(0).flat_map(g) =~= Seq::<Range>::empty());
    assert(own.flat_map(g) =~= named_ranges(text, f, name));
    lemma_filter_map_count(f.parameters, h);
    lemma_same_filter(
        f.parameters,
        |p: FunctionParameterView| h(p) is Some,
        |p: FunctionParameterView| p.name == name,
    );
}

proof fn lemma_same_filter<A>(s: Seq<A>, f: spec_fn(A) -> bool, g: spec_fn(A) -> bool)
    requires
        forall|a: A| #[trigger] f(a) == g(a),
    ensures
        s.filter(f) == s.filter(g),
    decreases s.len(),
{
    reveal(Seq::filter);
    if s.len() > 0 {
        lemma_same_filter(s.drop_last(), f, g);
        assert(f(s.last()) == g(s.last()));
    }
}

/// A function has no more descriptions than parameters.
pub proof fn parameters_are_described_once(text: Seq<char>, f: FunctionView)
    ensures
        function_infos(text, f).len() == f.parameters.filter(
            |p: FunctionParameterView| name_range_in(text, p.range, p.name) is Some,
        ).len(),
{
    let h = |p: FunctionParameterView| parameter_info(text, p);
    lemma_filter_map_count(f.parameters, h);
    lemma_same_filter(
        f.parameters,
        |p: FunctionParameterView| h(p) is Some,
        |p: FunctionParameterView| name_range_in(text, p.range, p.name) is Some,
    );
}

}
