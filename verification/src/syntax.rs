//! The part of a parsed Python module that the rest of the library reads.
use crate::text::{fits, lemma_views_push, option_view, views};
use ruff_python_ast::{Alias, Expr, ExprCall, Stmt, StmtFunctionDef};
use ruff_text_size::Ranged;
use vstd::prelude::*;

verus! {

/// A half-open range of byte offsets into a source text.
#[derive(Debug, Clone, Copy, PartialEq, Eq, Structural)]
pub struct ByteRange {
    pub start: u32,
    pub end: u32,
}

/// One name of an import statement, with the name it is bound to where `as` gives one.
#[derive(Debug)]
pub struct ImportedName {
    pub name: String,
    pub asname: Option<String>,
}

/// One keyword argument of a call; `arg` is `None` for `**value`.
#[derive(Debug)]
pub struct KeywordArgument {
    pub arg: Option<String>,
    pub value: Expression,
}

/// An expression; the kinds that no rule of this library reads are `Other`.
#[derive(Debug)]
pub enum Expression {
    Name(String),
    Attribute(Box<Expression>, String),
    Call(Box<Expression>, Vec<KeywordArgument>),
    StringLiteral(String),
    List(Vec<Expression>),
    Tuple(Vec<Expression>),
    Other,
}

/// One parameter of a function.
#[derive(Debug)]
pub struct FunctionParameter {
    pub name: String,
    /// The parameter with its default value.
    pub full_range: ByteRange,
    /// The parameter without its default value.
    pub range: ByteRange,
    pub annotation: Option<ByteRange>,
}

/// A function; its range starts at its first decorator.
#[derive(Debug)]
pub struct FunctionDefinition {
    pub name: String,
    /// The name, where it stands after `def`.
    pub name_range: ByteRange,
    pub range: ByteRange,
    pub decorators: Vec<Expression>,
    pub parameters: Vec<FunctionParameter>,
    pub parameters_range: ByteRange,
    pub returns: Option<ByteRange>,
    pub body: Vec<Statement>,
}

/// What a statement is; the kinds that no rule of this library reads are `Other`.
#[derive(Debug)]
pub enum StatementKind {
    Function(FunctionDefinition),
    Class(Vec<Statement>),
    Import(Vec<ImportedName>),
    ImportFrom { level: u32, module: Option<String>, names: Vec<ImportedName> },
    Assign { targets: Vec<Expression>, value: Expression },
    Other,
}

/// A statement and where it stands.
#[derive(Debug)]
pub struct Statement {
    pub range: ByteRange,
    pub kind: StatementKind,
}

/// A module that the parser handed out.
#[derive(Debug)]
pub struct SourceModule {
    pub invalid_syntax: bool,
    pub body: Vec<Statement>,
}

/// What [`ImportedName`] stands for.
pub struct ImportedNameView {
    pub name: Seq<char>,
    pub asname: Option<Seq<char>>,
}

/// What [`KeywordArgument`] stands for.
pub struct KeywordArgumentView {
    pub arg: Option<Seq<char>>,
    pub value: ExpressionView,
}

/// What [`Expression`] stands for.
pub enum ExpressionView {
    Name(Seq<char>),
    Attribute(Box<ExpressionView>, Seq<char>),
    Call(Box<ExpressionView>, Seq<KeywordArgumentView>),
    StringLiteral(Seq<char>),
    List(Seq<ExpressionView>),
    Tuple(Seq<ExpressionView>),
    Other,
}

/// What [`FunctionParameter`] stands for.
pub struct FunctionParameterView {
    pub name: Seq<char>,
    pub full_range: ByteRange,
    pub range: ByteRange,
    pub annotation: Option<ByteRange>,
}

/// What [`FunctionDefinition`] stands for.
pub struct FunctionView {
    pub name: Seq<char>,
    pub name_range: ByteRange,
    pub range: ByteRange,
    pub decorators: Seq<ExpressionView>,
    pub parameters: Seq<FunctionParameterView>,
    pub parameters_range: ByteRange,
    pub returns: Option<ByteRange>,
    pub body: Seq<StatementView>,
}

/// What [`StatementKind`] stands for.
pub enum StatementKindView {
    Function(FunctionView),
    Class(Seq<StatementView>),
    Import(Seq<ImportedNameView>),
    ImportFrom { level: u32, module: Option<Seq<char>>, names: Seq<ImportedNameView> },
    Assign { targets: Seq<ExpressionView>, value: ExpressionView },
    Other,
}

/// What [`Statement`] stands for.
pub struct StatementView {
    pub range: ByteRange,
    pub kind: StatementKindView,
}

/// What [`SourceModule`] stands for.
pub struct SourceModuleView {
    pub invalid_syntax: bool,
    pub body: Seq<StatementView>,
}

impl View for ImportedName {
    type V = ImportedNameView;

    open spec fn view(&self) -> ImportedNameView {
        ImportedNameView { name: self.name@, asname: option_view(self.asname) }
    }
}

impl View for FunctionParameter {
    type V = FunctionParameterView;

    open spec fn view(&self) -> FunctionParameterView {
        FunctionParameterView {
            name: self.name@,
            full_range: self.full_range,
            range: self.range,
            annotation: self.annotation,
        }
    }
}

/// What a keyword argument stands for.
pub open spec fn keyword_view(k: KeywordArgument) -> KeywordArgumentView
    decreases k,
{
    KeywordArgumentView { arg: option_view(k.arg), value: expression_view(k.value) }
}

/// What an expression stands for.
pub open spec fn expression_view(e: Expression) -> ExpressionView
    decreases e,
{
    match e {
        Expression::Name(id) => ExpressionView::Name(id@),
        Expression::Attribute(value, attr) => ExpressionView::Attribute(
            Box::new(expression_view(*value)),
            attr@,
        ),
        Expression::Call(func, keywords) => ExpressionView::Call(
            Box::new(expression_view(*func)),
            Seq::new(
                keywords@.len(),
                |i: int|
                    if 0 <= i < keywords@.len() {
                        keyword_view(keywords@[i])
                    } else {
                        arbitrary()
                    },
            ),
        ),
        Expression::StringLiteral(value) => ExpressionView::StringLiteral(value@),
        Expression::List(elts) => ExpressionView::List(
            Seq::new(
                elts@.len(),
                |i: int|
                    if 0 <= i < elts@.len() {
                        expression_view(elts@[i])
                    } else {
                        arbitrary()
                    },
            ),
        ),
        Expression::Tuple(elts) => ExpressionView::Tuple(
            Seq::new(
                elts@.len(),
                |i: int|
                    if 0 <= i < elts@.len() {
                        expression_view(elts@[i])
                    } else {
                        arbitrary()
                    },
            ),
        ),
        Expression::Other => ExpressionView::Other,
    }
}

impl View for Expression {
    type V = ExpressionView;

    open spec fn view(&self) -> ExpressionView {
        expression_view(*self)
    }
}

impl View for KeywordArgument {
    type V = KeywordArgumentView;

    open spec fn view(&self) -> KeywordArgumentView {
        keyword_view(*self)
    }
}

/// What a function stands for.
pub open spec fn function_view(f: FunctionDefinition) -> FunctionView
    decreases f,
{
    FunctionView {
        name: f.name@,
        name_range: f.name_range,
        range: f.range,
        decorators: views(f.decorators@),
        parameters: views(f.parameters@),
        parameters_range: f.parameters_range,
        returns: f.returns,
        body: Seq::new(
            f.body@.len(),
            |i: int|
                if 0 <= i < f.body@.len() {
                    statement_view(f.body@[i])
                } else {
                    arbitrary()
                },
        ),
    }
}

/// What a statement stands for.
pub open spec fn statement_view(s: Statement) -> StatementView
    decreases s,
{
    StatementView {
        range: s.range,
        kind: match s.kind {
            StatementKind::Function(f) => StatementKindView::Function(function_view(f)),
            StatementKind::Class(body) => StatementKindView::Class(
                Seq::new(
                    body@.len(),
                    |i: int|
                        if 0 <= i < body@.len() {
                            statement_view(body@[i])
                        } else {
                            arbitrary()
                        },
                ),
            ),
            StatementKind::Import(names) => StatementKindView::Import(views(names@)),
            StatementKind::ImportFrom { level, module, names } => StatementKindView::ImportFrom {
                level,
                module: option_view(module),
                names: views(names@),
            },
            StatementKind::Assign { targets, value } => StatementKindView::Assign {
                targets: views(targets@),
                value: value@,
            },
            StatementKind::Other => StatementKindView::Other,
        },
    }
}

impl View for FunctionDefinition {
    type V = FunctionView;

    open spec fn view(&self) -> FunctionView {
        function_view(*self)
    }
}

impl View for Statement {
    type V = StatementView;

    open spec fn view(&self) -> StatementView {
        statement_view(*self)
    }
}

impl View for SourceModule {
    type V = SourceModuleView;

    open spec fn view(&self) -> SourceModuleView {
        SourceModuleView { invalid_syntax: self.invalid_syntax, body: views(self.body@) }
    }
}

/// The body of a function is seen statement by statement.
pub proof fn lemma_function_body(f: FunctionDefinition)
    ensures
        f@.body == views(f.body@),
{
    assert(f@.body =~= views(f.body@));
}

/// The body of a class is seen statement by statement.
pub proof fn lemma_class_body(s: Statement, body: Vec<Statement>)
    requires
        s.kind == StatementKind::Class(body),
    ensures
        s@.kind == StatementKindView::Class(views(body@)),
{
    assert(s@.kind->Class_0 =~= views(body@));
}

/// A statement of the parser.
#[verifier::external_type_specification]
#[verifier::external_body]
pub struct ExStmt(ruff_python_ast::Stmt);

/// A function of the parser.
#[verifier::external_type_specification]
#[verifier::external_body]
pub struct ExStmtFunctionDef(ruff_python_ast::StmtFunctionDef);

/// An expression of the parser.
#[verifier::external_type_specification]
#[verifier::external_body]
pub struct ExExpr(ruff_python_ast::Expr);

/// An imported name of the parser.
#[verifier::external_type_specification]
#[verifier::external_body]
pub struct ExAlias(ruff_python_ast::Alias);

/// A call of the parser.
#[verifier::external_type_specification]
#[verifier::external_body]
pub struct ExExprCall(ruff_python_ast::ExprCall);

/// A range of the parser.
#[verifier::external_type_specification]
#[verifier::external_body]
pub struct ExTextRange(ruff_text_size::TextRange);

/// The module that `ruff_python_parser::parse_module` makes of a text, as far as this library
/// reads it; `None` where it reports an error.
pub uninterp spec fn python_module(text: Seq<char>) -> Option<SourceModuleView>;

/// Carries over a `TextRange` as its two offsets.
#[verifier::external_body]
fn byte_range(range: ruff_text_size::TextRange) -> (r: ByteRange) {
    ByteRange { start: range.start().to_u32(), end: range.end().to_u32() }
}

/// Carries over the names of an import, an `Alias` field by field.
#[verifier::external_body]
fn imported_names(names: &Vec<Alias>) -> (r: Vec<ImportedName>) {
    names.iter().map(|alias| ImportedName {
        name: alias.name.to_string(),
        asname: alias.asname.as_ref().map(|name| name.to_string()),
    }).collect()
}

/// Carries over the keywords of a call, a `Keyword` field by field.
#[verifier::external_body]
fn keyword_arguments(call: &ExprCall) -> (r: Vec<KeywordArgument>) {
    call.arguments.keywords.iter().map(|keyword| KeywordArgument {
        arg: keyword.arg.as_ref().map(|arg| arg.to_string()),
        value: expression(&keyword.value),
    }).collect()
}

/// Carries over an `Expr`, one variant each.
#[verifier::external_body]
fn expression(expr: &Expr) -> (r: Expression) {
    match expr {
        Expr::Name(e) => Expression::Name(e.id.to_string()),
        Expr::Attribute(e) => {
            Expression::Attribute(Box::new(expression(&e.value)), e.attr.to_string())
        }
        Expr::Call(e) => Expression::Call(Box::new(expression(&e.func)), keyword_arguments(e)),
        Expr::StringLiteral(e) => Expression::StringLiteral(e.value.to_string()),
        Expr::List(e) => Expression::List(e.elts.iter().map(expression).collect()),
        Expr::Tuple(e) => Expression::Tuple(e.elts.iter().map(expression).collect()),
        _ => Expression::Other,
    }
}

/// Carries over the parameters of a function, in the order of `Parameters::iter`.
#[verifier::external_body]
fn function_parameters(f: &StmtFunctionDef) -> (r: Vec<FunctionParameter>) {
    f.parameters.iter().map(|p| FunctionParameter {
        name: p.name().to_string(),
        full_range: byte_range(p.range()),
        range: byte_range(p.as_parameter().range),
        annotation: p.as_parameter().annotation().map(|a| byte_range(a.range())),
    }).collect()
}

/// Carries over a function field by field.
#[verifier::external_body]
fn function_definition(f: &StmtFunctionDef) -> (r: FunctionDefinition) {
    FunctionDefinition {
        name: f.name.to_string(),
        name_range: byte_range(f.name.range),
        range: byte_range(f.range),
        decorators: f.decorator_list.iter().map(|d| expression(&d.expression)).collect(),
        parameters: function_parameters(f),
        parameters_range: byte_range(f.parameters.range),
        returns: f.returns.as_ref().map(|r| byte_range(r.range())),
        body: f.body.iter().map(statement).collect(),
    }
}

/// Carries over what a `Stmt` is, one variant each.
#[verifier::external_body]
fn statement_kind(stmt: &Stmt) -> (r: StatementKind) {
    match stmt {
        Stmt::FunctionDef(s) => StatementKind::Function(function_definition(s)),
        Stmt::ClassDef(s) => StatementKind::Class(s.body.iter().map(statement).collect()),
        Stmt::Import(s) => StatementKind::Import(imported_names(&s.names)),
        Stmt::ImportFrom(s) => StatementKind::ImportFrom {
            level: s.level,
            module: s.module.as_ref().map(|module| module.to_string()),
            names: imported_names(&s.names),
        },
        Stmt::Assign(s) => StatementKind::Assign {
            targets: s.targets.iter().map(expression).collect(),
            value: expression(&s.value),
        },
        _ => StatementKind::Other,
    }
}

/// Carries over a `Stmt`.
#[verifier::external_body]
fn statement(stmt: &Stmt) -> (r: Statement) {
    Statement { range: byte_range(stmt.range()), kind: statement_kind(stmt) }
}

/// `ruff_python_parser::parse_module`, whose result `python_module` names. It depends on the
/// text alone; its lexer refuses texts of more than `u32::MAX` bytes.
#[verifier::external_body]
pub(crate) fn parse_module(text: &str) -> (r: Option<SourceModule>)
    requires
        fits(text@),
    ensures
        option_view(r) == python_module(text@),
{
    let parsed = ruff_python_parser::parse_module(text).ok()?;
    Some(SourceModule {
        invalid_syntax: parsed.has_invalid_syntax(),
        body: parsed.syntax().body.iter().map(statement).collect(),
    })
}

/// The statements of a module; none where the text has no valid module.
pub open spec fn valid_body(module: Option<SourceModuleView>) -> Seq<StatementView> {
    match module {
        Some(m) => if m.invalid_syntax {
            Seq::empty()
        } else {
            m.body
        },
        None => Seq::empty(),
    }
}

/// The statements of a text; none where the text is no valid module.
pub open spec fn python_body(text: Seq<char>) -> Seq<StatementView> {
    valid_body(python_module(text))
}

/// The statements that a parse gave.
pub fn body_of(module: Option<SourceModule>) -> (r: Vec<Statement>)
    ensures
        views(r@) == valid_body(option_view(module)),
{
    match module {
        Some(m) => if m.invalid_syntax {
            let none: Vec<Statement> = Vec::new();
            assert(views(none@) =~= Seq::<StatementView>::empty());
            none
        } else {
            m.body
        },
        None => {
            let none: Vec<Statement> = Vec::new();
            assert(views(none@) =~= Seq::<StatementView>::empty());
            none
        },
    }
}

/// The statements of a text.
pub fn parse_body(text: &str) -> (r: Vec<Statement>)
    requires
        fits(text@),
    ensures
        views(r@) == python_body(text@),
{
    body_of(parse_module(text))
}

/// The functions of a statement: of a class those of its body, of a function itself and, if
/// `nested`, those of its body.
pub open spec fn functions_of(s: StatementView, nested: bool) -> Seq<FunctionView>
    decreases s, 0int,
{
    match s.kind {
        StatementKindView::Function(f) => if nested {
            seq![f] + functions_first(f.body, nested, f.body.len() as int)
        } else {
            seq![f]
        },
        StatementKindView::Class(body) => functions_first(body, nested, body.len() as int),
        _ => Seq::empty(),
    }
}

/// The functions of the first `n` statements.
pub open spec fn functions_first(body: Seq<StatementView>, nested: bool, n: int) -> Seq<
    FunctionView,
>
    decreases body, n,
{
    if n <= 0 || n > body.len() {
        Seq::empty()
    } else {
        functions_first(body, nested, n - 1) + functions_of(body[n - 1], nested)
    }
}

/// The functions of a body, in the order of the text.
pub open spec fn functions_in(body: Seq<StatementView>, nested: bool) -> Seq<FunctionView> {
    functions_first(body, nested, body.len() as int)
}

/// Appends the functions of a body.
pub fn collect_functions<'a>(
    body: &'a Vec<Statement>,
    nested: bool,
    out: &mut Vec<&'a FunctionDefinition>,
)
    ensures
        views(final(out)@) == views(old(out)@) + functions_in(views(body@), nested),
    decreases body,
{
    let ghost all = views(body@);
    let ghost start = views(out@);
    let mut i: usize = 0;
    assert(start + functions_first(all, nested, 0) =~= start);
    while i < body.len()
        invariant
            i <= body@.len(),
            all == views(body@),
            views(out@) == start + functions_first(all, nested, i as int),
        decreases body@.len() - i,
    {
        let ghost so_far = views(out@);
        let stmt: &'a Statement = &body[i];
        assert(all[i as int] == stmt@);
        match &stmt.kind {
            StatementKind::Function(f) => {
                proof {
                    lemma_function_body(*f);
                    lemma_views_push(out@, f);
                }
                out.push(f);
                if nested {
                    collect_functions(&f.body, nested, out);
                }
                assert(views(out@) =~= so_far + functions_of(all[i as int], nested));
            },
            StatementKind::Class(b) => {
                proof {
                    lemma_class_body(*stmt, *b);
                }
                collect_functions(b, nested, out);
                assert(views(out@) =~= so_far + functions_of(all[i as int], nested));
            },
            _ => {
                assert(so_far =~= so_far + functions_of(all[i as int], nested));
            },
        }
        proof {
            assert(functions_first(all, nested, i + 1) == functions_first(all, nested, i as int)
                + functions_of(all[i as int], nested));
            assert(views(out@) =~= start + functions_first(all, nested, i + 1));
        }
        i = i + 1;
    }
}

/// The functions of two bodies one after the other are those of the first, then those of the
/// second.
pub proof fn functions_follow_the_text(
    first: Seq<StatementView>,
    second: Seq<StatementView>,
    nested: bool,
)
    ensures
        functions_in(first + second, nested) == functions_in(first, nested) + functions_in(
            second,
            nested,
        ),
    decreases second.len(),
{
    let whole = first + second;
    if second.len() == 0 {
        assert(whole =~= first);
        assert(functions_in(second, nested) =~= Seq::<FunctionView>::empty());
        assert(functions_in(first, nested) + functions_in(second, nested) =~= functions_in(
            first,
            nested,
        ));
    } else {
        let fewer = second.drop_last();
        functions_follow_the_text(first, fewer, nested);
        lemma_functions_of_prefix(whole, first + fewer, nested, (first + fewer).len() as int);
        lemma_functions_of_prefix(second, fewer, nested, fewer.len() as int);
        assert(whole.last() == second.last());
        assert(functions_in(whole, nested) =~= functions_in(first, nested) + functions_in(
            second,
            nested,
        ));
    }
}

proof fn lemma_functions_of_prefix(
    body: Seq<StatementView>,
    prefix: Seq<StatementView>,
    nested: bool,
    n: int,
)
    requires
        0 <= n <= prefix.len() <= body.len(),
        forall|i: int| 0 <= i < prefix.len() ==> body[i] == #[trigger] prefix[i],
    ensures
        functions_first(body, nested, n) == functions_first(prefix, nested, n),
    decreases n,
{
    if n > 0 {
        lemma_functions_of_prefix(body, prefix, nested, n - 1);
        assert(body[n - 1] == prefix[n - 1]);
    }
}

/// A body of one statement has the function that the statement is, and behind it those of the
/// function's body where they are asked for; of a class it has the functions of the class.
pub proof fn functions_of_one_statement(s: StatementView, nested: bool)
    ensures
        match s.kind {
            StatementKindView::Function(f) => functions_in(seq![s], nested) == seq![f] + (
            if nested {
                functions_in(f.body, nested)
            } else {
                Seq::empty()
            }),
            StatementKindView::Class(body) => functions_in(seq![s], nested) == functions_in(
                body,
                nested,
            ),
            _ => functions_in(seq![s], nested).len() == 0,
        },
{
    let one = seq![s];
    assert(functions_first(one, nested, 0) =~= Seq::<FunctionView>::empty());
    assert(functions_in(one, nested) =~= functions_of(s, nested));
    match s.kind {
        StatementKindView::Function(f) => {
            assert(functions_of(s, nested) =~= seq![f] + (if nested {
                functions_in(f.body, nested)
            } else {
                Seq::empty()
            }));
        },
        _ => {},
    }
}

proof fn lemma_functions_of_statement(body: Seq<StatementView>, nested: bool, i: int, n: int)
    requires
        0 <= i < n <= body.len(),
    ensures
        forall|f: FunctionView|
            functions_of(body[i], nested).contains(f) ==> #[trigger] functions_first(
                body,
                nested,
                n,
            ).contains(f),
    decreases n,
{
    let before = functions_first(body, nested, n - 1);
    let here = functions_of(body[n - 1], nested);
    assert forall|f: FunctionView| functions_of(body[i], nested).contains(
        f,
    ) implies #[trigger] functions_first(body, nested, n).contains(f) by {
        if i < n - 1 {
            lemma_functions_of_statement(body, nested, i, n - 1);
            assert(before.contains(f));
            let k = before.index_of(f);
            assert((before + here)[k] == f);
        } else {
            let k = here.index_of(f);
            assert((before + here)[before.len() + k] == f);
        }
    }
}

/// Every function that is a statement of a body is among the functions of the body. So is every
/// function of a class in it, whether or not nested ones are asked for, and where they are, every
/// function of a function in it.
pub proof fn functions_are_found(body: Seq<StatementView>, nested: bool, i: int)
    requires
        0 <= i < body.len(),
    ensures
        body[i].kind matches StatementKindView::Function(f) ==> functions_in(body, nested).contains(
            f,
        ),
        body[i].kind matches StatementKindView::Function(f) ==> nested ==> forall|g: FunctionView|
            functions_in(f.body, nested).contains(g) ==> #[trigger] functions_in(
                body,
                nested,
            ).contains(g),
        body[i].kind matches StatementKindView::Class(inner) ==> forall|g: FunctionView|
            functions_in(inner, nested).contains(g) ==> #[trigger] functions_in(
                body,
                nested,
            ).contains(g),
{
    lemma_functions_of_statement(body, nested, i, body.len() as int);
    match body[i].kind {
        StatementKindView::Function(f) => {
            let here = functions_of(body[i], nested);
            assert(here[0] == f);
            assert(here.contains(f));
            if nested {
                let inner = functions_in(f.body, nested);
                assert forall|g: FunctionView| inner.contains(g) implies #[trigger] functions_in(
                    body,
                    nested,
                ).contains(g) by {
                    let k = inner.index_of(g);
                    assert(here[k + 1] == g);
                    assert(here.contains(g));
                }
            }
        },
        StatementKindView::Class(inner) => {
            assert(functions_of(body[i], nested) == functions_in(inner, nested));
        },
        _ => {},
    }
}

/// The statement is the function, or holds it: in its class body, or in the body of a function
/// where nested ones are asked for.
pub open spec fn gives_function(s: StatementView, nested: bool, f: FunctionView) -> bool {
    match s.kind {
        StatementKindView::Function(g) => f == g || (nested && functions_in(
            g.body,
            nested,
        ).contains(f)),
        StatementKindView::Class(inner) => functions_in(inner, nested).contains(f),
        _ => false,
    }
}

/// Every function among those of a body is a statement of it, or one of those of a class or,
/// where nested ones are asked for, of a function in it.
pub proof fn found_functions_stand_in_the_body(
    body: Seq<StatementView>,
    nested: bool,
    f: FunctionView,
)
    requires
        functions_in(body, nested).contains(f),
    ensures
        exists|i: int| 0 <= i < body.len() && gives_function(#[trigger] body[i], nested, f),
{
    lemma_found_functions(body, nested, f, body.len() as int);
}

proof fn lemma_found_functions(body: Seq<StatementView>, nested: bool, f: FunctionView, n: int)
    requires
        0 <= n <= body.len(),
        functions_first(body, nested, n).contains(f),
    ensures
        exists|i: int| 0 <= i < body.len() && gives_function(#[trigger] body[i], nested, f),
    decreases n,
{
    if n > 0 {
        let before = functions_first(body, nested, n - 1);
        let here = functions_of(body[n - 1], nested);
        let k = functions_first(body, nested, n).index_of(f);
        if k < before.len() {
            assert(before[k] == f);
            lemma_found_functions(body, nested, f, n - 1);
        } else {
            assert(here[k - before.len()] == f);
            match body[n - 1].kind {
                StatementKindView::Function(g) => {
                    if k > before.len() {
                        assert(functions_in(g.body, nested)[k - before.len() - 1] == f);
                    }
                },
                _ => {},
            }
            assert(gives_function(body[n - 1], nested, f));
        }
    }
}

/// A valid module has the statements that it was parsed into; a text that is none, or not a valid
/// one, has no statements.
pub proof fn valid_modules_have_statements(m: SourceModuleView)
    ensures
        !m.invalid_syntax ==> valid_body(Some(m)) == m.body,
        m.invalid_syntax ==> valid_body(Some(m)).len() == 0,
        valid_body(None).len() == 0,
{
}

/// A statement stands for what it is: a function or a class with each statement of its body, an
/// import with each of its names, an assignment with each of its targets and its value.
pub proof fn statements_stand_for_their_parts(s: Statement, i: int)
    ensures
        s@.range == s.range,
        match s.kind {
            StatementKind::Function(f) => s@.kind == StatementKindView::Function(f@),
            StatementKind::Class(body) => s@.kind matches StatementKindView::Class(inner)
                && inner.len() == body@.len() && (0 <= i < body@.len() ==> inner[i] == body@[i]@),
            StatementKind::Import(names) => s@.kind matches StatementKindView::Import(all)
                && all.len() == names@.len() && (0 <= i < names@.len() ==> all[i].name
                == names@[i].name@ && all[i].asname == match names@[i].asname {
                Some(asname) => Some(asname@),
                None => None,
            }),
            StatementKind::ImportFrom { level, module, names } => s@.kind matches
                StatementKindView::ImportFrom { level: l, module: m, names: all } && l == level && m
                == (match module {
                Some(name) => Some(name@),
                None => None,
            }) && all.len() == names@.len() && (0 <= i < names@.len() ==> all[i].name
                == names@[i].name@ && all[i].asname == match names@[i].asname {
                Some(asname) => Some(asname@),
                None => None,
            }),
            StatementKind::Assign { targets, value } => s@.kind matches StatementKindView::Assign {
                targets: all,
                value: v,
            } && v == value@ && all.len() == targets@.len() && (0 <= i < targets@.len() ==> all[i]
                == targets@[i]@),
            StatementKind::Other => s@.kind is Other,
        },
{
    match s.kind {
        StatementKind::Class(body) => {
            lemma_class_body(s, body);
        },
        _ => {},
    }
}

/// A function stands for its name, its ranges, and each of its decorators, parameters and
/// statements.
pub proof fn functions_stand_for_their_parts(f: FunctionDefinition, i: int)
    ensures
        f@.name == f.name@,
        f@.name_range == f.name_range,
        f@.range == f.range,
        f@.parameters_range == f.parameters_range,
        f@.returns == f.returns,
        f@.decorators.len() == f.decorators@.len(),
        0 <= i < f.decorators@.len() ==> f@.decorators[i] == f.decorators@[i]@,
        f@.parameters.len() == f.parameters@.len(),
        0 <= i < f.parameters@.len() ==> f@.parameters[i].name == f.parameters@[i].name@
            && f@.parameters[i].range == f.parameters@[i].range && f@.parameters[i].full_range
            == f.parameters@[i].full_range && f@.parameters[i].annotation
            == f.parameters@[i].annotation,
        f@.body.len() == f.body@.len(),
        0 <= i < f.body@.len() ==> f@.body[i] == f.body@[i]@,
{
    lemma_function_body(f);
}

/// An expression stands for what it is, with each of its parts.
pub proof fn expressions_stand_for_their_parts(e: Expression, i: int)
    ensures
        match e {
            Expression::Name(id) => e@ == ExpressionView::Name(id@),
            Expression::Attribute(value, attr) => e@ == ExpressionView::Attribute(
                Box::new((*value)@),
                attr@,
            ),
            Expression::Call(func, keywords) => e@ matches ExpressionView::Call(f, all) && *f
                == (*func)@ && all.len() == keywords@.len() && (0 <= i < keywords@.len()
                ==> all[i].value == keywords@[i].value@ && all[i].arg
                == match keywords@[i].arg {
                Some(arg) => Some(arg@),
                None => None,
            }),
            Expression::StringLiteral(value) => e@ == ExpressionView::StringLiteral(value@),
            Expression::List(elts) => e@ matches ExpressionView::List(all) && all.len()
                == elts@.len() && (0 <= i < elts@.len() ==> all[i] == elts@[i]@),
            Expression::Tuple(elts) => e@ matches ExpressionView::Tuple(all) && all.len()
                == elts@.len() && (0 <= i < elts@.len() ==> all[i] == elts@[i]@),
            Expression::Other => e@ is Other,
        },
{
    reveal_with_fuel(expression_view, 2);
}

/// A module stands for whether it is valid, and for each of its statements.
pub proof fn modules_stand_for_their_parts(m: SourceModule, i: int)
    ensures
        m@.invalid_syntax == m.invalid_syntax,
        m@.body.len() == m.body@.len(),
        0 <= i < m.body@.len() ==> m@.body[i] == m.body@[i]@,
{
}

}
