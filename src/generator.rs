use crate::lexer::{
    tokens_view,
    definition_type_name, is_literal, literal_text, DefinitionType as TokenDefinitionType, DefinitionTypeView, Fault,
    FaultView, Token, TokenValue, TokenValueView, TokenView, TypeIdentifierType as TokenTypeIdentifierType, fault_view,
};
use crate::parser::{
    Object, setters_view,
    statement_kind_name, statement_view, statements_view, strings_view, lemma_statements_view, Definition,
    DefinitionType, Property, PropertyView, Setter, SetterView, Statement, StatementValue, StatementValueView,
    StatementView, KindView,
};
use crate::util::{decimal_text, usize_to_decimal};
use std::ops::Range;
use vstd::prelude::*;

verus! {

// Cached definitions

/// A schema: the named properties a setter can give, and the positional arguments.
pub struct CachedRawDefinition {
    props: Vec<Property>,
    args: Vec<Property>,
    inherits: Vec<String>,
    range: Range<usize>,
}

pub enum CachedDefinition {
    Raw(CachedRawDefinition),
    /// the rendered text of a reusable fragment
    Collective(String),
}

/// An output document: its name (without extension) and its full text.
pub struct Document {
    pub name: String,
    pub content: String,
}

pub struct RawView {
    pub props: Seq<PropertyView>,
    pub args: Seq<PropertyView>,
    pub inherits: Seq<Seq<char>>,
    pub range: Range<usize>,
}

pub enum CachedView {
    Raw(RawView),
    Collective(Seq<char>),
}

/// The definition table: later entries shadow earlier ones of the same name.
pub type Table = Seq<(Seq<char>, CachedView)>;

/// A rendered name and value.
pub type Pair = (Seq<char>, Seq<char>);

pub open spec fn properties_view(v: Seq<Property>) -> Seq<PropertyView> {
    v.map_values(|p: Property| p@)
}

impl View for CachedRawDefinition {
    type V = RawView;

    closed spec fn view(&self) -> RawView {
        RawView {
            props: properties_view(self.props@),
            args: properties_view(self.args@),
            inherits: strings_view(self.inherits@),
            range: self.range,
        }
    }
}

impl View for CachedDefinition {
    type V = CachedView;

    open spec fn view(&self) -> CachedView {
        match self {
            CachedDefinition::Raw(d) => CachedView::Raw(d@),
            CachedDefinition::Collective(t) => CachedView::Collective(t@),
        }
    }
}

/// The definition named `name`: the last one entered.
pub open spec fn lookup(table: Table, name: Seq<char>) -> Option<CachedView>
    decreases table.len(),
{
    if table.len() == 0 {
        None
    } else if table.last().0 == name {
        Some(table.last().1)
    } else {
        lookup(table.drop_last(), name)
    }
}

/// The property named `name` of a schema: the last one declared.
pub open spec fn find_prop(props: Seq<PropertyView>, name: Seq<char>) -> Option<PropertyView>
    decreases props.len(),
{
    if props.len() == 0 {
        None
    } else if props.last().name == name {
        Some(props.last())
    } else {
        find_prop(props.drop_last(), name)
    }
}

pub open spec fn quoted(before: Seq<char>, name: Seq<char>, after: Seq<char>) -> Seq<char> {
    before + name + after
}

/// Resolves a setter on the schema `d` named `d_name`: its own properties first, then
/// each parent in turn, depth first. `depth` bounds how deep the parents are followed;
/// an inheritance chain runs out of it only by going round a cycle.
pub open spec fn resolve(table: Table, d: RawView, d_name: Seq<char>, setter: SetterView, depth: nat) -> Result<PropertyView, FaultView>
    decreases depth, d.inherits.len() + 1,
{
    match find_prop(d.props, setter.name) {
        Some(p) => Ok(p),
        None => search_parents(table, d, d_name, setter, 0, depth),
    }
}

pub open spec fn search_parents(table: Table, d: RawView, d_name: Seq<char>, setter: SetterView, j: nat, depth: nat) -> Result<PropertyView, FaultView>
    decreases depth, d.inherits.len() - j,
{
    if j >= d.inherits.len() {
        Err((quoted("no such property on '"@, d_name, "' called '"@) + setter.name + "'"@, setter.range))
    } else {
        let parent = d.inherits[j as int];
        match lookup(table, parent) {
            Some(CachedView::Raw(pd)) => {
                let found = if depth > 0 {
                    resolve(table, pd, parent, setter, (depth - 1) as nat)
                } else {
                    Err((quoted("inheritance of '"@, parent, "' goes round a cycle"@), d.range))
                };
                match found {
                    Ok(p) => Ok(p),
                    Err(_) => search_parents(table, d, d_name, setter, j + 1, depth),
                }
            },
            Some(CachedView::Collective(_)) => Err((quoted("cannot inherit collective definition '"@, parent, "'"@), d.range)),
            None => Err((quoted("inherited undefined definition '"@, parent, "'"@), d.range)),
        }
    }
}

/// A literal matches a declared primitive type.
pub open spec fn type_matches(v: TokenValueView, t: TokenTypeIdentifierType) -> bool {
    match v {
        TokenValueView::Bool(_) => t == TokenTypeIdentifierType::Bool,
        TokenValueView::Number(_) => t == TokenTypeIdentifierType::Number,
        TokenValueView::String(_) => t == TokenTypeIdentifierType::String,
        _ => false,
    }
}

/// Routes one supplied value: to the inline list or the child list by its placement,
/// or nowhere when its type does not match the declared one.
pub open spec fn route_value(
    name: Seq<char>,
    internal_type: TokenTypeIdentifierType,
    placement: DefinitionTypeView,
    actual: TokenView,
    positional: bool,
    lists: (Seq<Pair>, Seq<Pair>),
) -> Result<(Seq<Pair>, Seq<Pair>), FaultView> {
    if is_literal(actual.value) && type_matches(actual.value, internal_type) {
        let inline = if positional { DefinitionTypeView::InlineArg } else { DefinitionTypeView::InlineProp };
        let child = if positional { DefinitionTypeView::ChildArg } else { DefinitionTypeView::ChildProp };
        if placement == inline {
            Ok((lists.0.push((name, literal_text(actual.value))), lists.1))
        } else if placement == child {
            Ok((lists.0, lists.1.push((name, literal_text(actual.value)))))
        } else {
            Err(("expected either an InlineArg or a ChildArg, got "@ + definition_type_name(placement), actual.range))
        }
    } else {
        Ok(lists)
    }
}

/// The first `k` positional arguments routed.
pub open spec fn route_args(declared: Seq<PropertyView>, args: Seq<TokenView>, k: int) -> Result<(Seq<Pair>, Seq<Pair>), FaultView>
    decreases k,
{
    if k <= 0 {
        Ok((Seq::empty(), Seq::empty()))
    } else {
        match route_args(declared, args, k - 1) {
            Err(e) => Err(e),
            Ok(lists) => route_value(
                declared[k - 1].name,
                declared[k - 1].internal_type,
                declared[k - 1].definition_type,
                args[k - 1],
                true,
                lists,
            ),
        }
    }
}

/// The first `k` setters routed after the positional arguments.
pub open spec fn route_setters(table: Table, d: RawView, name: Seq<char>, args: Seq<TokenView>, setters: Seq<SetterView>, k: int) -> Result<
    (Seq<Pair>, Seq<Pair>),
    FaultView,
>
    decreases k,
{
    if k <= 0 {
        route_args(d.args, args, args.len() as int)
    } else {
        match route_setters(table, d, name, args, setters, k - 1) {
            Err(e) => Err(e),
            Ok(lists) => match resolve(table, d, name, setters[k - 1], table.len()) {
                Err(e) => Err(e),
                Ok(p) => route_value(setters[k - 1].name, p.internal_type, p.definition_type, setters[k - 1].value, false, lists),
            },
        }
    }
}

pub open spec fn attributes(inlines: Seq<Pair>) -> Seq<char>
    decreases inlines.len(),
{
    if inlines.len() == 0 {
        Seq::empty()
    } else {
        attributes(inlines.drop_last()) + " "@ + inlines.last().0 + "=\""@ + inlines.last().1 + "\""@
    }
}

pub open spec fn property_elements(children: Seq<Pair>) -> Seq<char>
    decreases children.len(),
{
    if children.len() == 0 {
        Seq::empty()
    } else {
        property_elements(children.drop_last()) + "<property name=\""@ + children.last().0 + "\">"@ + children.last().1
            + "</property>\n"@
    }
}

pub open spec fn arity_message(name: Seq<char>, expected: nat, given: nat) -> Seq<char> {
    quoted("the '"@, name, "' definition expects "@) + decimal_text(expected) + " args, "@ + decimal_text(given) + " given"@
}

/// The text of one object of a collective body.
pub open spec fn render_one(table: Table, child: StatementView) -> Result<Seq<char>, FaultView>
    decreases child,
{
    match child.value {
        StatementValueView::Object { name, children, arguments, setters } => match lookup(table, name) {
            None => Ok(Seq::empty()),
            Some(CachedView::Collective(text)) => Ok(text),
            Some(CachedView::Raw(d)) => if d.args.len() != arguments.len() {
                Err((arity_message(name, d.args.len(), arguments.len()), child.range))
            } else {
                match route_setters(table, d, name, arguments, setters, setters.len() as int) {
                    Err(e) => Err(e),
                    Ok((inlines, properties)) => match render_nested(table, children) {
                        Err(e) => Err(e),
                        Ok(nested) => Ok(
                            quoted("<object class=\""@, name, "\""@) + attributes(inlines) + ">\n"@ + property_elements(properties)
                                + nested + "</object>\n"@,
                        ),
                    },
                }
            },
        },
        _ => Err(("found "@ + statement_kind_name(child.value) + ", expected object in collective definition"@, child.range)),
    }
}

/// The nested children of an object, each wrapped in a `<child>` element.
pub open spec fn render_nested(table: Table, children: Seq<StatementView>) -> Result<Seq<char>, FaultView>
    decreases children,
{
    if children.len() == 0 {
        Ok(Seq::empty())
    } else {
        match render_nested(table, children.drop_last()) {
            Err(e) => Err(e),
            Ok(before) => match render_one(table, children.last()) {
                Err(e) => Err(e),
                Ok(text) => Ok(before + "<child>\n"@ + text + "</child>\n"@),
            },
        }
    }
}

/// The text of a collective body: its objects one after another.
pub open spec fn render_objects(table: Table, children: Seq<StatementView>) -> Result<Seq<char>, FaultView>
    decreases children.len(),
{
    if children.len() == 0 {
        Ok(Seq::empty())
    } else {
        match render_objects(table, children.drop_last()) {
            Err(e) => Err(e),
            Ok(before) => match render_one(table, children.last()) {
                Err(e) => Err(e),
                Ok(text) => Ok(before + text),
            },
        }
    }
}


/// The named properties and the positional arguments of a schema body, in order,
/// after its first `k` statements.
pub open spec fn schema_upto(children: Seq<StatementView>, k: int) -> Result<(Seq<PropertyView>, Seq<PropertyView>), FaultView>
    decreases k,
{
    if k <= 0 {
        Ok((Seq::empty(), Seq::empty()))
    } else {
        match schema_upto(children, k - 1) {
            Err(e) => Err(e),
            Ok((props, args)) => match children[k - 1].value {
                StatementValueView::Property(p) => match p.definition_type {
                    DefinitionTypeView::InlineProp | DefinitionTypeView::ChildProp => Ok((props.push(p), args)),
                    DefinitionTypeView::InlineArg | DefinitionTypeView::ChildArg => Ok((props, args.push(p))),
                    _ => Err((
                        "expected a property definition, found "@ + definition_type_name(p.definition_type),
                        children[k - 1].range,
                    )),
                },
                _ => Ok((props, args)),
            },
        }
    }
}

/// The first of the parents that is not a schema already in the table, with its error.
pub open spec fn parents_check(table: Table, name: Seq<char>, inherits: Seq<Seq<char>>, range: Range<usize>, j: int) -> Option<FaultView>
    decreases inherits.len() - j,
{
    if j < 0 || j >= inherits.len() {
        None
    } else {
        match lookup(table, inherits[j]) {
            Some(CachedView::Collective(_)) => Some((quoted("cannot inherit collective definition '"@, inherits[j], "'"@), range)),
            None => Some((quoted("'"@, name, "' cannot inherit undefined definition '"@) + inherits[j] + "'"@, range)),
            Some(CachedView::Raw(_)) => parents_check(table, name, inherits, range, j + 1),
        }
    }
}

/// The schema a `Raw` definition statement caches.
pub open spec fn raw_from(table: Table, name: Seq<char>, children: Seq<StatementView>, inherits: Seq<Seq<char>>, range: Range<usize>) -> Result<
    RawView,
    FaultView,
> {
    match schema_upto(children, children.len() as int) {
        Err(e) => Err(e),
        Ok((props, args)) => match parents_check(table, name, inherits, range, 0) {
            Some(e) => Err(e),
            None => Ok(RawView { props, args, inherits, range }),
        },
    }
}

/// What one pass has built so far.
pub struct GenState {
    pub table: Table,
    pub header: Seq<char>,
    pub documents: Seq<(Seq<char>, Seq<char>)>,
}

pub open spec fn header_start() -> Seq<char> {
    "<?xml version=\"1.0\" encoding=\"UTF-8\"?>\n<interface>\n"@
}

/// A document: the header so far, then the rendered body and the closing tag.
pub open spec fn document_text(header: Seq<char>, body: Seq<char>) -> Seq<char> {
    header + "\n"@ + body + "</interface>"@ + "\n"@
}

pub open spec fn misplaced(range: Range<usize>) -> FaultView {
    ("this should never ever ever ever ever happen. something must be wrong with the parser if this does happen"@, range)
}

/// One top-level statement applied to the state, or the error it meets.
pub open spec fn apply(state: GenState, s: StatementView) -> Result<GenState, FaultView> {
    match s.value {
        StatementValueView::Definition { name, children, inherits, kind } => match kind {
            KindView::Root(file) => match render_objects(state.table, children) {
                Ok(body) => Ok(GenState { documents: state.documents.push((file, document_text(state.header, body))), ..state }),
                Err(e) => Err(e),
            },
            KindView::Collective => match render_objects(state.table, children) {
                Ok(text) => Ok(GenState { table: state.table.push((name, CachedView::Collective(text))), ..state }),
                Err(e) => Err(e),
            },
            KindView::Raw => match raw_from(state.table, name, children, inherits, s.range) {
                Ok(d) => Ok(GenState { table: state.table.push((name, CachedView::Raw(d))), ..state }),
                Err(e) => Err(e),
            },
        },
        StatementValueView::Header(h) => Ok(GenState { header: state.header + h + "\n"@, ..state }),
        _ => Err(misplaced(s.range)),
    }
}

/// The state after the first `k` statements, and the error that stopped the pass early, if any.
pub open spec fn generate_upto(sts: Seq<StatementView>, k: int) -> (GenState, Option<FaultView>)
    decreases k,
{
    if k <= 0 {
        (GenState { table: Seq::empty(), header: header_start(), documents: Seq::empty() }, None)
    } else {
        let (state, error) = generate_upto(sts, k - 1);
        if error is Some {
            (state, error)
        } else {
            match apply(state, sts[k - 1]) {
                Ok(next) => (next, None),
                Err(e) => (state, Some(e)),
            }
        }
    }
}

/// The outcome of a whole pass over `sts`.
pub open spec fn generate_spec(sts: Seq<StatementView>) -> (GenState, Option<FaultView>) {
    generate_upto(sts, sts.len() as int)
}


// Errors stay errors along a fold

proof fn lemma_route_args_err(declared: Seq<PropertyView>, args: Seq<TokenView>, k: int, m: int)
    requires
        0 <= k <= m,
        route_args(declared, args, k) is Err,
    ensures
        route_args(declared, args, m) == route_args(declared, args, k),
    decreases m - k,
{
    if m > k {
        lemma_route_args_err(declared, args, k, m - 1);
    }
}

proof fn lemma_route_setters_err(table: Table, d: RawView, name: Seq<char>, args: Seq<TokenView>, setters: Seq<SetterView>, k: int, m: int)
    requires
        0 <= k <= m,
        route_setters(table, d, name, args, setters, k) is Err,
    ensures
        route_setters(table, d, name, args, setters, m) == route_setters(table, d, name, args, setters, k),
    decreases m - k,
{
    if m > k {
        lemma_route_setters_err(table, d, name, args, setters, k, m - 1);
    }
}

proof fn lemma_render_nested_err(table: Table, children: Seq<StatementView>, k: int)
    requires
        0 <= k <= children.len(),
        render_nested(table, children.subrange(0, k)) is Err,
    ensures
        render_nested(table, children) == render_nested(table, children.subrange(0, k)),
    decreases children.len() - k,
{
    if k < children.len() {
        assert(children.subrange(0, k + 1).drop_last() =~= children.subrange(0, k));
        lemma_render_nested_err(table, children, k + 1);
    } else {
        assert(children.subrange(0, k) =~= children);
    }
}

proof fn lemma_render_objects_err(table: Table, children: Seq<StatementView>, k: int)
    requires
        0 <= k <= children.len(),
        render_objects(table, children.subrange(0, k)) is Err,
    ensures
        render_objects(table, children) == render_objects(table, children.subrange(0, k)),
    decreases children.len() - k,
{
    if k < children.len() {
        assert(children.subrange(0, k + 1).drop_last() =~= children.subrange(0, k));
        lemma_render_objects_err(table, children, k + 1);
    } else {
        assert(children.subrange(0, k) =~= children);
    }
}

proof fn lemma_schema_err(children: Seq<StatementView>, k: int, m: int)
    requires
        0 <= k <= m,
        schema_upto(children, k) is Err,
    ensures
        schema_upto(children, m) == schema_upto(children, k),
    decreases m - k,
{
    if m > k {
        lemma_schema_err(children, k, m - 1);
    }
}

proof fn lemma_generate_err(sts: Seq<StatementView>, k: int, m: int)
    requires
        0 <= k <= m,
        generate_upto(sts, k).1 is Some,
    ensures
        generate_upto(sts, m) == generate_upto(sts, k),
    decreases m - k,
{
    if m > k {
        lemma_generate_err(sts, k, m - 1);
    }
}

// Properties of rendering

/// The attributes that positional arguments give, in declaration order.
pub open spec fn argument_pairs(declared: Seq<PropertyView>, args: Seq<TokenView>) -> Seq<Pair> {
    Seq::new(args.len(), |i: int| (declared[i].name, literal_text(args[i].value)))
}

/// The attributes that setters give, in the order they were written.
pub open spec fn setter_pairs(setters: Seq<SetterView>) -> Seq<Pair> {
    Seq::new(setters.len(), |i: int| (setters[i].name, literal_text(setters[i].value.value)))
}

/// The schema places argument `i` inline, and the value supplied for it has the declared type.
pub open spec fn inline_argument(declared: Seq<PropertyView>, args: Seq<TokenView>, i: int) -> bool {
    &&& declared[i].definition_type == DefinitionTypeView::InlineArg
    &&& is_literal(args[i].value)
    &&& type_matches(args[i].value, declared[i].internal_type)
}

/// The setter names an inline property of the schema itself, with a value of its type.
pub open spec fn inline_setter(d: RawView, setter: SetterView) -> bool {
    match find_prop(d.props, setter.name) {
        Some(p) => p.definition_type == DefinitionTypeView::InlineProp && is_literal(setter.value.value) && type_matches(
            setter.value.value,
            p.internal_type,
        ),
        None => false,
    }
}

pub open spec fn object_statement(name: Seq<char>, arguments: Seq<TokenView>, setters: Seq<SetterView>, range: Range<usize>) -> StatementView {
    StatementView { value: StatementValueView::Object { name, children: Seq::empty(), arguments, setters }, range }
}

proof fn lemma_route_inline_args(declared: Seq<PropertyView>, args: Seq<TokenView>, k: int)
    requires
        0 <= k <= args.len(),
        declared.len() == args.len(),
        forall|i: int| 0 <= i < args.len() ==> inline_argument(declared, args, i),
    ensures
        route_args(declared, args, k) == Ok::<(Seq<Pair>, Seq<Pair>), FaultView>(
            (argument_pairs(declared, args).subrange(0, k), Seq::empty()),
        ),
    decreases k,
{
    if k > 0 {
        lemma_route_inline_args(declared, args, k - 1);
        assert(inline_argument(declared, args, k - 1));
        assert(argument_pairs(declared, args).subrange(0, k - 1).push((declared[k - 1].name, literal_text(args[k - 1].value)))
            =~= argument_pairs(declared, args).subrange(0, k));
    } else {
        assert(argument_pairs(declared, args).subrange(0, 0) =~= Seq::<Pair>::empty());
    }
}

proof fn lemma_route_inline_setters(table: Table, d: RawView, name: Seq<char>, args: Seq<TokenView>, setters: Seq<SetterView>, k: int)
    requires
        0 <= k <= setters.len(),
        d.args.len() == args.len(),
        forall|i: int| 0 <= i < args.len() ==> inline_argument(d.args, args, i),
        forall|i: int| 0 <= i < setters.len() ==> inline_setter(d, #[trigger] setters[i]),
    ensures
        route_setters(table, d, name, args, setters, k) == Ok::<(Seq<Pair>, Seq<Pair>), FaultView>(
            (argument_pairs(d.args, args) + setter_pairs(setters).subrange(0, k), Seq::empty()),
        ),
    decreases k,
{
    if k > 0 {
        lemma_route_inline_setters(table, d, name, args, setters, k - 1);
        assert(inline_setter(d, setters[k - 1]));
        assert((argument_pairs(d.args, args) + setter_pairs(setters).subrange(0, k - 1)).push(
            (setters[k - 1].name, literal_text(setters[k - 1].value.value)),
        ) =~= argument_pairs(d.args, args) + setter_pairs(setters).subrange(0, k));
    } else {
        lemma_route_inline_args(d.args, args, args.len() as int);
        assert(argument_pairs(d.args, args).subrange(0, args.len() as int) =~= argument_pairs(d.args, args));
        assert(argument_pairs(d.args, args) + setter_pairs(setters).subrange(0, 0) =~= argument_pairs(d.args, args));
    }
}

/// An object whose schema places every positional argument inline, given values of
/// the declared types and setters that each name an inline property of the schema
/// with a value of its type, renders as a single `<object>` element whose attributes
/// are exactly those names and values: the arguments in declaration order, then the
/// setters in the order written.
pub proof fn inline_values_round_trip(
    table: Table,
    name: Seq<char>,
    d: RawView,
    args: Seq<TokenView>,
    setters: Seq<SetterView>,
    range: Range<usize>,
)
    requires
        lookup(table, name) == Some(CachedView::Raw(d)),
        d.args.len() == args.len(),
        forall|i: int| 0 <= i < args.len() ==> inline_argument(d.args, args, i),
        forall|i: int| 0 <= i < setters.len() ==> inline_setter(d, #[trigger] setters[i]),
    ensures
        render_one(table, object_statement(name, args, setters, range)) == Ok::<Seq<char>, FaultView>(
            quoted("<object class=\""@, name, "\""@) + attributes(argument_pairs(d.args, args) + setter_pairs(setters)) + ">\n"@
                + "</object>\n"@,
        ),
{
    lemma_route_inline_setters(table, d, name, args, setters, setters.len() as int);
    assert(setter_pairs(setters).subrange(0, setters.len() as int) =~= setter_pairs(setters));
    let inlines = argument_pairs(d.args, args) + setter_pairs(setters);
    assert(property_elements(Seq::<Pair>::empty()) == Seq::<char>::empty());
    assert(render_nested(table, Seq::<StatementView>::empty()) == Ok::<Seq<char>, FaultView>(Seq::empty()));
    assert(quoted("<object class=\""@, name, "\""@) + attributes(inlines) + ">\n"@ + Seq::<char>::empty() + Seq::<char>::empty()
        + "</object>\n"@ =~= quoted("<object class=\""@, name, "\""@) + attributes(inlines) + ">\n"@ + "</object>\n"@);
}

/// An object of a schema that is given more or fewer positional arguments than the
/// schema declares fails with the arity error, whatever else it holds.
pub proof fn arity_mismatch_fails(table: Table, child: StatementView, d: RawView)
    requires
        match child.value {
            StatementValueView::Object { name, arguments, .. } => lookup(table, name) == Some(CachedView::Raw(d))
                && d.args.len() != arguments.len(),
            _ => false,
        },
    ensures
        match child.value {
            StatementValueView::Object { name, arguments, .. } => render_one(table, child) == Err::<Seq<char>, FaultView>(
                (arity_message(name, d.args.len(), arguments.len()), child.range),
            ),
            _ => false,
        },
{
}

proof fn lemma_lookup_in_table(table: Table, name: Seq<char>)
    requires
        lookup(table, name) is Some,
    ensures
        table.len() > 0,
    decreases table.len(),
{
}

/// Given a schema `a` with a `ChildProp` `x` of type `String`, and a schema `b` with
/// no positional arguments and no `x` of its own that inherits `a`, an object of `b`
/// with the setter `.x("v")` renders `<property name="x">v</property>` as its child.
pub proof fn inherited_child_property(
    table: Table,
    a_name: Seq<char>,
    a: RawView,
    b_name: Seq<char>,
    b: RawView,
    x: Seq<char>,
    v: Seq<char>,
    value_range: Range<usize>,
    setter_range: Range<usize>,
    range: Range<usize>,
)
    requires
        lookup(table, a_name) == Some(CachedView::Raw(a)),
        lookup(table, b_name) == Some(CachedView::Raw(b)),
        b.args.len() == 0,
        b.inherits == seq![a_name],
        find_prop(b.props, x) is None,
        find_prop(a.props, x) matches Some(p) && p.internal_type == TokenTypeIdentifierType::String && p.definition_type
            == DefinitionTypeView::ChildProp,
    ensures
        render_one(
            table,
            object_statement(
                b_name,
                Seq::empty(),
                seq![SetterView { name: x, value: TokenView { value: TokenValueView::String(v), range: value_range }, range: setter_range }],
                range,
            ),
        ) == Ok::<Seq<char>, FaultView>(
            quoted("<object class=\""@, b_name, "\""@) + ">\n"@ + "<property name=\""@ + x + "\">"@ + v + "</property>\n"@
                + "</object>\n"@,
        ),
{
    lemma_lookup_in_table(table, a_name);
    let setter = SetterView { name: x, value: TokenView { value: TokenValueView::String(v), range: value_range }, range: setter_range };
    let p = find_prop(a.props, x)->0;
    assert(resolve(table, a, a_name, setter, (table.len() - 1) as nat) == Ok::<PropertyView, FaultView>(p));
    assert(search_parents(table, b, b_name, setter, 0, table.len()) == Ok::<PropertyView, FaultView>(p));
    assert(resolve(table, b, b_name, setter, table.len()) == Ok::<PropertyView, FaultView>(p));
    let setters = seq![setter];
    assert(route_args(b.args, Seq::<TokenView>::empty(), 0) == Ok::<(Seq<Pair>, Seq<Pair>), FaultView>((Seq::empty(), Seq::empty())));
    assert(setters[0] == setter);
    assert(route_setters(table, b, b_name, Seq::<TokenView>::empty(), setters, 0) == Ok::<(Seq<Pair>, Seq<Pair>), FaultView>(
        (Seq::empty(), Seq::empty()),
    ));
    assert(route_value(x, p.internal_type, p.definition_type, setter.value, false, (Seq::<Pair>::empty(), Seq::<Pair>::empty()))
        == Ok::<(Seq<Pair>, Seq<Pair>), FaultView>((Seq::empty(), Seq::<Pair>::empty().push((x, v)))));
    assert(Seq::<Pair>::empty().push((x, v)) =~= seq![(x, v)]);
    assert(route_setters(table, b, b_name, Seq::<TokenView>::empty(), setters, 1) == Ok::<(Seq<Pair>, Seq<Pair>), FaultView>(
        (Seq::empty(), seq![(x, v)]),
    ));
    assert(attributes(Seq::<Pair>::empty()) == Seq::<char>::empty());
    assert(seq![(x, v)].drop_last() =~= Seq::<Pair>::empty());
    assert(seq![(x, v)].last() == (x, v));
    assert(property_elements(Seq::<Pair>::empty()) == Seq::<char>::empty());
    assert(property_elements(seq![(x, v)]) =~= "<property name=\""@ + x + "\">"@ + v + "</property>\n"@);
    assert(render_nested(table, Seq::<StatementView>::empty()) == Ok::<Seq<char>, FaultView>(Seq::empty()));
    assert(quoted("<object class=\""@, b_name, "\""@) + Seq::<char>::empty() + ">\n"@ + property_elements(seq![(x, v)])
        + Seq::<char>::empty() + "</object>\n"@ =~= quoted("<object class=\""@, b_name, "\""@) + ">\n"@ + "<property name=\""@ + x
        + "\">"@ + v + "</property>\n"@ + "</object>\n"@);
}

/// A schema that names a collective definition among its parents is rejected.
pub proof fn collective_parent_rejected(table: Table, name: Seq<char>, children: Seq<StatementView>, c: Seq<char>, range: Range<usize>)
    requires
        lookup(table, c) matches Some(CachedView::Collective(_)),
    ensures
        raw_from(table, name, children, seq![c], range) is Err,
{
}

proof fn lemma_render_objects_concat(table: Table, x: Seq<StatementView>, y: Seq<StatementView>)
    ensures
        render_objects(table, x + y) == match render_objects(table, x) {
            Err(e) => Err(e),
            Ok(tx) => match render_objects(table, y) {
                Err(e) => Err(e),
                Ok(ty) => Ok(tx + ty),
            },
        },
    decreases y.len(),
{
    if y.len() == 0 {
        assert(x + y =~= x);
        match render_objects(table, x) {
            Ok(tx) => {
                assert(tx + Seq::<char>::empty() =~= tx);
            },
            Err(_) => {},
        }
    } else {
        lemma_render_objects_concat(table, x, y.drop_last());
        assert((x + y).drop_last() =~= x + y.drop_last());
        assert((x + y).last() == y.last());
        match render_objects(table, x) {
            Ok(tx) => match render_objects(table, y.drop_last()) {
                Ok(ty) => match render_one(table, y.last()) {
                    Ok(t) => {
                        assert(tx + ty + t =~= tx + (ty + t));
                    },
                    Err(_) => {},
                },
                Err(_) => {},
            },
            Err(_) => {},
        }
    }
}

/// An object naming a definition that the table does not hold renders nothing and
/// raises no error: the body renders as if it were not there.
pub proof fn unknown_object_renders_nothing(table: Table, before: Seq<StatementView>, unknown: StatementView, after: Seq<StatementView>)
    requires
        match unknown.value {
            StatementValueView::Object { name, .. } => lookup(table, name) is None,
            _ => false,
        },
    ensures
        render_objects(table, before + seq![unknown] + after) == render_objects(table, before + after),
{
    assert(render_objects(table, seq![unknown]) == Ok::<Seq<char>, FaultView>(Seq::empty())) by {
        assert(seq![unknown].drop_last() =~= Seq::<StatementView>::empty());
        assert(seq![unknown].last() == unknown);
        assert(render_one(table, unknown) == Ok::<Seq<char>, FaultView>(Seq::empty()));
        assert(render_objects(table, Seq::<StatementView>::empty()) == Ok::<Seq<char>, FaultView>(Seq::empty()));
        assert(Seq::<char>::empty() + Seq::<char>::empty() =~= Seq::<char>::empty());
    }
    lemma_render_objects_concat(table, before, seq![unknown]);
    lemma_render_objects_concat(table, before + seq![unknown], after);
    lemma_render_objects_concat(table, before, after);
    match render_objects(table, before) {
        Ok(tb) => {
            assert(tb + Seq::<char>::empty() =~= tb);
        },
        Err(_) => {},
    }
}

/// A value whose type does not match the declared one is dropped: nothing is routed
/// and no error is raised.
pub proof fn mismatched_value_dropped(
    name: Seq<char>,
    declared: TokenTypeIdentifierType,
    placement: DefinitionTypeView,
    actual: TokenView,
    positional: bool,
    lists: (Seq<Pair>, Seq<Pair>),
)
    requires
        !type_matches(actual.value, declared),
    ensures
        route_value(name, declared, placement, actual, positional, lists) == Ok::<(Seq<Pair>, Seq<Pair>), FaultView>(lists),
{
}

/// The text the header directives among the first `k` statements add, in order.
pub open spec fn headers_text(sts: Seq<StatementView>, k: int) -> Seq<char>
    decreases k,
{
    if k <= 0 {
        Seq::empty()
    } else {
        headers_text(sts, k - 1) + match sts[k - 1].value {
            StatementValueView::Header(h) => h + "\n"@,
            _ => Seq::empty(),
        }
    }
}

/// Until an error stops the pass, the header is the opening of the interface
/// followed by every header directive met so far, in order.
pub proof fn headers_accumulate(sts: Seq<StatementView>, k: int)
    requires
        0 <= k <= sts.len(),
        generate_upto(sts, k).1 is None,
    ensures
        generate_upto(sts, k).0.header == header_start() + headers_text(sts, k),
    decreases k,
{
    if k == 0 {
        assert(header_start() + Seq::<char>::empty() =~= header_start());
    } else {
        headers_accumulate(sts, k - 1);
        let prev = generate_upto(sts, k - 1).0;
        match sts[k - 1].value {
            StatementValueView::Header(h) => {
                assert(prev.header + h + "\n"@ =~= header_start() + (headers_text(sts, k - 1) + (h + "\n"@)));
            },
            _ => {
                assert(headers_text(sts, k - 1) + Seq::<char>::empty() =~= headers_text(sts, k - 1));
            },
        }
    }
}

/// The document of a root definition at position `r` carries, before its rendered
/// body, every header directive met before it, in order.
pub proof fn documents_carry_headers(sts: Seq<StatementView>, r: int)
    requires
        0 <= r < sts.len(),
        sts[r].value is Definition,
        sts[r].value->kind is Root,
        generate_upto(sts, r + 1).1 is None,
    ensures
        generate_upto(sts, r + 1).0.documents.last().1 == document_text(
            header_start() + headers_text(sts, r),
            render_objects(generate_upto(sts, r).0.table, sts[r].value->Definition_children)->Ok_0,
        ),
{
    headers_accumulate(sts, r);
}

// Generator

pub open spec fn pairs_view(v: Seq<(String, String)>) -> Seq<Pair> {
    v.map_values(|p: (String, String)| (p.0@, p.1@))
}

pub open spec fn documents_view(v: Seq<Document>) -> Seq<(Seq<char>, Seq<char>)> {
    v.map_values(|d: Document| (d.name@, d.content@))
}

pub open spec fn table_view(v: Seq<(String, CachedDefinition)>) -> Table {
    v.map_values(|e: (String, CachedDefinition)| (e.0@, e.1@))
}

fn text(a: &str) -> (r: String)
    ensures
        r@ == a@,
{
    String::from_str(a)
}

fn copy_range(r: &Range<usize>) -> (c: Range<usize>)
    ensures
        c == *r,
{
    Range { start: r.start, end: r.end }
}

fn copy_property(p: &Property) -> (r: Property)
    ensures
        r@ == p@,
{
    Property { internal_type: p.internal_type, name: p.name.clone(), definition_type: p.definition_type.clone() }
}

fn same_placement(a: &TokenDefinitionType, b: &TokenDefinitionType) -> (r: bool)
    requires
        !(b@ is Object),
    ensures
        r == (a@ == b@),
{
    match (a, b) {
        (TokenDefinitionType::InlineProp, TokenDefinitionType::InlineProp) => true,
        (TokenDefinitionType::InlineArg, TokenDefinitionType::InlineArg) => true,
        (TokenDefinitionType::ChildProp, TokenDefinitionType::ChildProp) => true,
        (TokenDefinitionType::ChildArg, TokenDefinitionType::ChildArg) => true,
        _ => false,
    }
}

fn find_prop_in<'a>(props: &'a Vec<Property>, name: &String) -> (r: Option<&'a Property>)
    ensures
        r is Some <==> find_prop(properties_view(props@), name@) is Some,
        r is Some ==> r->0@ == find_prop(properties_view(props@), name@)->0,
{
    let ghost pv = properties_view(props@);
    let mut k = props.len();
    assert(pv.subrange(0, k as int) =~= pv);
    while k > 0
        invariant
            pv == properties_view(props@),
            k <= props@.len(),
            find_prop(pv, name@) == find_prop(pv.subrange(0, k as int), name@),
        decreases k,
    {
        assert(pv.subrange(0, k as int).drop_last() =~= pv.subrange(0, k - 1));
        assert(pv[k - 1] == props@[k - 1]@);
        if props[k - 1].name == *name {
            return Some(&props[k - 1]);
        }
        k -= 1;
    }
    None
}

/// Routes one supplied value into `inlines` or `children` (see `route_value`).
fn route(
    name: &String,
    internal_type: TokenTypeIdentifierType,
    placement: &TokenDefinitionType,
    actual: &Token,
    positional: bool,
    inlines: &mut Vec<(String, String)>,
    children: &mut Vec<(String, String)>,
) -> (r: Result<(), Fault>)
    ensures
        match route_value(name@, internal_type, placement@, actual@, positional, (pairs_view(old(inlines)@), pairs_view(old(children)@))) {
            Ok((a, b)) => r is Ok && pairs_view(final(inlines)@) == a && pairs_view(final(children)@) == b,
            Err(e) => r is Err && fault_view(r->Err_0) == e,
        },
{
    let valid = match Generator::is_valid_type(actual, &internal_type) {
        Ok(v) => v,
        Err(_) => false,
    };
    if !valid {
        return Ok(());
    }
    let inline = if positional { TokenDefinitionType::InlineArg } else { TokenDefinitionType::InlineProp };
    let child = if positional { TokenDefinitionType::ChildArg } else { TokenDefinitionType::ChildProp };
    let ghost before_inlines = pairs_view(inlines@);
    let ghost before_children = pairs_view(children@);
    if same_placement(placement, &inline) {
        inlines.push((name.clone(), actual.value_to_string()));
        assert(pairs_view(inlines@) =~= before_inlines.push((name@, literal_text(actual.value@))));
        Ok(())
    } else if same_placement(placement, &child) {
        children.push((name.clone(), actual.value_to_string()));
        assert(pairs_view(children@) =~= before_children.push((name@, literal_text(actual.value@))));
        Ok(())
    } else {
        let mut m = text("expected either an InlineArg or a ChildArg, got ");
        m.append(placement.to_string());
        Err((m, copy_range(&actual.range)))
    }
}

fn copy_strings(v: &Vec<String>) -> (r: Vec<String>)
    ensures
        strings_view(r@) == strings_view(v@),
{
    let mut r: Vec<String> = Vec::new();
    let mut k: usize = 0;
    while k < v.len()
        invariant
            k <= v@.len(),
            r@.len() == k,
            forall|a: int| 0 <= a < k ==> (#[trigger] r@[a])@ == v@[a]@,
        decreases v@.len() - k,
    {
        r.push(v[k].clone());
        k += 1;
    }
    assert(strings_view(r@) =~= strings_view(v@));
    r
}

/// Appends ` name="value"` for each inline pair.
fn write_attributes(result: &mut String, inlines: &Vec<(String, String)>)
    ensures
        final(result)@ == old(result)@ + attributes(pairs_view(inlines@)),
{
    let ghost pv = pairs_view(inlines@);
    let ghost start = result@;
    let mut q: usize = 0;
    while q < inlines.len()
        invariant
            pv == pairs_view(inlines@),
            q <= inlines@.len(),
            result@ == start + attributes(pv.subrange(0, q as int)),
        decreases inlines@.len() - q,
    {
        assert(pv.subrange(0, q + 1).drop_last() =~= pv.subrange(0, q as int));
        result.append(" ");
        result.append(inlines[q].0.as_str());
        result.append("=\"");
        result.append(inlines[q].1.as_str());
        result.append("\"");
        q += 1;
        assert(result@ =~= start + attributes(pv.subrange(0, q as int)));
    }
    assert(pv.subrange(0, q as int) =~= pv);
}

/// Appends a `<property>` element for each child pair.
fn write_properties(result: &mut String, children: &Vec<(String, String)>)
    ensures
        final(result)@ == old(result)@ + property_elements(pairs_view(children@)),
{
    let ghost pv = pairs_view(children@);
    let ghost start = result@;
    let mut q: usize = 0;
    while q < children.len()
        invariant
            pv == pairs_view(children@),
            q <= children@.len(),
            result@ == start + property_elements(pv.subrange(0, q as int)),
        decreases children@.len() - q,
    {
        assert(pv.subrange(0, q + 1).drop_last() =~= pv.subrange(0, q as int));
        result.append("<property name=\"");
        result.append(children[q].0.as_str());
        result.append("\">");
        result.append(children[q].1.as_str());
        result.append("</property>\n");
        q += 1;
        assert(result@ =~= start + property_elements(pv.subrange(0, q as int)));
    }
    assert(pv.subrange(0, q as int) =~= pv);
}

pub struct Generator {
    statements: Vec<Statement>,
    definitions: Vec<(String, CachedDefinition)>,
    header: String,
    documents: Vec<Document>,
}

impl Generator {
    /// A generator over the given top-level statements, with an empty table, the
    /// opening of the interface as header, and no documents.
    pub fn new(statements: Vec<Statement>) -> (r: Self)
        ensures
            r.input() == statements_view(statements@),
            r.state() == generate_upto(r.input(), 0).0,
    {
        let r = Generator {
            statements,
            definitions: Vec::new(),
            header: text("<?xml version=\"1.0\" encoding=\"UTF-8\"?>\n<interface>\n"),
            documents: Vec::new(),
        };
        assert(table_view(r.definitions@) =~= Seq::<(Seq<char>, CachedView)>::empty());
        assert(documents_view(r.documents@) =~= Seq::<(Seq<char>, Seq<char>)>::empty());
        r
    }

    /// The documents rendered so far, one per root definition.
    pub fn documents(&self) -> (r: &Vec<Document>)
        ensures
            documents_view(r@) == self.state().documents,
    {
        &self.documents
    }

    /// Goes over the statements once, in order: builds the definition table, gathers
    /// the header, and renders a document for each root definition. The first error
    /// stops the pass; what was built before it stays.
    pub fn generate(&mut self) -> (r: Result<(), Fault>)
        requires
            old(self).state() == generate_upto(old(self).input(), 0).0,
        ensures
            final(self).input() == old(self).input(),
            final(self).state() == generate_spec(old(self).input()).0,
            r is Err <==> generate_spec(old(self).input()).1 is Some,
            r is Err ==> fault_view(r->Err_0) == generate_spec(old(self).input()).1->0,
    {
        let ghost sv = self.input();
        proof {
            lemma_statements_view(self.statements@);
        }
        let n = self.statements.len();
        let mut k: usize = 0;
        while k < n
            invariant
                sv == self.input(),
                sv == old(self).input(),
                sv.len() == n,
                n == self.statements@.len(),
                forall|a: int| 0 <= a < n ==> sv[a] == statement_view(#[trigger] self.statements@[a]),
                k <= n,
                generate_upto(sv, k as int) == (self.state(), None::<FaultView>),
            decreases n - k,
        {
            let ghost state = self.state();
            assert(sv[k as int] == statement_view(self.statements@[k as int]));
            let statement = &self.statements[k];
            let range = copy_range(&statement.range);
            match &statement.value {
                StatementValue::Definition(definition) => {
                    match &definition.definition_type {
                        DefinitionType::Root(filename) => {
                            let body = match self.generate_from_collective(&definition.children) {
                                Ok(body) => body,
                                Err(err) => {
                                    proof {
                                        lemma_generate_err(sv, k + 1, n as int);
                                    }
                                    return Err(err);
                                },
                            };
                            let mut content = self.header.clone();
                            content.append("\n");
                            content.append(body.as_str());
                            content.append("</interface>");
                            content.append("\n");
                            let name = filename.clone();
                            self.documents.push(Document { name, content });
                            assert(documents_view(self.documents@) =~= state.documents.push(
                                (filename@, document_text(state.header, body@)),
                            ));
                        },
                        DefinitionType::Collective => {
                            let collective = match self.generate_from_collective(&definition.children) {
                                Ok(collective) => collective,
                                Err(err) => {
                                    proof {
                                        lemma_generate_err(sv, k + 1, n as int);
                                    }
                                    return Err(err);
                                },
                            };
                            let name = definition.name.clone();
                            self.definitions.push((name, CachedDefinition::Collective(collective)));
                            assert(table_view(self.definitions@) =~= state.table.push(
                                (definition.name@, CachedView::Collective(collective@)),
                            ));
                        },
                        DefinitionType::Raw => {
                            let raw = match self.generate_from_raw(definition, range) {
                                Ok(raw) => raw,
                                Err(err) => {
                                    proof {
                                        lemma_generate_err(sv, k + 1, n as int);
                                    }
                                    return Err(err);
                                },
                            };
                            let ghost raw_view = raw@;
                            let name = definition.name.clone();
                            self.definitions.push((name, CachedDefinition::Raw(raw)));
                            assert(table_view(self.definitions@) =~= state.table.push(
                                (definition.name@, CachedView::Raw(raw_view)),
                            ));
                        },
                    }
                },
                StatementValue::Header(header) => {
                    self.header.append(header.as_str());
                    self.header.append("\n");
                },
                _ => {
                    proof {
                        lemma_generate_err(sv, k + 1, n as int);
                    }
                    return Err((
                        text("this should never ever ever ever ever happen. something must be wrong with the parser if this does happen"),
                        range,
                    ));
                },
            }
            k += 1;
        }
        Ok(())
    }

    /// The statements a pass goes over.
    pub closed spec fn input(&self) -> Seq<StatementView> {
        statements_view(self.statements@)
    }

    /// The definitions, the header and the documents built so far.
    pub closed spec fn state(&self) -> GenState {
        GenState { table: table_view(self.definitions@), header: self.header@, documents: documents_view(self.documents@) }
    }

    closed spec fn table(&self) -> Table {
        table_view(self.definitions@)
    }

    fn is_valid_type(token: &Token, expected_type: &TokenTypeIdentifierType) -> (r: Result<bool, Fault>)
        ensures
            r is Ok <==> is_literal(token.value@),
            r is Ok ==> r->Ok_0 == type_matches(token.value@, *expected_type),
    {
        match token.value {
            TokenValue::Bool(_) => Ok(*expected_type == TokenTypeIdentifierType::Bool),
            TokenValue::Number(_) => Ok(*expected_type == TokenTypeIdentifierType::Number),
            TokenValue::String(_) => Ok(*expected_type == TokenTypeIdentifierType::String),
            _ => {
                let mut m = text(token.to_string());
                m.append(" is not a primitive and therefore it's type cannot be checked");
                Err((m, copy_range(&token.range)))
            },
        }
    }

    /// Routes the arguments and setters of an object of the schema `definition`.
    fn route_object(&self, definition: &CachedRawDefinition, object: &Object) -> (r: Result<(Vec<(String, String)>, Vec<(String, String)>), Fault>)
        requires
            definition@.args.len() == object.arguments@.len(),
        ensures
            match route_setters(self.table(), definition@, object.name@, tokens_view(object.arguments@), setters_view(object.setters@), object.setters@.len() as int) {
                Ok((a, b)) => r is Ok && pairs_view(r->Ok_0.0@) == a && pairs_view(r->Ok_0.1@) == b,
                Err(e) => r is Err && fault_view(r->Err_0) == e,
            },
    {
        let ghost t = self.table();
        let ghost d = definition@;
        let ghost av = tokens_view(object.arguments@);
        let ghost sv = setters_view(object.setters@);
        let mut inlines: Vec<(String, String)> = Vec::new();
        let mut children: Vec<(String, String)> = Vec::new();
        assert(pairs_view(inlines@) =~= Seq::<Pair>::empty());
        assert(pairs_view(children@) =~= Seq::<Pair>::empty());
        let mut i: usize = 0;
        while i < definition.args.len()
            invariant
                t == self.table(),
                sv == setters_view(object.setters@),
                d == definition@,
                av == tokens_view(object.arguments@),
                d.args.len() == av.len(),
                i <= d.args.len(),
                route_args(d.args, av, i as int) == Ok::<(Seq<Pair>, Seq<Pair>), FaultView>((pairs_view(inlines@), pairs_view(children@))),
            decreases d.args.len() - i,
        {
            let defined = &definition.args[i];
            let actual = &object.arguments[i];
            assert(d.args[i as int] == defined@);
            assert(av[i as int] == actual@);
            match route(&defined.name, defined.internal_type, &defined.definition_type, actual, true, &mut inlines, &mut children) {
                Ok(()) => {},
                Err(e) => {
                    proof {
                        assert(route_args(d.args, av, i + 1) is Err);
                        lemma_route_args_err(d.args, av, i + 1, av.len() as int);
                        assert(route_setters(t, d, object.name@, av, sv, 0) is Err);
                        lemma_route_setters_err(t, d, object.name@, av, sv, 0, sv.len() as int);
                    }
                    return Err(e);
                },
            }
            i += 1;
        }
        let depth = self.definitions.len();
        let mut k: usize = 0;
        while k < object.setters.len()
            invariant
                t == self.table(),
                d == definition@,
                av == tokens_view(object.arguments@),
                sv == setters_view(object.setters@),
                depth == t.len(),
                k <= sv.len(),
                route_setters(t, d, object.name@, av, sv, k as int) == Ok::<(Seq<Pair>, Seq<Pair>), FaultView>(
                    (pairs_view(inlines@), pairs_view(children@)),
                ),
            decreases sv.len() - k,
        {
            let setter = &object.setters[k];
            assert(sv[k as int] == setter@);
            let prop = match self.get_prop_from_definition(definition, &object.name, setter, depth) {
                Ok(p) => p,
                Err(e) => {
                    proof {
                        lemma_route_setters_err(t, d, object.name@, av, sv, k + 1, sv.len() as int);
                    }
                    return Err(e);
                },
            };
            match route(&setter.name, prop.internal_type, &prop.definition_type, &setter.value, false, &mut inlines, &mut children) {
                Ok(()) => {},
                Err(e) => {
                    proof {
                        lemma_route_setters_err(t, d, object.name@, av, sv, k + 1, sv.len() as int);
                    }
                    return Err(e);
                },
            }
            k += 1;
        }
        Ok((inlines, children))
    }

    /// The text of one object of a collective body.
    fn render_object(&self, child: &Statement) -> (r: Result<String, Fault>)
        ensures
            match render_one(self.table(), statement_view(*child)) {
                Ok(text) => r is Ok && r->Ok_0@ == text,
                Err(e) => r is Err && fault_view(r->Err_0) == e,
            },
        decreases child,
    {
        let ghost t = self.table();
        match &child.value {
            StatementValue::Object(object) => {
                match self.find_definition(&object.name) {
                    None => Ok(String::new()),
                    Some(CachedDefinition::Collective(text)) => Ok(text.clone()),
                    Some(CachedDefinition::Raw(definition)) => {
                        if definition.args.len() != object.arguments.len() {
                            let mut m = text("the '");
                            m.append(object.name.as_str());
                            m.append("' definition expects ");
                            m.append(usize_to_decimal(definition.args.len()).as_str());
                            m.append(" args, ");
                            m.append(usize_to_decimal(object.arguments.len()).as_str());
                            m.append(" given");
                            return Err((m, copy_range(&child.range)));
                        }
                        let (inlines, children) = match self.route_object(definition, object) {
                            Ok(lists) => lists,
                            Err(e) => return Err(e),
                        };
                        let mut result = text("<object class=\"");
                        result.append(object.name.as_str());
                        result.append("\"");
                        write_attributes(&mut result, &inlines);
                        result.append(">\n");
                        write_properties(&mut result, &children);
                        let ghost head = result@;
                        let ghost cv = statements_view(object.children@);
                        proof {
                            lemma_statements_view(object.children@);
                        }
                        let mut nested = String::new();
                        let mut q: usize = 0;
                        while q < object.children.len()
                            invariant
                                t == self.table(),
                                child.value is Object,
                                child.value->Object_0 == *object,
                                lookup(t, object.name@) == Some(CachedView::Raw(definition@)),
                                definition@.args.len() == object.arguments@.len(),
                                route_setters(t, definition@, object.name@, tokens_view(object.arguments@), setters_view(object.setters@), object.setters@.len() as int)
                                    == Ok::<(Seq<Pair>, Seq<Pair>), FaultView>((pairs_view(inlines@), pairs_view(children@))),
                                result@ == head,
                                head == quoted("<object class=\""@, object.name@, "\""@) + attributes(pairs_view(inlines@)) + ">\n"@
                                    + property_elements(pairs_view(children@)),
                                cv == statements_view(object.children@),
                                cv.len() == object.children@.len(),
                                forall|a: int| 0 <= a < cv.len() ==> cv[a] == statement_view(#[trigger] object.children@[a]),
                                q <= cv.len(),
                                render_nested(t, cv.subrange(0, q as int)) == Ok::<Seq<char>, FaultView>(nested@),
                            decreases cv.len() - q,
                        {
                            assert(cv.subrange(0, q + 1).drop_last() =~= cv.subrange(0, q as int));
                            assert(cv.subrange(0, q + 1).last() == statement_view(object.children@[q as int]));
                            proof {
                                vstd::std_specs::vec::axiom_vec_index_decreases(object.children, q as int);
                                assert(decreases_to!(*child => child.value));
                                assert(decreases_to!(child.value => child.value->Object_0));
                                assert(decreases_to!(child.value->Object_0 => child.value->Object_0.children));
                                assert(decreases_to!(*child => object.children[q as int]));
                            }
                            let collective = match self.render_object(&object.children[q]) {
                                Ok(c) => c,
                                Err(e) => {
                                    proof {
                                        lemma_render_nested_err(t, cv, q + 1);
                                    }
                                    return Err(e);
                                },
                            };
                            nested.append("<child>\n");
                            nested.append(collective.as_str());
                            nested.append("</child>\n");
                            q += 1;
                        }
                        assert(cv.subrange(0, q as int) =~= cv);
                        result.append(nested.as_str());
                        result.append("</object>\n");
                        Ok(result)
                    },
                }
            },
            _ => {
                let mut m = text("found ");
                m.append(child.to_string());
                m.append(", expected object in collective definition");
                Err((m, copy_range(&child.range)))
            },
        }
    }

    /// Renders a collective body: the text of its objects one after another.
    pub fn generate_from_collective(&self, children: &Vec<Statement>) -> (r: Result<String, Fault>)
        ensures
            match render_objects(self.state().table, statements_view(children@)) {
                Ok(text) => r is Ok && r->Ok_0@ == text,
                Err(e) => r is Err && fault_view(r->Err_0) == e,
            },
    {
        let ghost t = self.table();
        let ghost cv = statements_view(children@);
        proof {
            lemma_statements_view(children@);
        }
        let mut result = String::new();
        let mut k: usize = 0;
        while k < children.len()
            invariant
                t == self.table(),
                cv == statements_view(children@),
                cv.len() == children@.len(),
                forall|a: int| 0 <= a < cv.len() ==> cv[a] == statement_view(#[trigger] children@[a]),
                k <= cv.len(),
                render_objects(t, cv.subrange(0, k as int)) == Ok::<Seq<char>, FaultView>(result@),
            decreases cv.len() - k,
        {
            assert(cv.subrange(0, k + 1).drop_last() =~= cv.subrange(0, k as int));
            assert(cv.subrange(0, k + 1).last() == statement_view(children@[k as int]));
            let text = match self.render_object(&children[k]) {
                Ok(text) => text,
                Err(e) => {
                    proof {
                        lemma_render_objects_err(t, cv, k + 1);
                    }
                    return Err(e);
                },
            };
            result.append(text.as_str());
            k += 1;
        }
        assert(cv.subrange(0, k as int) =~= cv);
        Ok(result)
    }

    /// Builds the schema of a `Raw` definition statement, checking that each parent
    /// is a schema already defined.
    pub fn generate_from_raw(&self, definition: &Definition, range: Range<usize>) -> (r: Result<CachedRawDefinition, Fault>)
        ensures
            match raw_from(self.state().table, definition.name@, statements_view(definition.children@), strings_view(definition.inherits@), range) {
                Ok(d) => r is Ok && r->Ok_0@ == d,
                Err(e) => r is Err && fault_view(r->Err_0) == e,
            },
    {
        let ghost t = self.table();
        let ghost cv = statements_view(definition.children@);
        proof {
            lemma_statements_view(definition.children@);
        }
        let mut props: Vec<Property> = Vec::new();
        let mut args: Vec<Property> = Vec::new();
        assert(properties_view(props@) =~= Seq::<PropertyView>::empty());
        assert(properties_view(args@) =~= Seq::<PropertyView>::empty());
        let properties = &definition.children;
        let mut k: usize = 0;
        while k < properties.len()
            invariant
                t == self.table(),
                cv == statements_view(definition.children@),
                cv.len() == properties@.len(),
                properties == &definition.children,
                forall|a: int| 0 <= a < cv.len() ==> cv[a] == statement_view(#[trigger] properties@[a]),
                k <= cv.len(),
                schema_upto(cv, k as int) == Ok::<(Seq<PropertyView>, Seq<PropertyView>), FaultView>(
                    (properties_view(props@), properties_view(args@)),
                ),
            decreases cv.len() - k,
        {
            let property = &properties[k];
            assert(cv[k as int] == statement_view(properties@[k as int]));
            if let StatementValue::Property(property_value) = &property.value {
                let ghost pp = properties_view(props@);
                let ghost pa = properties_view(args@);
                match property_value.definition_type {
                    TokenDefinitionType::InlineProp | TokenDefinitionType::ChildProp => {
                        props.push(copy_property(property_value));
                        assert(properties_view(props@) =~= pp.push(property_value@));
                    },
                    TokenDefinitionType::InlineArg | TokenDefinitionType::ChildArg => {
                        args.push(copy_property(property_value));
                        assert(properties_view(args@) =~= pa.push(property_value@));
                    },
                    _ => {
                        let mut m = text("expected a property definition, found ");
                        m.append(property_value.definition_type.to_string());
                        proof {
                            lemma_schema_err(cv, k + 1, cv.len() as int);
                        }
                        return Err((m, copy_range(&property.range)));
                    },
                }
            }
            k += 1;
        }
        let inherits = &definition.inherits;
        let ghost iv = strings_view(inherits@);
        let mut j: usize = 0;
        while j < inherits.len()
            invariant
                t == self.table(),
                iv == strings_view(inherits@),
                inherits == &definition.inherits,
                cv == statements_view(definition.children@),
                schema_upto(cv, cv.len() as int) == Ok::<(Seq<PropertyView>, Seq<PropertyView>), FaultView>(
                    (properties_view(props@), properties_view(args@)),
                ),
                j <= iv.len(),
                parents_check(t, definition.name@, iv, range, 0) == parents_check(t, definition.name@, iv, range, j as int),
            decreases iv.len() - j,
        {
            let parent_name = &inherits[j];
            assert(iv[j as int] == parent_name@);
            match self.find_definition(parent_name) {
                Some(CachedDefinition::Collective(_)) => {
                    let mut m = text("cannot inherit collective definition '");
                    m.append(parent_name.as_str());
                    m.append("'");
                    return Err((m, range));
                },
                None => {
                    let mut m = text("'");
                    m.append(definition.name.as_str());
                    m.append("' cannot inherit undefined definition '");
                    m.append(parent_name.as_str());
                    m.append("'");
                    return Err((m, range));
                },
                Some(CachedDefinition::Raw(_)) => {},
            }
            j += 1;
        }
        Ok(CachedRawDefinition { inherits: copy_strings(inherits), range, props, args })
    }

    fn find_definition(&self, name: &String) -> (r: Option<&CachedDefinition>)
        ensures
            r is Some <==> lookup(self.table(), name@) is Some,
            r is Some ==> r->0@ == lookup(self.table(), name@)->0,
    {
        let ghost t = self.table();
        let mut k = self.definitions.len();
        assert(t.subrange(0, k as int) =~= t);
        while k > 0
            invariant
                t == self.table(),
                k <= self.definitions@.len(),
                lookup(t, name@) == lookup(t.subrange(0, k as int), name@),
            decreases k,
        {
            assert(t.subrange(0, k as int).drop_last() =~= t.subrange(0, k - 1));
            assert(t[k - 1] == (self.definitions@[k - 1].0@, self.definitions@[k - 1].1@));
            if self.definitions[k - 1].0 == *name {
                return Some(&self.definitions[k - 1].1);
            }
            k -= 1;
        }
        None
    }

    fn get_prop_from_definition(&self, definition: &CachedRawDefinition, definition_name: &String, setter: &Setter, depth: usize) -> (r:
        Result<Property, Fault>)
        ensures
            match resolve(self.table(), definition@, definition_name@, setter@, depth as nat) {
                Ok(p) => r is Ok && r->Ok_0@ == p,
                Err(e) => r is Err && fault_view(r->Err_0) == e,
            },
        decreases depth,
    {
        if let Some(prop) = find_prop_in(&definition.props, &setter.name) {
            return Ok(copy_property(prop));
        }
        let ghost t = self.table();
        let ghost d = definition@;
        let mut j: usize = 0;
        while j < definition.inherits.len()
            invariant
                t == self.table(),
                d == definition@,
                j <= d.inherits.len(),
                find_prop(d.props, setter@.name) is None,
                search_parents(t, d, definition_name@, setter@, 0, depth as nat)
                    == search_parents(t, d, definition_name@, setter@, j as nat, depth as nat),
            decreases d.inherits.len() - j,
        {
            let parent_name = &definition.inherits[j];
            assert(d.inherits[j as int] == parent_name@);
            match self.find_definition(parent_name) {
                Some(CachedDefinition::Raw(parent_definition)) => {
                    if depth > 0 {
                        if let Ok(result) = self.get_prop_from_definition(parent_definition, parent_name, setter, depth - 1) {
                            return Ok(result);
                        }
                    }
                },
                Some(CachedDefinition::Collective(_)) => {
                    let mut m = text("cannot inherit collective definition '");
                    m.append(parent_name.as_str());
                    m.append("'");
                    return Err((m, copy_range(&definition.range)));
                },
                None => {
                    let mut m = text("inherited undefined definition '");
                    m.append(parent_name.as_str());
                    m.append("'");
                    return Err((m, copy_range(&definition.range)));
                },
            }
            j += 1;
        }
        let mut m = text("no such property on '");
        m.append(definition_name.as_str());
        m.append("' called '");
        m.append(setter.name.as_str());
        m.append("'");
        Err((m, copy_range(&setter.range)))
    }
}

} // verus!
